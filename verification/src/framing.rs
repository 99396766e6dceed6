//! The `Content-Length` framing that carries every LSP message.
//!
//! Byte-oriented: a frame is length-delimited in bytes, and a body is handed on
//! whole or not at all.
//!
//! # Failing closed
//!
//! A framing error is not recoverable: once the length is unreadable there is no
//! way to know where the next frame begins, and a resynchronisation attempt
//! would silently misalign every later message. The decoder therefore poisons
//! itself on the first error and refuses everything afterwards, including
//! well-formed frames.
use vstd::prelude::*;
use vstd::utf8::{decode_utf8, valid_utf8};

use crate::text::{
    ascii_lower, char_is_white, digits_value, is_digit, is_white, leading_white, lower, parse_decimal,
    parse_unsigned, trim_white_end, trimmed, unsigned_digits,
};

verus! {

/// The largest body this will buffer: 32 MiB.
pub const MAX_FRAME_BYTES: usize = 33554432;

/// The largest header block this will buffer before giving up: 8 KiB.
pub const MAX_HEADER_BYTES: usize = 8192;

/// Why a stream of frames could not be read.
#[derive(Debug, PartialEq, Eq)]
pub enum FramingError {
    MissingContentLength { header: String },
    BadContentLength { value: String },
    MalformedHeader { detail: String },
    HeaderTooLarge,
    FrameTooLarge { len: usize },
    Poisoned,
}

/// A framing error, as plain values.
pub ghost enum FramingFault {
    MissingContentLength { header: Seq<char> },
    BadContentLength { value: Seq<char> },
    MalformedHeader { detail: Seq<char> },
    HeaderTooLarge,
    FrameTooLarge { len: nat },
    Poisoned,
}

impl View for FramingError {
    type V = FramingFault;

    open spec fn view(&self) -> FramingFault {
        match self {
            FramingError::MissingContentLength { header } => FramingFault::MissingContentLength {
                header: header@,
            },
            FramingError::BadContentLength { value } => FramingFault::BadContentLength {
                value: value@,
            },
            FramingError::MalformedHeader { detail } => FramingFault::MalformedHeader {
                detail: detail@,
            },
            FramingError::HeaderTooLarge => FramingFault::HeaderTooLarge,
            FramingError::FrameTooLarge { len } => FramingFault::FrameTooLarge { len: *len as nat },
            FramingError::Poisoned => FramingFault::Poisoned,
        }
    }
}

// ---------------------------------------------------------------------------
// Encoding
// ---------------------------------------------------------------------------

/// The ASCII decimal digits of `n`, most significant first.
pub open spec fn decimal(n: nat) -> Seq<u8>
    decreases n,
{
    if n < 10 {
        seq![(48 + n) as u8]
    } else {
        decimal(n / 10).push((48 + n % 10) as u8)
    }
}

/// `Content-Length: ` as bytes.
pub open spec fn length_field_name() -> Seq<u8> {
    seq![67u8, 111, 110, 116, 101, 110, 116, 45, 76, 101, 110, 103, 116, 104, 58, 32]
}

/// `\r\n\r\n`: the end of a header block.
pub open spec fn header_terminator() -> Seq<u8> {
    seq![13u8, 10, 13, 10]
}

/// `\n\n`: a terminator real servers do not send and this refuses.
pub open spec fn bare_terminator() -> Seq<u8> {
    seq![10u8, 10]
}

/// A message body wrapped in the one header the protocol requires.
pub open spec fn frame_of(payload: Seq<u8>) -> Seq<u8> {
    length_field_name() + decimal(payload.len()) + header_terminator() + payload
}

fn decimal_bytes(n: usize) -> (r: Vec<u8>)
    ensures
        r@ == decimal(n as nat),
    decreases n,
{
    if n < 10 {
        let mut r = Vec::new();
        r.push((48 + n) as u8);
        r
    } else {
        let mut r = decimal_bytes(n / 10);
        r.push((48 + n % 10) as u8);
        r
    }
}

fn push_all(out: &mut Vec<u8>, bytes: &[u8])
    ensures
        final(out)@ == old(out)@ + bytes@,
{
    let mut i: usize = 0;
    while i < bytes.len()
        invariant
            i <= bytes.len(),
            out@ == old(out)@ + bytes@.take(i as int),
        decreases bytes.len() - i,
    {
        out.push(bytes[i]);
        i = i + 1;
        assert(out@ =~= old(out)@ + bytes@.take(i as int));
    }
    assert(bytes@.take(bytes.len() as int) =~= bytes@);
}

/// Wrap a message body in the header the protocol requires.
pub fn encode(payload: &[u8]) -> (r: Vec<u8>)
    ensures
        r@ == frame_of(payload@),
{
    let name: [u8; 16] = [67, 111, 110, 116, 101, 110, 116, 45, 76, 101, 110, 103, 116, 104, 58, 32];
    let mut framed: Vec<u8> = Vec::new();
    push_all(&mut framed, name.as_slice());
    assert(name@ =~= length_field_name());
    let digits = decimal_bytes(payload.len());
    push_all(&mut framed, digits.as_slice());
    let end: [u8; 4] = [13, 10, 13, 10];
    push_all(&mut framed, end.as_slice());
    assert(end@ =~= header_terminator());
    push_all(&mut framed, payload);
    framed
}

// ---------------------------------------------------------------------------
// Searching
// ---------------------------------------------------------------------------

/// The first index at or after `i` where `needle` occurs in `hay`.
pub open spec fn find_from(hay: Seq<u8>, needle: Seq<u8>, i: int) -> Option<int>
    decreases hay.len() - i,
{
    if i < 0 || i + needle.len() > hay.len() {
        None
    } else if hay.subrange(i, i + needle.len()) == needle {
        Some(i)
    } else if i < hay.len() {
        find_from(hay, needle, i + 1)
    } else {
        None
    }
}

/// The first index where `needle` occurs in `hay`.
pub open spec fn find(hay: Seq<u8>, needle: Seq<u8>) -> Option<int> {
    find_from(hay, needle, 0)
}

fn window_is(hay: &Vec<u8>, at: usize, needle: &[u8]) -> (r: bool)
    requires
        at + needle@.len() <= hay@.len(),
    ensures
        r == (hay@.subrange(at as int, at + needle@.len()) == needle@),
{
    let mut k: usize = 0;
    while k < needle.len()
        invariant
            k <= needle@.len(),
            at + needle@.len() <= hay@.len(),
            hay@.subrange(at as int, at + k) =~= needle@.take(k as int),
        decreases needle.len() - k,
    {
        assert(at + k < hay.len());
        if hay[at + k] != needle[k] {
            assert(hay@.subrange(at as int, at + needle@.len())[k as int] != needle@[k as int]);
            return false;
        }
        k = k + 1;
        assert(hay@.subrange(at as int, at + k) =~= needle@.take(k as int));
    }
    assert(needle@.take(needle@.len() as int) =~= needle@);
    true
}

fn find_bytes(hay: &Vec<u8>, needle: &[u8]) -> (r: Option<usize>)
    requires
        needle@.len() > 0,
    ensures
        match r {
            Some(i) => find(hay@, needle@) == Some(i as int),
            None => find(hay@, needle@) is None,
        },
{
    if needle.len() > hay.len() {
        return None;
    }
    let last = hay.len() - needle.len();
    assert(last < usize::MAX);
    let mut i: usize = 0;
    while i <= last
        invariant
            needle@.len() > 0,
            last < usize::MAX,
            last + needle@.len() == hay@.len(),
            find(hay@, needle@) == find_from(hay@, needle@, i as int),
        decreases last + 1 - i,
    {
        if window_is(hay, i, needle) {
            return Some(i);
        }
        i = i + 1;
    }
    None
}

// ---------------------------------------------------------------------------
// Reading the length
// ---------------------------------------------------------------------------

/// `std::str::from_utf8`: the text the bytes encode, or nothing when they are
/// not valid UTF-8. Trusted to decide validity and to decode as the standard
/// library documents.
#[verifier::external_body]
pub(crate) fn utf8_text(bytes: &[u8]) -> (r: Option<String>)
    ensures
        r is Some <==> valid_utf8(bytes@),
        r matches Some(s) ==> s@ == decode_utf8(bytes@),
{
    std::str::from_utf8(bytes).ok().map(|s| s.to_string())
}

/// Whether `\r\n` starts at `i`.
pub open spec fn crlf_at(s: Seq<char>, i: int) -> bool {
    0 <= i && i + 1 < s.len() && s[i] == '\r' && s[i + 1] == '\n'
}

/// The first `\r\n` at or after `i`, or the length.
pub open spec fn next_crlf(s: Seq<char>, i: int) -> int
    decreases s.len() - i,
{
    if i < 0 || i + 1 >= s.len() {
        s.len() as int
    } else if crlf_at(s, i) {
        i
    } else {
        next_crlf(s, i + 1)
    }
}

/// The first `:` in a line, if there is one.
pub open spec fn colon_from(s: Seq<char>, i: int) -> Option<int>
    decreases s.len() - i,
{
    if i < 0 || i >= s.len() {
        None
    } else if s[i] == ':' {
        Some(i)
    } else {
        colon_from(s, i + 1)
    }
}


/// `Content-Length`, lower-cased.
pub open spec fn content_length_name() -> Seq<char> {
    seq!['c', 'o', 'n', 't', 'e', 'n', 't', '-', 'l', 'e', 'n', 'g', 't', 'h']
}

/// Whether a header field name is `Content-Length` in any ASCII casing.
pub open spec fn names_content_length(name: Seq<char>) -> bool {
    &&& name.len() == content_length_name().len()
    &&& forall|i: int| 0 <= i < name.len() ==> ascii_lower(#[trigger] name[i]) == content_length_name()[i]
}

/// The trimmed value of a `Content-Length` field, when this line is one.
pub open spec fn length_field(line: Seq<char>) -> Option<Seq<char>> {
    match colon_from(line, 0) {
        Some(c) => if names_content_length(trimmed(line.take(c))) {
            Some(trimmed(line.skip(c + 1)))
        } else {
            None
        },
        None => None,
    }
}

/// What `str::parse::<usize>` accepts.
pub open spec fn parse_usize(s: Seq<char>) -> Option<nat> {
    parse_unsigned(s, usize::MAX as nat)
}

/// The body length a header block (as text) names, reading its lines from `i`.
pub open spec fn length_from(s: Seq<char>, i: int) -> Result<nat, FramingFault>
    decreases s.len() - i,
{
    let j = next_crlf(s, i);
    match length_field(s.subrange(i, j)) {
        Some(v) => match parse_usize(v) {
            Some(n) => Ok(n),
            None => Err(FramingFault::BadContentLength { value: v }),
        },
        None => if 0 <= i <= j && j + 2 <= s.len() {
            length_from(s, j + 2)
        } else {
            Err(FramingFault::MissingContentLength { header: s })
        },
    }
}

/// The detail of a header block that is not UTF-8.
pub open spec fn not_utf8_detail() -> Seq<char> {
    "the header block is not valid UTF-8"@
}

/// The detail of a header block ended by `\n\n`.
pub open spec fn bare_terminator_detail() -> Seq<char> {
    "the header block must end with CRLF CRLF, not LF LF"@
}

/// Read the body length out of a header block. Field names are matched
/// ignoring ASCII case and every other field is ignored.
pub open spec fn content_length_spec(header: Seq<u8>) -> Result<nat, FramingFault> {
    if !valid_utf8(header) {
        Err(FramingFault::MalformedHeader { detail: not_utf8_detail() })
    } else {
        length_from(decode_utf8(header), 0)
    }
}

fn trim_range(v: &Vec<char>, from: usize, to: usize) -> (r: (usize, usize))
    requires
        from <= to <= v.len(),
    ensures
        from <= r.0 <= r.1 <= to,
        v@.subrange(r.0 as int, r.1 as int) == trimmed(v@.subrange(from as int, to as int)),
{
    let ghost t = v@.subrange(from as int, to as int);
    let mut a = from;
    assert(t.skip(0) =~= t);
    while a < to && char_is_white(v[a])
        invariant
            from <= a <= to <= v.len(),
            t == v@.subrange(from as int, to as int),
            leading_white(t) == (a - from) + leading_white(t.skip(a - from)),
        decreases to - a,
    {
        assert(t.skip(a - from).drop_first() =~= t.skip(a + 1 - from));
        a = a + 1;
    }
    assert(t.skip(a - from) =~= v@.subrange(a as int, to as int));
    let mut b = to;
    while b > a && char_is_white(v[b - 1])
        invariant
            a <= b <= to <= v.len(),
            trim_white_end(v@.subrange(a as int, b as int)) == trim_white_end(
                v@.subrange(a as int, to as int),
            ),
        decreases b,
    {
        assert(v@.subrange(a as int, b as int).drop_last() =~= v@.subrange(a as int, b - 1));
        b = b - 1;
    }
    (a, b)
}


fn is_content_length_name(v: &Vec<char>, from: usize, to: usize) -> (r: bool)
    requires
        from <= to <= v.len(),
    ensures
        r == names_content_length(v@.subrange(from as int, to as int)),
{
    let want: [char; 14] = ['c', 'o', 'n', 't', 'e', 'n', 't', '-', 'l', 'e', 'n', 'g', 't', 'h'];
    assert(want@ =~= content_length_name());
    let ghost name = v@.subrange(from as int, to as int);
    if to - from != 14 {
        return false;
    }
    let mut i: usize = 0;
    while i < 14
        invariant
            i <= 14,
            to - from == 14,
            from <= to <= v.len(),
            name == v@.subrange(from as int, to as int),
            want@ == content_length_name(),
            forall|k: int| 0 <= k < i ==> ascii_lower(#[trigger] name[k]) == content_length_name()[k],
        decreases 14 - i,
    {
        if lower(v[from + i]) != want[i] {
            assert(ascii_lower(name[i as int]) != content_length_name()[i as int]);
            return false;
        }
        i = i + 1;
    }
    true
}

fn parse_digits(v: &Vec<char>, from: usize, to: usize) -> (r: Option<usize>)
    requires
        from <= to <= v.len(),
    ensures
        match r {
            Some(n) => parse_usize(v@.subrange(from as int, to as int)) == Some(n as nat),
            None => parse_usize(v@.subrange(from as int, to as int)) is None,
        },
{
    match parse_decimal(v, from, to, usize::MAX as u64) {
        Some(n) => Some(n as usize),
        None => None,
    }
}

fn content_length(header: &[u8]) -> (r: Result<usize, FramingError>)
    ensures
        match content_length_spec(header@) {
            Ok(n) => r matches Ok(m) && m == n,
            Err(e) => r matches Err(x) && x@ == e,
        },
{
    let text = match utf8_text(header) {
        Some(t) => t,
        None => {
            return Err(FramingError::MalformedHeader {
                detail: "the header block is not valid UTF-8".to_owned(),
            });
        },
    };
    let v = crate::text::chars_of(text.as_str());
    assert(text@ == v@);
    let ghost s = v@;
    let n = v.len();
    let mut i: usize = 0;
    while i <= n
        invariant
            s == v@,
            n == s.len(),
            n == v.len(),
            i <= n,
            text@ == s,
            s == decode_utf8(header@),
            valid_utf8(header@),
            length_from(s, i as int) == length_from(s, 0),
        decreases n + 1 - i,
    {
        // The end of this line: the next `\r\n`, or the end of the block.
        let mut j = i;
        while j < n && !(j + 1 < n && v[j] == '\r' && v[j + 1] == '\n')
            invariant
                i <= j <= n,
                n == s.len(),
                n == v.len(),
                s == v@,
                next_crlf(s, j as int) == next_crlf(s, i as int),
            decreases n - j,
        {
            j = j + 1;
        }
        assert(next_crlf(s, i as int) == j);
        let ghost line = s.subrange(i as int, j as int);
        // The first colon, if the line has one.
        let mut c = i;
        while c < j && v[c] != ':'
            invariant
                i <= c <= j <= n,
                n == v.len(),
                s == v@,
                line == s.subrange(i as int, j as int),
                colon_from(line, c - i) == colon_from(line, 0),
            decreases j - c,
        {
            assert(line[c - i] == v[c as int]);
            c = c + 1;
        }
        if c < j {
            assert(colon_from(line, 0) == Some(c - i));
            let (na, nb) = trim_range(&v, i, c);
            assert(line.take(c - i) =~= s.subrange(i as int, c as int));
            if is_content_length_name(&v, na, nb) {
                let (va, vb) = trim_range(&v, c + 1, j);
                assert(line.skip(c - i + 1) =~= s.subrange(c + 1, j as int));
                let ghost value = v@.subrange(va as int, vb as int);
                return match parse_digits(&v, va, vb) {
                    Some(len) => Ok(len),
                    None => Err(
                        FramingError::BadContentLength {
                            value: text.as_str().substring_char(va, vb).to_owned(),
                        },
                    ),
                };
            }
        } else {
            assert(colon_from(line, 0) is None);
        }
        if j >= n {
            return Err(FramingError::MissingContentLength { header: text });
        }
        i = j + 2;
    }
    Err(FramingError::MissingContentLength { header: text })
}

// ---------------------------------------------------------------------------
// Decoding
// ---------------------------------------------------------------------------

/// Where the header block ends, whether it is still arriving, or why it is refused.
pub open spec fn header_end_spec(buf: Seq<u8>, max_header: nat) -> Result<Option<int>, FramingFault> {
    let crlf = find(buf, header_terminator());
    let lf = find(buf, bare_terminator());
    if lf is Some && (crlf is None || lf->0 < crlf->0) {
        Err(FramingFault::MalformedHeader { detail: bare_terminator_detail() })
    } else if crlf is Some {
        Ok(crlf)
    } else if buf.len() > max_header {
        Err(FramingFault::HeaderTooLarge)
    } else {
        Ok(None)
    }
}

/// Every frame that completes in `buf`, in order, and the bytes left over —
/// or the first error, and the bytes that were left when it was found.
pub open spec fn drain_spec(buf: Seq<u8>, max_frame: nat, max_header: nat) -> (Result<Seq<Seq<u8>>, FramingFault>, Seq<u8>)
    decreases buf.len(),
{
    match header_end_spec(buf, max_header) {
        Err(e) => (Err(e), buf),
        Ok(None) => (Ok(Seq::empty()), buf),
        Ok(Some(end)) => match content_length_spec(buf.take(end)) {
            Err(e) => (Err(e), buf),
            Ok(len) => if len > max_frame {
                (Err(FramingFault::FrameTooLarge { len }), buf)
            } else if end < 0 || buf.len() < end + 4 + len {
                (Ok(Seq::empty()), buf)
            } else {
                let frame = buf.subrange(end + 4, end + 4 + len);
                let (rest, left) = drain_spec(buf.skip(end + 4 + len), max_frame, max_header);
                match rest {
                    Ok(frames) => (Ok(seq![frame] + frames), left),
                    Err(e) => (Err(e), left),
                }
            },
        },
    }
}

/// A decoder that has taken nothing yet.
pub open spec fn fresh_state(max_frame: nat, max_header: nat) -> DecoderState {
    DecoderState { buf: Seq::empty(), max_frame, max_header, poisoned: false }
}

/// What one push returns, and the state it leaves. A poisoned decoder refuses
/// without looking at the bytes; any other error poisons it.
pub open spec fn push_spec(d: DecoderState, bytes: Seq<u8>) -> (Result<Seq<Seq<u8>>, FramingFault>, DecoderState) {
    if d.poisoned {
        (Err(FramingFault::Poisoned), d)
    } else {
        let (outcome, left) = drain_spec(d.buf + bytes, d.max_frame, d.max_header);
        (
            outcome,
            DecoderState {
                buf: left,
                max_frame: d.max_frame,
                max_header: d.max_header,
                poisoned: outcome is Err,
            },
        )
    }
}

/// The result of a push, as plain values.
pub open spec fn frames_view(r: Result<Vec<Vec<u8>>, FramingError>) -> Result<Seq<Seq<u8>>, FramingFault> {
    match r {
        Ok(frames) => Ok(frames@.map_values(|f: Vec<u8>| f@)),
        Err(e) => Err(e@),
    }
}

/// Reassembles message bodies from arbitrary byte chunks.
pub struct Decoder {
    buf: Vec<u8>,
    max_frame: usize,
    max_header: usize,
    /// Set by the first error.
    poisoned: bool,
}

/// A decoder's state, as plain values.
pub ghost struct DecoderState {
    pub buf: Seq<u8>,
    pub max_frame: nat,
    pub max_header: nat,
    pub poisoned: bool,
}

impl View for Decoder {
    type V = DecoderState;

    closed spec fn view(&self) -> DecoderState {
        DecoderState {
            buf: self.buf@,
            max_frame: self.max_frame as nat,
            max_header: self.max_header as nat,
            poisoned: self.poisoned,
        }
    }
}

impl Default for Decoder {
    fn default() -> (r: Self)
        ensures
            r@ == fresh_state(MAX_FRAME_BYTES as nat, MAX_HEADER_BYTES as nat),
    {
        Self::new()
    }
}

impl Decoder {
    pub fn new() -> (r: Self)
        ensures
            r@ == fresh_state(MAX_FRAME_BYTES as nat, MAX_HEADER_BYTES as nat),
    {
        Self::with_limits(MAX_FRAME_BYTES, MAX_HEADER_BYTES)
    }

    pub fn with_limits(max_frame: usize, max_header: usize) -> (r: Self)
        ensures
            r@ == fresh_state(max_frame as nat, max_header as nat),
    {
        Self { buf: Vec::new(), max_frame, max_header, poisoned: false }
    }

    /// How many bytes are held waiting for the rest of their frame.
    pub fn buffered(&self) -> (r: usize)
        ensures
            r == self@.buf.len(),
    {
        self.buf.len()
    }

    /// Feed bytes in, take whole message bodies out, in arrival order.
    ///
    /// After the first error every later push is refused as `Poisoned`.
    pub fn push(&mut self, bytes: &[u8]) -> (r: Result<Vec<Vec<u8>>, FramingError>)
        ensures
            (frames_view(r), final(self)@) == push_spec(old(self)@, bytes@),
    {
        if self.poisoned {
            return Err(FramingError::Poisoned);
        }
        let mut i: usize = 0;
        while i < bytes.len()
            invariant
                i <= bytes.len(),
                self.buf@ == old(self).buf@ + bytes@.take(i as int),
                self.max_frame == old(self).max_frame,
                self.max_header == old(self).max_header,
                self.poisoned == old(self).poisoned,
            decreases bytes.len() - i,
        {
            self.buf.push(bytes[i]);
            i = i + 1;
            assert(self.buf@ =~= old(self).buf@ + bytes@.take(i as int));
        }
        assert(bytes@.take(bytes.len() as int) =~= bytes@);
        let mut buf: Vec<u8> = Vec::new();
        std::mem::swap(&mut buf, &mut self.buf);
        let (outcome, left) = drain(buf, self.max_frame, self.max_header);
        self.buf = left;
        match outcome {
            Ok(frames) => Ok(frames),
            Err(error) => {
                self.poisoned = true;
                Err(error)
            },
        }
    }
}

/// Every frame that completes in `buf`, and the bytes left over.
#[verifier::loop_isolation(false)]
fn drain(buf: Vec<u8>, max_frame: usize, max_header: usize) -> (r: (Result<Vec<Vec<u8>>, FramingError>, Vec<u8>))
        ensures
            ({
                let (outcome, left) = drain_spec(buf@, max_frame as nat, max_header as nat);
                &&& r.1@ == left
                &&& match outcome {
                    Ok(frames) => r.0 matches Ok(out) && out@.map_values(|f: Vec<u8>| f@) == frames,
                    Err(e) => r.0 matches Err(x) && x@ == e,
                }
            }),
    {
        let mut buf = buf;
        let mut frames: Vec<Vec<u8>> = Vec::new();
        let ghost start = buf@;
        loop
            invariant
                ({
                    let (outcome, left) = drain_spec(
                        start,
                        max_frame as nat,
                        max_header as nat,
                    );
                    let (now, now_left) = drain_spec(
                        buf@,
                        max_frame as nat,
                        max_header as nat,
                    );
                    &&& left == now_left
                    &&& match outcome {
                        Ok(all) => now matches Ok(rest) && all == frames@.map_values(
                            |f: Vec<u8>| f@,
                        ) + rest,
                        Err(e) => now matches Err(x) && x == e,
                    }
                }),
            decreases buf@.len(),
        {
            let ghost before = buf@;
            let header_end = match header_end(&buf, max_header) {
                Err(e) => {
                    return (Err(e), buf);
                },
                Ok(None) => {
                    assert(frames@.map_values(|f: Vec<u8>| f@) + Seq::<Seq<u8>>::empty()
                        =~= frames@.map_values(|f: Vec<u8>| f@));
                    return (Ok(frames), buf);
                },
                Ok(Some(end)) => end,
            };
            let header = slice_of(&buf, 0, header_end);
            assert(header@ =~= buf@.take(header_end as int));
            let len = match content_length(header.as_slice()) {
                Ok(len) => len,
                Err(e) => {
                    return (Err(e), buf);
                },
            };
            if len > max_frame {
                return (Err(FramingError::FrameTooLarge { len }), buf);
            }
            assert(header_end + 4 <= buf.len());
            let body_start = header_end + 4;
            if buf.len() - body_start < len {
                assert(frames@.map_values(|f: Vec<u8>| f@) + Seq::<Seq<u8>>::empty()
                    =~= frames@.map_values(|f: Vec<u8>| f@));
                return (Ok(frames), buf);
            }
            let frame = slice_of(&buf, body_start, body_start + len);
            let ghost old_frames = frames@.map_values(|f: Vec<u8>| f@);
            frames.push(frame);
            buf = slice_of(&buf, body_start + len, buf.len());
            proof {
                assert(buf@ =~= before.skip(body_start + len));
                assert(frames@.map_values(|f: Vec<u8>| f@) =~= old_frames.push(
                    before.subrange(body_start as int, body_start + len),
                ));
                let (now, _) = drain_spec(buf@, max_frame as nat, max_header as nat);
                if let Ok(rest) = now {
                    assert(old_frames + (seq![before.subrange(body_start as int, body_start + len)]
                        + rest) =~= frames@.map_values(|f: Vec<u8>| f@) + rest);
                }
            }
        }
    }

/// The offset of the `\r\n\r\n` that ends the header block, if it is here.
fn header_end(buf: &Vec<u8>, max_header: usize) -> (r: Result<Option<usize>, FramingError>)
        ensures
            match header_end_spec(buf@, max_header as nat) {
                Ok(Some(e)) => r matches Ok(Some(x)) && x == e && e + 4 <= buf@.len(),
                Ok(None) => r matches Ok(None),
                Err(e) => r matches Err(x) && x@ == e,
            },
    {
        let crlf_needle: [u8; 4] = [13, 10, 13, 10];
        let lf_needle: [u8; 2] = [10, 10];
        assert(crlf_needle@ =~= header_terminator());
        assert(lf_needle@ =~= bare_terminator());
        let crlf = find_bytes(buf, crlf_needle.as_slice());
        let lf = find_bytes(buf, lf_needle.as_slice());
        if let Some(lf) = lf {
            let before = match crlf {
                Some(crlf) => lf < crlf,
                None => true,
            };
            if before {
                return Err(FramingError::MalformedHeader {
                    detail: "the header block must end with CRLF CRLF, not LF LF".to_owned(),
                });
            }
        }
        match crlf {
            Some(end) => {
                proof { lemma_find_fits(buf@, header_terminator(), 0); }
                Ok(Some(end))
            },
            None => if buf.len() > max_header {
                Err(FramingError::HeaderTooLarge)
            } else {
                Ok(None)
            },
        }
    }

proof fn lemma_find_fits(hay: Seq<u8>, needle: Seq<u8>, i: int)
    ensures
        find_from(hay, needle, i) matches Some(k) ==> i <= k && k + needle.len() <= hay.len(),
    decreases hay.len() - i,
{
    if !(i < 0 || i + needle.len() > hay.len()) && hay.subrange(i, i + needle.len()) != needle
        && i < hay.len() {
        lemma_find_fits(hay, needle, i + 1);
    }
}

/// A copy of `v[from..to]`.
fn slice_of(v: &Vec<u8>, from: usize, to: usize) -> (r: Vec<u8>)
    requires
        from <= to <= v.len(),
    ensures
        r@ == v@.subrange(from as int, to as int),
{
    let mut r: Vec<u8> = Vec::new();
    let mut i = from;
    while i < to
        invariant
            from <= i <= to <= v.len(),
            r@ == v@.subrange(from as int, i as int),
        decreases to - i,
    {
        r.push(v[i]);
        i = i + 1;
        assert(r@ =~= v@.subrange(from as int, i as int));
    }
    r
}

// ---------------------------------------------------------------------------
// Laws
// ---------------------------------------------------------------------------

/// The header block `encode` writes for a body of `n` bytes, without its terminator.
pub open spec fn frame_header(n: nat) -> Seq<u8> {
    length_field_name() + decimal(n)
}

/// Bytes read one for one as characters.
pub open spec fn as_chars(b: Seq<u8>) -> Seq<char> {
    b.map_values(|x: u8| x as char)
}

/// Whether `needle` occurs in `hay` at `t`.
pub open spec fn occurs_at(hay: Seq<u8>, needle: Seq<u8>, t: int) -> bool {
    0 <= t && t + needle.len() <= hay.len() && hay.subrange(t, t + needle.len()) == needle
}

/// The frames of every body in `bodies`, one after another.
pub open spec fn frames_of(bodies: Seq<Seq<u8>>) -> Seq<u8>
    decreases bodies.len(),
{
    if bodies.len() == 0 {
        Seq::empty()
    } else {
        frame_of(bodies[0]) + frames_of(bodies.drop_first())
    }
}

proof fn lemma_find_skips(hay: Seq<u8>, needle: Seq<u8>, i: int, j: int)
    requires
        0 <= i <= j <= hay.len(),
        forall|t: int| i <= t < j ==> !occurs_at(hay, needle, t),
    ensures
        find_from(hay, needle, i) == find_from(hay, needle, j),
    decreases j - i,
{
    if i < j && i + needle.len() <= hay.len() {
        assert(!occurs_at(hay, needle, i));
        lemma_find_skips(hay, needle, i + 1, j);
    }
}

proof fn lemma_decimal(n: nat)
    ensures
        decimal(n).len() >= 1,
        forall|i: int| 0 <= i < decimal(n).len() ==> 48 <= #[trigger] decimal(n)[i] <= 57,
        digits_value(as_chars(decimal(n))) == n,
    decreases n,
{
    let d = decimal(n);
    let c = as_chars(d);
    if n >= 10 {
        lemma_decimal(n / 10);
        assert(c.drop_last() =~= as_chars(decimal(n / 10)));
        assert(d.last() == (48 + n % 10) as u8);
        assert(c.last() == d.last() as char);
        assert(((c.last() as u32) - 48) as nat == n % 10);
        assert(digits_value(c) == 10 * (n / 10) + n % 10);
        assert forall|i: int| 0 <= i < d.len() implies 48 <= #[trigger] d[i] <= 57 by {
            if i < d.len() - 1 {
                assert(d[i] == decimal(n / 10)[i]);
            }
        }
    } else {
        assert(c.drop_last() =~= Seq::<char>::empty());
        assert(c.last() == ((48 + n) as u8) as char);
        assert(((c.last() as u32) - 48) as nat == n);
        assert(digits_value(c.drop_last()) == 0);
        assert(digits_value(c) == n);
    }
}

proof fn lemma_header_bytes(n: nat)
    ensures
        frame_header(n).len() == 16 + decimal(n).len(),
        forall|i: int| 0 <= i < frame_header(n).len() ==> 32 <= #[trigger] frame_header(n)[i] < 127,
{
    lemma_decimal(n);
    let h = frame_header(n);
    assert forall|i: int| 0 <= i < h.len() implies 32 <= #[trigger] h[i] < 127 by {
        if i >= 16 {
            assert(h[i] == decimal(n)[i - 16]);
        }
    }
}

proof fn lemma_ascii_decodes(b: Seq<u8>)
    requires
        forall|i: int| 0 <= i < b.len() ==> #[trigger] b[i] < 128,
    ensures
        valid_utf8(b),
        decode_utf8(b) == as_chars(b),
{
    let c = as_chars(b);
    assert(vstd::utf8::is_ascii_chars(c));
    vstd::utf8::is_ascii_chars_encode_utf8(c);
    assert(vstd::utf8::encode_utf8(c) =~= b);
    vstd::utf8::encode_utf8_valid_utf8(c);
    vstd::utf8::encode_utf8_decode_utf8(c);
}

proof fn lemma_no_crlf(s: Seq<char>, i: int)
    requires
        0 <= i <= s.len(),
        forall|t: int| i <= t < s.len() ==> #[trigger] s[t] != '\r',
    ensures
        next_crlf(s, i) == s.len(),
    decreases s.len() - i,
{
    if i + 1 < s.len() {
        lemma_no_crlf(s, i + 1);
    }
}

proof fn lemma_colon_at(s: Seq<char>, i: int, j: int)
    requires
        0 <= i <= j < s.len(),
        forall|t: int| i <= t < j ==> #[trigger] s[t] != ':',
        s[j] == ':',
    ensures
        colon_from(s, i) == Some(j),
    decreases j - i,
{
    if i < j {
        lemma_colon_at(s, i + 1, j);
    }
}

/// The header `encode` writes reads back as the length it was written with.
proof fn lemma_header_reads(n: nat)
    requires
        n <= usize::MAX,
    ensures
        content_length_spec(frame_header(n)) == Ok::<nat, FramingFault>(n),
{
    lemma_header_bytes(n);
    lemma_decimal(n);
    let hb = frame_header(n);
    let d = decimal(n);
    lemma_ascii_decodes(hb);
    let hc = as_chars(hb);
    assert(hb.take(16) =~= length_field_name());
    assert forall|t: int| 0 <= t < hc.len() implies #[trigger] hc[t] != '\r' by {
        assert(32 <= hb[t]);
    }
    lemma_no_crlf(hc, 0);
    assert(hc.subrange(0, hc.len() as int) =~= hc);
    assert(hc[0] == 'C' && hc[1] == 'o' && hc[2] == 'n' && hc[3] == 't' && hc[4] == 'e');
    assert(hc[5] == 'n' && hc[6] == 't' && hc[7] == '-' && hc[8] == 'L' && hc[9] == 'e');
    assert(hc[10] == 'n' && hc[11] == 'g' && hc[12] == 't' && hc[13] == 'h' && hc[14] == ':');
    assert(hc[15] == ' ');
    lemma_colon_at(hc, 0, 14);
    let name = hc.take(14);
    assert(!is_white(name[0]));
    assert(name.skip(0) =~= name);
    assert(!is_white(name.last()));
    assert(trimmed(name) == name);
    assert(names_content_length(name)) by {
        assert forall|i: int| 0 <= i < name.len() implies ascii_lower(#[trigger] name[i])
            == content_length_name()[i] by {
            assert(name[i] == hc[i]);
        }
    }
    let value = hc.skip(15);
    let digits = as_chars(d);
    assert(value.drop_first() =~= digits);
    assert(is_white(value[0]));
    assert(!is_white(digits[0])) by {
        assert(48 <= d[0] <= 57);
    }
    assert(leading_white(digits) == 0);
    assert(leading_white(value) == 1 + leading_white(value.drop_first()));
    assert(value.skip(1) =~= digits);
    assert(!is_white(digits.last())) by {
        assert(48 <= d[d.len() - 1] <= 57);
    }
    assert(trimmed(value) == digits);
    assert(unsigned_digits(digits) == digits) by {
        assert(48 <= d[0] <= 57);
    }
    assert forall|i: int| 0 <= i < digits.len() implies is_digit(#[trigger] digits[i]) by {
        assert(48 <= d[i] <= 57);
    }
    assert(length_field(hc) == Some(digits));
    assert(parse_usize(digits) == Some(n));
}

/// A frame at the front of a buffer comes out ahead of whatever follows it.
proof fn lemma_drain_frame(p: Seq<u8>, rest: Seq<u8>, max_frame: usize, max_header: usize)
    requires
        p.len() <= max_frame,
    ensures
        drain_spec(frame_of(p) + rest, max_frame as nat, max_header as nat) == ({
            let (outcome, left) = drain_spec(rest, max_frame as nat, max_header as nat);
            (
                match outcome {
                    Ok(frames) => Ok(seq![p] + frames),
                    Err(e) => Err(e),
                },
                left,
            )
        }),
{
    let n = p.len();
    let buf = frame_of(p) + rest;
    let h = frame_header(n);
    let hl = h.len() as int;
    lemma_header_bytes(n);
    assert(buf.len() >= hl + 4 + n);
    assert forall|t: int| 0 <= t < hl implies #[trigger] buf[t] == h[t] by {}
    assert forall|t: int| 0 <= t < hl implies !occurs_at(buf, header_terminator(), t) by {
        if t + 4 <= buf.len() {
            assert(buf.subrange(t, t + 4)[0] == buf[t]);
            assert(32 <= h[t]);
        }
    }
    assert forall|t: int| 0 <= t < hl implies !occurs_at(buf, bare_terminator(), t) by {
        if t + 2 <= buf.len() {
            assert(buf.subrange(t, t + 2)[0] == buf[t]);
            assert(32 <= h[t]);
        }
    }
    lemma_find_skips(buf, header_terminator(), 0, hl);
    lemma_find_skips(buf, bare_terminator(), 0, hl);
    assert(buf.subrange(hl, hl + 4) =~= header_terminator());
    lemma_find_fits(buf, bare_terminator(), hl);
    assert(header_end_spec(buf, max_header as nat) == Ok::<Option<int>, FramingFault>(Some(hl)));
    assert(buf.take(hl) =~= h);
    lemma_header_reads(n);
    assert(buf.subrange(hl + 4, hl + 4 + n) =~= p);
    assert(buf.skip(hl + 4 + n) =~= rest);
}

/// A frame cut short anywhere is held back whole, as long as the header cap
/// is not crossed before its terminator has arrived.
proof fn lemma_drain_prefix(p: Seq<u8>, k: int, max_frame: usize, max_header: usize)
    requires
        p.len() <= max_frame,
        0 <= k < frame_of(p).len(),
        k < frame_of(p).len() - p.len() ==> k <= max_header,
    ensures
        drain_spec(frame_of(p).take(k), max_frame as nat, max_header as nat) == (
            Ok::<Seq<Seq<u8>>, FramingFault>(Seq::empty()),
            frame_of(p).take(k),
        ),
{
    let n = p.len();
    let f = frame_of(p);
    let q = f.take(k);
    let h = frame_header(n);
    let hl = h.len() as int;
    lemma_header_bytes(n);
    assert(f.len() == hl + 4 + n);
    assert forall|t: int| 0 <= t < hl && t < k implies #[trigger] q[t] == h[t] by {}
    assert forall|t: int| hl <= t < hl + 4 && t < k implies #[trigger] q[t]
        == header_terminator()[t - hl] by {}
    if k >= hl + 4 {
        assert forall|t: int| 0 <= t < hl implies !occurs_at(q, header_terminator(), t) by {
            if t + 4 <= q.len() {
                assert(q.subrange(t, t + 4)[0] == q[t]);
                assert(32 <= h[t]);
            }
        }
        assert forall|t: int| 0 <= t < hl implies !occurs_at(q, bare_terminator(), t) by {
            if t + 2 <= q.len() {
                assert(q.subrange(t, t + 2)[0] == q[t]);
                assert(32 <= h[t]);
            }
        }
        lemma_find_skips(q, header_terminator(), 0, hl);
        lemma_find_skips(q, bare_terminator(), 0, hl);
        assert(q.subrange(hl, hl + 4) =~= header_terminator());
        lemma_find_fits(q, bare_terminator(), hl);
        assert(header_end_spec(q, max_header as nat) == Ok::<Option<int>, FramingFault>(Some(hl)));
        assert(q.take(hl) =~= h);
        lemma_header_reads(n);
    } else {
        assert forall|t: int| 0 <= t < k implies !occurs_at(q, header_terminator(), t) by {
            if t + 4 <= q.len() {
                assert(q.subrange(t, t + 4)[0] == q[t]);
                if t < hl {
                    assert(32 <= h[t]);
                }
            }
        }
        assert forall|t: int| 0 <= t < k implies !occurs_at(q, bare_terminator(), t) by {
            if t + 2 <= q.len() {
                assert(q.subrange(t, t + 2)[0] == q[t]);
                assert(q.subrange(t, t + 2)[1] == q[t + 1]);
                if t < hl {
                    assert(32 <= h[t]);
                }
            }
        }
        lemma_find_skips(q, header_terminator(), 0, k);
        lemma_find_skips(q, bare_terminator(), 0, k);
    }
}

/// Law: a fresh decoder given one encoded body hands that body back and keeps
/// nothing, whenever the body is within the frame cap.
pub proof fn law_encoded_frame_round_trips(payload: Seq<u8>, max_frame: usize, max_header: usize)
    requires
        payload.len() <= max_frame,
    ensures
        push_spec(fresh_state(max_frame as nat, max_header as nat), frame_of(payload)) == (
            Ok::<Seq<Seq<u8>>, FramingFault>(seq![payload]),
            fresh_state(max_frame as nat, max_header as nat),
        ),
{
    lemma_drain_frame(payload, Seq::empty(), max_frame, max_header);
    assert(Seq::<u8>::empty() + frame_of(payload) =~= frame_of(payload) + Seq::<u8>::empty());
    assert(seq![payload] + Seq::<Seq<u8>>::empty() =~= seq![payload]);
}

/// Law: frames that arrive together come out together, in the order they were
/// sent, with nothing left over.
pub proof fn law_frames_come_out_in_order(bodies: Seq<Seq<u8>>, max_frame: usize, max_header: usize)
    requires
        forall|i: int| 0 <= i < bodies.len() ==> (#[trigger] bodies[i]).len() <= max_frame,
    ensures
        push_spec(fresh_state(max_frame as nat, max_header as nat), frames_of(bodies)) == (
            Ok::<Seq<Seq<u8>>, FramingFault>(bodies),
            fresh_state(max_frame as nat, max_header as nat),
        ),
    decreases bodies.len(),
{
    assert(Seq::<u8>::empty() + frames_of(bodies) =~= frames_of(bodies));
    if bodies.len() > 0 {
        let tail = bodies.drop_first();
        law_frames_come_out_in_order(tail, max_frame, max_header);
        assert(Seq::<u8>::empty() + frames_of(tail) =~= frames_of(tail));
        assert(bodies[0].len() <= max_frame);
        lemma_drain_frame(bodies[0], frames_of(tail), max_frame, max_header);
        assert(seq![bodies[0]] + tail =~= bodies);
    } else {
        assert(bodies =~= Seq::<Seq<u8>>::empty());
    }
}

/// Law: however an encoded body is cut in two, the two pushes together give
/// back exactly that body and leave nothing, provided the first piece does not
/// outgrow the header cap before the header block is complete.
pub proof fn law_split_frame_reassembles(
    payload: Seq<u8>,
    k: int,
    max_frame: usize,
    max_header: usize,
)
    requires
        payload.len() <= max_frame,
        0 <= k <= frame_of(payload).len(),
        k < frame_of(payload).len() - payload.len() ==> k <= max_header,
    ensures
        ({
            let f = frame_of(payload);
            let (first, after) = push_spec(fresh_state(max_frame as nat, max_header as nat), f.take(k));
            let (second, last) = push_spec(after, f.skip(k));
            &&& first matches Ok(a)
            &&& second matches Ok(b)
            &&& a + b == seq![payload]
            &&& last == fresh_state(max_frame as nat, max_header as nat)
        }),
{
    let f = frame_of(payload);
    let fresh = fresh_state(max_frame as nat, max_header as nat);
    assert(Seq::<u8>::empty() + f.take(k) =~= f.take(k));
    assert(f.take(k) + f.skip(k) =~= f);
    lemma_drain_frame(payload, Seq::empty(), max_frame, max_header);
    assert(f + Seq::<u8>::empty() =~= f);
    assert(seq![payload] + Seq::<Seq<u8>>::empty() =~= seq![payload]);
    if k < f.len() {
        lemma_drain_prefix(payload, k, max_frame, max_header);
        assert(Seq::<Seq<u8>>::empty() + seq![payload] =~= seq![payload]);
    } else {
        assert(f.take(k) =~= f);
        assert(f.skip(k) =~= Seq::<u8>::empty());
        assert(Seq::<u8>::empty() + Seq::<u8>::empty() =~= Seq::<u8>::empty());
    }
}

/// The bodies a stream of frames completes within its first `m` bytes, and
/// the bytes of the frame it is part-way through.
pub open spec fn split_at(bodies: Seq<Seq<u8>>, m: int) -> (Seq<Seq<u8>>, Seq<u8>)
    decreases bodies.len(),
{
    if bodies.len() == 0 {
        (Seq::empty(), Seq::empty())
    } else if m >= frame_of(bodies[0]).len() {
        let (done, part) = split_at(bodies.drop_first(), m - frame_of(bodies[0]).len());
        (seq![bodies[0]] + done, part)
    } else {
        (Seq::empty(), frame_of(bodies[0]).take(m))
    }
}

/// Every body within the frame cap, and every header within the header cap.
pub open spec fn framable(bodies: Seq<Seq<u8>>, max_frame: nat, max_header: nat) -> bool {
    forall|i: int|
        0 <= i < bodies.len() ==> (#[trigger] bodies[i]).len() <= max_frame && frame_of(bodies[i]).len()
            - bodies[i].len() <= max_header
}

/// Pushes, one after another: the bodies they hand back, joined, or the
/// first refusal, and the state left.
pub open spec fn pushes_spec(d: DecoderState, chunks: Seq<Seq<u8>>) -> (Result<Seq<Seq<u8>>, FramingFault>, DecoderState)
    decreases chunks.len(),
{
    if chunks.len() == 0 {
        (Ok(Seq::empty()), d)
    } else {
        let (r, d1) = pushes_spec(d, chunks.drop_last());
        match r {
            Err(e) => (Err(e), d1),
            Ok(fs) => {
                let (r2, d2) = push_spec(d1, chunks.last());
                (
                    match r2 {
                        Ok(g) => Ok(fs + g),
                        Err(e) => Err(e),
                    },
                    d2,
                )
            },
        }
    }
}

/// Chunks, joined.
pub open spec fn joined_chunks(chunks: Seq<Seq<u8>>) -> Seq<u8>
    decreases chunks.len(),
{
    if chunks.len() == 0 {
        Seq::empty()
    } else {
        joined_chunks(chunks.drop_last()) + chunks.last()
    }
}

proof fn lemma_drain_stream_prefix(bodies: Seq<Seq<u8>>, m: int, max_frame: usize, max_header: usize)
    requires
        framable(bodies, max_frame as nat, max_header as nat),
        0 <= m <= frames_of(bodies).len(),
    ensures
        drain_spec(frames_of(bodies).take(m), max_frame as nat, max_header as nat) == (
            Ok::<Seq<Seq<u8>>, FramingFault>(split_at(bodies, m).0),
            split_at(bodies, m).1,
        ),
    decreases bodies.len(),
{
    if bodies.len() == 0 {
        assert(frames_of(bodies).take(m) =~= Seq::<u8>::empty());
        assert(header_end_spec(Seq::<u8>::empty(), max_header as nat) == Ok::<Option<int>, FramingFault>(None)) by {
            assert(find(Seq::<u8>::empty(), header_terminator()) is None);
            assert(find(Seq::<u8>::empty(), bare_terminator()) is None);
        }
    } else {
        let f = frame_of(bodies[0]);
        let tail = bodies.drop_first();
        assert(framable(tail, max_frame as nat, max_header as nat)) by {
            assert forall|i: int| 0 <= i < tail.len() implies (#[trigger] tail[i]).len() <= max_frame && frame_of(
                tail[i],
            ).len() - tail[i].len() <= max_header by {
                assert(tail[i] == bodies[i + 1]);
            }
        }
        assert(bodies[0].len() <= max_frame);
        if m >= f.len() {
            lemma_drain_stream_prefix(tail, m - f.len(), max_frame, max_header);
            assert(frames_of(bodies).take(m) =~= f + frames_of(tail).take(m - f.len()));
            lemma_drain_frame(bodies[0], frames_of(tail).take(m - f.len()), max_frame, max_header);
        } else {
            assert(frames_of(bodies).take(m) =~= f.take(m));
            lemma_drain_prefix(bodies[0], m, max_frame, max_header);
        }
    }
}

/// Where a stream split at `m` picks up again at `m2`: what was held back,
/// with the bytes between, is a prefix of the frames not yet completed, and
/// those frames split there as the whole stream splits at `m2`.
proof fn lemma_split_continues(bodies: Seq<Seq<u8>>, m: int, m2: int)
    requires
        0 <= m <= m2 <= frames_of(bodies).len(),
    ensures
        ({
            let (d1, p1) = split_at(bodies, m);
            let (d2, p2) = split_at(bodies, m2);
            let rest = bodies.skip(d1.len() as int);
            let k = p1.len() + m2 - m;
            &&& d1.len() <= bodies.len()
            &&& bodies.take(d1.len() as int) == d1
            &&& 0 <= k <= frames_of(rest).len()
            &&& p1 + frames_of(bodies).subrange(m, m2) == frames_of(rest).take(k)
            &&& d2 == d1 + split_at(rest, k).0
            &&& p2 == split_at(rest, k).1
        }),
    decreases bodies.len(),
{
    if bodies.len() == 0 {
        assert(bodies.skip(0) =~= bodies);
        assert(bodies.take(0) =~= Seq::<Seq<u8>>::empty());
        assert(Seq::<Seq<u8>>::empty() + Seq::<Seq<u8>>::empty() =~= Seq::<Seq<u8>>::empty());
        assert(frames_of(bodies).subrange(m, m2) =~= Seq::<u8>::empty());
        assert(frames_of(bodies).take(0) =~= Seq::<u8>::empty());
    } else {
        let f = frame_of(bodies[0]);
        let tail = bodies.drop_first();
        assert(frames_of(bodies) == f + frames_of(tail));
        if m >= f.len() {
            lemma_split_continues(tail, m - f.len(), m2 - f.len());
            let (d1t, p1t) = split_at(tail, m - f.len());
            assert(bodies.skip(1 + d1t.len() as int) =~= tail.skip(d1t.len() as int));
            assert(frames_of(bodies).subrange(m, m2) =~= frames_of(tail).subrange(m - f.len(), m2 - f.len()));
            assert(bodies.take(1 + d1t.len() as int) =~= seq![bodies[0]] + tail.take(d1t.len() as int));
            let (d2t, p2t) = split_at(tail, m2 - f.len());
            let rest = tail.skip(d1t.len() as int);
            let k = p1t.len() + m2 - m;
            assert(seq![bodies[0]] + d2t =~= (seq![bodies[0]] + d1t) + split_at(rest, k).0);
        } else {
            assert(bodies.skip(0) =~= bodies);
            assert(bodies.take(0) =~= Seq::<Seq<u8>>::empty());
            assert(f.take(m) + frames_of(bodies).subrange(m, m2) =~= frames_of(bodies).take(m2));
            assert(Seq::<Seq<u8>>::empty() + split_at(bodies, m2).0 =~= split_at(bodies, m2).0);
        }
    }
}

proof fn lemma_split_whole(bodies: Seq<Seq<u8>>)
    ensures
        split_at(bodies, frames_of(bodies).len() as int) == (bodies, Seq::<u8>::empty()),
    decreases bodies.len(),
{
    if bodies.len() > 0 {
        let tail = bodies.drop_first();
        lemma_split_whole(tail);
        assert(frames_of(bodies).len() == frame_of(bodies[0]).len() + frames_of(tail).len());
        assert(seq![bodies[0]] + tail =~= bodies);
    } else {
        assert(bodies =~= Seq::<Seq<u8>>::empty());
    }
}

proof fn lemma_chunks_prefix(bodies: Seq<Seq<u8>>, chunks: Seq<Seq<u8>>, max_frame: usize, max_header: usize)
    requires
        framable(bodies, max_frame as nat, max_header as nat),
        joined_chunks(chunks).len() <= frames_of(bodies).len(),
        joined_chunks(chunks) == frames_of(bodies).take(joined_chunks(chunks).len() as int),
    ensures
        ({
            let m = joined_chunks(chunks).len() as int;
            pushes_spec(fresh_state(max_frame as nat, max_header as nat), chunks) == (
                Ok::<Seq<Seq<u8>>, FramingFault>(split_at(bodies, m).0),
                DecoderState {
                    buf: split_at(bodies, m).1,
                    max_frame: max_frame as nat,
                    max_header: max_header as nat,
                    poisoned: false,
                },
            )
        }),
    decreases chunks.len(),
{
    let fresh = fresh_state(max_frame as nat, max_header as nat);
    if chunks.len() == 0 {
        lemma_split_continues(bodies, 0, 0);
        if bodies.len() > 0 {
            assert(frame_of(bodies[0]).take(0) =~= Seq::<u8>::empty());
        }
    } else {
        let init = chunks.drop_last();
        let c = chunks.last();
        let s = frames_of(bodies);
        let m = joined_chunks(init).len() as int;
        let m2 = joined_chunks(chunks).len() as int;
        assert(joined_chunks(chunks) == joined_chunks(init) + c);
        assert(joined_chunks(init) =~= s.take(m)) by {
            assert(joined_chunks(init) =~= joined_chunks(chunks).take(m));
        }
        lemma_chunks_prefix(bodies, init, max_frame, max_header);
        lemma_split_continues(bodies, m, m2);
        let (d1, p1) = split_at(bodies, m);
        let rest = bodies.skip(d1.len() as int);
        let k = p1.len() + m2 - m;
        assert(c =~= s.subrange(m, m2)) by {
            assert(joined_chunks(chunks).subrange(m, m2) =~= c);
        }
        assert(framable(rest, max_frame as nat, max_header as nat)) by {
            assert forall|i: int| 0 <= i < rest.len() implies (#[trigger] rest[i]).len() <= max_frame && frame_of(
                rest[i],
            ).len() - rest[i].len() <= max_header by {
                assert(rest[i] == bodies[i + d1.len()]);
            }
        }
        lemma_drain_stream_prefix(rest, k, max_frame, max_header);
        assert(p1 + c == frames_of(rest).take(k));
    }
}

/// Law: however a stream of frames is cut into pushes, the pushes together
/// hand back exactly the bodies sent, in order, and leave nothing, provided
/// every body is within the frame cap and every header within the header
/// cap.
pub proof fn law_any_chunking_reassembles(
    bodies: Seq<Seq<u8>>,
    chunks: Seq<Seq<u8>>,
    max_frame: usize,
    max_header: usize,
)
    requires
        framable(bodies, max_frame as nat, max_header as nat),
        joined_chunks(chunks) == frames_of(bodies),
    ensures
        pushes_spec(fresh_state(max_frame as nat, max_header as nat), chunks) == (
            Ok::<Seq<Seq<u8>>, FramingFault>(bodies),
            fresh_state(max_frame as nat, max_header as nat),
        ),
{
    assert(frames_of(bodies).take(frames_of(bodies).len() as int) =~= frames_of(bodies));
    lemma_chunks_prefix(bodies, chunks, max_frame, max_header);
    lemma_split_whole(bodies);
}

/// Law: once a push has been refused, every later push is refused as
/// `Poisoned` and changes nothing, whatever it carries.
pub proof fn law_refusal_is_permanent(d: DecoderState, bytes: Seq<u8>, more: Seq<u8>)
    requires
        push_spec(d, bytes).0 is Err,
    ensures
        push_spec(push_spec(d, bytes).1, more) == (
            Err::<Seq<Seq<u8>>, FramingFault>(FramingFault::Poisoned),
            push_spec(d, bytes).1,
        ),
{
}

} // verus!
