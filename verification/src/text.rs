//! Characters, code units and bytes: the three ways this library measures text.
use vstd::prelude::*;
use vstd::utf8::*;
use vstd::std_specs::iter::IteratorSpec;

verus! {

broadcast use vstd::utf8::char_is_scalar;

/// How many bytes UTF-8 spends on one character.
pub open spec fn utf8_width(c: char) -> nat {
    let v = c as u32;
    if has_width_1_encoding(v) {
        1
    } else if has_width_2_encoding(v) {
        2
    } else if has_width_3_encoding(v) {
        3
    } else {
        4
    }
}

/// How many UTF-16 code units one character takes: two for a surrogate pair.
pub open spec fn utf16_width(c: char) -> nat {
    if (c as u32) >= 0x10000 { 2 } else { 1 }
}

/// Whether a string's UTF-8 encoding can be indexed by a `usize` at all.
pub open spec fn addressable(s: Seq<char>) -> bool {
    byte_len(s) <= usize::MAX
}

/// The UTF-8 length of a character sequence.
pub open spec fn byte_len(s: Seq<char>) -> nat
    decreases s.len(),
{
    if s.len() == 0 { 0 } else { byte_len(s.drop_last()) + utf8_width(s.last()) }
}

/// The UTF-16 length of a character sequence.
pub open spec fn unit_len(s: Seq<char>) -> nat
    decreases s.len(),
{
    if s.len() == 0 { 0 } else { unit_len(s.drop_last()) + utf16_width(s.last()) }
}

pub proof fn lemma_byte_len_concat(a: Seq<char>, b: Seq<char>)
    ensures byte_len(a + b) == byte_len(a) + byte_len(b),
    decreases b.len(),
{
    if b.len() == 0 {
        assert(a + b =~= a);
    } else {
        lemma_byte_len_concat(a, b.drop_last());
        assert((a + b).drop_last() =~= a + b.drop_last());
    }
}

pub proof fn lemma_unit_len_concat(a: Seq<char>, b: Seq<char>)
    ensures unit_len(a + b) == unit_len(a) + unit_len(b),
    decreases b.len(),
{
    if b.len() == 0 {
        assert(a + b =~= a);
    } else {
        lemma_unit_len_concat(a, b.drop_last());
        assert((a + b).drop_last() =~= a + b.drop_last());
    }
}

/// One more character on a prefix adds exactly that character's width.
pub proof fn lemma_prefix_step(s: Seq<char>, k: int)
    requires 0 <= k < s.len(),
    ensures
        byte_len(s.take(k + 1)) == byte_len(s.take(k)) + utf8_width(s[k]),
        unit_len(s.take(k + 1)) == unit_len(s.take(k)) + utf16_width(s[k]),
{
    assert(s.take(k + 1).drop_last() =~= s.take(k));
}

/// Prefix lengths never shrink as the prefix grows.
pub proof fn lemma_prefix_monotone(s: Seq<char>, j: int, k: int)
    requires 0 <= j <= k <= s.len(),
    ensures
        byte_len(s.take(j)) + (k - j) <= byte_len(s.take(k)),
        unit_len(s.take(j)) + (k - j) <= unit_len(s.take(k)),
        byte_len(s.take(k)) <= byte_len(s.take(j)) + 4 * (k - j),
        unit_len(s.take(k)) <= unit_len(s.take(j)) + 2 * (k - j),
        unit_len(s.take(k)) - unit_len(s.take(j)) <= byte_len(s.take(k)) - byte_len(s.take(j)),
    decreases k - j,
{
    if j < k {
        lemma_prefix_monotone(s, j, k - 1);
        lemma_prefix_step(s, k - 1);
    }
}

/// The byte length that `str::len` reports is the sum of the widths.
pub proof fn lemma_encode_utf8_len(s: Seq<char>)
    ensures encode_utf8(s).len() == byte_len(s),
    decreases s.len(),
{
    if s.len() > 0 {
        lemma_encode_utf8_len(s.drop_first());
        lemma_byte_len_concat(seq![s[0]], s.drop_first());
        assert(seq![s[0]] + s.drop_first() =~= s);
        assert(seq![s[0]].drop_last() =~= Seq::<char>::empty());
        assert(byte_len(seq![s[0]].drop_last()) == 0);
        assert(byte_len(seq![s[0]]) == utf8_width(s[0]));
        assert(encode_scalar(s[0] as u32).len() == utf8_width(s[0]));
        assert(encode_utf8(s) == encode_scalar(s[0] as u32) + encode_utf8(s.drop_first()));
    }
}

/// A string held in memory is addressable: its byte length is a `usize`.
pub fn establish_addressable(s: &str)
    ensures
        addressable(s@),
{
    let n = s.as_bytes().len();
    proof {
        lemma_encode_utf8_len(s@);
    }
}

/// The UTF-8 width of a character, computed.
pub fn char_utf8_width(c: char) -> (w: usize)
    ensures w == utf8_width(c),
{
    let v = c as u32;
    if v <= 0x7f {
        1
    } else if v <= 0x7ff {
        2
    } else if v <= 0xffff {
        3
    } else {
        4
    }
}

/// The UTF-16 width of a character, computed.
pub fn char_utf16_width(c: char) -> (w: usize)
    ensures w == utf16_width(c),
{
    if (c as u32) >= 0x10000 { 2 } else { 1 }
}

/// The characters of a string, in order.
pub fn chars_of(s: &str) -> (v: Vec<char>)
    ensures v@ == s@,
{
    broadcast use vstd::string::axiom_spec_iter, vstd::string::next_postcondition;
    let mut v: Vec<char> = Vec::new();
    let mut it = s.chars();
    loop
        invariant
            v@ + it.remaining() == s@,
            it.obeys_prophetic_iter_laws(),
            it.decrease() is Some,
        ensures
            v@ == s@,
        decreases it.decrease()->0,
    {
        match it.next() {
            Some(c) => {
                v.push(c);
            },
            None => {
                assert(v@ =~= s@);
                break;
            },
        }
    }
    v
}


/// The most characters, from the front, whose UTF-16 length stays within `budget`.
pub open spec fn prefix_within_units(s: Seq<char>, budget: int) -> nat
    decreases s.len(),
{
    if s.len() == 0 || unit_len(s) <= budget { s.len() } else { prefix_within_units(s.drop_last(), budget) }
}

/// The most characters, from the front, whose UTF-8 length stays within `budget`.
pub open spec fn prefix_within_bytes(s: Seq<char>, budget: int) -> nat
    decreases s.len(),
{
    if s.len() == 0 || byte_len(s) <= budget { s.len() } else { prefix_within_bytes(s.drop_last(), budget) }
}

pub proof fn lemma_prefix_within_units(s: Seq<char>, budget: int)
    requires budget >= 0,
    ensures
        prefix_within_units(s, budget) <= s.len(),
        unit_len(s.take(prefix_within_units(s, budget) as int)) <= budget,
        forall|j: int| prefix_within_units(s, budget) < j <= s.len()
            ==> unit_len(#[trigger] s.take(j)) > budget,
    decreases s.len(),
{
    if s.len() == 0 {
        assert(s.take(0) =~= s);
    } else if unit_len(s) <= budget {
        assert(s.take(s.len() as int) =~= s);
    } else {
        let t = s.drop_last();
        lemma_prefix_within_units(t, budget);
        let r = prefix_within_units(t, budget);
        assert(s.take(r as int) =~= t.take(r as int));
        assert forall|j: int| r < j <= s.len() implies unit_len(#[trigger] s.take(j)) > budget by {
            if j == s.len() {
                assert(s.take(j) =~= s);
            } else {
                assert(s.take(j) =~= t.take(j));
            }
        }
    }
}

pub proof fn lemma_prefix_within_bytes(s: Seq<char>, budget: int)
    requires budget >= 0,
    ensures
        prefix_within_bytes(s, budget) <= s.len(),
        byte_len(s.take(prefix_within_bytes(s, budget) as int)) <= budget,
        forall|j: int| prefix_within_bytes(s, budget) < j <= s.len()
            ==> byte_len(#[trigger] s.take(j)) > budget,
    decreases s.len(),
{
    if s.len() == 0 {
        assert(s.take(0) =~= s);
    } else if byte_len(s) <= budget {
        assert(s.take(s.len() as int) =~= s);
    } else {
        let t = s.drop_last();
        lemma_prefix_within_bytes(t, budget);
        let r = prefix_within_bytes(t, budget);
        assert(s.take(r as int) =~= t.take(r as int));
        assert forall|j: int| r < j <= s.len() implies byte_len(#[trigger] s.take(j)) > budget by {
            if j == s.len() {
                assert(s.take(j) =~= s);
            } else {
                assert(s.take(j) =~= t.take(j));
            }
        }
    }
}

/// A prefix that fits and whose next character does not is the longest one that fits.
pub proof fn lemma_units_stop(s: Seq<char>, budget: int, k: int)
    requires
        budget >= 0,
        0 <= k <= s.len(),
        unit_len(s.take(k)) <= budget,
        k == s.len() || unit_len(s.take(k + 1)) > budget,
    ensures prefix_within_units(s, budget) == k,
{
    lemma_prefix_within_units(s, budget);
    let r = prefix_within_units(s, budget) as int;
    if r < k {
        lemma_prefix_monotone(s, r + 1, k);
        assert(unit_len(s.take(r + 1)) > budget);
    } else if r > k {
        lemma_prefix_monotone(s, k + 1, r);
    }
}

pub proof fn lemma_bytes_stop(s: Seq<char>, budget: int, k: int)
    requires
        budget >= 0,
        0 <= k <= s.len(),
        byte_len(s.take(k)) <= budget,
        k == s.len() || byte_len(s.take(k + 1)) > budget,
    ensures prefix_within_bytes(s, budget) == k,
{
    lemma_prefix_within_bytes(s, budget);
    let r = prefix_within_bytes(s, budget) as int;
    if r < k {
        lemma_prefix_monotone(s, r + 1, k);
        assert(byte_len(s.take(r + 1)) > budget);
    } else if r > k {
        lemma_prefix_monotone(s, k + 1, r);
    }
}

/// A piece of a sequence is never longer, in bytes, than the sequence.
pub proof fn lemma_subrange_bytes(s: Seq<char>, a: int, b: int)
    requires 0 <= a <= b <= s.len(),
    ensures
        byte_len(s.subrange(a, b)) + byte_len(s.take(a)) + byte_len(s.subrange(b, s.len() as int))
            == byte_len(s),
        unit_len(s.subrange(a, b)) <= byte_len(s.subrange(a, b)),
{
    lemma_byte_len_concat(s.take(a), s.subrange(a, b));
    lemma_byte_len_concat(s.take(a) + s.subrange(a, b), s.subrange(b, s.len() as int));
    assert(s.take(a) + s.subrange(a, b) + s.subrange(b, s.len() as int) =~= s);
    let t = s.subrange(a, b);
    lemma_prefix_monotone(t, 0, t.len() as int);
    assert(t.take(t.len() as int) =~= t);
    assert(t.take(0) =~= Seq::<char>::empty());
}

/// Counts bytes and code units over `v[from..to]`.
pub fn measure(v: &Vec<char>, from: usize, to: usize) -> (r: (usize, usize))
    requires
        from <= to <= v.len(),
        byte_len(v@) <= usize::MAX,
    ensures
        r.0 == byte_len(v@.subrange(from as int, to as int)),
        r.1 == unit_len(v@.subrange(from as int, to as int)),
{
    let ghost t = v@.subrange(from as int, to as int);
    proof { lemma_subrange_bytes(v@, from as int, to as int); }
    let mut bytes: usize = 0;
    let mut units: usize = 0;
    let mut i: usize = from;
    while i < to
        invariant
            from <= i <= to <= v.len(),
            t == v@.subrange(from as int, to as int),
            byte_len(t) <= usize::MAX,
            bytes == byte_len(t.take(i - from)),
            units == unit_len(t.take(i - from)),
        decreases to - i,
    {
        proof {
            lemma_prefix_step(t, (i - from) as int);
            lemma_prefix_monotone(t, (i - from + 1) as int, t.len() as int);
            assert(t.take(t.len() as int) =~= t);
            lemma_prefix_monotone(t, 0, (i - from + 1) as int);
            assert(t.take(0) =~= Seq::<char>::empty());
        }
        bytes = bytes + char_utf8_width(v[i]);
        units = units + char_utf16_width(v[i]);
        i = i + 1;
    }
    assert(t.take(t.len() as int) =~= t);
    (bytes, units)
}

/// The longest stretch `v[from..k]` whose UTF-16 length stays within `budget`; returns `k`.
pub fn fit_units(v: &Vec<char>, from: usize, to: usize, budget: usize) -> (k: usize)
    requires
        from <= to <= v.len(),
    ensures
        from <= k <= to,
        k - from == prefix_within_units(v@.subrange(from as int, to as int), budget as int),
{
    let ghost t = v@.subrange(from as int, to as int);
    let mut units: usize = 0;
    let mut i: usize = from;
    while i < to
        invariant
            from <= i <= to <= v.len(),
            t == v@.subrange(from as int, to as int),
            units == unit_len(t.take(i - from)),
            units <= budget,
        decreases to - i,
    {
        proof { lemma_prefix_step(t, (i - from) as int); }
        let w = char_utf16_width(v[i]);
        if units >= budget || w > budget - units {
            proof { lemma_units_stop(t, budget as int, (i - from) as int); }
            return i;
        }
        units = units + w;
        i = i + 1;
    }
    proof { lemma_units_stop(t, budget as int, (i - from) as int); }
    i
}

/// The longest stretch `v[from..k]` whose UTF-8 length stays within `budget`; returns `k`.
pub fn fit_bytes(v: &Vec<char>, from: usize, to: usize, budget: usize) -> (k: usize)
    requires
        from <= to <= v.len(),
    ensures
        from <= k <= to,
        k - from == prefix_within_bytes(v@.subrange(from as int, to as int), budget as int),
{
    let ghost t = v@.subrange(from as int, to as int);
    let mut bytes: usize = 0;
    let mut i: usize = from;
    while i < to
        invariant
            from <= i <= to <= v.len(),
            t == v@.subrange(from as int, to as int),
            bytes == byte_len(t.take(i - from)),
            bytes <= budget,
        decreases to - i,
    {
        proof { lemma_prefix_step(t, (i - from) as int); }
        let w = char_utf8_width(v[i]);
        if bytes >= budget || w > budget - bytes {
            proof { lemma_bytes_stop(t, budget as int, (i - from) as int); }
            return i;
        }
        bytes = bytes + w;
        i = i + 1;
    }
    proof { lemma_bytes_stop(t, budget as int, (i - from) as int); }
    i
}


/// Whitespace as Rust's `char::is_whitespace` defines it: the Unicode `White_Space` property.
pub open spec fn is_white(c: char) -> bool {
    let v = c as u32;
    ||| 0x09 <= v <= 0x0d
    ||| v == 0x20
    ||| v == 0x85
    ||| v == 0xa0
    ||| v == 0x1680
    ||| 0x2000 <= v <= 0x200a
    ||| v == 0x2028
    ||| v == 0x2029
    ||| v == 0x202f
    ||| v == 0x205f
    ||| v == 0x3000
}

pub fn char_is_white(c: char) -> (b: bool)
    ensures b == is_white(c),
{
    let v = c as u32;
    (0x09 <= v && v <= 0x0d) || v == 0x20 || v == 0x85 || v == 0xa0 || v == 0x1680 || (0x2000
        <= v && v <= 0x200a) || v == 0x2028 || v == 0x2029 || v == 0x202f || v == 0x205f || v
        == 0x3000
}

/// How many whitespace characters a sequence starts with.
pub open spec fn leading_white(s: Seq<char>) -> nat
    decreases s.len(),
{
    if s.len() > 0 && is_white(s[0]) { 1 + leading_white(s.drop_first()) } else { 0 }
}

/// The sequence without its trailing whitespace.
pub open spec fn trim_white_end(s: Seq<char>) -> Seq<char>
    decreases s.len(),
{
    if s.len() > 0 && is_white(s.last()) { trim_white_end(s.drop_last()) } else { s }
}

/// The sequence without the carriage returns it ends in.
pub open spec fn trim_cr_end(s: Seq<char>) -> Seq<char>
    decreases s.len(),
{
    if s.len() > 0 && s.last() == '\r' { trim_cr_end(s.drop_last()) } else { s }
}

/// Whether two character sequences are equal, compared one character at a time.
pub fn same_text(a: &str, b: &str) -> (r: bool)
    ensures r == (a@ == b@),
{
    let x = chars_of(a);
    let y = chars_of(b);
    if x.len() != y.len() {
        return false;
    }
    let mut i: usize = 0;
    while i < x.len()
        invariant
            x@ == a@,
            y@ == b@,
            x.len() == y.len(),
            i <= x.len(),
            x@.take(i as int) =~= y@.take(i as int),
        decreases x.len() - i,
    {
        if x[i] != y[i] {
            assert(x@[i as int] != y@[i as int]);
            return false;
        }
        i = i + 1;
        assert(x@.take(i as int) =~= y@.take(i as int));
    }
    assert(x@ =~= x@.take(i as int));
    assert(y@ =~= y@.take(i as int));
    true
}

/// The character of a decimal digit.
pub open spec fn digit_char(d: nat) -> char {
    ((48 + d) as u8) as char
}

/// The decimal digits of `n`, most significant first, as `{}` formats it.
pub open spec fn decimal_chars(n: nat) -> Seq<char>
    decreases n,
{
    if n < 10 {
        seq![digit_char(n)]
    } else {
        decimal_chars(n / 10).push(digit_char(n % 10))
    }
}

fn push_decimal(out: &mut Vec<char>, n: u64)
    ensures
        final(out)@ == old(out)@ + decimal_chars(n as nat),
    decreases n,
{
    if n >= 10 {
        push_decimal(out, n / 10);
    }
    out.push(((48 + n % 10) as u8) as char);
    assert(out@ =~= old(out)@ + decimal_chars(n as nat));
}

/// `n` written in decimal.
pub fn decimal_string(n: u64) -> (r: String)
    ensures
        r@ == decimal_chars(n as nat),
{
    let mut digits: Vec<char> = Vec::new();
    push_decimal(&mut digits, n);
    assert(digits@ =~= decimal_chars(n as nat));
    string_of(&digits)
}

/// `String::from_iter` over characters: the string holding exactly these
/// characters, in this order, as the standard library documents.
#[verifier::external_body]
pub(crate) fn string_of(chars: &Vec<char>) -> (r: String)
    ensures
        r@ == chars@,
{
    String::from_iter(chars)
}

/// Whitespace removed from both ends, as `str::trim` does.
pub open spec fn trimmed(s: Seq<char>) -> Seq<char> {
    trim_white_end(s.skip(leading_white(s) as int))
}

/// A character with an ASCII capital lowered, as `to_ascii_lowercase` does.
pub open spec fn ascii_lower(c: char) -> char {
    if 'A' <= c && c <= 'Z' { ((c as u32) + 32) as char } else { c }
}

pub fn lower(c: char) -> (r: char)
    ensures
        r == ascii_lower(c),
{
    if 'A' <= c && c <= 'Z' {
        ((c as u32) + 32) as u8 as char
    } else {
        c
    }
}

/// The same text once ASCII case is ignored, as `eq_ignore_ascii_case` decides.
pub open spec fn same_ignoring_ascii_case(a: Seq<char>, b: Seq<char>) -> bool {
    &&& a.len() == b.len()
    &&& forall|i: int| 0 <= i < a.len() ==> ascii_lower(#[trigger] a[i]) == ascii_lower(b[i])
}

pub fn eq_ignoring_ascii_case(a: &str, b: &str) -> (r: bool)
    ensures
        r == same_ignoring_ascii_case(a@, b@),
{
    let x = chars_of(a);
    let y = chars_of(b);
    if x.len() != y.len() {
        return false;
    }
    let mut i: usize = 0;
    while i < x.len()
        invariant
            x@ == a@,
            y@ == b@,
            x.len() == y.len(),
            i <= x.len(),
            forall|k: int| 0 <= k < i ==> ascii_lower(#[trigger] x@[k]) == ascii_lower(y@[k]),
        decreases x.len() - i,
    {
        if lower(x[i]) != lower(y[i]) {
            return false;
        }
        i = i + 1;
    }
    true
}

/// `s` with whitespace removed from both ends.
pub fn trim_text(s: &str) -> (r: String)
    ensures
        r@ == trimmed(s@),
{
    let v = chars_of(s);
    let mut a: usize = 0;
    assert(v@.skip(0) =~= v@);
    while a < v.len() && char_is_white(v[a])
        invariant
            a <= v.len(),
            leading_white(v@) == a + leading_white(v@.skip(a as int)),
        decreases v.len() - a,
    {
        assert(v@.skip(a as int).drop_first() =~= v@.skip(a + 1));
        a = a + 1;
    }
    let mut b: usize = v.len();
    assert(v@.skip(a as int) =~= v@.subrange(a as int, v.len() as int));
    while b > a && char_is_white(v[b - 1])
        invariant
            a <= b <= v.len(),
            trim_white_end(v@.subrange(a as int, b as int)) == trim_white_end(
                v@.subrange(a as int, v.len() as int),
            ),
        decreases b,
    {
        assert(v@.subrange(a as int, b as int).drop_last() =~= v@.subrange(a as int, b - 1));
        b = b - 1;
    }
    assert(!(leading_white(v@.skip(a as int)) > 0) ==> leading_white(v@.skip(a as int)) == 0);
    s.substring_char(a, b).to_owned()
}

pub open spec fn is_digit(c: char) -> bool {
    '0' <= c && c <= '9'
}

pub open spec fn digits_value(s: Seq<char>) -> nat
    decreases s.len(),
{
    if s.len() == 0 { 0 } else { 10 * digits_value(s.drop_last()) + ((s.last() as u32) - 48) as nat }
}

/// The digits of an unsigned number: a lone leading `+` is dropped.
pub open spec fn unsigned_digits(s: Seq<char>) -> Seq<char> {
    if s.len() > 1 && s[0] == '+' { s.drop_first() } else { s }
}

/// What `str::parse` accepts for an unsigned integer type whose largest value
/// is `max`: an optional `+` then at least one ASCII digit, with a value that
/// fits.
pub open spec fn parse_unsigned(s: Seq<char>, max: nat) -> Option<nat> {
    let d = unsigned_digits(s);
    if d.len() > 0 && (forall|i: int| 0 <= i < d.len() ==> is_digit(#[trigger] d[i]))
        && digits_value(d) <= max {
        Some(digits_value(d))
    } else {
        None
    }
}

/// Parse `v[from..to]` as an unsigned integer no larger than `max`.
pub fn parse_decimal(v: &Vec<char>, from: usize, to: usize, max: u64) -> (r: Option<u64>)
    requires
        from <= to <= v.len(),
    ensures
        match r {
            Some(n) => parse_unsigned(v@.subrange(from as int, to as int), max as nat) == Some(n as nat),
            None => parse_unsigned(v@.subrange(from as int, to as int), max as nat) is None,
        },
{
    let ghost s = v@.subrange(from as int, to as int);
    let start = if to - from > 1 && v[from] == '+' { from + 1 } else { from };
    let ghost d = v@.subrange(start as int, to as int);
    assert(d =~= unsigned_digits(s));
    if start == to {
        return None;
    }
    let mut acc: u64 = 0;
    let mut i = start;
    while i < to
        invariant
            from <= start <= i <= to <= v.len(),
            d == v@.subrange(start as int, to as int),
            d == unsigned_digits(v@.subrange(from as int, to as int)),
            acc == digits_value(d.take(i - start)),
            acc <= max,
            forall|k: int| 0 <= k < i - start ==> is_digit(#[trigger] d[k]),
        decreases to - i,
    {
        let c = v[i];
        assert(d[i - start] == c);
        if !('0' <= c && c <= '9') {
            assert(!is_digit(d[i - start]));
            return None;
        }
        let digit = ((c as u32) - 48) as u64;
        assert(d.take(i - start + 1).drop_last() =~= d.take(i - start));
        assert(digits_value(d.take(i - start + 1)) == 10 * acc + digit);
        if digit > max || acc > (max - digit) / 10 {
            assert(10 * acc + digit > max) by (nonlinear_arith)
                requires digit > max || acc > (max - digit) / 10, digit <= 9, acc <= max;
            proof { lemma_digits_grow(d, i - start + 1); }
            return None;
        }
        assert(10 * acc + digit <= max) by (nonlinear_arith)
            requires acc <= (max - digit) / 10, digit <= 9, digit <= max;
        acc = acc * 10 + digit;
        i = i + 1;
    }
    assert(d.take(d.len() as int) =~= d);
    Some(acc)
}

proof fn lemma_digits_grow(d: Seq<char>, k: int)
    requires
        0 <= k <= d.len(),
    ensures
        digits_value(d.take(k)) <= digits_value(d),
    decreases d.len() - k,
{
    if k < d.len() {
        lemma_digits_grow(d, k + 1);
        assert(d.take(k + 1).drop_last() =~= d.take(k));
    } else {
        assert(d.take(k) =~= d);
    }
}

} // verus!
