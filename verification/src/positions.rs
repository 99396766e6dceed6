//! Counting characters and lines the way LSP does, and the way this app does.
//!
//! An LSP `character` is a count of UTF-16 code units; Rust slices strings by
//! UTF-8 bytes; LSP lines count from zero and this app's from one. Every
//! conversion here clamps rather than panics: a position past the end of its
//! line is a common spelling for "to end of line", not a malformed message.
use vstd::prelude::*;

use crate::text::{
    addressable, byte_len, establish_addressable, char_is_white, char_utf8_width, chars_of, fit_bytes, fit_units,
    leading_white, lemma_byte_len_concat, lemma_prefix_monotone, lemma_prefix_step,
    lemma_subrange_bytes, lemma_bytes_stop, lemma_units_stop, lemma_prefix_within_units, measure, prefix_within_bytes, prefix_within_units, trim_cr_end,
    trim_white_end, unit_len,
};

verus! {

/// The widest snippet a usage row will carry, in characters.
pub const SNIPPET_MAX_CHARS: usize = 200;

/// How much of a long line to keep before the match, so it has context.
pub const SNIPPET_LEAD_CHARS: usize = 60;

/// The byte offset of a UTF-16 code-unit offset within one line: the end of the
/// longest run of whole characters that fits. An offset halfway through a
/// surrogate pair clamps back to the start of that character, and one past the
/// end clamps to the end.
pub open spec fn utf16_to_byte_spec(line: Seq<char>, utf16: int) -> int {
    byte_len(line.take(prefix_within_units(line, utf16) as int)) as int
}

/// The UTF-16 offset of a byte offset within one line: the code units of the
/// longest run of whole characters that ends at or before `byte`.
pub open spec fn byte_to_utf16_spec(line: Seq<char>, byte: int) -> int {
    unit_len(line.take(prefix_within_bytes(line, byte) as int)) as int
}

pub fn utf16_to_byte(line: &str, utf16: u32) -> (r: usize)
    ensures
        r == utf16_to_byte_spec(line@, utf16 as int),
{
    establish_addressable(line);
    let v = chars_of(line);
    let k = fit_units(&v, 0, v.len(), utf16 as usize);
    assert(v@.subrange(0, v@.len() as int) =~= v@);
    let (bytes, _) = measure(&v, 0, k);
    assert(v@.subrange(0, k as int) =~= v@.take(k as int));
    bytes
}

pub fn byte_to_utf16(line: &str, byte: usize) -> (r: u32)
    ensures
        r == byte_to_utf16_spec(line@, byte as int) as u32,
{
    establish_addressable(line);
    let v = chars_of(line);
    let k = fit_bytes(&v, 0, v.len(), byte);
    assert(v@.subrange(0, v@.len() as int) =~= v@);
    let (_, units) = measure(&v, 0, k);
    assert(v@.subrange(0, k as int) =~= v@.take(k as int));
    units as u32
}

/// The 1-based line for a 0-based one, saturating at `u32::MAX`.
pub open spec fn editor_line(lsp: u32) -> u32 {
    if lsp == u32::MAX { u32::MAX } else { (lsp + 1) as u32 }
}

/// The 0-based line for a 1-based one; line zero asks about the first line.
pub open spec fn lsp_line(editor: u32) -> u32 {
    if editor == 0 { 0 } else { (editor - 1) as u32 }
}

/// A 0-based LSP line as this app's 1-based line.
pub fn to_editor_line(lsp: u32) -> (r: u32)
    ensures
        r == editor_line(lsp),
{
    lsp.saturating_add(1)
}

/// A 1-based line as LSP's 0-based one. Line zero is not a line, and asks about
/// the first one rather than one four billion down.
pub fn to_lsp_line(editor: u32) -> (r: u32)
    ensures
        r == lsp_line(editor),
{
    editor.saturating_sub(1)
}

/// Going to the editor's numbering and back is the identity, for every line
/// below the saturation point.
pub proof fn law_line_conversions_invert(lsp: u32)
    requires
        lsp < u32::MAX,
    ensures
        lsp_line(editor_line(lsp)) == lsp,
{
}

/// At every character boundary of a line, converting its byte offset to UTF-16
/// and back gives the same byte offset: the two conversions are inverses there.
pub proof fn law_offsets_round_trip(line: Seq<char>, k: int)
    requires
        0 <= k <= line.len(),
    ensures
        byte_to_utf16_spec(line, byte_len(line.take(k)) as int) == unit_len(line.take(k)),
        utf16_to_byte_spec(line, byte_to_utf16_spec(line, byte_len(line.take(k)) as int))
            == byte_len(line.take(k)),
{
    if k < line.len() {
        lemma_prefix_step(line, k);
    }
    lemma_bytes_stop(line, byte_len(line.take(k)) as int, k);
    lemma_units_stop(line, unit_len(line.take(k)) as int, k);
}

/// Law: the byte offset of a UTF-16 column is the last character boundary
/// whose prefix fits in that many code units. It is a boundary that fits, no
/// later boundary fits, it never passes the end of the line, and a column at
/// or past the end of the line gives the line's whole length.
pub proof fn law_utf16_column_is_the_last_boundary_that_fits(line: Seq<char>, utf16: int)
    requires
        utf16 >= 0,
    ensures
        exists|k: int|
            #![trigger line.take(k)]
            0 <= k <= line.len() && utf16_to_byte_spec(line, utf16) == byte_len(line.take(k))
                && unit_len(line.take(k)) <= utf16 && forall|j: int|
                k < j <= line.len() ==> unit_len(#[trigger] line.take(j)) > utf16,
        utf16_to_byte_spec(line, utf16) <= byte_len(line),
        unit_len(line) <= utf16 ==> utf16_to_byte_spec(line, utf16) == byte_len(line),
{
    lemma_prefix_within_units(line, utf16);
    let k = prefix_within_units(line, utf16) as int;
    assert(line.take(line.len() as int) =~= line);
    lemma_prefix_monotone(line, k, line.len() as int);
    assert(0 <= k <= line.len() && utf16_to_byte_spec(line, utf16) == byte_len(line.take(k)));
    if unit_len(line) <= utf16 {
        assert(k == line.len());
    }
}

/// One line of context for a usage row.
#[derive(Debug, Clone, PartialEq, Eq)]
pub struct Snippet {
    pub text: String,
    /// Byte offsets into `text`, for underlining the match.
    pub highlight: Option<(u32, u32)>,
    pub truncated: bool,
}

/// The line with its trailing carriage returns removed.
pub open spec fn cr_trimmed(line: Seq<char>) -> Seq<char> {
    trim_cr_end(line)
}

/// The line's visible body: no carriage return, no leading or trailing whitespace.
pub open spec fn body_of(line: Seq<char>) -> Seq<char> {
    let l = cr_trimmed(line);
    trim_white_end(l.skip(leading_white(l) as int))
}

/// The bytes of indentation the body starts after.
pub open spec fn indent_of(line: Seq<char>) -> int {
    let l = cr_trimmed(line);
    byte_len(l.take(leading_white(l) as int)) as int
}

/// Where a UTF-16 range lands in the body, in bytes, or nothing when the range is
/// empty, backwards, or starts inside the indentation the trim removes.
pub open spec fn body_highlight(line: Seq<char>, range: Option<(u32, u32)>) -> Option<(u32, u32)> {
    let l = cr_trimmed(line);
    let indent = indent_of(line);
    let body_end = indent + byte_len(body_of(line));
    match range {
        None => None,
        Some((start, end)) => if end <= start {
            None
        } else {
            let s = utf16_to_byte_spec(l, start as int);
            let e0 = utf16_to_byte_spec(l, end as int);
            let e = if e0 < body_end { e0 } else { body_end };
            if s < indent || e <= s {
                None
            } else {
                Some(((s - indent) as u32, (e - indent) as u32))
            }
        },
    }
}

/// How many of the body's character boundaries lie strictly before byte `x`.
pub open spec fn boundaries_below(s: Seq<char>, x: int) -> nat
    decreases s.len(),
{
    if byte_len(s) < x {
        s.len() + 1
    } else if s.len() == 0 {
        0
    } else {
        boundaries_below(s.drop_last(), x)
    }
}

/// The first character a cut window keeps: a lead of context before the match.
pub open spec fn cut_first(body: Seq<char>, highlight: Option<(u32, u32)>) -> int {
    let m = match highlight {
        Some((start, _)) => boundaries_below(body, start as int) as int,
        None => 0,
    };
    if m >= SNIPPET_LEAD_CHARS { m - SNIPPET_LEAD_CHARS } else { 0 }
}

/// One past the last character a cut window keeps.
pub open spec fn cut_last(body: Seq<char>, highlight: Option<(u32, u32)>) -> int {
    let first = cut_first(body, highlight);
    if first + SNIPPET_MAX_CHARS < body.len() { first + SNIPPET_MAX_CHARS } else { body.len() as int }
}

/// The highlight after a cut: moved with the window, or dropped if the window
/// does not contain it whole.
pub open spec fn cut_highlight(body: Seq<char>, highlight: Option<(u32, u32)>) -> Option<(u32, u32)> {
    let from = byte_len(body.take(cut_first(body, highlight))) as int;
    let to = byte_len(body.take(cut_last(body, highlight))) as int;
    match highlight {
        None => None,
        Some((start, end)) => if start < from || end > to {
            None
        } else {
            Some(((start - from) as u32, (end - from) as u32))
        },
    }
}

pub open spec fn snippet_truncated(line: Seq<char>) -> bool {
    body_of(line).len() > SNIPPET_MAX_CHARS
}

pub open spec fn snippet_text(line: Seq<char>, range: Option<(u32, u32)>) -> Seq<char> {
    let body = body_of(line);
    if !snippet_truncated(line) {
        body
    } else {
        let h = body_highlight(line, range);
        body.subrange(cut_first(body, h), cut_last(body, h))
    }
}

pub open spec fn snippet_highlight(line: Seq<char>, range: Option<(u32, u32)>) -> Option<(u32, u32)> {
    let h = body_highlight(line, range);
    if !snippet_truncated(line) { h } else { cut_highlight(body_of(line), h) }
}

/// The end of `v[..e]` once its trailing carriage returns are gone.
fn cr_end(v: &Vec<char>) -> (e: usize)
    ensures
        e <= v.len(),
        v@.take(e as int) == trim_cr_end(v@),
{
    let mut e = v.len();
    assert(v@.take(e as int) =~= v@);
    while e > 0 && v[e - 1] == '\r'
        invariant
            e <= v.len(),
            trim_cr_end(v@.take(e as int)) == trim_cr_end(v@),
        decreases e,
    {
        assert(v@.take(e as int).drop_last() =~= v@.take(e - 1));
        e = e - 1;
    }
    e
}

/// How many whitespace characters `v[from..to]` starts with, as an index.
fn white_start(v: &Vec<char>, to: usize) -> (a: usize)
    requires
        to <= v.len(),
    ensures
        a <= to,
        a == leading_white(v@.take(to as int)),
{
    let ghost l = v@.take(to as int);
    let mut a: usize = 0;
    assert(l.skip(0) =~= l);
    while a < to && char_is_white(v[a])
        invariant
            a <= to <= v.len(),
            l == v@.take(to as int),
            leading_white(l) == a + leading_white(l.skip(a as int)),
        decreases to - a,
    {
        assert(l.skip(a as int).drop_first() =~= l.skip(a + 1));
        a = a + 1;
    }
    a
}

/// The end of `v[a..e]` without its trailing whitespace.
fn white_end(v: &Vec<char>, a: usize, e: usize) -> (b: usize)
    requires
        a <= e <= v.len(),
    ensures
        a <= b <= e,
        v@.subrange(a as int, b as int) == trim_white_end(v@.subrange(a as int, e as int)),
{
    let mut b = e;
    while b > a && char_is_white(v[b - 1])
        invariant
            a <= b <= e <= v.len(),
            trim_white_end(v@.subrange(a as int, b as int)) == trim_white_end(
                v@.subrange(a as int, e as int),
            ),
        decreases b,
    {
        assert(v@.subrange(a as int, b as int).drop_last() =~= v@.subrange(a as int, b - 1));
        b = b - 1;
    }
    b
}

/// Trim one source line down to something a narrow list can show.
///
/// The indentation goes and the highlight moves with it. A range the trim would
/// cut into loses its highlight rather than having it shifted. A body longer
/// than [`SNIPPET_MAX_CHARS`] characters is cut to a window that keeps the match.
/// Highlights are `u32` byte offsets, so the line must be shorter than 4 GiB.
pub fn snippet(line: &str, range: Option<(u32, u32)>) -> (r: Snippet)
    requires
        byte_len(line@) <= u32::MAX,
    ensures
        r.text@ == snippet_text(line@, range),
        r.highlight == snippet_highlight(line@, range),
        r.truncated == snippet_truncated(line@),
{
    let v = chars_of(line);
    let e = cr_end(&v);
    let ghost l = v@.take(e as int);
    let a = white_start(&v, e);
    let b = white_end(&v, a, e);
    proof {
        assert(l.skip(a as int) =~= v@.subrange(a as int, e as int));
        assert(l.take(a as int) =~= v@.take(a as int));
        lemma_subrange_bytes(v@, a as int, b as int);
        lemma_subrange_bytes(v@, 0, e as int);
        assert(v@.subrange(0, e as int) =~= l);
        assert(v@.subrange(0, a as int) =~= v@.take(a as int));
    }
    let (indent, _) = measure(&v, 0, a);
    let (body_bytes, _) = measure(&v, a, b);
    let highlight = match range {
        None => None,
        Some((start, end)) => {
            if end <= start {
                None
            } else {
                assert(l =~= v@.subrange(0, e as int));
                let ks = fit_units(&v, 0, e, start as usize);
                let ke = fit_units(&v, 0, e, end as usize);
                proof { lemma_subrange_bytes(v@, 0, e as int); }
                let (s, _) = measure(&v, 0, ks);
                let (e0, _) = measure(&v, 0, ke);
                assert(v@.subrange(0, ks as int) =~= l.take(ks as int));
                assert(v@.subrange(0, ke as int) =~= l.take(ke as int));
                let limit = indent + body_bytes;
                let e1 = if e0 < limit { e0 } else { limit };
                if s < indent || e1 <= s {
                    None
                } else {
                    Some(((s - indent) as u32, (e1 - indent) as u32))
                }
            }
        },
    };
    assert(highlight == body_highlight(line@, range));
    if b - a <= SNIPPET_MAX_CHARS {
        let text = line.substring_char(a, b).to_owned();
        Snippet { text, highlight, truncated: false }
    } else {
        proof { lemma_subrange_bytes(v@, 0, e as int); }
        cut(line, &v, a, b, highlight)
    }
}

/// Keep a window of a long body `v[a..b]`, placed so the match survives.
fn cut(line: &str, v: &Vec<char>, a: usize, b: usize, highlight: Option<(u32, u32)>) -> (r: Snippet)
    requires
        v@ == line@,
        addressable(line@),
        a <= b <= v.len(),
        b - a > SNIPPET_MAX_CHARS,
        highlight matches Some((s, e)) ==> s < e,
    ensures
        r.text@ == v@.subrange(a as int, b as int).subrange(
            cut_first(v@.subrange(a as int, b as int), highlight),
            cut_last(v@.subrange(a as int, b as int), highlight),
        ),
        r.highlight == cut_highlight(v@.subrange(a as int, b as int), highlight),
        r.truncated,
{
    let ghost body = v@.subrange(a as int, b as int);
    proof { lemma_subrange_bytes(v@, a as int, b as int); }
    let n = b - a;
    // How many character boundaries of the body lie before the match's start:
    // `m`, or one more than the body has characters when `past` is set.
    let mut m: usize = 0;
    let mut past = false;
    match highlight {
        Some((start, _)) => {
            let mut bytes: usize = 0;
            // Boundaries are the byte offsets of each character, then the end.
            while m < n && bytes < start as usize
                invariant
                    m <= n,
                    n == body.len(),
                    body == v@.subrange(a as int, b as int),
                    a + n == b <= v.len(),
                    byte_len(body) <= usize::MAX,
                    bytes == byte_len(body.take(m as int)),
                    forall|k: int| 0 <= k < m ==> byte_len(#[trigger] body.take(k)) < start,
                decreases n - m,
            {
                proof {
                    lemma_prefix_step(body, m as int);
                    lemma_prefix_monotone(body, (m + 1) as int, n as int);
                    assert(body.take(n as int) =~= body);
                }
                bytes = bytes + char_utf8_width(v[a + m]);
                m = m + 1;
            }
            assert(body.take(n as int) =~= body);
            if m == n && bytes < start as usize {
                past = true;
                proof { lemma_boundaries_below(body, start as int, n + 1); }
            } else {
                proof { lemma_boundaries_below(body, start as int, m as int); }
            }
        },
        None => {},
    }
    let first = if past {
        n - (SNIPPET_LEAD_CHARS - 1)
    } else if m >= SNIPPET_LEAD_CHARS {
        m - SNIPPET_LEAD_CHARS
    } else {
        0
    };
    let last = if first < n - SNIPPET_MAX_CHARS { first + SNIPPET_MAX_CHARS } else { n };
    let (from, _) = measure(v, a, a + first);
    let (to, _) = measure(v, a, a + last);
    assert(v@.subrange(a as int, a + first) =~= body.take(first as int));
    assert(v@.subrange(a as int, a + last) =~= body.take(last as int));
    let text = line.substring_char(a + first, a + last).to_owned();
    assert(text@ =~= body.subrange(first as int, last as int));
    let moved = match highlight {
        None => None,
        Some((start, end)) => {
            if (start as usize) < from || (end as usize) > to {
                None
            } else {
                Some(((start as usize - from) as u32, (end as usize - from) as u32))
            }
        },
    };
    Snippet { text, highlight: moved, truncated: true }
}

proof fn lemma_boundaries_below(s: Seq<char>, x: int, m: int)
    requires
        0 <= m <= s.len() + 1,
        forall|k: int| 0 <= k < m ==> byte_len(#[trigger] s.take(k)) < x,
        m == s.len() + 1 ==> byte_len(s) < x,
        m <= s.len() ==> byte_len(s.take(m)) >= x,
    ensures
        boundaries_below(s, x) == m,
    decreases s.len(),
{
    assert(s.take(s.len() as int) =~= s);
    if byte_len(s) < x {
        if m <= s.len() {
            lemma_prefix_monotone(s, m, s.len() as int);
        }
    } else if s.len() == 0 {
    } else {
        let t = s.drop_last();
        assert forall|k: int| 0 <= k < m implies byte_len(#[trigger] t.take(k)) < x by {
            if k < s.len() {
                assert(t.take(k) =~= s.take(k));
            }
        }
        if m <= t.len() {
            assert(t.take(m) =~= s.take(m));
        }
        if m == t.len() + 1 {
            assert(t =~= s.take(t.len() as int));
        }
        lemma_boundaries_below(t, x, m);
    }
}

// ---------------------------------------------------------------------------
// Whole-document positions
// ---------------------------------------------------------------------------

/// A line terminator character.
pub open spec fn is_break(c: char) -> bool {
    c == '\n' || c == '\r'
}

/// The index of the first line terminator at or after `i`, or the length.
pub open spec fn line_end(s: Seq<char>, i: int) -> int
    decreases s.len() - i,
{
    if i >= s.len() {
        s.len() as int
    } else if is_break(s[i]) {
        i
    } else {
        line_end(s, i + 1)
    }
}

/// How many characters the terminator at `j` takes: `\r\n` is one terminator.
pub open spec fn break_len(s: Seq<char>, j: int) -> int {
    if s[j] == '\r' && j + 1 < s.len() && s[j + 1] == '\n' { 2 } else { 1 }
}

/// The index where 0-based line `n` starts, or nothing when the document has no
/// such line. `\n`, `\r\n` and a lone `\r` each end a line, and a trailing one
/// opens a final empty line.
pub open spec fn line_start(s: Seq<char>, n: nat) -> Option<int>
    decreases n,
{
    if n == 0 {
        Some(0)
    } else {
        match line_start(s, (n - 1) as nat) {
            Some(st) => {
                let e = line_end(s, st);
                if e >= s.len() { None } else { Some(e + break_len(s, e)) }
            },
            None => None,
        }
    }
}

/// The byte offset of an LSP position in a whole document. A line past the end
/// clamps to the end of the document; a column past the end of its line clamps
/// to the end of that line's content, before its terminator.
pub open spec fn byte_offset_spec(s: Seq<char>, line: nat, character: int) -> int {
    match line_start(s, line) {
        None => byte_len(s) as int,
        Some(st) => {
            let content = s.subrange(st, line_end(s, st));
            byte_len(s.take(st)) + utf16_to_byte_spec(content, character)
        },
    }
}

pub proof fn lemma_line_start_bounds(s: Seq<char>, n: nat)
    ensures
        line_start(s, n) matches Some(st) ==> 0 <= st <= s.len(),
    decreases n,
{
    if n > 0 {
        lemma_line_start_bounds(s, (n - 1) as nat);
        if let Some(st) = line_start(s, (n - 1) as nat) {
            lemma_line_end_bounds(s, st);
        }
    }
}

pub proof fn lemma_line_end_bounds(s: Seq<char>, i: int)
    requires
        0 <= i,
    ensures
        i <= line_end(s, i) || i > s.len(),
        line_end(s, i) <= s.len(),
        line_end(s, i) < s.len() ==> is_break(s[line_end(s, i)]),
    decreases s.len() - i,
{
    if i < s.len() && !is_break(s[i]) {
        lemma_line_end_bounds(s, i + 1);
    }
}

/// Scans for the end of the line starting at `st`.
fn find_line_end(v: &Vec<char>, st: usize) -> (e: usize)
    requires
        st <= v.len(),
    ensures
        e == line_end(v@, st as int),
        st <= e <= v.len(),
{
    let mut j = st;
    while j < v.len() && v[j] != '\n' && v[j] != '\r'
        invariant
            st <= j <= v.len(),
            line_end(v@, j as int) == line_end(v@, st as int),
        decreases v.len() - j,
    {
        j = j + 1;
    }
    j
}

/// Where 0-based `line` starts in `v`, or `None` past the last line.
pub fn find_line_start(v: &Vec<char>, line: u32) -> (r: Option<usize>)
    ensures
        match r {
            Some(st) => line_start(v@, line as nat) == Some(st as int) && st <= v.len(),
            None => line_start(v@, line as nat) is None,
        },
{
    let mut cur: usize = 0;
    let mut n: u32 = 0;
    while n < line
        invariant
            n <= line,
            cur <= v.len(),
            line_start(v@, n as nat) == Some(cur as int),
        decreases line - n,
    {
        let e = find_line_end(v, cur);
        if e >= v.len() {
            assert(line_start(v@, (n + 1) as nat) is None);
            proof { lemma_none_stays_none(v@, (n + 1) as nat, line as nat); }
            return None;
        }
        cur = if v[e] == '\r' && e + 1 < v.len() && v[e + 1] == '\n' { e + 2 } else { e + 1 };
        n = n + 1;
    }
    Some(cur)
}

pub proof fn lemma_none_stays_none(s: Seq<char>, n: nat, m: nat)
    requires
        n <= m,
        line_start(s, n) is None,
    ensures
        line_start(s, m) is None,
    decreases m - n,
{
    if n < m {
        lemma_none_stays_none(s, n, (m - 1) as nat);
    }
}

/// The character index of an LSP position in a whole document, clamped as
/// [`byte_offset_spec`] clamps.
pub open spec fn char_offset_spec(s: Seq<char>, line: nat, character: int) -> int {
    match line_start(s, line) {
        None => s.len() as int,
        Some(st) => st + prefix_within_units(s.subrange(st, line_end(s, st)), character),
    }
}

pub proof fn lemma_char_offset_bounds(s: Seq<char>, line: nat, character: int)
    requires
        character >= 0,
    ensures
        0 <= char_offset_spec(s, line, character) <= s.len(),
        byte_offset_spec(s, line, character) == byte_len(s.take(char_offset_spec(s, line, character))),
{
    lemma_line_start_bounds(s, line);
    if let Some(st) = line_start(s, line) {
        lemma_line_end_bounds(s, st);
        let e = line_end(s, st);
        let content = s.subrange(st, e);
        crate::text::lemma_prefix_within_units(content, character);
        let k = prefix_within_units(content, character) as int;
        lemma_byte_len_concat(s.take(st), content.take(k));
        assert(s.take(st) + content.take(k) =~= s.take(st + k));
    } else {
        assert(s.take(s.len() as int) =~= s);
    }
}

/// The character index of an LSP position in `v`. Clamps; never panics.
pub fn char_offset(v: &Vec<char>, line: u32, character: u32) -> (r: usize)
    ensures
        r == char_offset_spec(v@, line as nat, character as int),
        r <= v.len(),
{
    proof { lemma_char_offset_bounds(v@, line as nat, character as int); }
    match find_line_start(v, line) {
        None => v.len(),
        Some(st) => {
            let e = find_line_end(v, st);
            let k = fit_units(v, st, e, character as usize);
            k
        },
    }
}

/// The byte offset of an LSP position in a whole document. Clamps; never panics.
pub fn byte_offset(text: &str, line: u32, character: u32) -> (r: usize)
    ensures
        r == byte_offset_spec(text@, line as nat, character as int),
{
    establish_addressable(text);
    let v = chars_of(text);
    let k = char_offset(&v, line, character);
    proof {
        lemma_char_offset_bounds(v@, line as nat, character as int);
        lemma_subrange_bytes(v@, 0, k as int);
        assert(v@.subrange(0, k as int) =~= v@.take(k as int));
    }
    let (bytes, _) = measure(&v, 0, k);
    bytes
}

} // verus!
