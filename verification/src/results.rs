//! LSP payloads in, the types the frontend reads out.
//!
//! Reading file text is the caller's job and arrives through
//! [`TextProvider`], so every rule here is decided against whatever text the
//! caller has.
//!
//! * Paths are resolved from the URI and compared as paths, never as URI
//!   strings: two servers spell one file two ways.
//! * A location that does not resolve under the root keeps its row, with no
//!   path and the raw URI as its label. Dropping it would make the count
//!   wrong; joining it onto the root would open a different file.
//! * Duplicates go and the order is fixed: placed rows first, then by label,
//!   line and column.
//! * The cap shortens the list, never the count.
//! * A highlight crosses as UTF-16 code units; a snippet is measured in bytes.
use vstd::prelude::*;

use crate::model::{Availability, DeclarationAnchor, DefinitionResult, Highlight, Target, Usage, UsageResult};
use crate::order::{
    arranged, increasing_by, lemma_arranged_exists, lemma_arranged_is, lemma_increasing_distinct,
    lemma_increasing_insert, lemma_lex_irreflexive, lemma_lex_total, lemma_lex_transitive, lemma_to_set_insert,
    lemma_to_set_push, lex_less, strict_total, text_lt,
};
use crate::paths::{relative_to_root, relative_under, root_prefix};
use crate::positions::{
    byte_to_utf16, byte_to_utf16_spec, editor_line, snippet, snippet_highlight, snippet_text, to_editor_line,
};
use crate::protocol::{Location, Range, Symbol, SymbolKind};
use crate::text::{
    byte_len, chars_of, decimal_chars, decimal_string, establish_addressable, lemma_encode_utf8_len, measure, same_text,
    string_of, trim_text, trimmed, unit_len,
};
use crate::uri::{file_path, from_file_uri};
use vstd::string::StringSliceAdditionalSpecFns;
use vstd::utf8::encode_utf8;

verus! {

/// One line of a file, however the caller has it. The path is the absolute
/// one the URI resolved to; a location with no path behind it is never
/// looked up.
pub trait TextProvider {
    /// The line's text without its terminator, or `None` if it cannot be
    /// read. `line_zero_based` is LSP's own numbering.
    fn line(&mut self, path: &str, line_zero_based: u32) -> Option<String>;
}

// ---------------------------------------------------------------------------
// Rows and their order
// ---------------------------------------------------------------------------

/// A location, resolved, as plain values: everything the sort and the dedup
/// read.
pub ghost struct RowKey {
    /// No path under the root: another scheme, or outside the workspace.
    pub unplaced: bool,
    /// The workspace-relative path, or the raw URI of an unplaced row.
    pub label: Seq<char>,
    pub line: u32,
    pub character: u32,
    pub end_line: u32,
    pub end_character: u32,
}

/// The row a location makes under `root`.
pub open spec fn row_of(root: Seq<char>, uri: Seq<char>, range: Range) -> RowKey {
    let relative = match file_path(encode_utf8(uri)) {
        Some(a) => relative_under(root, a),
        None => None,
    };
    RowKey {
        unplaced: relative is None,
        label: match relative {
            Some(p) => p,
            None => uri,
        },
        line: range.start.line,
        character: range.start.character,
        end_line: range.end.line,
        end_character: range.end.character,
    }
}

pub open spec fn rows_of(root: Seq<char>, locations: Seq<Location>) -> Seq<RowKey> {
    locations.map_values(|l: Location| row_of(root, l.uri@, l.range))
}

/// Placed rows first, then label, line, column, and the end for a total
/// order.
pub open spec fn key_lt(a: RowKey, b: RowKey) -> bool {
    if a.unplaced != b.unplaced {
        !a.unplaced
    } else if a.label != b.label {
        text_lt(a.label, b.label)
    } else if a.line != b.line {
        a.line < b.line
    } else if a.character != b.character {
        a.character < b.character
    } else if a.end_line != b.end_line {
        a.end_line < b.end_line
    } else {
        a.end_character < b.end_character
    }
}

pub open spec fn by_key() -> spec_fn(RowKey, RowKey) -> bool {
    |a: RowKey, b: RowKey| key_lt(a, b)
}

/// The distinct rows of a group of locations, in order.
pub open spec fn ordered_rows(root: Seq<char>, locations: Seq<Location>) -> Seq<RowKey> {
    arranged(rows_of(root, locations).to_set(), by_key())
}

pub proof fn lemma_key_order()
    ensures
        strict_total(by_key()),
{
    let lt = by_key();
    assert forall|x: RowKey| !#[trigger] lt(x, x) by {
        lemma_lex_irreflexive(x.label, false);
    }
    assert forall|x: RowKey, y: RowKey, z: RowKey| #[trigger] lt(x, y) && #[trigger] lt(y, z) implies lt(x, z) by {
        if x.unplaced == y.unplaced && y.unplaced == z.unplaced {
            if x.label != y.label && y.label != z.label {
                lemma_lex_transitive(x.label, y.label, z.label, false);
                if x.label == z.label {
                    lemma_lex_irreflexive(x.label, false);
                }
            } else if x.label != y.label && y.label == z.label {
            } else if x.label == y.label && y.label != z.label {
            }
        }
    }
    assert forall|x: RowKey, y: RowKey| x != y implies #[trigger] lt(x, y) || #[trigger] lt(y, x) by {
        if x.unplaced == y.unplaced && x.label != y.label {
            lemma_lex_total(x.label, y.label, false);
        }
    }
}

/// A resolved location.
#[derive(Debug, Clone, PartialEq, Eq)]
pub struct Resolved {
    /// Workspace-relative. `None` when the location is outside the root or
    /// in a non-`file:` document.
    pub path: Option<String>,
    /// The absolute path, kept only to read text with.
    pub absolute: Option<String>,
    pub label: String,
    pub line: u32,
    pub character: u32,
    pub end_line: u32,
    pub end_character: u32,
}

impl Resolved {
    pub open spec fn key(self) -> RowKey {
        RowKey {
            unplaced: self.path is None,
            label: self.label@,
            line: self.line,
            character: self.character,
            end_line: self.end_line,
            end_character: self.end_character,
        }
    }

    /// The path is the label, and the absolute path is the root's joined
    /// onto it; an unplaced row has neither.
    pub open spec fn wf(self, root: Seq<char>) -> bool {
        &&& self.path is Some <==> self.absolute is Some
        &&& self.path matches Some(p) ==> p@ == self.label@
        &&& self.absolute matches Some(a) ==> a@ == root_prefix(root) + self.label@
    }
}

pub open spec fn keys(rows: Seq<Resolved>) -> Seq<RowKey> {
    rows.map_values(|r: Resolved| r.key())
}

/// Turn one location into a row, resolving its URI to a path or abstaining.
pub fn resolve(root: &str, location: &Location) -> (r: Resolved)
    ensures
        r.key() == row_of(root@, location.uri@, location.range),
        r.wf(root@),
{
    let absolute = from_file_uri(location.uri.as_str());
    let relative = match &absolute {
        Some(a) => relative_to_root(root, a.as_str()),
        None => None,
    };
    match relative {
        Some(p) => {
            let label = p.clone();
            let a = match absolute {
                Some(a) => a,
                None => String::new(),
            };
            assert(a@ == root_prefix(root@) + p@) by {
                let pre = root_prefix(root@);
                assert(a@ =~= a@.take(pre.len() as int) + a@.skip(pre.len() as int));
            }
            Resolved {
                path: Some(p),
                absolute: Some(a),
                label,
                line: location.range.start.line,
                character: location.range.start.character,
                end_line: location.range.end.line,
                end_character: location.range.end.character,
            }
        },
        None => Resolved {
            path: None,
            absolute: None,
            label: location.uri.clone(),
            line: location.range.start.line,
            character: location.range.start.character,
            end_line: location.range.end.line,
            end_character: location.range.end.character,
        },
    }
}

fn key_less(a: &Resolved, b: &Resolved) -> (r: bool)
    ensures
        r == key_lt(a.key(), b.key()),
{
    let au = a.path.is_none();
    let bu = b.path.is_none();
    if au != bu {
        return !au;
    }
    if !same_text(a.label.as_str(), b.label.as_str()) {
        return lex_less(a.label.as_str(), b.label.as_str(), false);
    }
    if a.line != b.line {
        return a.line < b.line;
    }
    if a.character != b.character {
        return a.character < b.character;
    }
    if a.end_line != b.end_line {
        return a.end_line < b.end_line;
    }
    a.end_character < b.end_character
}

fn same_key(a: &Resolved, b: &Resolved) -> (r: bool)
    ensures
        r == (a.key() == b.key()),
{
    a.path.is_none() == b.path.is_none() && same_text(a.label.as_str(), b.label.as_str()) && a.line == b.line
        && a.character == b.character && a.end_line == b.end_line && a.end_character == b.end_character
}

/// Resolve, deduplicate and order a group of locations.
fn ordered(root: &str, locations: &[Location]) -> (r: Vec<Resolved>)
    ensures
        keys(r@) == ordered_rows(root@, locations@),
        forall|i: int| 0 <= i < r@.len() ==> (#[trigger] r@[i]).wf(root@),
{
    proof {
        lemma_key_order();
    }
    let mut out: Vec<Resolved> = Vec::new();
    let mut i: usize = 0;
    assert(keys(out@).to_set() =~= rows_of(root@, locations@.take(0)).to_set());
    while i < locations.len()
        invariant
            i <= locations@.len(),
            strict_total(by_key()),
            increasing_by(keys(out@), by_key()),
            keys(out@).to_set() == rows_of(root@, locations@.take(i as int)).to_set(),
            forall|k: int| 0 <= k < out@.len() ==> (#[trigger] out@[k]).wf(root@),
        decreases locations@.len() - i,
    {
        let row = resolve(root, &locations[i]);
        let ghost before = keys(out@);
        assert(rows_of(root@, locations@.take(i + 1)) =~= rows_of(root@, locations@.take(i as int)).push(row.key()));
        proof {
            lemma_to_set_push(rows_of(root@, locations@.take(i as int)), row.key());
        }
        let mut p: usize = 0;
        while p < out.len() && key_less(&out[p], &row)
            invariant
                p <= out@.len(),
                keys(out@) == before,
                forall|k: int| 0 <= k < p ==> key_lt(#[trigger] before[k], row.key()),
            decreases out@.len() - p,
        {
            assert(before[p as int] == out@[p as int].key());
            p = p + 1;
        }
        if p < out.len() && same_key(&out[p], &row) {
            assert(before[p as int] == row.key());
            assert(before.to_set().contains(row.key()));
            assert(before.to_set().insert(row.key()) =~= before.to_set());
        } else {
            proof {
                if p < out@.len() {
                    assert(before[p as int] == out@[p as int].key());
                    assert(!key_lt(before[p as int], row.key()));
                    assert(before[p as int] != row.key());
                    assert((by_key())(before[p as int], row.key()) || (by_key())(row.key(), before[p as int]));
                    assert(key_lt(row.key(), before[p as int]));
                }
                lemma_increasing_insert(before, p as int, row.key(), by_key());
                lemma_to_set_insert(before, p as int, row.key());
            }
            out.insert(p, row);
            assert(keys(out@) =~= before.insert(p as int, row.key()));
        }
        i = i + 1;
    }
    assert(locations@.take(locations@.len() as int) =~= locations@);
    proof {
        lemma_arranged_is(keys(out@), rows_of(root@, locations@).to_set(), by_key());
    }
    out
}

// ---------------------------------------------------------------------------
// Snippets
// ---------------------------------------------------------------------------

/// The snippet and underline a row gets from the text of its line: nothing
/// for a row with no path or a line that could not be read. A range ending
/// on a later line underlines to the end of this one; the underline crosses
/// as UTF-16 code units within the snippet.
pub open spec fn context_spec(k: RowKey, source: Option<Seq<char>>) -> (Seq<char>, Option<Highlight>) {
    if k.unplaced {
        (Seq::empty(), None)
    } else {
        match source {
            None => (Seq::empty(), None),
            Some(s) => if byte_len(s) > u32::MAX {
                (Seq::empty(), None)
            } else {
                let end = if k.end_line == k.line {
                    k.end_character
                } else {
                    unit_len(s) as u32
                };
                let text = snippet_text(s, Some((k.character, end)));
                (
                    text,
                    match snippet_highlight(s, Some((k.character, end))) {
                        Some((a, b)) => Some(
                            Highlight {
                                start: byte_to_utf16_spec(text, a as int) as u32,
                                end: byte_to_utf16_spec(text, b as int) as u32,
                            },
                        ),
                        None => None,
                    },
                )
            },
        }
    }
}

pub open spec fn text_of(s: Option<String>) -> Option<Seq<char>> {
    match s {
        Some(t) => Some(t@),
        None => None,
    }
}

/// The snippet and underline for one row, given the text the caller had for
/// its line.
pub fn context(row: &Resolved, source: Option<String>) -> (r: (String, Option<Highlight>))
    ensures
        (r.0@, r.1) == context_spec(row.key(), text_of(source)),
{
    if row.path.is_none() {
        return (String::new(), None);
    }
    let source = match source {
        Some(s) => s,
        None => {
            return (String::new(), None);
        },
    };
    proof {
        lemma_encode_utf8_len(source@);
    }
    if source.as_str().as_bytes().len() > 4294967295 {
        return (String::new(), None);
    }
    let end = if row.end_line == row.line {
        row.end_character
    } else {
        establish_addressable(source.as_str());
        let v = chars_of(source.as_str());
        let (_, units) = measure(&v, 0, v.len());
        assert(v@.subrange(0, v@.len() as int) =~= v@);
        units as u32
    };
    let s = snippet(source.as_str(), Some((row.character, end)));
    let highlight = match s.highlight {
        Some((a, b)) => Some(
            Highlight { start: byte_to_utf16(s.text.as_str(), a as usize), end: byte_to_utf16(s.text.as_str(), b as usize) },
        ),
        None => None,
    };
    (s.text, highlight)
}

/// One line asked of a [`TextProvider`], with the answer it got.
pub ghost struct LineCall {
    pub path: Seq<char>,
    pub line: u32,
    pub answer: Option<Seq<char>>,
}

/// Several runs of questions, one after another.
pub open spec fn concat_calls(segs: Seq<Seq<LineCall>>) -> Seq<LineCall>
    decreases segs.len(),
{
    if segs.len() == 0 {
        Seq::empty()
    } else {
        concat_calls(segs.drop_last()) + segs.last()
    }
}

/// The question a row puts: a placed row asks for its own line of its file
/// under the root; an unplaced one asks nothing.
pub open spec fn row_asks(root: Seq<char>, k: RowKey, seg: Seq<LineCall>) -> bool {
    if k.unplaced {
        seg.len() == 0
    } else {
        seg.len() == 1 && seg[0].path == root_prefix(root) + k.label && seg[0].line == k.line
    }
}

/// What a row's question was answered: nothing when it asked nothing.
pub open spec fn row_answer(seg: Seq<LineCall>) -> Option<Seq<char>> {
    if seg.len() == 1 {
        seg[0].answer
    } else {
        None
    }
}

fn ask_line<T: TextProvider + ?Sized>(text: &mut T, path: &str, line: u32, log: &mut Ghost<Seq<LineCall>>) -> (r:
    Option<String>)
    ensures
        final(log)@ == old(log)@.push(LineCall { path: path@, line, answer: text_of(r) }),
{
    let r = text.line(path, line);
    *log = Ghost(log@.push(LineCall { path: path@, line, answer: text_of(r) }));
    r
}

/// Ask the caller for a row's line: only a row with a path is looked up,
/// and then for the row's own line of it.
fn context_of<T: TextProvider + ?Sized>(
    row: &Resolved,
    text: &mut T,
    Ghost(root): Ghost<Seq<char>>,
    log: &mut Ghost<Seq<LineCall>>,
) -> (r: (String, Option<Highlight>))
    requires
        row.wf(root),
    ensures
        exists|seg: Seq<LineCall>|
            final(log)@ == old(log)@ + seg && #[trigger] row_asks(root, row.key(), seg) && (r.0@, r.1) == context_spec(
                row.key(),
                row_answer(seg),
            ),
{
    let ghost start = log@;
    let source = match &row.absolute {
        Some(a) => ask_line(text, a.as_str(), row.line, log),
        None => None,
    };
    let ghost sv = text_of(source);
    let r = context(row, source);
    proof {
        let seg = log@.skip(start.len() as int);
        assert(log@ =~= start + seg);
        assert(row_asks(root, row.key(), seg));
        assert(row_answer(seg) == sv);
    }
    r
}

// ---------------------------------------------------------------------------
// Usages
// ---------------------------------------------------------------------------

/// What a usage row says about its location.
pub open spec fn usage_of(u: Usage, k: RowKey) -> bool {
    &&& (u.path matches Some(p) ==> !k.unplaced && p@ == k.label)
    &&& (u.path is None ==> k.unplaced)
    &&& u.label@ == k.label
    &&& u.line == editor_line(k.line)
    &&& exists|source: Option<Seq<char>>| (u.snippet@, u.highlight) == context_spec(k, source)
}

/// The count a list of rows reports: its length, saturating at `u32::MAX`.
pub open spec fn count_of(n: nat) -> u32 {
    if n > u32::MAX { u32::MAX } else { n as u32 }
}

/// Every use site, as the usages list: the distinct rows in order, at most
/// `cap` of them, and the true count of all of them.
pub fn usages<T: TextProvider + ?Sized>(root: &str, locations: &[Location], text: &mut T, cap: usize) -> (r:
    UsageResult)
    ensures
        ({
            let rows = ordered_rows(root@, locations@);
            &&& r.outcome == Availability::Ready
            &&& r.total == Some(count_of(rows.len()))
            &&& r.truncated == (rows.len() > cap)
            &&& r.usages@.len() == if rows.len() > cap { cap as nat } else { rows.len() }
            &&& forall|i: int| 0 <= i < r.usages@.len() ==> usage_of(#[trigger] r.usages@[i], rows[i])
            &&& r.message is None
            &&& r.server is None
        }),
{
    let mut log: Ghost<Seq<LineCall>> = Ghost(Seq::empty());
    usages_traced(root, locations, text, cap, &mut log)
}

/// [`usages`], with every line asked of `text` and its answer put on `log`:
/// each shown row, in order, asks for its own line, and its snippet is
/// made from that answer.
pub fn usages_traced<T: TextProvider + ?Sized>(
    root: &str,
    locations: &[Location],
    text: &mut T,
    cap: usize,
    log: &mut Ghost<Seq<LineCall>>,
) -> (r: UsageResult)
    ensures
        ({
            let rows = ordered_rows(root@, locations@);
            &&& r.outcome == Availability::Ready
            &&& r.total == Some(count_of(rows.len()))
            &&& r.truncated == (rows.len() > cap)
            &&& r.usages@.len() == if rows.len() > cap { cap as nat } else { rows.len() }
            &&& forall|i: int| 0 <= i < r.usages@.len() ==> usage_of(#[trigger] r.usages@[i], rows[i])
            &&& r.message is None
            &&& r.server is None
            &&& exists|segs: Seq<Seq<LineCall>>|
                segs.len() == r.usages@.len() && final(log)@ == old(log)@ + concat_calls(segs) && forall|i: int|
                    0 <= i < segs.len() ==> row_asks(root@, rows[i], #[trigger] segs[i]) && (
                    r.usages@[i].snippet@,
                    r.usages@[i].highlight,
                ) == context_spec(rows[i], row_answer(segs[i]))
        }),
{
    let ghost start = log@;
    let rows = ordered(root, locations);
    let ghost ks = keys(rows@);
    let total: u32 = if rows.len() > 4294967295 { 4294967295 } else { rows.len() as u32 };
    let truncated = rows.len() > cap;
    let shown = if truncated { cap } else { rows.len() };
    let mut list: Vec<Usage> = Vec::new();
    let ghost mut segs: Seq<Seq<LineCall>> = Seq::empty();
    assert(log@ =~= start + concat_calls(segs));
    let mut i: usize = 0;
    while i < shown
        invariant
            i <= shown <= rows@.len(),
            ks == keys(rows@),
            list@.len() == i,
            segs.len() == i,
            log@ == start + concat_calls(segs),
            forall|k: int| 0 <= k < i ==> usage_of(#[trigger] list@[k], ks[k]),
            forall|k: int|
                0 <= k < i ==> row_asks(root@, ks[k], #[trigger] segs[k]) && (list@[k].snippet@, list@[k].highlight)
                    == context_spec(ks[k], row_answer(segs[k])),
            forall|k: int| 0 <= k < rows@.len() ==> (#[trigger] rows@[k]).wf(root@),
        decreases shown - i,
    {
        let row = &rows[i];
        let ghost before = log@;
        let (snippet_text, highlight) = context_of(row, text, Ghost(root@), log);
        let ghost seg = choose|seg: Seq<LineCall>|
            log@ == before + seg && #[trigger] row_asks(root@, row.key(), seg) && (snippet_text@, highlight) == context_spec(
                row.key(),
                row_answer(seg),
            );
        let u = Usage {
            path: match &row.path {
                Some(p) => Some(p.clone()),
                None => None,
            },
            label: row.label.clone(),
            line: to_editor_line(row.line),
            snippet: snippet_text,
            highlight,
        };
        assert(ks[i as int] == row.key());
        let ghost list_before = list@;
        list.push(u);
        proof {
            let next = segs.push(seg);
            assert(next.drop_last() =~= segs);
            assert(log@ =~= start + concat_calls(next));
            assert forall|k: int|
                0 <= k < i + 1 implies row_asks(root@, ks[k], #[trigger] next[k]) && (list@[k].snippet@, list@[k].highlight)
                    == context_spec(ks[k], row_answer(next[k])) by {
                if k < i {
                    assert(next[k] == segs[k]);
                    assert(list@[k] == list_before[k]);
                }
            }
            segs = next;
        }
        i = i + 1;
    }
    UsageResult { outcome: Availability::Ready, total: Some(total), usages: list, truncated, message: None, server: None }
}

// ---------------------------------------------------------------------------
// Goto
// ---------------------------------------------------------------------------

/// What a target row says about its location: no enclosing declaration is
/// invented for a bare location.
pub open spec fn target_of(t: Target, k: RowKey) -> bool {
    &&& (t.path matches Some(p) ==> !k.unplaced && p@ == k.label)
    &&& (t.path is None ==> k.unplaced)
    &&& t.label@ == k.label
    &&& t.line == editor_line(k.line)
    &&& t.character == k.character
    &&& t.container is None
    &&& exists|source: Option<Seq<char>>| t.snippet@ == context_spec(k, source).0
}

pub open spec fn group_of(ts: Seq<Target>, rows: Seq<RowKey>) -> bool {
    &&& ts.len() == rows.len()
    &&& forall|i: int| 0 <= i < ts.len() ==> target_of(#[trigger] ts[i], rows[i])
}

/// The lines a group of targets asked, one run per row in order, each
/// target's snippet made from its row's answer.
pub open spec fn group_asks(root: Seq<char>, ts: Seq<Target>, rows: Seq<RowKey>, segs: Seq<Seq<LineCall>>) -> bool {
    &&& segs.len() == rows.len()
    &&& ts.len() == rows.len()
    &&& forall|i: int|
        0 <= i < segs.len() ==> row_asks(root, rows[i], #[trigger] segs[i]) && ts[i].snippet@ == context_spec(
            rows[i],
            row_answer(segs[i]),
        ).0
}

fn group<T: TextProvider + ?Sized>(root: &str, locations: &[Location], text: &mut T, log: &mut Ghost<Seq<LineCall>>) -> (r:
    Vec<Target>)
    ensures
        group_of(r@, ordered_rows(root@, locations@)),
        exists|segs: Seq<Seq<LineCall>>|
            final(log)@ == old(log)@ + concat_calls(segs) && #[trigger] group_asks(
                root@,
                r@,
                ordered_rows(root@, locations@),
                segs,
            ),
{
    let ghost start = log@;
    let rows = ordered(root, locations);
    let ghost ks = keys(rows@);
    let mut list: Vec<Target> = Vec::new();
    let ghost mut segs: Seq<Seq<LineCall>> = Seq::empty();
    assert(log@ =~= start + concat_calls(segs));
    let mut i: usize = 0;
    while i < rows.len()
        invariant
            i <= rows@.len(),
            ks == keys(rows@),
            list@.len() == i,
            segs.len() == i,
            log@ == start + concat_calls(segs),
            forall|k: int| 0 <= k < i ==> target_of(#[trigger] list@[k], ks[k]),
            forall|k: int|
                0 <= k < i ==> row_asks(root@, ks[k], #[trigger] segs[k]) && list@[k].snippet@ == context_spec(
                    ks[k],
                    row_answer(segs[k]),
                ).0,
            forall|k: int| 0 <= k < rows@.len() ==> (#[trigger] rows@[k]).wf(root@),
        decreases rows@.len() - i,
    {
        let row = &rows[i];
        let ghost before = log@;
        let (snippet_text, highlight) = context_of(row, text, Ghost(root@), log);
        let ghost seg = choose|seg: Seq<LineCall>|
            log@ == before + seg && #[trigger] row_asks(root@, row.key(), seg) && (snippet_text@, highlight) == context_spec(
                row.key(),
                row_answer(seg),
            );
        let t = Target {
            path: match &row.path {
                Some(p) => Some(p.clone()),
                None => None,
            },
            label: row.label.clone(),
            line: to_editor_line(row.line),
            character: row.character,
            snippet: snippet_text,
            container: None,
        };
        assert(ks[i as int] == row.key());
        let ghost list_before = list@;
        list.push(t);
        proof {
            let next = segs.push(seg);
            assert(next.drop_last() =~= segs);
            assert(log@ =~= start + concat_calls(next));
            assert forall|k: int|
                0 <= k < i + 1 implies row_asks(root@, ks[k], #[trigger] next[k]) && list@[k].snippet@ == context_spec(
                    ks[k],
                    row_answer(next[k]),
                ).0 by {
                if k < i {
                    assert(next[k] == segs[k]);
                    assert(list@[k] == list_before[k]);
                }
            }
            segs = next;
        }
        i = i + 1;
    }
    assert(group_asks(root@, list@, ks, segs));
    list
}

/// The three goto answers, as somewhere to jump to. Duplicates go within a
/// group and never across groups: one location may be both a declaration
/// and an implementation.
pub fn targets<T: TextProvider + ?Sized>(
    root: &str,
    definitions: &[Location],
    implementations: &[Location],
    type_definitions: &[Location],
    text: &mut T,
) -> (r: DefinitionResult)
    ensures
        r.outcome == Availability::Ready,
        group_of(r.declarations@, ordered_rows(root@, definitions@)),
        group_of(r.implementations@, ordered_rows(root@, implementations@)),
        group_of(r.type_definitions@, ordered_rows(root@, type_definitions@)),
        r.message is None,
{
    let mut log: Ghost<Seq<LineCall>> = Ghost(Seq::empty());
    targets_traced(root, definitions, implementations, type_definitions, text, &mut log)
}

/// [`targets`], with every line asked of `text` and its answer put on
/// `log`: the declarations' rows, then the implementations', then the type
/// definitions', each asking for its own line, each snippet made from its
/// row's answer.
pub fn targets_traced<T: TextProvider + ?Sized>(
    root: &str,
    definitions: &[Location],
    implementations: &[Location],
    type_definitions: &[Location],
    text: &mut T,
    log: &mut Ghost<Seq<LineCall>>,
) -> (r: DefinitionResult)
    ensures
        r.outcome == Availability::Ready,
        group_of(r.declarations@, ordered_rows(root@, definitions@)),
        group_of(r.implementations@, ordered_rows(root@, implementations@)),
        group_of(r.type_definitions@, ordered_rows(root@, type_definitions@)),
        r.message is None,
        exists|a: Seq<Seq<LineCall>>, b: Seq<Seq<LineCall>>, c: Seq<Seq<LineCall>>|
            final(log)@ == old(log)@ + concat_calls(a) + concat_calls(b) + concat_calls(c) && #[trigger] group_asks(
                root@,
                r.declarations@,
                ordered_rows(root@, definitions@),
                a,
            ) && #[trigger] group_asks(root@, r.implementations@, ordered_rows(root@, implementations@), b)
                && #[trigger] group_asks(root@, r.type_definitions@, ordered_rows(root@, type_definitions@), c),
{
    let ghost l0 = log@;
    let declarations = group(root, definitions, text, log);
    let ghost l1 = log@;
    let implemented = group(root, implementations, text, log);
    let ghost l2 = log@;
    let typed = group(root, type_definitions, text, log);
    proof {
        let a = choose|a: Seq<Seq<LineCall>>|
            l1 == l0 + concat_calls(a) && #[trigger] group_asks(root@, declarations@, ordered_rows(root@, definitions@), a);
        let b = choose|b: Seq<Seq<LineCall>>|
            l2 == l1 + concat_calls(b) && #[trigger] group_asks(
                root@,
                implemented@,
                ordered_rows(root@, implementations@),
                b,
            );
        let c = choose|c: Seq<Seq<LineCall>>|
            log@ == l2 + concat_calls(c) && #[trigger] group_asks(
                root@,
                typed@,
                ordered_rows(root@, type_definitions@),
                c,
            );
        assert(log@ =~= l0 + concat_calls(a) + concat_calls(b) + concat_calls(c));
    }
    DefinitionResult {
        outcome: Availability::Ready,
        declarations,
        implementations: implemented,
        type_definitions: typed,
        message: None,
    }
}

// ---------------------------------------------------------------------------
// Anchors
// ---------------------------------------------------------------------------

/// Kinds that can contain members.
pub open spec fn is_type_kind(k: SymbolKind) -> bool {
    match k {
        SymbolKind::Class | SymbolKind::Struct | SymbolKind::Enum | SymbolKind::Interface | SymbolKind::Trait
        | SymbolKind::Type => true,
        _ => false,
    }
}

/// The kind filed under a name: the last symbol of that name wins, as in a
/// map built from the list.
pub open spec fn kind_named(symbols: Seq<Symbol>, name: Seq<char>) -> Option<SymbolKind>
    decreases symbols.len(),
{
    if symbols.len() == 0 {
        None
    } else if symbols.last().name@ == name {
        Some(symbols.last().kind)
    } else {
        kind_named(symbols.drop_last(), name)
    }
}

/// Whether a declaration earns an inline row: types and callables always;
/// named storage only when the declaration enclosing it is a type of this
/// file; a namespace and an unplaced line never.
pub open spec fn admits_spec(symbol: Symbol, symbols: Seq<Symbol>) -> bool {
    match symbol.kind {
        SymbolKind::Function | SymbolKind::Class | SymbolKind::Struct | SymbolKind::Enum | SymbolKind::Interface
        | SymbolKind::Trait | SymbolKind::Type => true,
        SymbolKind::Property | SymbolKind::Variable | SymbolKind::Constant => symbol.container@.len() > 0 && match kind_named(
            symbols,
            symbol.container@.last()@,
        ) {
            Some(k) => is_type_kind(k),
            None => false,
        },
        SymbolKind::Namespace | SymbolKind::Other => false,
    }
}

/// The declarations that earn a row, in the order the server listed them.
pub open spec fn admitted(symbols: Seq<Symbol>) -> Seq<Symbol> {
    symbols.filter(|x: Symbol| admits_spec(x, symbols))
}

/// The name at `j` is the last symbol of the file with that name.
pub open spec fn last_named(symbols: Seq<Symbol>, j: int, name: Seq<char>) -> bool {
    &&& 0 <= j < symbols.len()
    &&& symbols[j].name@ == name
    &&& forall|k: int| j < k < symbols.len() ==> (#[trigger] symbols[k]).name@ != name
}

proof fn lemma_kind_named_last(symbols: Seq<Symbol>, j: int, name: Seq<char>)
    requires
        last_named(symbols, j, name),
    ensures
        kind_named(symbols, name) == Some(symbols[j].kind),
    decreases symbols.len(),
{
    if j < symbols.len() - 1 {
        assert(symbols[symbols.len() - 1].name@ != name);
        let t = symbols.drop_last();
        assert(t[j] == symbols[j]);
        assert forall|k: int| j < k < t.len() implies (#[trigger] t[k]).name@ != name by {
            assert(t[k] == symbols[k]);
        }
        lemma_kind_named_last(t, j, name);
    }
}

proof fn lemma_kind_named_absent(symbols: Seq<Symbol>, name: Seq<char>)
    requires
        forall|k: int| 0 <= k < symbols.len() ==> (#[trigger] symbols[k]).name@ != name,
    ensures
        kind_named(symbols, name) is None,
    decreases symbols.len(),
{
    if symbols.len() > 0 {
        let t = symbols.drop_last();
        assert(symbols[symbols.len() - 1].name@ != name);
        assert forall|k: int| 0 <= k < t.len() implies (#[trigger] t[k]).name@ != name by {
            assert(t[k] == symbols[k]);
        }
        lemma_kind_named_absent(t, name);
    }
}

/// Law: which declarations of a file earn an inline usage row. Every type
/// (class, struct, enum, interface, trait, type alias) and every callable
/// does; a namespace, and anything of no known kind, never does. Named
/// storage (a property, a variable, a constant such as an enum member) does
/// exactly when the declaration its last container names, taken as the last
/// symbol of the file with that name, is a class, struct, enum, interface,
/// trait or type alias; storage with no container, or whose container the
/// file does not declare, gets none. So a struct's field, an enum's member
/// and a class's property each get a row, and a function's local does not.
pub proof fn law_rows_go_to_types_callables_and_their_storage(symbols: Seq<Symbol>, i: int, j: int)
    requires
        0 <= i < symbols.len(),
    ensures
        ({
            let x = symbols[i];
            let row = admitted(symbols).contains(x);
            let storage = x.kind == SymbolKind::Property || x.kind == SymbolKind::Variable || x.kind
                == SymbolKind::Constant;
            &&& (x.kind == SymbolKind::Function || x.kind == SymbolKind::Class || x.kind == SymbolKind::Struct
                || x.kind == SymbolKind::Enum || x.kind == SymbolKind::Interface || x.kind == SymbolKind::Trait
                || x.kind == SymbolKind::Type) ==> row
            &&& (x.kind == SymbolKind::Namespace || x.kind == SymbolKind::Other) ==> !row
            &&& storage && x.container@.len() == 0 ==> !row
            &&& storage && x.container@.len() > 0 && last_named(symbols, j, x.container@.last()@) ==> (row <==> (
            symbols[j].kind == SymbolKind::Class || symbols[j].kind == SymbolKind::Struct || symbols[j].kind
                == SymbolKind::Enum || symbols[j].kind == SymbolKind::Interface || symbols[j].kind
                == SymbolKind::Trait || symbols[j].kind == SymbolKind::Type))
            &&& storage && x.container@.len() > 0 && (forall|k: int|
                0 <= k < symbols.len() ==> (#[trigger] symbols[k]).name@ != x.container@.last()@) ==> !row
        }),
{
    let x = symbols[i];
    let pred = |y: Symbol| admits_spec(y, symbols);
    symbols.filter_lemma(pred);
    assert(symbols.contains(x));
    if admits_spec(x, symbols) {
        assert(symbols.filter(pred).contains(x)) by {
            lemma_filter_keeps(symbols, pred, i);
        }
    }
    if x.container@.len() > 0 {
        let c = x.container@.last()@;
        if last_named(symbols, j, c) {
            lemma_kind_named_last(symbols, j, c);
        }
        if forall|k: int| 0 <= k < symbols.len() ==> (#[trigger] symbols[k]).name@ != c {
            lemma_kind_named_absent(symbols, c);
        }
    }
}

proof fn lemma_filter_keeps(s: Seq<Symbol>, pred: spec_fn(Symbol) -> bool, i: int)
    requires
        0 <= i < s.len(),
        pred(s[i]),
    ensures
        s.filter(pred).contains(s[i]),
    decreases s.len(),
{
    reveal(Seq::filter);
    if i < s.len() - 1 {
        lemma_filter_keeps(s.drop_last(), pred, i);
        assert(s.drop_last()[i] == s[i]);
        let f = s.drop_last().filter(pred);
        let k = choose|k: int| 0 <= k < f.len() && f[k] == s[i];
        if pred(s.last()) {
            assert(s.filter(pred)[k] == s[i]);
        }
    } else {
        assert(s.filter(pred).last() == s[i]);
    }
}

/// `container.name@line:character`, on LSP's 0-based numbering.
pub open spec fn base_id(symbol: Symbol) -> Seq<char> {
    (if symbol.container@.len() > 0 {
        symbol.container@.last()@ + seq!['.']
    } else {
        Seq::empty()
    }) + symbol.name@ + seq!['@'] + decimal_chars(symbol.selection_range.start.line as nat) + seq![':']
        + decimal_chars(symbol.selection_range.start.character as nat)
}

/// How often `x` occurs in `s`.
pub open spec fn count_in(s: Seq<Seq<char>>, x: Seq<char>) -> nat
    decreases s.len(),
{
    if s.len() == 0 {
        0
    } else {
        count_in(s.drop_last(), x) + if s.last() == x {
            1nat
        } else {
            0nat
        }
    }
}

/// The id of the `i`th admitted declaration: its base, and for a repeat of
/// an exact duplicate the number of earlier ones after a `#`.
pub open spec fn anchor_id(bases: Seq<Seq<char>>, i: int) -> Seq<char> {
    let n = count_in(bases.take(i), bases[i]);
    if n == 0 {
        bases[i]
    } else {
        bases[i] + seq!['#'] + decimal_chars(n)
    }
}

/// Where `c` first occurs, if it does.
pub open spec fn first_char(s: Seq<char>, c: char) -> Option<int>
    decreases s.len(),
{
    if s.len() == 0 {
        None
    } else if s[0] == c {
        Some(0)
    } else {
        match first_char(s.drop_first(), c) {
            Some(i) => Some(i + 1),
            None => None,
        }
    }
}

/// Where ` : ` first occurs at or after `i`, if it does.
pub open spec fn colon_from(s: Seq<char>, i: int) -> Option<int>
    decreases s.len() - i,
{
    if i < 0 || i + 3 > s.len() {
        None
    } else if s[i] == ' ' && s[i + 1] == ':' && s[i + 2] == ' ' {
        Some(i)
    } else {
        colon_from(s, i + 1)
    }
}

/// The identifier out of whatever the server called the symbol: a parameter
/// list goes, or failing one a trailing ` : type`; generic parameters stay.
pub open spec fn bare_name_spec(name: Seq<char>) -> Seq<char> {
    let head = match first_char(name, '(') {
        Some(i) => name.take(i),
        None => match colon_from(name, 0) {
            Some(i) => name.take(i),
            None => name,
        },
    };
    trimmed(head)
}

/// What an anchor says about the declaration it was made from.
pub open spec fn anchor_of(a: DeclarationAnchor, symbol: Symbol, id: Seq<char>) -> bool {
    &&& a.id@ == id
    &&& a.name@ == bare_name_spec(symbol.name@)
    &&& a.kind == symbol.kind
    &&& a.line == editor_line(symbol.range.start.line)
    &&& a.character == symbol.selection_range.start.character
    &&& a.selection_line == editor_line(symbol.selection_range.start.line)
}

proof fn lemma_first_char_bounds(s: Seq<char>, c: char)
    ensures
        first_char(s, c) matches Some(i) ==> 0 <= i < s.len(),
    decreases s.len(),
{
    if s.len() > 0 && s[0] != c {
        lemma_first_char_bounds(s.drop_first(), c);
    }
}

proof fn lemma_colon_bounds(s: Seq<char>, i: int)
    ensures
        colon_from(s, i) matches Some(j) ==> 0 <= j && j + 3 <= s.len(),
    decreases s.len() - i,
{
    if 0 <= i && i + 3 <= s.len() && !(s[i] == ' ' && s[i + 1] == ':' && s[i + 2] == ' ') {
        lemma_colon_bounds(s, i + 1);
    }
}

fn first_char_in(v: &Vec<char>, c: char) -> (r: Option<usize>)
    ensures
        match first_char(v@, c) {
            Some(i) => r == Some(i as usize),
            None => r is None,
        },
{
    let mut i: usize = 0;
    while i < v.len()
        invariant
            i <= v@.len(),
            forall|k: int| 0 <= k < i ==> v@[k] != c,
        decreases v@.len() - i,
    {
        if v[i] == c {
            proof {
                lemma_first_char_at(v@, c, i as int);
            }
            return Some(i);
        }
        i = i + 1;
    }
    proof {
        lemma_first_char_absent(v@, c);
    }
    None
}

proof fn lemma_first_char_at(s: Seq<char>, c: char, i: int)
    requires
        0 <= i < s.len(),
        s[i] == c,
        forall|k: int| 0 <= k < i ==> s[k] != c,
    ensures
        first_char(s, c) == Some(i),
    decreases s.len(),
{
    if i > 0 {
        assert forall|k: int| 0 <= k < i - 1 implies s.drop_first()[k] != c by {
            assert(s.drop_first()[k] == s[k + 1]);
        }
        lemma_first_char_at(s.drop_first(), c, i - 1);
    }
}

proof fn lemma_first_char_absent(s: Seq<char>, c: char)
    requires
        forall|k: int| 0 <= k < s.len() ==> s[k] != c,
    ensures
        first_char(s, c) is None,
    decreases s.len(),
{
    if s.len() > 0 {
        assert forall|k: int| 0 <= k < s.len() - 1 implies s.drop_first()[k] != c by {
            assert(s.drop_first()[k] == s[k + 1]);
        }
        lemma_first_char_absent(s.drop_first(), c);
    }
}

fn colon_in(v: &Vec<char>) -> (r: Option<usize>)
    ensures
        match colon_from(v@, 0) {
            Some(i) => r == Some(i as usize),
            None => r is None,
        },
{
    let n = v.len();
    let mut i: usize = 0;
    while n >= 3 && i <= n - 3
        invariant
            i <= n,
            n == v@.len(),
            colon_from(v@, 0) == colon_from(v@, i as int),
        decreases n - i,
    {
        if v[i] == ' ' && v[i + 1] == ':' && v[i + 2] == ' ' {
            return Some(i);
        }
        i = i + 1;
    }
    None
}

/// The identifier out of whatever the server called the symbol. Roslyn
/// sends a whole signature; the parameter list goes first, then a trailing
/// ` : type` only when there was no parameter list.
pub fn bare_name(name: &str) -> (r: String)
    ensures
        r@ == bare_name_spec(name@),
{
    let v = chars_of(name);
    proof {
        lemma_first_char_bounds(v@, '(');
        lemma_colon_bounds(v@, 0);
    }
    assert(v@.len() == v.len());
    let cut = match first_char_in(&v, '(') {
        Some(i) => i,
        None => match colon_in(&v) {
            Some(i) => i,
            None => v.len(),
        },
    };
    assert(cut as int == match first_char(v@, '(') {
        Some(i) => i,
        None => match colon_from(v@, 0) {
            Some(i) => i,
            None => v@.len() as int,
        },
    });
    let mut head: Vec<char> = Vec::new();
    let mut j: usize = 0;
    while j < cut
        invariant
            j <= cut <= v@.len(),
            head@ == v@.take(j as int),
        decreases cut - j,
    {
        head.push(v[j]);
        assert(v@.take(j + 1) =~= v@.take(j as int).push(v@[j as int]));
        j = j + 1;
    }
    assert(v@.take(v@.len() as int) =~= v@);
    let ghost hd = match first_char(v@, '(') {
        Some(i) => v@.take(i),
        None => match colon_from(v@, 0) {
            Some(i) => v@.take(i),
            None => v@,
        },
    };
    assert(head@ == hd);
    let h = string_of(&head);
    let hs = h.as_str();
    assert(hs@ == hd);
    trim_text(hs)
}

fn kind_of_name(symbols: &[Symbol], name: &str) -> (r: Option<SymbolKind>)
    ensures
        r == kind_named(symbols@, name@),
{
    let mut found: Option<SymbolKind> = None;
    let mut j: usize = 0;
    assert(symbols@.take(0) =~= Seq::<Symbol>::empty());
    while j < symbols.len()
        invariant
            j <= symbols@.len(),
            found == kind_named(symbols@.take(j as int), name@),
        decreases symbols@.len() - j,
    {
        assert(symbols@.take(j + 1).drop_last() =~= symbols@.take(j as int));
        if same_text(symbols[j].name.as_str(), name) {
            found = Some(symbols[j].kind);
        }
        j = j + 1;
    }
    assert(symbols@.take(symbols@.len() as int) =~= symbols@);
    found
}

fn admits(symbol: &Symbol, symbols: &[Symbol]) -> (r: bool)
    ensures
        r == admits_spec(*symbol, symbols@),
{
    match symbol.kind {
        SymbolKind::Function | SymbolKind::Class | SymbolKind::Struct | SymbolKind::Enum | SymbolKind::Interface
        | SymbolKind::Trait | SymbolKind::Type => true,
        SymbolKind::Property | SymbolKind::Variable | SymbolKind::Constant => {
            let n = symbol.container.len();
            if n == 0 {
                false
            } else {
                match kind_of_name(symbols, symbol.container[n - 1].as_str()) {
                    Some(k) => match k {
                        SymbolKind::Class | SymbolKind::Struct | SymbolKind::Enum | SymbolKind::Interface
                        | SymbolKind::Trait | SymbolKind::Type => true,
                        _ => false,
                    },
                    None => false,
                }
            }
        },
        SymbolKind::Namespace | SymbolKind::Other => false,
    }
}

fn base_of(symbol: &Symbol) -> (r: String)
    ensures
        r@ == base_id(*symbol),
{
    let mut id = String::new();
    let n = symbol.container.len();
    if n > 0 {
        id.append(symbol.container[n - 1].as_str());
        id.append(".");
    }
    id.append(symbol.name.as_str());
    id.append("@");
    id.append(decimal_string(symbol.selection_range.start.line as u64).as_str());
    id.append(":");
    id.append(decimal_string(symbol.selection_range.start.character as u64).as_str());
    proof {
        reveal_strlit(".");
        reveal_strlit("@");
        reveal_strlit(":");
    }
    assert(id@ =~= base_id(*symbol));
    id
}

fn count_of_base(bases: &Vec<String>, x: &str) -> (r: usize)
    ensures
        r == count_in(bases@.map_values(|b: String| b@), x@),
{
    let ghost bs = bases@.map_values(|b: String| b@);
    let mut c: usize = 0;
    let mut j: usize = 0;
    assert(bs.take(0) =~= Seq::<Seq<char>>::empty());
    while j < bases.len()
        invariant
            j <= bases@.len(),
            bs == bases@.map_values(|b: String| b@),
            c == count_in(bs.take(j as int), x@),
            c <= j,
        decreases bases@.len() - j,
    {
        assert(bs.take(j + 1).drop_last() =~= bs.take(j as int));
        if same_text(bases[j].as_str(), x) {
            c = c + 1;
        }
        j = j + 1;
    }
    assert(bs.take(bases@.len() as int) =~= bs);
    c
}

/// Which declarations in a file deserve an inline "N usages" row, and their
/// ids. An id is a function of the declaration alone, so a second call over
/// an unchanged file gives the same ids and adding a sibling renumbers
/// nothing; an exact duplicate gets a counter so no two rows share an id.
pub fn anchors(symbols: &[Symbol]) -> (r: Vec<DeclarationAnchor>)
    ensures
        ({
            let kept = admitted(symbols@);
            let bases = kept.map_values(|x: Symbol| base_id(x));
            &&& r@.len() == kept.len()
            &&& forall|i: int| 0 <= i < r@.len() ==> anchor_of(#[trigger] r@[i], kept[i], anchor_id(bases, i))
        }),
{
    let ghost pred = |x: Symbol| admits_spec(x, symbols@);
    let mut out: Vec<DeclarationAnchor> = Vec::new();
    let mut bases: Vec<String> = Vec::new();
    let mut i: usize = 0;
    assert(symbols@.take(0).filter(pred) =~= Seq::<Symbol>::empty());
    while i < symbols.len()
        invariant
            i <= symbols@.len(),
            pred == (|x: Symbol| admits_spec(x, symbols@)),
            out@.len() == bases@.len(),
            out@.len() == symbols@.take(i as int).filter(pred).len(),
            bases@.map_values(|b: String| b@) == symbols@.take(i as int).filter(pred).map_values(|x: Symbol| base_id(x)),
            forall|k: int| 0 <= k < out@.len() ==> anchor_of(
                #[trigger] out@[k],
                symbols@.take(i as int).filter(pred)[k],
                anchor_id(bases@.map_values(|b: String| b@), k),
            ),
        decreases symbols@.len() - i,
    {
        let ghost before = symbols@.take(i as int).filter(pred);
        assert(symbols@.take(i + 1) =~= symbols@.take(i as int).push(symbols@[i as int]));
        proof {
            symbols@.take(i as int).lemma_filter_push(symbols@[i as int], pred);
        }
        let symbol = &symbols[i];
        if admits(symbol, symbols) {
            let base = base_of(symbol);
            let seen = count_of_base(&bases, base.as_str());
            let ghost bs_before = bases@.map_values(|b: String| b@);
            let mut id = base_of(symbol);
            if seen > 0 {
                id.append("#");
                id.append(decimal_string(seen as u64).as_str());
                proof {
                    reveal_strlit("#");
                }
            }
            let anchor = DeclarationAnchor {
                id,
                name: bare_name(symbol.name.as_str()),
                kind: symbol.kind,
                line: to_editor_line(symbol.range.start.line),
                character: symbol.selection_range.start.character,
                selection_line: to_editor_line(symbol.selection_range.start.line),
            };
            bases.push(base);
            out.push(anchor);
            proof {
                let after = symbols@.take(i + 1).filter(pred);
                assert(after =~= before.push(symbols@[i as int]));
                let bs = bases@.map_values(|b: String| b@);
                assert(bs =~= bs_before.push(base_id(symbols@[i as int])));
                assert(bs.take(out@.len() - 1) =~= bs_before);
                let last = out@.len() - 1;
                assert(after[last] == symbols@[i as int]);
                assert(bs[last] == base@);
                assert(out@[last].id@ == anchor_id(bs, last));
                assert(out@[last].name@ == bare_name_spec(after[last].name@));
                assert(anchor_of(out@[last], after[last], anchor_id(bs, last)));
                assert forall|k: int| 0 <= k < out@.len() implies anchor_of(
                    #[trigger] out@[k],
                    after[k],
                    anchor_id(bs, k),
                ) by {
                    if k < out@.len() - 1 {
                        assert(bs.take(k) =~= bs_before.take(k));
                        assert(bs[k] == bs_before[k]);
                    }
                }
            }
        } else {
            assert(symbols@.take(i + 1).filter(pred) =~= before);
        }
        i = i + 1;
    }
    assert(symbols@.take(symbols@.len() as int) =~= symbols@);
    out
}

// ---------------------------------------------------------------------------
// Laws
// ---------------------------------------------------------------------------

/// Each distinct use site appears once, and the rows are in their fixed
/// order: placed rows first, then by label, line and column.
pub proof fn law_rows_are_distinct_and_ordered(root: Seq<char>, locations: Seq<Location>)
    ensures
        increasing_by(ordered_rows(root, locations), by_key()),
        ordered_rows(root, locations).no_duplicates(),
        ordered_rows(root, locations).to_set() == rows_of(root, locations).to_set(),
{
    lemma_key_order();
    vstd::seq_lib::seq_to_set_is_finite(rows_of(root, locations));
    lemma_arranged_exists(rows_of(root, locations).to_set(), by_key());
    lemma_increasing_distinct(ordered_rows(root, locations), by_key());
}

/// The rows do not depend on the order the server answered in, nor on how
/// often it repeated a location.
pub proof fn law_rows_ignore_order_and_repeats(root: Seq<char>, a: Seq<Location>, b: Seq<Location>)
    requires
        rows_of(root, a).to_set() == rows_of(root, b).to_set(),
    ensures
        ordered_rows(root, a) == ordered_rows(root, b),
{
}

/// Two spellings of one file under the root are one row: identity is the
/// path a URI names, never the URI string.
pub proof fn law_two_spellings_of_one_file_are_one_row(root: Seq<char>, u1: Seq<char>, u2: Seq<char>, range: Range)
    requires
        file_path(encode_utf8(u1)) == file_path(encode_utf8(u2)),
        file_path(encode_utf8(u1)) matches Some(p) && relative_under(root, p) is Some,
    ensures
        row_of(root, u1, range) == row_of(root, u2, range),
{
}

} // verus!
