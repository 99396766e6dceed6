//! Applying a server's text edits to a document, or refusing to.
//!
//! # Two functions, and the split is the point
//!
//! [`plan`] takes no text. Whether two edits overlap, whether a range runs
//! backwards, and whether two insertions collide are positional facts, so they
//! are settled before a single file is read — which lets a whole multi-file
//! rename be refused having touched nothing. [`apply`] then does only the
//! arithmetic, on a set already proved well-formed.
//!
//! # Refusing rather than choosing
//!
//! Overlapping ranges, two zero-width insertions at one position, and a range
//! naming a line the document does not have are all refused: each has two
//! equally defensible answers, and picking one silently writes a file the
//! server did not describe. An exact duplicate is the exception: same range and
//! same text is collapsed, since applying it twice would write it twice.
use vstd::prelude::*;

use crate::positions::{char_offset, char_offset_spec};
use crate::protocol::{Position, Range, TextEdit, TextEditView};
use crate::order::{lemma_lex_irreflexive, lemma_lex_total, lemma_lex_transitive, lex_less, text_lt};
use crate::text::{chars_of, decimal_chars, decimal_string, same_text, string_of};

verus! {

/// Why a set of edits was refused. Every one is decided before any text is
/// written.
#[derive(Debug, Clone, Copy, PartialEq, Eq, Structural)]
pub enum EditError {
    Overlapping { first: Range, second: Range },
    Backwards { range: Range },
    OutOfDocument { line: u32, lines: u32 },
    AmbiguousInsertion { at: Position },
}

// ---------------------------------------------------------------------------
// Document order
// ---------------------------------------------------------------------------

/// `a` comes strictly before `b` in a document.
pub open spec fn pos_lt(a: Position, b: Position) -> bool {
    a.line < b.line || (a.line == b.line && a.character < b.character)
}

/// Whether the range ends before it starts.
pub open spec fn backwards(r: Range) -> bool {
    pos_lt(r.end, r.start)
}

/// The order a plan comes out in: by start, then end, then replacement text.
pub open spec fn edit_lt(a: TextEditView, b: TextEditView) -> bool {
    ||| pos_lt(a.range.start, b.range.start)
    ||| a.range.start == b.range.start && pos_lt(a.range.end, b.range.end)
    ||| a.range == b.range && text_lt(a.text, b.text)
}

/// Strictly increasing in document order: sorted, and no edit twice.
pub open spec fn increasing(s: Seq<TextEditView>) -> bool {
    forall|i: int, j: int| 0 <= i < j < s.len() ==> edit_lt(#[trigger] s[i], #[trigger] s[j])
}

/// The same edits, however often or in whatever order each occurs.
pub open spec fn same_edits(s: Seq<TextEditView>, t: Seq<TextEditView>) -> bool {
    forall|x: TextEditView| s.contains(x) <==> t.contains(x)
}

/// The distinct edits of `edits`, in document order.
pub open spec fn document_order(edits: Seq<TextEditView>) -> Seq<TextEditView> {
    choose|s: Seq<TextEditView>| increasing(s) && same_edits(s, edits)
}

pub open spec fn views(edits: Seq<TextEdit>) -> Seq<TextEditView> {
    edits.map_values(|e: TextEdit| e@)
}

proof fn lemma_same_edits_push(a: Seq<TextEditView>, b: Seq<TextEditView>, x: TextEditView)
    requires
        same_edits(a, b),
    ensures
        same_edits(a.push(x), b.push(x)),
{
    assert forall|y: TextEditView| a.push(x).contains(y) <==> b.push(x).contains(y) by {
        if a.push(x).contains(y) {
            let k = choose|k: int| 0 <= k < a.len() + 1 && a.push(x)[k] == y;
            if k < a.len() {
                assert(a.contains(y));
                let m = choose|m: int| 0 <= m < b.len() && b[m] == y;
                assert(b.push(x)[m] == y);
            } else {
                assert(b.push(x)[b.len() as int] == y);
            }
        }
        if b.push(x).contains(y) {
            let k = choose|k: int| 0 <= k < b.len() + 1 && b.push(x)[k] == y;
            if k < b.len() {
                assert(b.contains(y));
                let m = choose|m: int| 0 <= m < a.len() && a[m] == y;
                assert(a.push(x)[m] == y);
            } else {
                assert(a.push(x)[a.len() as int] == y);
            }
        }
    }
}

proof fn lemma_edit_lt_irreflexive(a: TextEditView)
    ensures
        !edit_lt(a, a),
{
    lemma_lex_irreflexive(a.text, false);
}

proof fn lemma_edit_lt_transitive(a: TextEditView, b: TextEditView, c: TextEditView)
    requires
        edit_lt(a, b),
        edit_lt(b, c),
    ensures
        edit_lt(a, c),
{
    if a.range == b.range && b.range == c.range {
        lemma_lex_transitive(a.text, b.text, c.text, false);
    }
}

proof fn lemma_edit_lt_total(a: TextEditView, b: TextEditView)
    requires
        a != b,
    ensures
        edit_lt(a, b) || edit_lt(b, a),
{
    if a.range == b.range {
        lemma_lex_total(a.text, b.text, false);
    }
}

/// Two increasing sequences of the same edits are one sequence.
proof fn lemma_increasing_unique(s: Seq<TextEditView>, t: Seq<TextEditView>)
    requires
        increasing(s),
        increasing(t),
        same_edits(s, t),
    ensures
        s == t,
    decreases s.len(),
{
    if s.len() == 0 {
        if t.len() > 0 {
            assert(t.contains(t[0]));
        }
        assert(s =~= t);
    } else {
        assert(s.contains(s[0]));
        assert(t.contains(s[0]));
        let j = choose|j: int| 0 <= j < t.len() && t[j] == s[0];
        assert(t.contains(t[0]));
        let i = choose|i: int| 0 <= i < s.len() && s[i] == t[0];
        if j > 0 {
            assert(edit_lt(t[0], t[j]));
            if i > 0 {
                assert(edit_lt(s[0], s[i]));
                lemma_edit_lt_transitive(s[0], s[i], s[0]);
            }
            lemma_edit_lt_irreflexive(s[0]);
        }
        assert(s[0] == t[0]);
        let s1 = s.drop_first();
        let t1 = t.drop_first();
        assert forall|x: TextEditView| s1.contains(x) <==> t1.contains(x) by {
            if s1.contains(x) {
                let k = choose|k: int| 0 <= k < s1.len() && s1[k] == x;
                assert(edit_lt(s[0], s[k + 1]));
                lemma_edit_lt_irreflexive(x);
                assert(t.contains(x));
                let m = choose|m: int| 0 <= m < t.len() && t[m] == x;
                assert(m != 0);
                assert(t1[m - 1] == x);
            }
            if t1.contains(x) {
                let k = choose|k: int| 0 <= k < t1.len() && t1[k] == x;
                assert(edit_lt(t[0], t[k + 1]));
                lemma_edit_lt_irreflexive(x);
                assert(s.contains(x));
                let m = choose|m: int| 0 <= m < s.len() && s[m] == x;
                assert(m != 0);
                assert(s1[m - 1] == x);
            }
        }
        lemma_increasing_unique(s1, t1);
        assert(s =~= seq![s[0]] + s1);
        assert(t =~= seq![t[0]] + t1);
    }
}

/// The document order of a set is the one increasing arrangement of it.
proof fn lemma_document_order_is(s: Seq<TextEditView>, edits: Seq<TextEditView>)
    requires
        increasing(s),
        same_edits(s, edits),
    ensures
        document_order(edits) == s,
{
    let d = document_order(edits);
    assert(increasing(d) && same_edits(d, edits));
    assert(same_edits(d, s));
    lemma_increasing_unique(d, s);
}

// ---------------------------------------------------------------------------
// Planning
// ---------------------------------------------------------------------------

/// The range of the first edit, in the order given, that runs backwards.
pub open spec fn first_backwards(edits: Seq<TextEditView>) -> Option<Range>
    decreases edits.len(),
{
    if edits.len() == 0 {
        None
    } else if backwards(edits[0].range) {
        Some(edits[0].range)
    } else {
        first_backwards(edits.drop_first())
    }
}

/// What is wrong with `next` directly following `prev`, if anything. End is
/// exclusive, so touching is adjacency and not overlap; two zero-width edits at
/// one point are named as the ambiguity they are.
pub open spec fn conflict(prev: TextEditView, next: TextEditView) -> Option<EditError> {
    if prev.range == next.range {
        if prev.text == next.text {
            None
        } else if next.range.start == next.range.end {
            Some(EditError::AmbiguousInsertion { at: next.range.start })
        } else {
            Some(EditError::Overlapping { first: prev.range, second: next.range })
        }
    } else if pos_lt(next.range.start, prev.range.end) {
        Some(EditError::Overlapping { first: prev.range, second: next.range })
    } else {
        None
    }
}

/// The first conflict between neighbours, looking from index `i` on.
pub open spec fn first_conflict(s: Seq<TextEditView>, i: int) -> Option<EditError>
    decreases s.len() - i,
{
    if i < 1 || i >= s.len() {
        None
    } else {
        match conflict(s[i - 1], s[i]) {
            Some(e) => Some(e),
            None => first_conflict(s, i + 1),
        }
    }
}

/// What `plan` decides: a backwards range is refused first, in the order the
/// edits came; otherwise the distinct edits in document order, or the first
/// conflict between neighbours in that order.
pub open spec fn plan_spec(edits: Seq<TextEditView>) -> Result<Seq<TextEditView>, EditError> {
    match first_backwards(edits) {
        Some(range) => Err(EditError::Backwards { range }),
        None => {
            let s = document_order(edits);
            match first_conflict(s, 1) {
                Some(e) => Err(e),
                None => Ok(s),
            }
        },
    }
}

/// A planned set, as plain values.
pub open spec fn planned_view(r: Result<Vec<TextEdit>, EditError>) -> Result<Seq<TextEditView>, EditError> {
    match r {
        Ok(v) => Ok(views(v@)),
        Err(e) => Err(e),
    }
}

fn position_less(a: Position, b: Position) -> (r: bool)
    ensures
        r == pos_lt(a, b),
{
    a.line < b.line || (a.line == b.line && a.character < b.character)
}

fn edit_less(a: &TextEdit, b: &TextEdit) -> (r: bool)
    ensures
        r == edit_lt(a@, b@),
{
    if position_less(a.range.start, b.range.start) {
        return true;
    }
    if a.range.start == b.range.start && position_less(a.range.end, b.range.end) {
        return true;
    }
    a.range == b.range && lex_less(a.new_text.as_str(), b.new_text.as_str(), false)
}

fn same_edit(a: &TextEdit, b: &TextEdit) -> (r: bool)
    ensures
        r == (a@ == b@),
{
    a.range == b.range && same_text(a.new_text.as_str(), b.new_text.as_str())
}

pub fn copy_edit(e: &TextEdit) -> (r: TextEdit)
    ensures
        r@ == e@,
{
    TextEdit { range: e.range, new_text: e.new_text.clone() }
}

/// Put `e` into its place in `sorted`, unless it is there already.
fn insert_in_order(sorted: &mut Vec<TextEdit>, e: &TextEdit)
    requires
        increasing(views(old(sorted)@)),
    ensures
        increasing(views(final(sorted)@)),
        same_edits(views(final(sorted)@), views(old(sorted)@).push(e@)),
{
    let ghost before = views(sorted@);
    let mut p: usize = 0;
    while p < sorted.len() && edit_less(&sorted[p], e)
        invariant
            p <= sorted.len(),
            views(sorted@) == before,
            forall|k: int| 0 <= k < p ==> edit_lt(#[trigger] before[k], e@),
        decreases sorted.len() - p,
    {
        p = p + 1;
    }
    if p < sorted.len() && same_edit(&sorted[p], e) {
        assert forall|x: TextEditView| before.contains(x) <==> before.push(e@).contains(x) by {
            if before.push(e@).contains(x) && x == e@ {
                assert(before[p as int] == x);
            }
            if before.contains(x) {
                let k = choose|k: int| 0 <= k < before.len() && before[k] == x;
                assert(before.push(e@)[k] == x);
            }
            if before.push(e@).contains(x) && x != e@ {
                let k = choose|k: int| 0 <= k < before.len() + 1 && before.push(e@)[k] == x;
                assert(before[k] == x);
            }
        }
        return;
    }
    let ghost old_sorted = sorted@;
    sorted.insert(p, copy_edit(e));
    let ghost after = views(sorted@);
    assert(after =~= before.insert(p as int, e@));
    proof {
        if p < before.len() {
            assert(!edit_lt(before[p as int], e@));
            assert(before[p as int] != e@);
            lemma_edit_lt_total(before[p as int], e@);
        }
        assert forall|i: int, j: int| 0 <= i < j < after.len() implies edit_lt(
            #[trigger] after[i],
            #[trigger] after[j],
        ) by {
            if j < p {
                assert(after[i] == before[i] && after[j] == before[j]);
            } else if j == p {
                assert(after[i] == before[i]);
            } else if i < p {
                assert(after[i] == before[i] && after[j] == before[j - 1]);
                assert(edit_lt(before[i], e@));
                assert(edit_lt(e@, before[p as int]));
                if j - 1 > p {
                    assert(edit_lt(before[p as int], before[j - 1]));
                    lemma_edit_lt_transitive(e@, before[p as int], before[j - 1]);
                }
                lemma_edit_lt_transitive(before[i], e@, before[j - 1]);
            } else if i == p {
                assert(after[j] == before[j - 1]);
                if j - 1 > p {
                    assert(edit_lt(before[p as int], before[j - 1]));
                    lemma_edit_lt_transitive(e@, before[p as int], before[j - 1]);
                }
            } else {
                assert(after[i] == before[i - 1] && after[j] == before[j - 1]);
            }
        }
        assert forall|x: TextEditView| after.contains(x) <==> before.push(e@).contains(x) by {
            if after.contains(x) {
                let k = choose|k: int| 0 <= k < after.len() && after[k] == x;
                if k < p {
                    assert(before.push(e@)[k] == x);
                } else if k == p {
                    assert(before.push(e@)[before.len() as int] == x);
                } else {
                    assert(before.push(e@)[k - 1] == x);
                }
            }
            if before.push(e@).contains(x) {
                let k = choose|k: int| 0 <= k < before.len() + 1 && before.push(e@)[k] == x;
                if k == before.len() {
                    assert(after[p as int] == x);
                } else if k < p {
                    assert(after[k] == x);
                } else {
                    assert(after[k + 1] == x);
                }
            }
        }
    }
}

/// Sort, deduplicate and prove a set of edits applicable, without any text.
///
/// The order of the result is document order and does not depend on the
/// input's, so two servers that answer the same edits in different orders get
/// identical results.
pub fn plan(edits: &[TextEdit]) -> (r: Result<Vec<TextEdit>, EditError>)
    ensures
        planned_view(r) == plan_spec(views(edits@)),
{
    let ghost all = views(edits@);
    let mut i: usize = 0;
    assert(all.skip(0) =~= all);
    while i < edits.len()
        invariant
            i <= edits.len(),
            all == views(edits@),
            first_backwards(all) == first_backwards(all.skip(i as int)),
        decreases edits.len() - i,
    {
        assert(all.skip(i as int).drop_first() =~= all.skip(i + 1));
        assert(all.skip(i as int)[0] == all[i as int]);
        if position_less(edits[i].range.end, edits[i].range.start) {
            return Err(EditError::Backwards { range: edits[i].range });
        }
        i = i + 1;
    }
    assert(all.skip(edits.len() as int) =~= Seq::<TextEditView>::empty());

    let mut sorted: Vec<TextEdit> = Vec::new();
    let mut k: usize = 0;
    while k < edits.len()
        invariant
            k <= edits.len(),
            all == views(edits@),
            first_backwards(all) is None,
            increasing(views(sorted@)),
            same_edits(views(sorted@), all.take(k as int)),
        decreases edits.len() - k,
    {
        let ghost before = views(sorted@);
        insert_in_order(&mut sorted, &edits[k]);
        assert(all.take(k as int).push(all[k as int]) =~= all.take(k + 1));
        proof {
            lemma_same_edits_push(before, all.take(k as int), all[k as int]);
        }
        k = k + 1;
    }
    assert(all.take(edits.len() as int) =~= all);
    let ghost s = views(sorted@);
    proof { lemma_document_order_is(s, all); }

    let mut j: usize = 1;
    while j < sorted.len()
        invariant
            1 <= j,
            all == views(edits@),
            s == views(sorted@),
            s == document_order(all),
            first_backwards(all) is None,
            first_conflict(s, 1) == first_conflict(s, j as int),
        decreases sorted.len() - j,
    {
        let prev = &sorted[j - 1];
        let next = &sorted[j];
        assert(s.len() == sorted.len());
        assert(s[j - 1] == prev@ && s[j as int] == next@);
        if prev.range == next.range {
            if !same_text(prev.new_text.as_str(), next.new_text.as_str()) {
                assert(s[j - 1].text != s[j as int].text);
                if next.range.start == next.range.end {
                    assert(conflict(s[j - 1], s[j as int]) == Some(
                        EditError::AmbiguousInsertion { at: next.range.start },
                    ));
                    assert(first_conflict(s, j as int) == Some(
                        EditError::AmbiguousInsertion { at: next.range.start },
                    ));
                    return Err(EditError::AmbiguousInsertion { at: next.range.start });
                }
                return Err(EditError::Overlapping { first: prev.range, second: next.range });
            }
        } else if position_less(next.range.start, prev.range.end) {
            return Err(EditError::Overlapping { first: prev.range, second: next.range });
        }
        j = j + 1;
    }
    Ok(sorted)
}

// ---------------------------------------------------------------------------
// Applying
// ---------------------------------------------------------------------------

/// How many line terminators the text holds from `i` on: `\n`, `\r\n` and a
/// lone `\r` are one each.
pub open spec fn breaks_from(s: Seq<char>, i: int) -> nat
    decreases s.len() - i,
{
    if i < 0 || i >= s.len() {
        0
    } else if s[i] == '\n' {
        1 + breaks_from(s, i + 1)
    } else if s[i] == '\r' {
        1 + breaks_from(s, if i + 1 < s.len() && s[i + 1] == '\n' { i + 2 } else { i + 1 })
    } else {
        breaks_from(s, i + 1)
    }
}

/// How many lines LSP says a document has. A trailing terminator opens a final
/// empty line, which is addressable: `"a\n"` is two lines, the empty text one.
pub open spec fn line_count_spec(s: Seq<char>) -> nat {
    1 + breaks_from(s, 0)
}

fn line_count(v: &Vec<char>) -> (r: u32)
    requires
        breaks_from(v@, 0) < u32::MAX,
    ensures
        r == line_count_spec(v@),
{
    let mut lines: u32 = 1;
    let mut at: usize = 0;
    while at < v.len()
        invariant
            at <= v.len(),
            lines >= 1,
            breaks_from(v@, 0) < u32::MAX,
            (lines - 1) + breaks_from(v@, at as int) == breaks_from(v@, 0),
        decreases v.len() - at,
    {
        if v[at] == '\n' {
            lines = lines + 1;
            at = at + 1;
        } else if v[at] == '\r' {
            lines = lines + 1;
            at = if at + 1 < v.len() && v[at + 1] == '\n' { at + 2 } else { at + 1 };
        } else {
            at = at + 1;
        }
    }
    lines
}

/// The first line, in the order the edits come and start before end, that
/// the document does not have.
pub open spec fn first_missing_line(edits: Seq<TextEditView>, lines: nat) -> Option<u32>
    decreases edits.len(),
{
    if edits.len() == 0 {
        None
    } else if edits[0].range.start.line >= lines {
        Some(edits[0].range.start.line)
    } else if edits[0].range.end.line >= lines {
        Some(edits[0].range.end.line)
    } else {
        first_missing_line(edits.drop_first(), lines)
    }
}

/// Where a position lands in the text, as a character index.
pub open spec fn offset_of(s: Seq<char>, p: Position) -> int {
    char_offset_spec(s, p.line as nat, p.character as int)
}

/// The text from `cursor` on, with each edit's span replaced by its text. A
/// span is read against the original text and never starts before the
/// cursor or ends before its own start.
pub open spec fn splice(s: Seq<char>, edits: Seq<TextEditView>, cursor: int) -> Seq<char>
    decreases edits.len(),
{
    if edits.len() == 0 {
        s.subrange(cursor, s.len() as int)
    } else {
        let e = edits[0];
        let a = offset_of(s, e.range.start);
        let b = offset_of(s, e.range.end);
        let start = if a < cursor { cursor } else { a };
        let end = if b < start { start } else { b };
        s.subrange(cursor, start) + e.text + splice(s, edits.drop_first(), end)
    }
}

/// What `apply` gives: the text itself for no edits; a refusal naming the
/// first line the document does not have; otherwise every span replaced.
pub open spec fn apply_spec(s: Seq<char>, edits: Seq<TextEditView>) -> Result<Seq<char>, EditError> {
    if edits.len() == 0 {
        Ok(s)
    } else {
        match first_missing_line(edits, line_count_spec(s)) {
            Some(line) => Err(EditError::OutOfDocument { line, lines: line_count_spec(s) as u32 }),
            None => Ok(splice(s, edits, 0)),
        }
    }
}

/// A result text, as plain values.
pub open spec fn text_view(r: Result<String, EditError>) -> Result<Seq<char>, EditError> {
    match r {
        Ok(t) => Ok(t@),
        Err(e) => Err(e),
    }
}

fn push_span(out: &mut Vec<char>, v: &Vec<char>, from: usize, to: usize)
    requires
        from <= to <= v.len(),
    ensures
        final(out)@ == old(out)@ + v@.subrange(from as int, to as int),
{
    let mut i = from;
    while i < to
        invariant
            from <= i <= to <= v.len(),
            out@ == old(out)@ + v@.subrange(from as int, i as int),
        decreases to - i,
    {
        out.push(v[i]);
        i = i + 1;
        assert(out@ =~= old(out)@ + v@.subrange(from as int, i as int));
    }
}

/// Apply a planned set to a document.
///
/// Refuses, leaving the caller's text untouched, if any range names a line the
/// document does not have: a server naming such a line is describing another
/// version of the file. Everything else clamps, so no set of edits panics.
pub fn apply(text: &str, planned: &[TextEdit]) -> (r: Result<String, EditError>)
    requires
        planned@.len() > 0 ==> breaks_from(text@, 0) < u32::MAX,
    ensures
        text_view(r) == apply_spec(text@, views(planned@)),
{
    if planned.len() == 0 {
        return Ok(text.to_owned());
    }
    let ghost all = views(planned@);
    let v = chars_of(text);
    let lines = line_count(&v);
    let mut i: usize = 0;
    assert(all.skip(0) =~= all);
    while i < planned.len()
        invariant
            i <= planned.len(),
            planned.len() > 0,
            v@ == text@,
            all == views(planned@),
            lines == line_count_spec(v@),
            first_missing_line(all, lines as nat) == first_missing_line(all.skip(i as int), lines as nat),
        decreases planned.len() - i,
    {
        assert(all.skip(i as int).drop_first() =~= all.skip(i + 1));
        assert(all.skip(i as int)[0] == all[i as int]);
        let edit = &planned[i];
        if edit.range.start.line >= lines {
            return Err(EditError::OutOfDocument { line: edit.range.start.line, lines });
        }
        if edit.range.end.line >= lines {
            return Err(EditError::OutOfDocument { line: edit.range.end.line, lines });
        }
        i = i + 1;
    }
    assert(all.skip(planned.len() as int) =~= Seq::<TextEditView>::empty());

    let mut out: Vec<char> = Vec::new();
    let mut cursor: usize = 0;
    let mut k: usize = 0;
    while k < planned.len()
        invariant
            k <= planned.len(),
            cursor <= v.len(),
            v@ == text@,
            all == views(planned@),
            out@ + splice(v@, all.skip(k as int), cursor as int) == splice(v@, all, 0),
        decreases planned.len() - k,
    {
        let edit = &planned[k];
        assert(all.skip(k as int)[0] == edit@);
        assert(all.skip(k as int).drop_first() =~= all.skip(k + 1));
        let a = char_offset(&v, edit.range.start.line, edit.range.start.character);
        let b = char_offset(&v, edit.range.end.line, edit.range.end.character);
        let start = if a < cursor { cursor } else { a };
        let end = if b < start { start } else { b };
        let ghost before = out@;
        push_span(&mut out, &v, cursor, start);
        let replacement = chars_of(edit.new_text.as_str());
        push_span(&mut out, &replacement, 0, replacement.len());
        assert(replacement@.subrange(0, replacement@.len() as int) =~= edit.new_text@);
        assert(out@ + splice(v@, all.skip(k + 1), end as int) =~= before + splice(
            v@,
            all.skip(k as int),
            cursor as int,
        ));
        cursor = end;
        k = k + 1;
    }
    push_span(&mut out, &v, cursor, v.len());
    assert(out@ =~= splice(v@, all, 0));
    Ok(string_of(&out))
}

/// What each edit is about to overwrite: its span, clamped as `apply` clamps
/// and never running backwards.
pub open spec fn replaced_spec(s: Seq<char>, edits: Seq<TextEditView>) -> Seq<Seq<char>> {
    Seq::new(
        edits.len(),
        |i: int|
            {
                let a = offset_of(s, edits[i].range.start);
                let b = offset_of(s, edits[i].range.end);
                s.subrange(a, if b < a { a } else { b })
            },
    )
}

/// What each planned edit is about to overwrite.
///
/// Diagnostic rather than authoritative, so unlike [`apply`] it reports what
/// it can for a range past the end instead of refusing.
pub fn replaced_texts(text: &str, planned: &[TextEdit]) -> (r: Vec<String>)
    ensures
        r@.map_values(|t: String| t@) == replaced_spec(text@, views(planned@)),
{
    let v = chars_of(text);
    let mut out: Vec<String> = Vec::new();
    let mut i: usize = 0;
    while i < planned.len()
        invariant
            i <= planned.len(),
            v@ == text@,
            out@.len() == i,
            forall|k: int| 0 <= k < i ==> (#[trigger] out@[k])@ == replaced_spec(text@, views(planned@))[k],
        decreases planned.len() - i,
    {
        let edit = &planned[i];
        let a = char_offset(&v, edit.range.start.line, edit.range.start.character);
        let b = char_offset(&v, edit.range.end.line, edit.range.end.character);
        let end = if b < a { a } else { b };
        let mut chunk: Vec<char> = Vec::new();
        push_span(&mut chunk, &v, a, end);
        assert(chunk@ =~= v@.subrange(a as int, end as int));
        out.push(string_of(&chunk));
        i = i + 1;
    }
    assert(out@.map_values(|t: String| t@) =~= replaced_spec(text@, views(planned@)));
    out
}

// ---------------------------------------------------------------------------
// Messages
// ---------------------------------------------------------------------------

/// A range as a person reads it: 1-based lines, matching an editor gutter.
pub open spec fn describe_spec(r: Range) -> Seq<char> {
    if r.start.line == r.end.line {
        "line "@ + decimal_chars((r.start.line + 1) as nat) + ", columns "@ + decimal_chars(
            r.start.character as nat,
        ) + "-"@ + decimal_chars(r.end.character as nat)
    } else {
        "line "@ + decimal_chars((r.start.line + 1) as nat) + " column "@ + decimal_chars(
            r.start.character as nat,
        ) + " to line "@ + decimal_chars((r.end.line + 1) as nat) + " column "@ + decimal_chars(
            r.end.character as nat,
        )
    }
}

pub open spec fn describe_position_spec(at: Position) -> Seq<char> {
    "line "@ + decimal_chars((at.line + 1) as nat) + ", column "@ + decimal_chars(
        at.character as nat,
    )
}

/// The sentence a refusal is reported in.
pub open spec fn message_spec(e: EditError) -> Seq<char> {
    match e {
        EditError::Overlapping { first, second } => "two edits overlap — "@ + describe_spec(first)
            + " and "@ + describe_spec(second)
            + " — and applying them in either order would produce text the language server did not ask for"@,
        EditError::Backwards { range } => "an edit's range ends before it starts ("@
            + describe_spec(range) + ")"@,
        EditError::OutOfDocument { line, lines } => "an edit names line "@ + decimal_chars(
            (line + 1) as nat,
        ) + ", but this file has "@ + decimal_chars(lines as nat)
            + "; the language server is describing a different version of it"@,
        EditError::AmbiguousInsertion { at } => "two separate insertions at "@
            + describe_position_spec(at) + " have no defined order"@,
    }
}

fn describe(range: &Range) -> (r: String)
    ensures
        r@ == describe_spec(*range),
{
    let mut out = String::new();
    out.append("line ");
    out.append(decimal_string(range.start.line as u64 + 1).as_str());
    if range.start.line == range.end.line {
        out.append(", columns ");
        out.append(decimal_string(range.start.character as u64).as_str());
        out.append("-");
        out.append(decimal_string(range.end.character as u64).as_str());
    } else {
        out.append(" column ");
        out.append(decimal_string(range.start.character as u64).as_str());
        out.append(" to line ");
        out.append(decimal_string(range.end.line as u64 + 1).as_str());
        out.append(" column ");
        out.append(decimal_string(range.end.character as u64).as_str());
    }
    out
}

fn describe_position(at: &Position) -> (r: String)
    ensures
        r@ == describe_position_spec(*at),
{
    let mut out = String::new();
    out.append("line ");
    out.append(decimal_string(at.line as u64 + 1).as_str());
    out.append(", column ");
    out.append(decimal_string(at.character as u64).as_str());
    out
}

impl EditError {
    /// The refusal as a sentence, naming the ranges it is about.
    pub fn to_string(&self) -> (r: String)
        ensures
            r@ == message_spec(*self),
    {
        let mut out = String::new();
        match self {
            EditError::Overlapping { first, second } => {
                out.append("two edits overlap — ");
                out.append(describe(first).as_str());
                out.append(" and ");
                out.append(describe(second).as_str());
                out.append(
                    " — and applying them in either order would produce text the language server did not ask for",
                );
            },
            EditError::Backwards { range } => {
                out.append("an edit's range ends before it starts (");
                out.append(describe(range).as_str());
                out.append(")");
            },
            EditError::OutOfDocument { line, lines } => {
                out.append("an edit names line ");
                out.append(decimal_string(*line as u64 + 1).as_str());
                out.append(", but this file has ");
                out.append(decimal_string(*lines as u64).as_str());
                out.append("; the language server is describing a different version of it");
            },
            EditError::AmbiguousInsertion { at } => {
                out.append("two separate insertions at ");
                out.append(describe_position(at).as_str());
                out.append(" have no defined order");
            },
        }
        out
    }
}

// ---------------------------------------------------------------------------
// Laws
// ---------------------------------------------------------------------------

/// `e` put into its place in the increasing `s`, unless it is there already.
pub open spec fn insert_spec(s: Seq<TextEditView>, e: TextEditView) -> Seq<TextEditView>
    decreases s.len(),
{
    if s.len() == 0 {
        seq![e]
    } else if s[0] == e {
        s
    } else if edit_lt(e, s[0]) {
        seq![e] + s
    } else {
        seq![s[0]] + insert_spec(s.drop_first(), e)
    }
}

/// The edits sorted by insertion, one at a time.
pub open spec fn sort_spec(x: Seq<TextEditView>) -> Seq<TextEditView>
    decreases x.len(),
{
    if x.len() == 0 {
        Seq::empty()
    } else {
        insert_spec(sort_spec(x.drop_last()), x.last())
    }
}

proof fn lemma_insert_spec(s: Seq<TextEditView>, e: TextEditView)
    requires
        increasing(s),
    ensures
        increasing(insert_spec(s, e)),
        same_edits(insert_spec(s, e), s.push(e)),
    decreases s.len(),
{
    let r = insert_spec(s, e);
    if s.len() == 0 {
        assert forall|x: TextEditView| r.contains(x) <==> s.push(e).contains(x) by {
            if r.contains(x) {
                assert(s.push(e)[0] == x);
            }
            if s.push(e).contains(x) {
                assert(r[0] == x);
            }
        }
    } else if s[0] == e {
        assert forall|x: TextEditView| r.contains(x) <==> s.push(e).contains(x) by {
            if r.contains(x) {
                let k = choose|k: int| 0 <= k < r.len() && r[k] == x;
                assert(s.push(e)[k] == x);
            }
            if s.push(e).contains(x) {
                let k = choose|k: int| 0 <= k < s.len() + 1 && s.push(e)[k] == x;
                if k < s.len() {
                    assert(r[k] == x);
                } else {
                    assert(r[0] == x);
                }
            }
        }
    } else if edit_lt(e, s[0]) {
        assert forall|i: int, j: int| 0 <= i < j < r.len() implies edit_lt(#[trigger] r[i], #[trigger] r[j]) by {
            if i == 0 {
                if j > 1 {
                    assert(edit_lt(s[0], s[j - 1]));
                    lemma_edit_lt_transitive(e, s[0], s[j - 1]);
                }
            } else {
                assert(r[i] == s[i - 1] && r[j] == s[j - 1]);
            }
        }
        assert forall|x: TextEditView| r.contains(x) <==> s.push(e).contains(x) by {
            if r.contains(x) {
                let k = choose|k: int| 0 <= k < r.len() && r[k] == x;
                if k == 0 {
                    assert(s.push(e)[s.len() as int] == x);
                } else {
                    assert(s.push(e)[k - 1] == x);
                }
            }
            if s.push(e).contains(x) {
                let k = choose|k: int| 0 <= k < s.len() + 1 && s.push(e)[k] == x;
                if k < s.len() {
                    assert(r[k + 1] == x);
                } else {
                    assert(r[0] == x);
                }
            }
        }
    } else {
        let t = s.drop_first();
        assert(increasing(t)) by {
            assert forall|i: int, j: int| 0 <= i < j < t.len() implies edit_lt(#[trigger] t[i], #[trigger] t[j]) by {
                assert(t[i] == s[i + 1] && t[j] == s[j + 1]);
            }
        }
        lemma_insert_spec(t, e);
        let u = insert_spec(t, e);
        assert(r == seq![s[0]] + u);
        lemma_edit_lt_total(e, s[0]);
        assert forall|x: TextEditView| u.contains(x) implies edit_lt(s[0], x) by {
            assert(t.push(e).contains(x));
            let k = choose|k: int| 0 <= k < t.len() + 1 && t.push(e)[k] == x;
            if k < t.len() {
                assert(s[k + 1] == x);
            }
        }
        assert forall|i: int, j: int| 0 <= i < j < r.len() implies edit_lt(#[trigger] r[i], #[trigger] r[j]) by {
            if i == 0 {
                assert(r[j] == u[j - 1]);
                assert(u.contains(u[j - 1]));
            } else {
                assert(r[i] == u[i - 1] && r[j] == u[j - 1]);
            }
        }
        assert forall|x: TextEditView| r.contains(x) <==> s.push(e).contains(x) by {
            if r.contains(x) {
                let k = choose|k: int| 0 <= k < r.len() && r[k] == x;
                if k == 0 {
                    assert(s.push(e)[0] == x);
                } else {
                    assert(u.contains(x));
                    assert(t.push(e).contains(x));
                    let m = choose|m: int| 0 <= m < t.len() + 1 && t.push(e)[m] == x;
                    assert(s.push(e)[m + 1] == x);
                }
            }
            if s.push(e).contains(x) {
                let k = choose|k: int| 0 <= k < s.len() + 1 && s.push(e)[k] == x;
                if k == 0 {
                    assert(r[0] == x);
                } else {
                    assert(t.push(e)[k - 1] == x);
                    assert(u.contains(x));
                    let m = choose|m: int| 0 <= m < u.len() && u[m] == x;
                    assert(r[m + 1] == x);
                }
            }
        }
    }
}

proof fn lemma_sort_spec(x: Seq<TextEditView>)
    ensures
        increasing(sort_spec(x)),
        same_edits(sort_spec(x), x),
    decreases x.len(),
{
    if x.len() == 0 {
        assert(increasing(Seq::<TextEditView>::empty()));
    } else {
        lemma_sort_spec(x.drop_last());
        lemma_insert_spec(sort_spec(x.drop_last()), x.last());
        lemma_same_edits_push(sort_spec(x.drop_last()), x.drop_last(), x.last());
        assert(x.drop_last().push(x.last()) =~= x);
    }
}

/// The document order of any set of edits exists, and is increasing.
proof fn lemma_document_order(x: Seq<TextEditView>)
    ensures
        increasing(document_order(x)),
        same_edits(document_order(x), x),
{
    lemma_sort_spec(x);
}

proof fn lemma_first_backwards_none(x: Seq<TextEditView>)
    ensures
        first_backwards(x) is None <==> forall|i: int| 0 <= i < x.len() ==> !backwards(#[trigger] x[i].range),
    decreases x.len(),
{
    if x.len() > 0 {
        lemma_first_backwards_none(x.drop_first());
        if first_backwards(x) is None {
            assert forall|i: int| 0 <= i < x.len() implies !backwards(#[trigger] x[i].range) by {
                if i > 0 {
                    assert(x[i] == x.drop_first()[i - 1]);
                }
            }
        } else if forall|i: int| 0 <= i < x.len() ==> !backwards(#[trigger] x[i].range) {
            assert forall|i: int| 0 <= i < x.drop_first().len() implies !backwards(
                #[trigger] x.drop_first()[i].range,
            ) by {
                assert(x.drop_first()[i] == x[i + 1]);
            }
        }
    }
}

proof fn lemma_no_conflict(s: Seq<TextEditView>, i: int)
    requires
        1 <= i,
        first_conflict(s, i) is None,
    ensures
        forall|j: int| i <= j < s.len() ==> conflict(s[j - 1], #[trigger] s[j]) is None,
    decreases s.len() - i,
{
    if i < s.len() {
        lemma_no_conflict(s, i + 1);
    }
}

/// Law: a plan holds exactly the distinct edits it was given, in strictly
/// increasing document order, none running backwards, and each ending at or
/// before the next one starts.
pub proof fn law_plan_is_ordered_and_disjoint(edits: Seq<TextEditView>)
    requires
        plan_spec(edits) is Ok,
    ensures
        ({
            let s = plan_spec(edits)->Ok_0;
            &&& increasing(s)
            &&& same_edits(s, edits)
            &&& forall|i: int| 0 <= i < s.len() ==> !backwards(#[trigger] s[i].range)
            &&& forall|i: int, j: int|
                0 <= i < j < s.len() ==> !pos_lt(#[trigger] s[j].range.start, #[trigger] s[i].range.end)
        }),
{
    let s = document_order(edits);
    lemma_document_order(edits);
    lemma_first_backwards_none(edits);
    assert forall|i: int| 0 <= i < s.len() implies !backwards(#[trigger] s[i].range) by {
        assert(s.contains(s[i]));
        assert(edits.contains(s[i]));
        let k = choose|k: int| 0 <= k < edits.len() && edits[k] == s[i];
        assert(!backwards(edits[k].range));
    }
    lemma_no_conflict(s, 1);
    assert forall|i: int, j: int| 0 <= i < j < s.len() implies !pos_lt(
        #[trigger] s[j].range.start,
        #[trigger] s[i].range.end,
    ) by {
        lemma_disjoint_chain(s, i, j);
    }
}

proof fn lemma_disjoint_chain(s: Seq<TextEditView>, i: int, j: int)
    requires
        0 <= i < j < s.len(),
        increasing(s),
        forall|k: int| 0 <= k < s.len() ==> !backwards(#[trigger] s[k].range),
        forall|k: int| 1 <= k < s.len() ==> conflict(s[k - 1], #[trigger] s[k]) is None,
    ensures
        !pos_lt(s[j].range.start, s[i].range.end),
    decreases j - i,
{
    assert(conflict(s[j - 1], s[j]) is None);
    if s[j - 1].range == s[j].range {
        assert(edit_lt(s[j - 1], s[j]));
        lemma_lex_irreflexive(s[j].text, false);
    }
    if j - 1 > i {
        lemma_disjoint_chain(s, i, j - 1);
        assert(!backwards(s[j - 1].range));
    }
}

/// Law: the order the edits arrive in changes nothing. Two inputs holding the
/// same edits, none running backwards, get the same plan or the same refusal.
/// (With a backwards range among them, both are refused as `Backwards`, each
/// naming the first such range in its own order.)
pub proof fn law_plan_ignores_input_order(a: Seq<TextEditView>, b: Seq<TextEditView>)
    requires
        same_edits(a, b),
        first_backwards(a) is None,
    ensures
        plan_spec(a) == plan_spec(b),
{
    lemma_first_backwards_none(a);
    lemma_first_backwards_none(b);
    assert forall|i: int| 0 <= i < b.len() implies !backwards(#[trigger] b[i].range) by {
        assert(b.contains(b[i]));
        assert(a.contains(b[i]));
        let k = choose|k: int| 0 <= k < a.len() && a[k] == b[i];
        assert(!backwards(a[k].range));
    }
    lemma_document_order(a);
    lemma_document_order(b);
    let da = document_order(a);
    assert(same_edits(da, b));
    lemma_document_order_is(da, b);
}

proof fn lemma_first_conflict_none(s: Seq<TextEditView>, i: int)
    requires
        forall|k: int| 1 <= k < s.len() ==> conflict(s[k - 1], #[trigger] s[k]) is None,
    ensures
        first_conflict(s, i) is None,
    decreases s.len() - i,
{
    if i >= 1 && i < s.len() {
        assert(conflict(s[i - 1], s[i]) is None);
        lemma_first_conflict_none(s, i + 1);
    }
}

/// Law: planning succeeds exactly when no edit runs backwards and no two of
/// the edits conflict: the converse of [`law_plan_is_ordered_and_disjoint`].
/// Two edits conflict when, taken in document order, they overlap, or are
/// two different insertions at one point.
pub proof fn law_plan_succeeds_when_nothing_conflicts(edits: Seq<TextEditView>)
    requires
        forall|i: int| 0 <= i < edits.len() ==> !backwards(#[trigger] edits[i].range),
        forall|i: int, j: int|
            0 <= i < edits.len() && 0 <= j < edits.len() && edit_lt(#[trigger] edits[i], #[trigger] edits[j])
                ==> conflict(edits[i], edits[j]) is None,
    ensures
        plan_spec(edits) is Ok,
{
    lemma_first_backwards_none(edits);
    lemma_document_order(edits);
    let s = document_order(edits);
    assert forall|k: int| 1 <= k < s.len() implies conflict(s[k - 1], #[trigger] s[k]) is None by {
        assert(edit_lt(s[k - 1], s[k]));
        assert(s.contains(s[k - 1]) && s.contains(s[k]));
        assert(edits.contains(s[k - 1]) && edits.contains(s[k]));
        let a = choose|a: int| 0 <= a < edits.len() && edits[a] == s[k - 1];
        let b = choose|b: int| 0 <= b < edits.len() && edits[b] == s[k];
        assert(edit_lt(edits[a], edits[b]));
    }
    lemma_first_conflict_none(s, 1);
}

/// Two edits that cannot both be made: they replace one range with different
/// text, or each starts before the other ends.
pub open spec fn clash(a: TextEditView, b: TextEditView) -> bool {
    ||| a.range == b.range && a.text != b.text
    ||| pos_lt(a.range.start, b.range.end) && pos_lt(b.range.start, a.range.end)
}

/// No range runs backwards, and no two different edits clash.
pub open spec fn plannable(edits: Seq<TextEditView>) -> bool {
    &&& forall|i: int| 0 <= i < edits.len() ==> !backwards(#[trigger] edits[i].range)
    &&& forall|i: int, j: int|
        0 <= i < edits.len() && 0 <= j < edits.len() && edits[i] != edits[j] ==> !clash(
            #[trigger] edits[i],
            #[trigger] edits[j],
        )
}

/// An edit ordered between two with one range has that range too.
proof fn lemma_between_same_range(a: TextEditView, b: TextEditView, c: TextEditView)
    requires
        edit_lt(a, b),
        edit_lt(b, c),
        a.range == c.range,
    ensures
        b.range == a.range,
{
}

/// In a plan, no two edits clash.
proof fn lemma_plan_has_no_clash(edits: Seq<TextEditView>, p: int, q: int)
    requires
        plan_spec(edits) is Ok,
        0 <= p < q < plan_spec(edits)->Ok_0.len(),
    ensures
        !clash(plan_spec(edits)->Ok_0[p], plan_spec(edits)->Ok_0[q]),
        !clash(plan_spec(edits)->Ok_0[q], plan_spec(edits)->Ok_0[p]),
{
    let s = plan_spec(edits)->Ok_0;
    law_plan_is_ordered_and_disjoint(edits);
    lemma_first_backwards_none(edits);
    lemma_no_conflict(s, 1);
    assert(!pos_lt(s[q].range.start, s[p].range.end));
    if s[p].range == s[q].range {
        let m = s[p + 1];
        assert(edit_lt(s[p], m));
        if p + 1 < q {
            assert(edit_lt(m, s[q]));
            lemma_between_same_range(s[p], m, s[q]);
        }
        assert(m.range == s[p].range);
        assert(conflict(s[p], s[p + 1]) is None);
        lemma_edit_lt_irreflexive(s[p]);
        assert(s[p].text == m.text);
        assert(s[p] == m);
        assert(false);
    }
}

/// Law: planning succeeds exactly when no range runs backwards and no two
/// different edits clash. Otherwise it refuses the whole set, and chooses
/// nothing.
pub proof fn law_plan_succeeds_iff_nothing_clashes(edits: Seq<TextEditView>)
    ensures
        plan_spec(edits) is Ok <==> plannable(edits),
{
    if plannable(edits) {
        assert forall|i: int, j: int|
            0 <= i < edits.len() && 0 <= j < edits.len() && edit_lt(#[trigger] edits[i], #[trigger] edits[j])
                implies conflict(edits[i], edits[j]) is None by {
            lemma_edit_lt_irreflexive(edits[i]);
            assert(edits[i] != edits[j]);
            assert(!clash(edits[i], edits[j]));
            assert(!backwards(edits[i].range));
            assert(!backwards(edits[j].range));
        }
        law_plan_succeeds_when_nothing_conflicts(edits);
    }
    if plan_spec(edits) is Ok {
        let s = plan_spec(edits)->Ok_0;
        law_plan_is_ordered_and_disjoint(edits);
        assert forall|i: int| 0 <= i < edits.len() implies !backwards(#[trigger] edits[i].range) by {
            assert(edits.contains(edits[i]));
            assert(s.contains(edits[i]));
        }
        assert forall|i: int, j: int|
            0 <= i < edits.len() && 0 <= j < edits.len() && edits[i] != edits[j] implies !clash(
                #[trigger] edits[i],
                #[trigger] edits[j],
            ) by {
            assert(edits.contains(edits[i]) && edits.contains(edits[j]));
            assert(s.contains(edits[i]) && s.contains(edits[j]));
            let p = choose|p: int| 0 <= p < s.len() && s[p] == edits[i];
            let q = choose|q: int| 0 <= q < s.len() && s[q] == edits[j];
            if p < q {
                lemma_plan_has_no_clash(edits, p, q);
            } else {
                lemma_plan_has_no_clash(edits, q, p);
            }
        }
    }
}

/// Law: planning a plan changes nothing.
pub proof fn law_plan_is_idempotent(edits: Seq<TextEditView>)
    requires
        plan_spec(edits) is Ok,
    ensures
        plan_spec(plan_spec(edits)->Ok_0) == plan_spec(edits),
{
    let s = plan_spec(edits)->Ok_0;
    law_plan_is_ordered_and_disjoint(edits);
    lemma_first_backwards_none(s);
    assert(same_edits(s, s));
    lemma_document_order_is(s, s);
}

/// Law: with no edits, `apply` gives the text back unchanged.
pub proof fn law_no_edits_change_nothing(text: Seq<char>)
    ensures
        apply_spec(text, Seq::empty()) == Ok::<Seq<char>, EditError>(text),
{
}

} // verus!
