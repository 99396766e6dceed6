//! Turning a server's `WorkspaceEdit` into files on disk, or refusing to.
//!
//! Two phases, and the split is the whole design. **Phase 1 resolves and
//! validates and writes nothing**: every URI becomes a workspace path or the
//! rename is refused whole, every file's edits are planned, every closed file
//! is read, size-checked and token-checked. **Phase 2 writes closed files
//! only**: an open buffer is never written behind the editor's back, and its
//! edits are returned for the editor to apply instead.
//!
//! Every refusal is whole: an edit that is not applied is a partial rename,
//! and a half-done rename does not compile. Zero documents is not a refusal:
//! it is a count of zero.
//!
//! The stale-mirror check expands outward from each edit's start over word
//! characters and requires the token to equal the old name. A file is
//! refused only when no edit in it lands on the name; a partial disagreement
//! (a comment, a string, a shorthand property) goes into the message.
use vstd::prelude::*;

use crate::edits::{apply, apply_spec, breaks_from, copy_edit, message_spec, plan, plan_spec, views, EditError};
use crate::order::{
    arranged, by_path, increasing_by, lemma_arranged_is, lemma_increasing_insert,
    lemma_path_order, lemma_to_set_insert, lemma_to_set_push, lex_less, path_lt, strict_total,
};
use crate::model::{Availability, BufferEdits, RangeEdit, RenameFailure, RenameResult, RenamedFile};
use crate::paths::{relative_to_root, relative_under};
use crate::positions::{editor_line, to_editor_line};
use crate::positions::{char_offset, char_offset_spec};
use crate::protocol::{DocumentEdits, ResourceOperation, TextEdit, TextEditView, WorkspaceEdit};
use crate::text::{byte_len, chars_of, decimal_chars, decimal_string, lemma_encode_utf8_len, same_text, string_of};
use crate::uri::{file_path, from_file_uri};
use vstd::string::StringSliceAdditionalSpecFns;
use vstd::utf8::encode_utf8;

verus! {

// ---------------------------------------------------------------------------
// The enclosing identifier
// ---------------------------------------------------------------------------

/// `char::is_alphanumeric`: whether a character is alphabetic or numeric by
/// its Unicode properties.
pub uninterp spec fn alphanumeric(c: char) -> bool;

/// `char::is_alphanumeric`, as the standard library defines it: true when the
/// character has the Unicode `Alphabetic` property or is numeric. Nothing is
/// stated of which characters those are.
#[verifier::external_body]
fn is_alphanumeric(c: char) -> (r: bool)
    ensures
        r == alphanumeric(c),
{
    c.is_alphanumeric()
}

/// Word characters: alphanumeric, `_` and `$`, the set the editor reads an
/// identifier with.
pub open spec fn is_word(c: char) -> bool {
    alphanumeric(c) || c == '_' || c == '$'
}

fn word(c: char) -> (r: bool)
    ensures
        r == is_word(c),
{
    c == '_' || c == '$' || is_alphanumeric(c)
}

/// How many word characters run back from `at`.
pub open spec fn words_before(s: Seq<char>, at: int) -> nat
    decreases at,
{
    if at <= 0 || at > s.len() || !is_word(s[at - 1]) {
        0
    } else {
        1 + words_before(s, at - 1)
    }
}

/// How many word characters run forward from `at`.
pub open spec fn words_after(s: Seq<char>, at: int) -> nat
    decreases s.len() - at,
{
    if at < 0 || at >= s.len() || !is_word(s[at]) {
        0
    } else {
        1 + words_after(s, at + 1)
    }
}

/// The identifier token around a position: word characters expanded both
/// ways from it, or nothing when there are none. A position the document does
/// not have clamps into it.
pub open spec fn enclosing_spec(s: Seq<char>, line: u32, character: u32) -> Option<Seq<char>> {
    let at = char_offset_spec(s, line as nat, character as int);
    let start = at - words_before(s, at);
    let end = at + words_after(s, at);
    if start < end {
        Some(s.subrange(start, end))
    } else {
        None
    }
}

proof fn lemma_words_before_bound(s: Seq<char>, at: int)
    requires
        0 <= at <= s.len(),
    ensures
        words_before(s, at) <= at,
    decreases at,
{
    if at > 0 && is_word(s[at - 1]) {
        lemma_words_before_bound(s, at - 1);
    }
}

proof fn lemma_words_after_bound(s: Seq<char>, at: int)
    requires
        0 <= at <= s.len(),
    ensures
        at + words_after(s, at) <= s.len(),
    decreases s.len() - at,
{
    if at < s.len() && is_word(s[at]) {
        lemma_words_after_bound(s, at + 1);
    }
}

/// The identifier token surrounding a position, or nothing. Diagnostic, so
/// it clamps rather than refusing.
pub fn enclosing_identifier(text: &str, line: u32, character: u32) -> (r: Option<String>)
    ensures
        match enclosing_spec(text@, line, character) {
            Some(t) => r matches Some(x) && x@ == t,
            None => r is None,
        },
{
    let v = chars_of(text);
    let at = char_offset(&v, line, character);
    let ghost s = v@;
    let mut start: usize = at;
    while start > 0 && word(v[start - 1])
        invariant
            start <= at <= v@.len(),
            s == v@,
            words_before(s, at as int) == (at - start) + words_before(s, start as int),
        decreases start,
    {
        start = start - 1;
    }
    let mut end: usize = at;
    while end < v.len() && word(v[end])
        invariant
            at <= end <= v@.len(),
            s == v@,
            words_after(s, at as int) == (end - at) + words_after(s, end as int),
        decreases v@.len() - end,
    {
        end = end + 1;
    }
    if start < end {
        let mut out: Vec<char> = Vec::new();
        let mut k: usize = start;
        while k < end
            invariant
                start <= k <= end <= v@.len(),
                out@ == v@.subrange(start as int, k as int),
            decreases end - k,
        {
            out.push(v[k]);
            assert(v@.subrange(start as int, k + 1) =~= v@.subrange(start as int, k as int).push(v@[k as int]));
            k = k + 1;
        }
        Some(string_of(&out))
    } else {
        None
    }
}

// ---------------------------------------------------------------------------
// The token verdict
// ---------------------------------------------------------------------------

/// How much of a file's edit set lands on the identifier being renamed.
#[derive(Debug, Clone, Copy, PartialEq, Eq, Structural)]
pub enum TokenVerdict {
    Agrees,
    /// Some do and some do not, which is ordinary.
    Partly { matched: usize, of: usize },
    /// None do: the server is describing text this app does not have.
    Disagrees,
}

/// Whether an edit starts on the expected identifier.
pub open spec fn lands_on(s: Seq<char>, e: TextEditView, expect: Seq<char>) -> bool {
    enclosing_spec(s, e.range.start.line, e.range.start.character) == Some(expect)
}

/// How many of the edits start on the expected identifier.
pub open spec fn landed(s: Seq<char>, edits: Seq<TextEditView>, expect: Seq<char>) -> nat
    decreases edits.len(),
{
    if edits.len() == 0 {
        0
    } else {
        landed(s, edits.drop_last(), expect) + if lands_on(s, edits.last(), expect) {
            1nat
        } else {
            0nat
        }
    }
}

proof fn lemma_landed_bound(s: Seq<char>, edits: Seq<TextEditView>, expect: Seq<char>)
    ensures
        landed(s, edits, expect) <= edits.len(),
    decreases edits.len(),
{
    if edits.len() > 0 {
        lemma_landed_bound(s, edits.drop_last(), expect);
    }
}

/// The verdict on a file: with nothing to compare against, or nothing to
/// check, there is no opinion.
pub open spec fn verdict_spec(s: Seq<char>, planned: Seq<TextEditView>, expect: Seq<char>) -> TokenVerdict {
    let m = landed(s, planned, expect);
    if expect.len() == 0 || planned.len() == 0 || m == planned.len() {
        TokenVerdict::Agrees
    } else if m == 0 {
        TokenVerdict::Disagrees
    } else {
        TokenVerdict::Partly { matched: m as usize, of: planned.len() as usize }
    }
}

pub fn token_verdict(text: &str, planned: &[TextEdit], expect: &str) -> (r: TokenVerdict)
    ensures
        r == verdict_spec(text@, views(planned@), expect@),
{
    if expect.unicode_len() == 0 || planned.len() == 0 {
        return TokenVerdict::Agrees;
    }
    let mut matched: usize = 0;
    let mut i: usize = 0;
    let ghost all = views(planned@);
    assert(all.take(0) =~= Seq::<TextEditView>::empty());
    while i < planned.len()
        invariant
            i <= planned@.len(),
            all == views(planned@),
            matched == landed(text@, all.take(i as int), expect@),
            matched <= i,
        decreases planned@.len() - i,
    {
        assert(all.take(i + 1).drop_last() =~= all.take(i as int));
        assert(all.take(i + 1).last() == planned@[i as int]@);
        let e = &planned[i];
        let token = enclosing_identifier(text, e.range.start.line, e.range.start.character);
        let hit = match &token {
            Some(t) => same_text(t.as_str(), expect),
            None => false,
        };
        if hit {
            matched = matched + 1;
        }
        i = i + 1;
    }
    assert(all.take(planned@.len() as int) =~= all);
    if matched == planned.len() {
        TokenVerdict::Agrees
    } else if matched == 0 {
        TokenVerdict::Disagrees
    } else {
        TokenVerdict::Partly { matched, of: planned.len() }
    }
}

// ---------------------------------------------------------------------------
// Phase 1: which files
// ---------------------------------------------------------------------------

/// The file a document's URI names, if it names one.
pub open spec fn doc_path(d: DocumentEdits) -> Option<Seq<char>> {
    file_path(encode_utf8(d.uri@))
}

pub open spec fn not_a_file_message(uri: Seq<char>) -> Seq<char> {
    "the language server wants to edit `"@ + uri
        + "`, which is not a file this app can open. Renaming only some of the files would leave the code not compiling, so nothing was changed."@
}

pub open spec fn outside_message(absolute: Seq<char>) -> Seq<char> {
    "the language server wants to edit "@ + absolute
        + ", which is outside this workspace. Renaming only some of the files would leave the code not compiling, so nothing was changed."@
}

/// Why one document refuses the whole rename, if it does: it names no file,
/// or a file outside the workspace.
pub open spec fn doc_refusal(root: Seq<char>, d: DocumentEdits) -> Option<Seq<char>> {
    match doc_path(d) {
        None => Some(not_a_file_message(d.uri@)),
        Some(a) => if relative_under(root, a) is None {
            Some(outside_message(a))
        } else {
            None
        },
    }
}

/// The first document, in the server's order, that refuses the rename.
pub open spec fn first_refusal(root: Seq<char>, docs: Seq<DocumentEdits>) -> Option<Seq<char>>
    decreases docs.len(),
{
    if docs.len() == 0 {
        None
    } else {
        match doc_refusal(root, docs[0]) {
            Some(m) => Some(m),
            None => first_refusal(root, docs.drop_first()),
        }
    }
}

pub open spec fn doc_abs(d: DocumentEdits) -> Seq<char> {
    doc_path(d)->Some_0
}

pub open spec fn doc_paths(docs: Seq<DocumentEdits>) -> Seq<Seq<char>> {
    docs.map_values(|d: DocumentEdits| doc_abs(d))
}

/// Every edit for one file, in the server's order, whichever spelling of
/// its URI each came under.
pub open spec fn edits_for(docs: Seq<DocumentEdits>, p: Seq<char>) -> Seq<TextEditView>
    decreases docs.len(),
{
    if docs.len() == 0 {
        Seq::empty()
    } else {
        edits_for(docs.drop_last(), p) + if doc_abs(docs.last()) == p {
            views(docs.last().edits@)
        } else {
            Seq::empty()
        }
    }
}

/// The files a set of documents names, one each, in path order.
pub open spec fn group_paths(docs: Seq<DocumentEdits>) -> Seq<Seq<char>> {
    arranged(doc_paths(docs).to_set(), by_path())
}

/// One file's share of a rename: its paths and every edit for it.
#[derive(Debug)]
pub struct Group {
    pub absolute: String,
    /// Workspace-relative: the spelling that crosses to the frontend.
    pub relative: String,
    pub edits: Vec<TextEdit>,
}

pub open spec fn group_keys(gs: Seq<Group>) -> Seq<Seq<char>> {
    gs.map_values(|g: Group| g.absolute@)
}

/// What grouping gives: each file once, in path order, with its relative
/// spelling and all its edits.
pub open spec fn grouped(root: Seq<char>, docs: Seq<DocumentEdits>, gs: Seq<Group>) -> bool {
    &&& group_keys(gs) == group_paths(docs)
    &&& forall|j: int| 0 <= j < gs.len() ==> {
        &&& Some((#[trigger] gs[j]).relative@) == relative_under(root, gs[j].absolute@)
        &&& views(gs[j].edits@) == edits_for(docs, gs[j].absolute@)
    }
}

proof fn lemma_edits_for_absent(docs: Seq<DocumentEdits>, p: Seq<char>)
    requires
        !doc_paths(docs).contains(p),
    ensures
        edits_for(docs, p) == Seq::<TextEditView>::empty(),
    decreases docs.len(),
{
    if docs.len() > 0 {
        assert(doc_paths(docs)[docs.len() - 1] == doc_abs(docs.last()));
        assert forall|k: int| 0 <= k < docs.len() - 1 implies doc_paths(docs.drop_last())[k] != p by {
            assert(doc_paths(docs.drop_last())[k] == doc_paths(docs)[k]);
        }
        lemma_edits_for_absent(docs.drop_last(), p);
    }
}

fn not_a_file(uri: &str) -> (r: String)
    ensures
        r@ == not_a_file_message(uri@),
{
    let mut m = "the language server wants to edit `".to_owned();
    m.append(uri);
    m.append(
        "`, which is not a file this app can open. Renaming only some of the files would leave the code not compiling, so nothing was changed.",
    );
    m
}

fn outside(absolute: &str) -> (r: String)
    ensures
        r@ == outside_message(absolute@),
{
    let mut m = "the language server wants to edit ".to_owned();
    m.append(absolute);
    m.append(
        ", which is outside this workspace. Renaming only some of the files would leave the code not compiling, so nothing was changed.",
    );
    m
}

fn copy_edits(from: &Vec<TextEdit>, into: &mut Vec<TextEdit>)
    ensures
        views(final(into)@) == views(old(into)@) + views(from@),
{
    let ghost start = views(into@);
    let mut i: usize = 0;
    while i < from.len()
        invariant
            i <= from@.len(),
            views(into@) == start + views(from@).take(i as int),
        decreases from@.len() - i,
    {
        let e = copy_edit(&from[i]);
        let ghost mid = views(into@);
        into.push(e);
        assert(views(from@)[i as int] == from@[i as int]@);
        assert(views(into@) =~= mid.push(e@));
        assert(views(from@).take(i + 1) =~= views(from@).take(i as int).push(views(from@)[i as int]));
        assert(views(into@) =~= start + views(from@).take(i + 1));
        i = i + 1;
    }
    assert(views(from@).take(from@.len() as int) =~= views(from@));
}

/// Resolve every document to a file of this workspace, or refuse the whole
/// rename naming the first that is not one; then merge the documents by the
/// file they name, so two spellings of one path are planned together.
pub fn group_documents(root: &str, docs: &Vec<DocumentEdits>) -> (r: Result<Vec<Group>, String>)
    ensures
        match first_refusal(root@, docs@) {
            Some(m) => r matches Err(x) && x@ == m,
            None => r matches Ok(gs) && grouped(root@, docs@, gs@),
        },
{
    proof {
        lemma_path_order();
    }
    let mut gs: Vec<Group> = Vec::new();
    let mut i: usize = 0;
    assert(docs@.skip(0) =~= docs@);
    assert(group_keys(gs@).to_set() =~= doc_paths(docs@.take(0)).to_set());
    while i < docs.len()
        invariant
            i <= docs@.len(),
            strict_total(by_path()),
            first_refusal(root@, docs@) == first_refusal(root@, docs@.skip(i as int)),
            forall|k: int| 0 <= k < i ==> (#[trigger] doc_path(docs@[k])) is Some,
            increasing_by(group_keys(gs@), by_path()),
            group_keys(gs@).to_set() == doc_paths(docs@.take(i as int)).to_set(),
            forall|j: int| 0 <= j < gs@.len() ==> {
                &&& Some((#[trigger] gs@[j]).relative@) == relative_under(root@, gs@[j].absolute@)
                &&& views(gs@[j].edits@) == edits_for(docs@.take(i as int), gs@[j].absolute@)
            },
        decreases docs@.len() - i,
    {
        let d = &docs[i];
        assert(docs@.skip(i as int)[0] == docs@[i as int]);
        assert(docs@.skip(i as int).drop_first() =~= docs@.skip(i + 1));
        let absolute = match from_file_uri(d.uri.as_str()) {
            Some(a) => a,
            None => {
                return Err(not_a_file(d.uri.as_str()));
            },
        };
        let relative = match relative_to_root(root, absolute.as_str()) {
            Some(p) => p,
            None => {
                return Err(outside(absolute.as_str()));
            },
        };
        let ghost before = gs@;
        let ghost a = absolute@;
        assert(doc_abs(docs@[i as int]) == a);
        assert(docs@.take(i + 1).drop_last() =~= docs@.take(i as int));
        assert(doc_paths(docs@.take(i + 1)) =~= doc_paths(docs@.take(i as int)).push(a));
        proof {
            lemma_to_set_push(doc_paths(docs@.take(i as int)), a);
        }
        let mut p: usize = 0;
        while p < gs.len() && lex_less(gs[p].absolute.as_str(), absolute.as_str(), true)
            invariant
                p <= gs@.len(),
                gs@ == before,
                a == absolute@,
                forall|k: int| 0 <= k < p ==> path_lt(#[trigger] group_keys(before)[k], a),
            decreases gs@.len() - p,
        {
            assert(group_keys(before)[p as int] == gs@[p as int].absolute@);
            p = p + 1;
        }
        if p < gs.len() && same_text(gs[p].absolute.as_str(), absolute.as_str()) {
            let mut g = gs.remove(p);
            let ghost old_edits = views(g.edits@);
            copy_edits(&d.edits, &mut g.edits);
            gs.insert(p, g);
            proof {
                assert(group_keys(gs@) =~= group_keys(before));
                assert(group_keys(before)[p as int] == a);
                assert(group_keys(before).to_set().contains(a));
                assert(group_keys(before).to_set().insert(a) =~= group_keys(before).to_set());
                assert forall|j: int| 0 <= j < gs@.len() implies views(gs@[j].edits@) == edits_for(
                    docs@.take(i + 1),
                    #[trigger] gs@[j].absolute@,
                ) by {
                    if j != p {
                        assert(gs@[j] == before[j]);
                        assert(group_keys(before)[j] == before[j].absolute@);
                        if before[j].absolute@ == a {
                            assert(increasing_by(group_keys(before), by_path()));
                            if j < p {
                                assert((by_path())(group_keys(before)[j], group_keys(before)[p as int]));
                            } else {
                                assert((by_path())(group_keys(before)[p as int], group_keys(before)[j]));
                            }
                            crate::order::lemma_lex_irreflexive(a, true);
                        }
                    }
                }
            }
        } else {
            proof {
                if p < gs@.len() {
                    assert(group_keys(before)[p as int] == gs@[p as int].absolute@);
                    assert(group_keys(before)[p as int] != a);
                    assert((by_path())(group_keys(before)[p as int], a) || (by_path())(a, group_keys(before)[p as int]));
                }
                lemma_increasing_insert(group_keys(before), p as int, a, by_path());
                lemma_to_set_insert(group_keys(before), p as int, a);
                assert(!doc_paths(docs@.take(i as int)).contains(a)) by {
                    if doc_paths(docs@.take(i as int)).contains(a) {
                        assert(doc_paths(docs@.take(i as int)).to_set().contains(a));
                        assert(group_keys(before).to_set().contains(a));
                        let k = choose|k: int| 0 <= k < group_keys(before).len() && group_keys(before)[k] == a;
                        if k < p {
                            crate::order::lemma_lex_irreflexive(a, true);
                        } else {
                            assert(k == p || (by_path())(group_keys(before)[p as int], group_keys(before)[k]));
                            if k > p {
                                crate::order::lemma_lex_transitive(a, group_keys(before)[p as int], a, true);
                                crate::order::lemma_lex_irreflexive(a, true);
                            }
                        }
                    }
                }
                lemma_edits_for_absent(docs@.take(i as int), a);
            }
            let mut edits: Vec<TextEdit> = Vec::new();
            copy_edits(&d.edits, &mut edits);
            gs.insert(p, Group { absolute, relative, edits });
            proof {
                assert(group_keys(gs@) =~= group_keys(before).insert(p as int, a));
                assert forall|j: int| 0 <= j < gs@.len() implies views(gs@[j].edits@) == edits_for(
                    docs@.take(i + 1),
                    #[trigger] gs@[j].absolute@,
                ) && Some(gs@[j].relative@) == relative_under(root@, gs@[j].absolute@) by {
                    if j < p {
                        assert(gs@[j] == before[j]);
                        assert(group_keys(before)[j] == before[j].absolute@);
                        assert(before[j].absolute@ != a) by {
                            crate::order::lemma_lex_irreflexive(a, true);
                        }
                    } else if j > p {
                        assert(gs@[j] == before[j - 1]);
                        assert(group_keys(before)[j - 1] == before[j - 1].absolute@);
                        assert(before[j - 1].absolute@ != a) by {
                            assert(group_keys(gs@)[j] == before[j - 1].absolute@);
                            assert(group_keys(gs@)[p as int] == a);
                            assert(increasing_by(group_keys(gs@), by_path()));
                            assert((by_path())(group_keys(gs@)[p as int], group_keys(gs@)[j]));
                            crate::order::lemma_lex_irreflexive(a, true);
                        }
                    } else {
                        assert(views(gs@[j].edits@) =~= Seq::<TextEditView>::empty() + views(d.edits@));
                    }
                }
            }
        }
        i = i + 1;
    }
    proof {
        assert(docs@.take(docs@.len() as int) =~= docs@);
        assert(docs@.skip(docs@.len() as int) =~= Seq::<DocumentEdits>::empty());
        lemma_arranged_is(group_keys(gs@), doc_paths(docs@).to_set(), by_path());
    }
    Ok(gs)
}

// ---------------------------------------------------------------------------
// Phase 1: planning each file
// ---------------------------------------------------------------------------

/// The largest file this app edits.
pub const MAX_EDITABLE_BYTES: u64 = 8388608;

/// How much pre-image text the rollback may hold at once, across every file.
/// Enforced in phase 1: refusing before anything is written is an answer,
/// running out of memory halfway through phase 2 is not.
pub const RENAME_MAX_TOTAL_BYTES: usize = 33554432;

/// Reading and writing workspace files. Paths are absolute.
pub trait Files {
    /// The file's whole contents, or why not.
    fn read(&mut self, path: &str) -> Result<String, String>;

    /// Replace the file's contents, or say why that did not happen.
    fn write(&mut self, path: &str, text: &str) -> Result<(), String>;
}

/// One question put to [`Files`], with the answer it got.
pub ghost enum FileCall {
    Read { path: Seq<char>, answer: Result<Seq<char>, Seq<char>> },
    Write { path: Seq<char>, text: Seq<char>, answer: Result<(), Seq<char>> },
}

pub open spec fn read_answer(r: Result<String, String>) -> Result<Seq<char>, Seq<char>> {
    match r {
        Ok(t) => Ok(t@),
        Err(e) => Err(e@),
    }
}

pub open spec fn write_answer(r: Result<(), String>) -> Result<(), Seq<char>> {
    match r {
        Ok(()) => Ok(()),
        Err(e) => Err(e@),
    }
}

/// Read a file, and put the question and its answer on `log`.
fn read_file<F: Files + ?Sized>(files: &mut F, path: &str, log: &mut Ghost<Seq<FileCall>>) -> (r: Result<String, String>)
    ensures
        final(log)@ == old(log)@.push(FileCall::Read { path: path@, answer: read_answer(r) }),
{
    let r = files.read(path);
    *log = Ghost(log@.push(FileCall::Read { path: path@, answer: read_answer(r) }));
    r
}

/// Write a file, and put the question and its answer on `log`.
fn write_file<F: Files + ?Sized>(files: &mut F, path: &str, text: &str, log: &mut Ghost<Seq<FileCall>>) -> (r: Result<(), String>)
    ensures
        final(log)@ == old(log)@.push(FileCall::Write { path: path@, text: text@, answer: write_answer(r) }),
{
    let r = files.write(path, text);
    *log = Ghost(log@.push(FileCall::Write { path: path@, text: text@, answer: write_answer(r) }));
    r
}

/// A closed file's before and after.
#[derive(Debug)]
pub struct Applied {
    pub before: String,
    pub after: String,
}

/// One file, planned, and — if it is closed — already applied in memory with
/// its pre-image kept for the rollback.
#[derive(Debug)]
pub struct PlannedFile {
    pub absolute: String,
    pub relative: String,
    pub planned: Vec<TextEdit>,
    /// `None` for an open buffer, which this side never writes.
    pub applied: Option<Applied>,
}

/// Everything phase 2 needs, and the qualifications phase 1 collected.
#[derive(Debug)]
pub struct Plan {
    pub files: Vec<PlannedFile>,
    pub total: u32,
    pub notes: Vec<String>,
}

/// A planned file, as plain values.
pub ghost struct FileView {
    pub absolute: Seq<char>,
    pub relative: Seq<char>,
    pub planned: Seq<TextEditView>,
    pub applied: Option<(Seq<char>, Seq<char>)>,
}

pub open spec fn file_view(f: PlannedFile) -> FileView {
    FileView {
        absolute: f.absolute@,
        relative: f.relative@,
        planned: views(f.planned@),
        applied: match f.applied {
            Some(a) => Some((a.before@, a.after@)),
            None => None,
        },
    }
}

pub open spec fn file_views(fs: Seq<PlannedFile>) -> Seq<FileView> {
    fs.map_values(|f: PlannedFile| file_view(f))
}

pub open spec fn texts(s: Seq<String>) -> Seq<Seq<char>> {
    s.map_values(|x: String| x@)
}

/// Phase 1's state between files, as plain values: what is planned, how
/// many edits, the notes, and how much pre-image text is held.
pub ghost struct PlanView {
    pub files: Seq<FileView>,
    pub total: u32,
    pub notes: Seq<Seq<char>>,
    pub held: nat,
}

/// A file's share of the rename, as plain values.
pub ghost struct GroupView {
    pub absolute: Seq<char>,
    pub relative: Seq<char>,
    pub edits: Seq<TextEditView>,
}

pub open spec fn group_view(g: Group) -> GroupView {
    GroupView { absolute: g.absolute@, relative: g.relative@, edits: views(g.edits@) }
}

/// The files a rename's documents name, in path order, each with all its
/// edits.
pub open spec fn groups_of(root: Seq<char>, docs: Seq<DocumentEdits>) -> Seq<GroupView> {
    group_paths(docs).map_values(
        |p: Seq<char>| GroupView { absolute: p, relative: relative_under(root, p)->Some_0, edits: edits_for(docs, p) },
    )
}

pub open spec fn plan_error_message(relative: Seq<char>, e: EditError) -> Seq<char> {
    relative + ": "@ + message_spec(e) + ". Nothing was changed."@
}

pub open spec fn read_error_message(e: Seq<char>) -> Seq<char> {
    e + ". Nothing was changed."@
}

pub open spec fn too_large_message(relative: Seq<char>, bytes: nat) -> Seq<char> {
    relative + " is too large to edit here ("@ + decimal_chars(bytes / 1048576) + " MB). Nothing was changed."@
}

pub open spec fn too_much_message(files: nat) -> Seq<char> {
    "this rename touches too much text to undo safely ("@ + decimal_chars(files) + " files, over "@
        + decimal_chars((RENAME_MAX_TOTAL_BYTES / 1048576) as nat) + " MB). Nothing was changed."@
}

pub open spec fn partly_note(relative: Seq<char>, matched: nat, of: nat, expect: Seq<char>) -> Seq<char> {
    "In "@ + relative + ", only "@ + decimal_chars(matched) + " of "@ + decimal_chars(of) + " edits land on `"@
        + expect
        + "` itself — the rest change text that merely contains it, such as a comment or a string."@
}

pub open spec fn disagree_message(relative: Seq<char>, expect: Seq<char>) -> Seq<char> {
    "the language server's edits for "@ + relative + " do not land on `"@ + expect
        + "` at all, so it computed them from a different version of that file. Nothing was changed."@
}

/// `a + b`, saturating at `u32::MAX`, where `b` is a count cast to `u32`.
pub open spec fn add_count(a: u32, b: nat) -> u32 {
    let n = (b as u32) as nat;
    if a + n > u32::MAX { u32::MAX } else { (a + n) as u32 }
}

/// `a + b`, saturating at `usize::MAX`.
pub open spec fn add_held(a: nat, b: nat) -> nat {
    if a + b > usize::MAX { usize::MAX as nat } else { a + b }
}

/// What phase 1 decides about a closed file, given its text: refused as too
/// large, as too much to hold, as planned against other text, or as not
/// applicable; otherwise applied in memory, with the note a partial token
/// agreement earns and the pre-image text now held.
pub open spec fn admit_spec(
    absolute: Seq<char>,
    relative: Seq<char>,
    planned: Seq<TextEditView>,
    before: Seq<char>,
    held: nat,
    count: nat,
    expect: Seq<char>,
) -> Result<(FileView, Option<Seq<char>>, nat), Seq<char>> {
    if byte_len(before) > MAX_EDITABLE_BYTES {
        Err(too_large_message(relative, byte_len(before)))
    } else {
        let now = add_held(held, byte_len(before));
        if now > RENAME_MAX_TOTAL_BYTES {
            Err(too_much_message(count + 1))
        } else {
            match verdict_spec(before, planned, expect) {
                TokenVerdict::Disagrees => Err(disagree_message(relative, expect)),
                verdict => match apply_spec(before, planned) {
                    Err(e) => Err(plan_error_message(relative, e)),
                    Ok(after) => Ok(
                        (
                            FileView { absolute, relative, planned, applied: Some((before, after)) },
                            match verdict {
                                TokenVerdict::Partly { matched, of } => Some(
                                    partly_note(relative, matched as nat, of as nat, expect),
                                ),
                                _ => None,
                            },
                            now,
                        ),
                    ),
                },
            }
        }
    }
}

pub open spec fn text_opt(s: Option<String>) -> Option<Seq<char>> {
    match s {
        Some(t) => Some(t@),
        None => None,
    }
}

/// What phase 1 decides about one file, given the text a read gave for it
/// (consulted only for a closed file with something to change).
pub open spec fn step(
    st: PlanView,
    g: GroupView,
    open: Seq<Seq<char>>,
    expect: Seq<char>,
    read: Result<Seq<char>, Seq<char>>,
) -> Result<PlanView, Seq<char>> {
    if g.edits.len() == 0 {
        Ok(st)
    } else {
        match plan_spec(g.edits) {
            Err(e) => Err(plan_error_message(g.relative, e)),
            Ok(planned) => {
                let total = add_count(st.total, planned.len());
                if open.contains(g.absolute) {
                    Ok(
                        PlanView {
                            files: st.files.push(
                                FileView { absolute: g.absolute, relative: g.relative, planned, applied: None },
                            ),
                            total,
                            notes: st.notes,
                            held: st.held,
                        },
                    )
                } else {
                    match read {
                        Err(e) => Err(read_error_message(e)),
                        Ok(before) => match admit_spec(g.absolute, g.relative, planned, before, st.held, st.files.len(), expect) {
                            Err(m) => Err(m),
                            Ok((f, note, held)) => Ok(
                                PlanView {
                                    files: st.files.push(f),
                                    total,
                                    notes: match note {
                                        Some(n) => st.notes.push(n),
                                        None => st.notes,
                                    },
                                    held,
                                },
                            ),
                        },
                    }
                }
            },
        }
    }
}

/// Phase 1 over every file in order, the `i`th read answering for the `i`th
/// file; the first refusal is the answer.
pub open spec fn run(
    st: PlanView,
    gs: Seq<GroupView>,
    open: Seq<Seq<char>>,
    expect: Seq<char>,
    reads: Seq<Result<Seq<char>, Seq<char>>>,
) -> Result<PlanView, Seq<char>>
    decreases gs.len(),
{
    if gs.len() == 0 {
        Ok(st)
    } else {
        match run(st, gs.drop_last(), open, expect, reads.drop_last()) {
            Err(m) => Err(m),
            Ok(mid) => step(mid, gs.last(), open, expect, reads.last()),
        }
    }
}

pub open spec fn empty_plan() -> PlanView {
    PlanView { files: Seq::empty(), total: 0, notes: Seq::empty(), held: 0 }
}

/// `s` joined with `sep`.
pub open spec fn joined(s: Seq<Seq<char>>, sep: Seq<char>) -> Seq<char>
    decreases s.len(),
{
    if s.len() == 0 {
        Seq::empty()
    } else if s.len() == 1 {
        s[0]
    } else {
        joined(s.drop_last(), sep) + sep + s.last()
    }
}

/// Why a rename that also moves, creates or deletes files is declined.
pub open spec fn resource_message(op: ResourceOperation, count: nat) -> Seq<char> {
    "this rename would also "@ + op.kind@ + " "@ + joined(texts(op.uris@), ", "@)
        + " on disk, which this app does not do — moving a file invalidates open editor tabs, the symbol index and every saved reference to it. Nothing was changed. ("@
        + decimal_chars(count) + " operation"@ + (if count == 1 {
        ""@
    } else {
        "s"@
    }) + " in the answer.)"@
}

/// What phase 1 gives, as plain values.
pub open spec fn plan_outcome(r: Result<Plan, String>, expected: Result<PlanView, Seq<char>>) -> bool {
    match r {
        Ok(p) => expected matches Ok(v) && v.files == file_views(p.files@) && v.total == p.total && v.notes == texts(
            p.notes@,
        ),
        Err(m) => expected == Err::<PlanView, Seq<char>>(m@),
    }
}

proof fn lemma_run_err_stays(
    st: PlanView,
    gs: Seq<GroupView>,
    open: Seq<Seq<char>>,
    expect: Seq<char>,
    reads: Seq<Result<Seq<char>, Seq<char>>>,
    k: int,
)
    requires
        0 <= k <= gs.len(),
        reads.len() == gs.len(),
        run(st, gs.take(k), open, expect, reads.take(k)) is Err,
    ensures
        run(st, gs, open, expect, reads) == run(st, gs.take(k), open, expect, reads.take(k)),
    decreases gs.len() - k,
{
    if k < gs.len() {
        assert(gs.take(k + 1).drop_last() =~= gs.take(k));
        assert(reads.take(k + 1).drop_last() =~= reads.take(k));
        lemma_run_err_stays(st, gs, open, expect, reads, k + 1);
    } else {
        assert(gs.take(k) =~= gs);
        assert(reads.take(k) =~= reads);
    }
}

proof fn lemma_chars_within_bytes(s: Seq<char>)
    ensures
        s.len() <= byte_len(s),
    decreases s.len(),
{
    if s.len() > 0 {
        lemma_chars_within_bytes(s.drop_last());
    }
}

proof fn lemma_breaks_within(s: Seq<char>, i: int)
    requires
        0 <= i <= s.len(),
    ensures
        breaks_from(s, i) <= s.len() - i,
    decreases s.len() - i,
{
    if i < s.len() {
        if s[i] == '\r' && i + 1 < s.len() && s[i + 1] == '\n' {
            lemma_breaks_within(s, i + 2);
        } else {
            lemma_breaks_within(s, i + 1);
        }
    }
}

fn plan_error(relative: &str, e: &EditError) -> (r: String)
    ensures
        r@ == plan_error_message(relative@, *e),
{
    let mut m = relative.to_owned();
    m.append(": ");
    m.append(e.to_string().as_str());
    m.append(". Nothing was changed.");
    m
}

fn read_error(e: &str) -> (r: String)
    ensures
        r@ == read_error_message(e@),
{
    let mut m = e.to_owned();
    m.append(". Nothing was changed.");
    m
}

fn too_large(relative: &str, bytes: usize) -> (r: String)
    ensures
        r@ == too_large_message(relative@, bytes as nat),
{
    let mut m = relative.to_owned();
    m.append(" is too large to edit here (");
    m.append(decimal_string((bytes / 1048576) as u64).as_str());
    m.append(" MB). Nothing was changed.");
    m
}

fn too_much(files: usize) -> (r: String)
    ensures
        r@ == too_much_message(files as nat),
{
    let mut m = "this rename touches too much text to undo safely (".to_owned();
    m.append(decimal_string(files as u64).as_str());
    m.append(" files, over ");
    m.append(decimal_string((RENAME_MAX_TOTAL_BYTES / 1048576) as u64).as_str());
    m.append(" MB). Nothing was changed.");
    m
}

fn partly(relative: &str, matched: usize, of: usize, expect: &str) -> (r: String)
    ensures
        r@ == partly_note(relative@, matched as nat, of as nat, expect@),
{
    let mut m = "In ".to_owned();
    m.append(relative);
    m.append(", only ");
    m.append(decimal_string(matched as u64).as_str());
    m.append(" of ");
    m.append(decimal_string(of as u64).as_str());
    m.append(" edits land on `");
    m.append(expect);
    m.append("` itself — the rest change text that merely contains it, such as a comment or a string.");
    m
}

fn disagree(relative: &str, expect: &str) -> (r: String)
    ensures
        r@ == disagree_message(relative@, expect@),
{
    let mut m = "the language server's edits for ".to_owned();
    m.append(relative);
    m.append(" do not land on `");
    m.append(expect);
    m.append("` at all, so it computed them from a different version of that file. Nothing was changed.");
    m
}

fn is_open(open: &[String], path: &str) -> (r: bool)
    ensures
        r == texts(open@).contains(path@),
{
    let mut i: usize = 0;
    while i < open.len()
        invariant
            i <= open@.len(),
            forall|k: int| 0 <= k < i ==> open@[k]@ != path@,
        decreases open@.len() - i,
    {
        if same_text(open[i].as_str(), path) {
            assert(texts(open@)[i as int] == path@);
            return true;
        }
        i = i + 1;
    }
    proof {
        if texts(open@).contains(path@) {
            let k = choose|k: int| 0 <= k < texts(open@).len() && texts(open@)[k] == path@;
            assert(open@[k]@ == path@);
        }
    }
    false
}

/// The decision on a closed file, given the text read for it: its plan
/// applied in memory, with the note a partial token agreement earns and the
/// pre-image text now held; or the refusal.
pub fn admit_closed(
    group: &Group,
    planned: Vec<TextEdit>,
    before: String,
    held: usize,
    planned_so_far: usize,
    expect: &str,
) -> (r: Result<(PlannedFile, Option<String>, usize), String>)
    requires
        planned_so_far < usize::MAX,
    ensures
        match admit_spec(
            group.absolute@,
            group.relative@,
            views(planned@),
            before@,
            held as nat,
            planned_so_far as nat,
            expect@,
        ) {
            Err(m) => r matches Err(x) && x@ == m,
            Ok((f, n, h)) => r matches Ok((pf, note, hh)) && file_view(pf) == f && text_opt(note) == n && hh as nat == h,
        },
{
    proof {
        lemma_encode_utf8_len(before@);
    }
    let bytes = before.as_str().as_bytes().len();
    if bytes as u64 > MAX_EDITABLE_BYTES {
        return Err(too_large(group.relative.as_str(), bytes));
    }
    let now = held.saturating_add(bytes);
    if now > RENAME_MAX_TOTAL_BYTES {
        return Err(too_much(planned_so_far + 1));
    }
    let verdict = token_verdict(before.as_str(), planned.as_slice(), expect);
    let note = match verdict {
        TokenVerdict::Agrees => None,
        TokenVerdict::Partly { matched, of } => Some(partly(group.relative.as_str(), matched, of, expect)),
        TokenVerdict::Disagrees => {
            return Err(disagree(group.relative.as_str(), expect));
        },
    };
    proof {
        lemma_chars_within_bytes(before@);
        lemma_breaks_within(before@, 0);
    }
    let after = match apply(before.as_str(), planned.as_slice()) {
        Ok(a) => a,
        Err(e) => {
            return Err(plan_error(group.relative.as_str(), &e));
        },
    };
    let f = PlannedFile {
        absolute: group.absolute.clone(),
        relative: group.relative.clone(),
        planned,
        applied: Some(Applied { before, after }),
    };
    Ok((f, note, now))
}

fn resource_refusal(edit: &WorkspaceEdit) -> (r: String)
    requires
        edit.resource_operations@.len() > 0,
    ensures
        r@ == resource_message(edit.resource_operations@[0], edit.resource_operations@.len()),
{
    let op = &edit.resource_operations[0];
    let count = edit.resource_operations.len();
    let mut m = "this rename would also ".to_owned();
    m.append(op.kind.as_str());
    m.append(" ");
    let mut k: usize = 0;
    let ghost us = texts(op.uris@);
    assert(us.take(0) =~= Seq::<Seq<char>>::empty());
    let ghost head = m@;
    while k < op.uris.len()
        invariant
            k <= op.uris@.len(),
            us == texts(op.uris@),
            m@ == head + joined(us.take(k as int), ", "@),
        decreases op.uris@.len() - k,
    {
        if k > 0 {
            m.append(", ");
        }
        m.append(op.uris[k].as_str());
        proof {
            let t = us.take(k + 1);
            assert(t.drop_last() =~= us.take(k as int));
            assert(t.last() == op.uris@[k as int]@);
            if k == 0 {
                assert(t =~= seq![us[0]]);
            }
        }
        k = k + 1;
    }
    assert(us.take(op.uris@.len() as int) =~= us);
    m.append(" on disk, which this app does not do — moving a file invalidates open editor tabs, the symbol index and every saved reference to it. Nothing was changed. (");
    m.append(decimal_string(count as u64).as_str());
    m.append(" operation");
    if count == 1 {
        m.append("");
    } else {
        m.append("s");
    }
    m.append(" in the answer.)");
    m
}

proof fn lemma_advance(
    st: PlanView,
    gs: Seq<GroupView>,
    open: Seq<Seq<char>>,
    expect: Seq<char>,
    reads: Seq<Result<Seq<char>, Seq<char>>>,
    x: Result<Seq<char>, Seq<char>>,
)
    requires
        reads.len() < gs.len(),
    ensures
        run(st, gs.take(reads.len() + 1int), open, expect, reads.push(x)) == match run(
            st,
            gs.take(reads.len() as int),
            open,
            expect,
            reads,
        ) {
            Err(m) => Err(m),
            Ok(mid) => step(mid, gs[reads.len() as int], open, expect, x),
        },
{
    let i = reads.len() as int;
    assert(gs.take(i + 1).drop_last() =~= gs.take(i));
    assert(gs.take(i + 1).last() == gs[i]);
    assert(reads.push(x).drop_last() =~= reads);
}

proof fn lemma_refused(
    st: PlanView,
    gs: Seq<GroupView>,
    open: Seq<Seq<char>>,
    expect: Seq<char>,
    reads: Seq<Result<Seq<char>, Seq<char>>>,
    x: Result<Seq<char>, Seq<char>>,
)
    requires
        reads.len() < gs.len(),
        run(st, gs.take(reads.len() + 1int), open, expect, reads.push(x)) is Err,
    ensures
        exists|full: Seq<Result<Seq<char>, Seq<char>>>|
            #![trigger run(st, gs, open, expect, full)]
            full.len() == gs.len() && run(st, gs, open, expect, full) == run(
                st,
                gs.take(reads.len() + 1int),
                open,
                expect,
                reads.push(x),
            ),
{
    let i = reads.len() as int;
    let full = reads.push(x) + Seq::new((gs.len() - i - 1) as nat, |k: int| x);
    assert(full.take(i + 1) =~= reads.push(x));
    lemma_run_err_stays(st, gs, open, expect, full, i + 1);
}

/// Whether phase 1 reads a file: it has edits, they plan, and the editor
/// does not have it open.
pub open spec fn reads_file(g: GroupView, open: Seq<Seq<char>>) -> bool {
    g.edits.len() > 0 && plan_spec(g.edits) is Ok && !open.contains(g.absolute)
}

/// The questions phase 1 puts, each a read, given its answers: one per file
/// it reads, in order, up to the first refusal.
#[verifier::opaque]
pub open spec fn read_calls(
    st: PlanView,
    gs: Seq<GroupView>,
    open: Seq<Seq<char>>,
    expect: Seq<char>,
    reads: Seq<Result<Seq<char>, Seq<char>>>,
) -> Seq<FileCall>
    decreases gs.len(),
{
    if gs.len() == 0 {
        Seq::empty()
    } else {
        let before = read_calls(st, gs.drop_last(), open, expect, reads.drop_last());
        match run(st, gs.drop_last(), open, expect, reads.drop_last()) {
            Err(_) => before,
            Ok(_) => if reads_file(gs.last(), open) {
                before.push(FileCall::Read { path: gs.last().absolute, answer: reads.last() })
            } else {
                before
            },
        }
    }
}

proof fn lemma_read_calls_advance(
    st: PlanView,
    gs: Seq<GroupView>,
    open: Seq<Seq<char>>,
    expect: Seq<char>,
    reads: Seq<Result<Seq<char>, Seq<char>>>,
    x: Result<Seq<char>, Seq<char>>,
)
    requires
        reads.len() < gs.len(),
    ensures
        read_calls(st, gs.take(reads.len() + 1int), open, expect, reads.push(x)) == match run(
            st,
            gs.take(reads.len() as int),
            open,
            expect,
            reads,
        ) {
            Err(_) => read_calls(st, gs.take(reads.len() as int), open, expect, reads),
            Ok(_) => if reads_file(gs[reads.len() as int], open) {
                read_calls(st, gs.take(reads.len() as int), open, expect, reads).push(
                    FileCall::Read { path: gs[reads.len() as int].absolute, answer: x },
                )
            } else {
                read_calls(st, gs.take(reads.len() as int), open, expect, reads)
            },
        },
{
    reveal(read_calls);
    let i = reads.len() as int;
    assert(gs.take(i + 1).drop_last() =~= gs.take(i));
    assert(gs.take(i + 1).last() == gs[i]);
    assert(reads.push(x).drop_last() =~= reads);
}

proof fn lemma_read_calls_empty(st: PlanView, open: Seq<Seq<char>>, expect: Seq<char>)
    ensures
        read_calls(st, Seq::empty(), open, expect, Seq::empty()) == Seq::<FileCall>::empty(),
{
    reveal(read_calls);
}

proof fn lemma_read_calls_err_stays(
    st: PlanView,
    gs: Seq<GroupView>,
    open: Seq<Seq<char>>,
    expect: Seq<char>,
    reads: Seq<Result<Seq<char>, Seq<char>>>,
    k: int,
)
    requires
        0 <= k <= gs.len(),
        reads.len() == gs.len(),
        run(st, gs.take(k), open, expect, reads.take(k)) is Err,
    ensures
        read_calls(st, gs, open, expect, reads) == read_calls(st, gs.take(k), open, expect, reads.take(k)),
    decreases gs.len() - k,
{
    reveal(read_calls);
    if k < gs.len() {
        assert(gs.take(k + 1).drop_last() =~= gs.take(k));
        assert(reads.take(k + 1).drop_last() =~= reads.take(k));
        lemma_read_calls_err_stays(st, gs, open, expect, reads, k + 1);
    } else {
        assert(gs.take(k) =~= gs);
        assert(reads.take(k) =~= reads);
    }
}

/// A refusal at the `i`th file, extended to an answer for every file: the
/// outcome and the reads made are those up to the refusal.
proof fn lemma_refused_full(
    st: PlanView,
    gs: Seq<GroupView>,
    open: Seq<Seq<char>>,
    expect: Seq<char>,
    reads: Seq<Result<Seq<char>, Seq<char>>>,
    x: Result<Seq<char>, Seq<char>>,
) -> (full: Seq<Result<Seq<char>, Seq<char>>>)
    requires
        reads.len() < gs.len(),
        run(st, gs.take(reads.len() + 1int), open, expect, reads.push(x)) is Err,
    ensures
        full.len() == gs.len(),
        run(st, gs, open, expect, full) == run(st, gs.take(reads.len() + 1int), open, expect, reads.push(x)),
        read_calls(st, gs, open, expect, full) == read_calls(st, gs.take(reads.len() + 1int), open, expect, reads.push(x)),
{
    let i = reads.len() as int;
    let full = reads.push(x) + Seq::new((gs.len() - i - 1) as nat, |k: int| x);
    assert(full.take(i + 1) =~= reads.push(x));
    lemma_run_err_stays(st, gs, open, expect, full, i + 1);
    lemma_read_calls_err_stays(st, gs, open, expect, full, i + 1);
    full
}

/// Phase 1: resolve, validate, plan and read. Writes nothing; every refusal
/// is whole. The reads' answers come from outside; whatever they were, the
/// outcome is what [`run`] makes of them.
#[verifier::rlimit(100)]
fn plan_workspace_edit<F: Files + ?Sized>(
    root: &str,
    edit: &WorkspaceEdit,
    open: &[String],
    expect: &str,
    files: &mut F,
    log: &mut Ghost<Seq<FileCall>>,
) -> (r: Result<Plan, String>)
    ensures
        edit.resource_operations@.len() > 0 ==> (r matches Err(m) && m@ == resource_message(
            edit.resource_operations@[0],
            edit.resource_operations@.len(),
        )) && final(log)@ == old(log)@,
        edit.resource_operations@.len() == 0 ==> match first_refusal(root@, edit.documents@) {
            Some(m) => r matches Err(x) && x@ == m && final(log)@ == old(log)@,
            None => exists|reads: Seq<Result<Seq<char>, Seq<char>>>|
                #![trigger run(empty_plan(), groups_of(root@, edit.documents@), texts(open@), expect@, reads)]
                reads.len() == groups_of(root@, edit.documents@).len() && final(log)@ == old(log)@ + read_calls(
                    empty_plan(),
                    groups_of(root@, edit.documents@),
                    texts(open@),
                    expect@,
                    reads,
                ) && plan_outcome(r, run(empty_plan(), groups_of(root@, edit.documents@), texts(open@), expect@, reads)),
        },
{
    let ghost start = log@;
    if edit.resource_operations.len() > 0 {
        return Err(resource_refusal(edit));
    }
    let gs = match group_documents(root, &edit.documents) {
        Ok(gs) => gs,
        Err(m) => {
            return Err(m);
        },
    };
    let ghost gvs = groups_of(root@, edit.documents@);
    let ghost op = texts(open@);
    proof {
        assert forall|j: int| 0 <= j < gs@.len() implies #[trigger] group_view(gs@[j]) == gvs[j] by {
            assert(group_keys(gs@)[j] == gs@[j].absolute@);
        }
    }
    let mut planned_files: Vec<PlannedFile> = Vec::new();
    let mut total: u32 = 0;
    let mut notes: Vec<String> = Vec::new();
    let mut held: usize = 0;
    let ghost mut reads: Seq<Result<Seq<char>, Seq<char>>> = Seq::empty();
    let mut i: usize = 0;
    assert(gvs.take(0) =~= Seq::<GroupView>::empty());
    proof {
        lemma_read_calls_empty(empty_plan(), op, expect@);
    }
    assert(log@ =~= start + Seq::<FileCall>::empty());
    assert(file_views(planned_files@) =~= Seq::<FileView>::empty());
    assert(texts(notes@) =~= Seq::<Seq<char>>::empty());
    while i < gs.len()
        invariant
            i <= gs@.len(),
            edit.resource_operations@.len() == 0,
            first_refusal(root@, edit.documents@) is None,
            gvs == groups_of(root@, edit.documents@),
            gs@.len() == gvs.len(),
            op == texts(open@),
            forall|j: int| 0 <= j < gs@.len() ==> #[trigger] group_view(gs@[j]) == gvs[j],
            reads.len() == i,
            start == old(log)@,
            log@ == start + read_calls(empty_plan(), gvs.take(i as int), op, expect@, reads),
            planned_files@.len() <= i,
            run(empty_plan(), gvs.take(i as int), op, expect@, reads) == Ok::<PlanView, Seq<char>>(
                PlanView {
                    files: file_views(planned_files@),
                    total,
                    notes: texts(notes@),
                    held: held as nat,
                },
            ),
        decreases gs@.len() - i,
    {
        let g = &gs[i];
        assert(group_view(*g) == gvs[i as int]);
        let ghost files_before = file_views(planned_files@);
        let ghost notes_before = texts(notes@);
        if g.edits.len() == 0 {
            proof {
                let x = Err::<Seq<char>, Seq<char>>(Seq::empty());
                lemma_advance(empty_plan(), gvs, op, expect@, reads, x);
                lemma_read_calls_advance(empty_plan(), gvs, op, expect@, reads, x);
                reads = reads.push(x);
            }
            i = i + 1;
            continue;
        }
        let planned = match plan(g.edits.as_slice()) {
            Ok(p) => p,
            Err(e) => {
                let m = plan_error(g.relative.as_str(), &e);
                proof {
                    let x = Err::<Seq<char>, Seq<char>>(Seq::empty());
                    lemma_advance(empty_plan(), gvs, op, expect@, reads, x);
                    lemma_read_calls_advance(empty_plan(), gvs, op, expect@, reads, x);
                    let full = lemma_refused_full(empty_plan(), gvs, op, expect@, reads, x);
                    assert(log@ == start + read_calls(empty_plan(), gvs, op, expect@, full));
                    assert(plan_outcome(Err::<Plan, String>(m), run(empty_plan(), gvs, op, expect@, full)));
                }
                return Err(m);
            },
        };
        total = total.saturating_add(#[verifier::truncate] (planned.len() as u32));
        if is_open(open, g.absolute.as_str()) {
            let f = PlannedFile { absolute: g.absolute.clone(), relative: g.relative.clone(), planned, applied: None };
            let ghost fv = file_view(f);
            planned_files.push(f);
            proof {
                let x = Err::<Seq<char>, Seq<char>>(Seq::empty());
                lemma_advance(empty_plan(), gvs, op, expect@, reads, x);
                lemma_read_calls_advance(empty_plan(), gvs, op, expect@, reads, x);
                assert(file_views(planned_files@) =~= files_before.push(fv));
                reads = reads.push(x);
            }
            i = i + 1;
            continue;
        }
        let before = match read_file(files, g.absolute.as_str(), log) {
            Ok(b) => b,
            Err(e) => {
                let m = read_error(e.as_str());
                proof {
                    let x = Err::<Seq<char>, Seq<char>>(e@);
                    lemma_advance(empty_plan(), gvs, op, expect@, reads, x);
                    lemma_read_calls_advance(empty_plan(), gvs, op, expect@, reads, x);
                    let full = lemma_refused_full(empty_plan(), gvs, op, expect@, reads, x);
                    assert(log@ =~= start + read_calls(empty_plan(), gvs, op, expect@, full));
                    assert(plan_outcome(Err::<Plan, String>(m), run(empty_plan(), gvs, op, expect@, full)));
                }
                return Err(m);
            },
        };
        let ghost x = Ok::<Seq<char>, Seq<char>>(before@);
        proof {
            lemma_advance(empty_plan(), gvs, op, expect@, reads, x);
            lemma_read_calls_advance(empty_plan(), gvs, op, expect@, reads, x);
            assert(log@ =~= start + read_calls(empty_plan(), gvs.take(i + 1), op, expect@, reads.push(x)));
        }
        match admit_closed(g, planned, before, held, planned_files.len(), expect) {
            Err(m) => {
                proof {
                    let full = lemma_refused_full(empty_plan(), gvs, op, expect@, reads, x);
                    assert(log@ == start + read_calls(empty_plan(), gvs, op, expect@, full));
                    assert(plan_outcome(Err::<Plan, String>(m), run(empty_plan(), gvs, op, expect@, full)));
                }
                return Err(m);
            },
            Ok((f, note, h)) => {
                let ghost fv = file_view(f);
                let ghost nv = text_opt(note);
                planned_files.push(f);
                match note {
                    Some(n) => {
                        notes.push(n);
                    },
                    None => {},
                }
                held = h;
                proof {
                    assert(file_views(planned_files@) =~= files_before.push(fv));
                    assert(texts(notes@) =~= match nv {
                        Some(n) => notes_before.push(n),
                        None => notes_before,
                    });
                    reads = reads.push(x);
                }
            },
        }
        i = i + 1;
    }
    proof {
        assert(gvs.take(gs@.len() as int) =~= gvs);
    }
    Ok(Plan { files: planned_files, total, notes })
}

// ---------------------------------------------------------------------------
// Phase 2: writing closed files
// ---------------------------------------------------------------------------

/// An edit in the editor's convention, as plain values.
pub ghost struct RangeEditView {
    pub start_line: u32,
    pub start_character: u32,
    pub end_line: u32,
    pub end_character: u32,
    pub text: Seq<char>,
}

pub ghost struct FailureView {
    pub path: Seq<char>,
    pub detail: Seq<char>,
    pub unrecoverable: bool,
}

/// A rename's result, as plain values.
pub ghost struct RenameView {
    pub outcome: Availability,
    pub total: Option<u32>,
    pub written: Seq<(Seq<char>, u32)>,
    pub buffers: Seq<(Seq<char>, Seq<RangeEditView>)>,
    pub failures: Seq<FailureView>,
    pub message: Option<Seq<char>>,
    pub server: Option<Seq<char>>,
}

pub open spec fn range_view(r: RangeEdit) -> RangeEditView {
    RangeEditView {
        start_line: r.start_line,
        start_character: r.start_character,
        end_line: r.end_line,
        end_character: r.end_character,
        text: r.new_text@,
    }
}

pub open spec fn failure_view(f: RenameFailure) -> FailureView {
    FailureView { path: f.path@, detail: f.detail@, unrecoverable: f.unrecoverable }
}

pub open spec fn rename_view(r: RenameResult) -> RenameView {
    RenameView {
        outcome: r.outcome,
        total: r.total,
        written: r.written@.map_values(|w: RenamedFile| (w.path@, w.edits)),
        buffers: r.buffers@.map_values(
            |b: BufferEdits| (b.path@, b.edits@.map_values(|e: RangeEdit| range_view(e))),
        ),
        failures: r.failures@.map_values(|f: RenameFailure| failure_view(f)),
        message: text_opt(r.message),
        server: text_opt(r.server),
    }
}

/// One planned edit in the editor's convention: both ends' lines 1-based,
/// columns as the server gave them.
pub open spec fn editor_edit(e: TextEditView) -> RangeEditView {
    RangeEditView {
        start_line: editor_line(e.range.start.line),
        start_character: e.range.start.character,
        end_line: editor_line(e.range.end.line),
        end_character: e.range.end.character,
        text: e.text,
    }
}

pub fn range_edit(edit: &TextEdit) -> (r: RangeEdit)
    ensures
        range_view(r) == editor_edit(edit@),
{
    RangeEdit {
        start_line: to_editor_line(edit.range.start.line),
        start_character: edit.range.start.character,
        end_line: to_editor_line(edit.range.end.line),
        end_character: edit.range.end.character,
        new_text: edit.new_text.clone(),
    }
}

pub open spec fn closed_files(files: Seq<FileView>) -> Seq<FileView> {
    files.filter(|f: FileView| f.applied is Some)
}

pub open spec fn open_files(files: Seq<FileView>) -> Seq<FileView> {
    files.filter(|f: FileView| f.applied is None)
}

pub open spec fn written_of(closed: Seq<FileView>) -> Seq<(Seq<char>, u32)> {
    closed.map_values(|f: FileView| (f.relative, f.planned.len() as u32))
}

pub open spec fn buffers_of(files: Seq<FileView>) -> Seq<(Seq<char>, Seq<RangeEditView>)> {
    open_files(files).map_values(|f: FileView| (f.relative, f.planned.map_values(|e: TextEditView| editor_edit(e))))
}

pub open spec fn unreadable_detail(detail: Seq<char>, read_error: Seq<char>) -> Seq<char> {
    "this file could not be written ("@ + detail + ") and could not be read back afterwards ("@ + read_error
        + "), so this app cannot say whether it was left part-way through the write. Check it in git now, before doing anything else."@
}

pub open spec fn put_back_detail(detail: Seq<char>) -> Seq<char> {
    "this file could not be written ("@ + detail
        + ") and was left part-way through the write, so its previous contents were put back."@
}

pub open spec fn lost_detail(detail: Seq<char>, restore_error: Seq<char>) -> Seq<char> {
    "this file could not be written ("@ + detail + "), was left part-way through the write, and could not be put back ("@
        + restore_error
        + "). This app no longer has a copy of its previous contents — recover it from git before doing anything else."@
}

pub open spec fn rollback_detail(detail: Seq<char>) -> Seq<char> {
    "this file was changed and could not be changed back ("@ + detail
        + "). It is left holding part of a rename, and this app no longer has a copy of its previous contents — recover it from git before doing anything else."@
}

/// What happened to the file whose write failed, given what reading it back
/// gave and, when it no longer held its pre-image, what putting that back
/// gave. Unread is unestablished, and unestablished is unrecoverable.
pub open spec fn recovery(
    relative: Seq<char>,
    before: Seq<char>,
    detail: Seq<char>,
    read_back: Result<Seq<char>, Seq<char>>,
    restore: Result<(), Seq<char>>,
) -> FailureView {
    match read_back {
        Err(e) => FailureView { path: relative, detail: unreadable_detail(detail, e), unrecoverable: true },
        Ok(text) => if text == before {
            FailureView { path: relative, detail, unrecoverable: false }
        } else {
            match restore {
                Ok(()) => FailureView { path: relative, detail: put_back_detail(detail), unrecoverable: false },
                Err(e) => FailureView { path: relative, detail: lost_detail(detail, e), unrecoverable: true },
            }
        },
    }
}

/// The files a rollback could not restore, given what each restore gave,
/// in the order they were restored.
pub open spec fn rollback_failures(done: Seq<FileView>, outcomes: Seq<Result<(), Seq<char>>>) -> Seq<FailureView>
    decreases done.len(),
{
    if done.len() == 0 {
        Seq::empty()
    } else {
        rollback_failures(done.drop_last(), outcomes.drop_last()) + match outcomes.last() {
            Err(e) => seq![FailureView { path: done.last().relative, detail: rollback_detail(e), unrecoverable: true }],
            Ok(()) => Seq::empty(),
        }
    }
}

pub open spec fn unrecoverable_count(fs: Seq<FailureView>) -> nat
    decreases fs.len(),
{
    if fs.len() == 0 {
        0
    } else {
        unrecoverable_count(fs.drop_last()) + if fs.last().unrecoverable {
            1nat
        } else {
            0nat
        }
    }
}

pub open spec fn failed_message(relative: Seq<char>, fs: Seq<FailureView>) -> Seq<char> {
    let n = unrecoverable_count(fs);
    if n == 0 {
        "the rename could not be completed: "@ + relative
            + " could not be written. Every file this app had already changed was restored, so nothing was renamed."@
    } else {
        "the rename could not be completed, and "@ + decimal_chars(n)
            + " file(s) could not be restored afterwards. Those files are left holding part of a rename and this app has no copy of their previous contents. Review them in git now, before making any other change."@
    }
}

/// What the writes answered: all succeeded, or the `k`th closed file's write
/// failed with `detail`, with what reading it back and restoring it gave,
/// and what restoring each earlier file gave, newest first.
pub ghost struct WriteAnswers {
    pub failed_at: Option<int>,
    pub detail: Seq<char>,
    pub read_back: Result<Seq<char>, Seq<char>>,
    pub restore: Result<(), Seq<char>>,
    pub rollback: Seq<Result<(), Seq<char>>>,
}

/// Answers a real phase 2 can give: a failed write is one of the closed
/// files' writes.
pub open spec fn answers_fit(files: Seq<FileView>, a: WriteAnswers) -> bool {
    a.failed_at matches Some(k) ==> 0 <= k < closed_files(files).len()
}

/// Phase 2, given what the writes answered: every closed file written and
/// every open one handed back; or, from the first failed write on, the
/// rollback and its report. A failed rename hands nothing back, so the
/// editor never applies half of it.
pub open spec fn phase2(files: Seq<FileView>, total: u32, notes: Seq<Seq<char>>, a: WriteAnswers) -> RenameView {
    let closed = closed_files(files);
    match a.failed_at {
        None => RenameView {
            outcome: Availability::Ready,
            total: Some(total),
            written: written_of(closed),
            buffers: buffers_of(files),
            failures: Seq::empty(),
            message: if notes.len() == 0 {
                None
            } else {
                Some(joined(notes, " "@))
            },
            server: None,
        },
        Some(k) => {
            let f = closed[k];
            let failures = seq![recovery(f.relative, f.applied->Some_0.0, a.detail, a.read_back, a.restore)]
                + rollback_failures(closed.take(k).reverse(), a.rollback);
            RenameView {
                outcome: Availability::Failed,
                total: None,
                written: Seq::empty(),
                buffers: Seq::empty(),
                failures,
                message: Some(failed_message(f.relative, failures)),
                server: None,
            }
        },
    }
}

fn unreadable(detail: &str, read_error: &str) -> (r: String)
    ensures
        r@ == unreadable_detail(detail@, read_error@),
{
    let mut m = "this file could not be written (".to_owned();
    m.append(detail);
    m.append(") and could not be read back afterwards (");
    m.append(read_error);
    m.append(
        "), so this app cannot say whether it was left part-way through the write. Check it in git now, before doing anything else.",
    );
    m
}

fn put_back(detail: &str) -> (r: String)
    ensures
        r@ == put_back_detail(detail@),
{
    let mut m = "this file could not be written (".to_owned();
    m.append(detail);
    m.append(") and was left part-way through the write, so its previous contents were put back.");
    m
}

fn lost(detail: &str, restore_error: &str) -> (r: String)
    ensures
        r@ == lost_detail(detail@, restore_error@),
{
    let mut m = "this file could not be written (".to_owned();
    m.append(detail);
    m.append("), was left part-way through the write, and could not be put back (");
    m.append(restore_error);
    m.append(
        "). This app no longer has a copy of its previous contents — recover it from git before doing anything else.",
    );
    m
}

fn rolled_back_badly(detail: &str) -> (r: String)
    ensures
        r@ == rollback_detail(detail@),
{
    let mut m = "this file was changed and could not be changed back (".to_owned();
    m.append(detail);
    m.append(
        "). It is left holding part of a rename, and this app no longer has a copy of its previous contents — recover it from git before doing anything else.",
    );
    m
}

/// The questions a recovery puts: read the file back; then, only when it
/// no longer holds its pre-image, write the pre-image back.
pub open spec fn recovery_calls(
    absolute: Seq<char>,
    before: Seq<char>,
    read_back: Result<Seq<char>, Seq<char>>,
    restore: Result<(), Seq<char>>,
) -> Seq<FileCall> {
    seq![FileCall::Read { path: absolute, answer: read_back }] + match read_back {
        Ok(text) => if text == before {
            Seq::empty()
        } else {
            seq![FileCall::Write { path: absolute, text: before, answer: restore }]
        },
        Err(_) => Seq::empty(),
    }
}

/// What actually happened to the file whose write failed. A failed write
/// does not establish an unchanged file, so this reads it back and finds
/// out, and puts the pre-image back when it has to.
fn recover_failed_write<F: Files + ?Sized>(
    absolute: &str,
    relative: &str,
    before: &str,
    detail: String,
    files: &mut F,
    log: &mut Ghost<Seq<FileCall>>,
) -> (r: RenameFailure)
    ensures
        exists|read_back: Result<Seq<char>, Seq<char>>, restore: Result<(), Seq<char>>|
            #![trigger recovery(relative@, before@, detail@, read_back, restore)]
            final(log)@ == old(log)@ + recovery_calls(absolute@, before@, read_back, restore) && failure_view(r)
                == recovery(relative@, before@, detail@, read_back, restore),
{
    let ghost start = log@;
    match read_file(files, absolute, log) {
        Err(read_error) => {
            let d = unreadable(detail.as_str(), read_error.as_str());
            let r = RenameFailure { path: relative.to_owned(), detail: d, unrecoverable: true };
            assert(failure_view(r) == recovery(
                relative@,
                before@,
                detail@,
                Err::<Seq<char>, Seq<char>>(read_error@),
                Ok::<(), Seq<char>>(()),
            ));
            assert(log@ =~= start + recovery_calls(
                absolute@,
                before@,
                Err::<Seq<char>, Seq<char>>(read_error@),
                Ok::<(), Seq<char>>(()),
            ));
            r
        },
        Ok(text) => {
            if same_text(text.as_str(), before) {
                let r = RenameFailure { path: relative.to_owned(), detail, unrecoverable: false };
                assert(failure_view(r) == recovery(
                    relative@,
                    before@,
                    r.detail@,
                    Ok::<Seq<char>, Seq<char>>(text@),
                    Ok::<(), Seq<char>>(()),
                ));
                assert(log@ =~= start + recovery_calls(
                    absolute@,
                    before@,
                    Ok::<Seq<char>, Seq<char>>(text@),
                    Ok::<(), Seq<char>>(()),
                ));
                r
            } else {
                match write_file(files, absolute, before, log) {
                    Ok(()) => {
                        let r = RenameFailure {
                            path: relative.to_owned(),
                            detail: put_back(detail.as_str()),
                            unrecoverable: false,
                        };
                        assert(failure_view(r) == recovery(
                            relative@,
                            before@,
                            detail@,
                            Ok::<Seq<char>, Seq<char>>(text@),
                            Ok::<(), Seq<char>>(()),
                        ));
                        assert(log@ =~= start + recovery_calls(
                            absolute@,
                            before@,
                            Ok::<Seq<char>, Seq<char>>(text@),
                            Ok::<(), Seq<char>>(()),
                        ));
                        r
                    },
                    Err(restore_error) => {
                        let r = RenameFailure {
                            path: relative.to_owned(),
                            detail: lost(detail.as_str(), restore_error.as_str()),
                            unrecoverable: true,
                        };
                        assert(failure_view(r) == recovery(
                            relative@,
                            before@,
                            detail@,
                            Ok::<Seq<char>, Seq<char>>(text@),
                            Err::<(), Seq<char>>(restore_error@),
                        ));
                        assert(log@ =~= start + recovery_calls(
                            absolute@,
                            before@,
                            Ok::<Seq<char>, Seq<char>>(text@),
                            Err::<(), Seq<char>>(restore_error@),
                        ));
                        r
                    },
                }
            }
        },
    }
}

proof fn lemma_filter_step(s: Seq<FileView>, i: int, pred: spec_fn(FileView) -> bool)
    requires
        0 <= i < s.len(),
    ensures
        s.take(i + 1).filter(pred) == if pred(s[i]) {
            s.take(i).filter(pred).push(s[i])
        } else {
            s.take(i).filter(pred)
        },
{
    assert(s.take(i + 1) =~= s.take(i).push(s[i]));
    s.take(i).lemma_filter_push(s[i], pred);
}

/// What a prefix keeps is a prefix of what the whole keeps.
proof fn lemma_filter_prefix(s: Seq<FileView>, i: int, pred: spec_fn(FileView) -> bool)
    requires
        0 <= i <= s.len(),
    ensures
        s.take(i).filter(pred).len() <= s.filter(pred).len(),
        s.filter(pred).take(s.take(i).filter(pred).len() as int) == s.take(i).filter(pred),
    decreases s.len() - i,
{
    if i == s.len() {
        assert(s.take(i) =~= s);
        assert(s.filter(pred).take(s.filter(pred).len() as int) =~= s.filter(pred));
    } else {
        lemma_filter_prefix(s, i + 1, pred);
        lemma_filter_step(s, i, pred);
        let a = s.take(i).filter(pred);
        let b = s.take(i + 1).filter(pred);
        let all = s.filter(pred);
        assert(all.take(b.len() as int) == b);
        if pred(s[i]) {
            assert(b == a.push(s[i]));
            assert(all.take(a.len() as int) =~= b.take(a.len() as int));
            assert(b.take(a.len() as int) =~= a);
        }
    }
}

/// The files at these positions, in this order.
pub open spec fn done_files(planned: Seq<PlannedFile>, done: Seq<usize>) -> Seq<FileView> {
    done.map_values(|j: usize| file_views(planned)[j as int])
}

/// The restores a rollback makes: each file's pre-image written back, in
/// this order, each with its answer.
pub open spec fn rollback_calls(done: Seq<FileView>, outcomes: Seq<Result<(), Seq<char>>>) -> Seq<FileCall> {
    Seq::new(
        done.len(),
        |m: int| FileCall::Write { path: done[m].absolute, text: done[m].applied->Some_0.0, answer: outcomes[m] },
    )
}

/// Put back everything already written, newest first; what could not be
/// put back is reported as unrecoverable.
fn roll_back<F: Files + ?Sized>(
    planned: &Vec<PlannedFile>,
    done: &Vec<usize>,
    files: &mut F,
    log: &mut Ghost<Seq<FileCall>>,
) -> (r: Vec<RenameFailure>)
    requires
        forall|j: int| 0 <= j < done@.len() ==> (#[trigger] done@[j]) < planned@.len() && planned@[done@[j] as int].applied is Some,
    ensures
        exists|outcomes: Seq<Result<(), Seq<char>>>|
            #![trigger rollback_failures(done_files(planned@, done@).reverse(), outcomes)]
            outcomes.len() == done@.len() && final(log)@ == old(log)@ + rollback_calls(
                done_files(planned@, done@).reverse(),
                outcomes,
            ) && r@.map_values(|f: RenameFailure| failure_view(f)) == rollback_failures(
                done_files(planned@, done@).reverse(),
                outcomes,
            ),
{
    let ghost start = log@;
    let ghost order = done_files(planned@, done@).reverse();
    let mut failures: Vec<RenameFailure> = Vec::new();
    let ghost mut outcomes: Seq<Result<(), Seq<char>>> = Seq::empty();
    let mut m: usize = 0;
    let n = done.len();
    assert(order.take(0) =~= Seq::<FileView>::empty());
    assert(rollback_calls(order.take(0), outcomes) =~= Seq::<FileCall>::empty());
    assert(log@ =~= start + Seq::<FileCall>::empty());
    while m < n
        invariant
            m <= n,
            n == done@.len(),
            order == done_files(planned@, done@).reverse(),
            forall|j: int| 0 <= j < done@.len() ==> (#[trigger] done@[j]) < planned@.len() && planned@[done@[j] as int].applied is Some,
            outcomes.len() == m,
            start == old(log)@,
            log@ == start + rollback_calls(order.take(m as int), outcomes),
            failures@.map_values(|f: RenameFailure| failure_view(f)) == rollback_failures(order.take(m as int), outcomes),
        decreases n - m,
    {
        let j = done[n - 1 - m];
        let file = &planned[j];
        assert(order[m as int] == file_views(planned@)[j as int]);
        assert(file_views(planned@)[j as int] == file_view(*file));
        let ghost before_failures = failures@.map_values(|f: RenameFailure| failure_view(f));
        let ghost log_before = log@;
        assert(order.take(m + 1).drop_last() =~= order.take(m as int));
        match &file.applied {
            Some(applied) => {
                match write_file(files, file.absolute.as_str(), applied.before.as_str(), log) {
                    Ok(()) => {
                        proof {
                            let x = Ok::<(), Seq<char>>(());
                            assert(rollback_calls(order.take(m + 1), outcomes.push(x)) =~= rollback_calls(
                                order.take(m as int),
                                outcomes,
                            ).push(FileCall::Write { path: order[m as int].absolute, text: order[m as int].applied->Some_0.0, answer: x }));
                            assert(log@ =~= start + rollback_calls(order.take(m + 1), outcomes.push(x)));
                            assert(outcomes.push(x).drop_last() =~= outcomes);
                            outcomes = outcomes.push(x);
                        }
                    },
                    Err(detail) => {
                        let f = RenameFailure {
                            path: file.relative.clone(),
                            detail: rolled_back_badly(detail.as_str()),
                            unrecoverable: true,
                        };
                        failures.push(f);
                        proof {
                            let x = Err::<(), Seq<char>>(detail@);
                            assert(rollback_calls(order.take(m + 1), outcomes.push(x)) =~= rollback_calls(
                                order.take(m as int),
                                outcomes,
                            ).push(FileCall::Write { path: order[m as int].absolute, text: order[m as int].applied->Some_0.0, answer: x }));
                            assert(log@ =~= start + rollback_calls(order.take(m + 1), outcomes.push(x)));
                            assert(outcomes.push(x).drop_last() =~= outcomes);
                            outcomes = outcomes.push(x);
                            assert(failures@.map_values(|f: RenameFailure| failure_view(f)) =~= before_failures.push(
                                failure_view(f),
                            ));
                        }
                    },
                }
            },
            None => {},
        }
        m = m + 1;
    }
    assert(order.take(n as int) =~= order);
    failures
}

fn joined_notes(notes: &Vec<String>) -> (r: String)
    ensures
        r@ == joined(texts(notes@), " "@),
{
    let mut m = String::new();
    let ghost ns = texts(notes@);
    let mut k: usize = 0;
    assert(ns.take(0) =~= Seq::<Seq<char>>::empty());
    while k < notes.len()
        invariant
            k <= notes@.len(),
            ns == texts(notes@),
            m@ == joined(ns.take(k as int), " "@),
        decreases notes@.len() - k,
    {
        if k > 0 {
            m.append(" ");
        }
        m.append(notes[k].as_str());
        proof {
            let t = ns.take(k + 1);
            assert(t.drop_last() =~= ns.take(k as int));
            assert(t.last() == notes@[k as int]@);
            if k == 0 {
                assert(t =~= seq![ns[0]]);
            }
        }
        k = k + 1;
    }
    assert(ns.take(notes@.len() as int) =~= ns);
    m
}

fn count_unrecoverable(failures: &Vec<RenameFailure>) -> (r: usize)
    ensures
        r == unrecoverable_count(failures@.map_values(|f: RenameFailure| failure_view(f))),
{
    let ghost fs = failures@.map_values(|f: RenameFailure| failure_view(f));
    let mut n: usize = 0;
    let mut k: usize = 0;
    assert(fs.take(0) =~= Seq::<FailureView>::empty());
    while k < failures.len()
        invariant
            k <= failures@.len(),
            fs == failures@.map_values(|f: RenameFailure| failure_view(f)),
            n == unrecoverable_count(fs.take(k as int)),
            n <= k,
        decreases failures@.len() - k,
    {
        assert(fs.take(k + 1).drop_last() =~= fs.take(k as int));
        if failures[k].unrecoverable {
            n = n + 1;
        }
        k = k + 1;
    }
    assert(fs.take(failures@.len() as int) =~= fs);
    n
}

fn failed_summary(relative: &str, failures: &Vec<RenameFailure>) -> (r: String)
    ensures
        r@ == failed_message(relative@, failures@.map_values(|f: RenameFailure| failure_view(f))),
{
    let n = count_unrecoverable(failures);
    if n == 0 {
        let mut m = "the rename could not be completed: ".to_owned();
        m.append(relative);
        m.append(" could not be written. Every file this app had already changed was restored, so nothing was renamed.");
        m
    } else {
        let mut m = "the rename could not be completed, and ".to_owned();
        m.append(decimal_string(n as u64).as_str());
        m.append(
            " file(s) could not be restored afterwards. Those files are left holding part of a rename and this app has no copy of their previous contents. Review them in git now, before making any other change.",
        );
        m
    }
}

fn buffer_edits(planned: &Vec<TextEdit>) -> (r: Vec<RangeEdit>)
    ensures
        r@.map_values(|e: RangeEdit| range_view(e)) == views(planned@).map_values(|e: TextEditView| editor_edit(e)),
{
    let mut out: Vec<RangeEdit> = Vec::new();
    let mut k: usize = 0;
    while k < planned.len()
        invariant
            k <= planned@.len(),
            out@.map_values(|e: RangeEdit| range_view(e)) == views(planned@).take(k as int).map_values(
                |e: TextEditView| editor_edit(e),
            ),
        decreases planned@.len() - k,
    {
        let e = range_edit(&planned[k]);
        let ghost before = out@.map_values(|e: RangeEdit| range_view(e));
        out.push(e);
        assert(views(planned@).take(k + 1) =~= views(planned@).take(k as int).push(planned@[k as int]@));
        assert(out@.map_values(|e: RangeEdit| range_view(e)) =~= before.push(range_view(e)));
        k = k + 1;
    }
    assert(views(planned@).take(planned@.len() as int) =~= views(planned@));
    out
}

/// Each closed file's post-image written, in order, every write answering
/// `Ok`.
pub open spec fn written_calls(closed: Seq<FileView>) -> Seq<FileCall> {
    Seq::new(
        closed.len(),
        |j: int| FileCall::Write { path: closed[j].absolute, text: closed[j].applied->Some_0.1, answer: Ok(()) },
    )
}

/// The questions phase 2 puts, given its answers: each closed file's
/// post-image written in plan order; from a failed write on, that file's
/// recovery and then the restores of those already written, newest first.
pub open spec fn phase2_calls(files: Seq<FileView>, a: WriteAnswers) -> Seq<FileCall> {
    let closed = closed_files(files);
    match a.failed_at {
        None => written_calls(closed),
        Some(k) => written_calls(closed.take(k)).push(
            FileCall::Write { path: closed[k].absolute, text: closed[k].applied->Some_0.1, answer: Err(a.detail) },
        ) + recovery_calls(closed[k].absolute, closed[k].applied->Some_0.0, a.read_back, a.restore) + rollback_calls(
            closed.take(k).reverse(),
            a.rollback,
        ),
    }
}

/// Phase 2: write every closed file, or restore what was written and say
/// what could not be. Whatever the writes answered, the result is what
/// [`phase2`] makes of those answers.
fn write_plan<F: Files + ?Sized>(plan: Plan, files: &mut F, log: &mut Ghost<Seq<FileCall>>) -> (r: RenameResult)
    ensures
        exists|a: WriteAnswers|
            #![trigger phase2(file_views(plan.files@), plan.total, texts(plan.notes@), a)]
            answers_fit(file_views(plan.files@), a) && final(log)@ == old(log)@ + phase2_calls(file_views(plan.files@), a)
                && rename_view(r) == phase2(
                file_views(plan.files@),
                plan.total,
                texts(plan.notes@),
                a,
            ),
{
    let ghost start = log@;
    let ghost fv = file_views(plan.files@);
    let ghost closed_pred = |f: FileView| f.applied is Some;
    let ghost open_pred = |f: FileView| f.applied is None;
    let mut written: Vec<RenamedFile> = Vec::new();
    let mut done: Vec<usize> = Vec::new();
    let mut i: usize = 0;
    assert(fv.take(0) =~= Seq::<FileView>::empty());
    assert(fv.take(0).filter(closed_pred) =~= Seq::<FileView>::empty());
    assert(done_files(plan.files@, done@) =~= Seq::<FileView>::empty());
    assert(written_calls(fv.take(0).filter(closed_pred)) =~= Seq::<FileCall>::empty());
    assert(log@ =~= start + Seq::<FileCall>::empty());
    while i < plan.files.len()
        invariant
            start == old(log)@,
            log@ == start + written_calls(fv.take(i as int).filter(closed_pred)),
            i <= plan.files@.len(),
            fv == file_views(plan.files@),
            closed_pred == (|f: FileView| f.applied is Some),
            done_files(plan.files@, done@) == fv.take(i as int).filter(closed_pred),
            written@.map_values(|w: RenamedFile| (w.path@, w.edits)) == written_of(fv.take(i as int).filter(closed_pred)),
            forall|j: int| 0 <= j < done@.len() ==> (#[trigger] done@[j]) < plan.files@.len() && plan.files@[done@[j] as int].applied is Some,
        decreases plan.files@.len() - i,
    {
        let file = &plan.files[i];
        assert(fv[i as int] == file_view(*file));
        proof {
            lemma_filter_step(fv, i as int, closed_pred);
        }
        match &file.applied {
            None => {},
            Some(applied) => {
                let ghost log_before = log@;
                match write_file(files, file.absolute.as_str(), applied.after.as_str(), log) {
                    Ok(()) => {
                        proof {
                            let c = fv.take(i as int).filter(closed_pred);
                            assert(written_calls(c.push(fv[i as int])) =~= written_calls(c).push(
                                FileCall::Write { path: fv[i as int].absolute, text: fv[i as int].applied->Some_0.1, answer: Ok(()) },
                            ));
                            assert(log@ =~= start + written_calls(c.push(fv[i as int])));
                        }
                        let ghost wv = written@.map_values(|w: RenamedFile| (w.path@, w.edits));
                        let ghost dv = done_files(plan.files@, done@);
                        let w = RenamedFile {
                            path: file.relative.clone(),
                            edits: #[verifier::truncate] (file.planned.len() as u32),
                        };
                        written.push(w);
                        done.push(i);
                        proof {
                            assert(written@.map_values(|w: RenamedFile| (w.path@, w.edits)) =~= wv.push(
                                (fv[i as int].relative, fv[i as int].planned.len() as u32),
                            ));
                            assert(done_files(plan.files@, done@) =~= dv.push(fv[i as int]));
                            assert(written_of(dv.push(fv[i as int])) =~= written_of(dv).push(
                                (fv[i as int].relative, fv[i as int].planned.len() as u32),
                            ));
                        }
                    },
                    Err(detail) => {
                        let ghost d = detail@;
                        let first = recover_failed_write(
                            file.absolute.as_str(),
                            file.relative.as_str(),
                            applied.before.as_str(),
                            detail,
                            files,
                            log,
                        );
                        let ghost log_mid = log@;
                        let rest = roll_back(&plan.files, &done, files, log);
                        let mut failures: Vec<RenameFailure> = Vec::new();
                        failures.push(first);
                        let ghost first_view = failures@.map_values(|f: RenameFailure| failure_view(f));
                        let mut rest = rest;
                        let ghost rest_view = rest@.map_values(|f: RenameFailure| failure_view(f));
                        failures.append(&mut rest);
                        let message = failed_summary(file.relative.as_str(), &failures);
                        let r = RenameResult {
                            outcome: Availability::Failed,
                            total: None,
                            written: Vec::new(),
                            buffers: Vec::new(),
                            failures,
                            message: Some(message),
                            server: None,
                        };
                        proof {
                            let k = fv.take(i as int).filter(closed_pred).len() as int;
                            lemma_filter_prefix(fv, i + 1, closed_pred);
                            let closed = fv.filter(closed_pred);
                            assert(closed.take(k + 1) == fv.take(i + 1).filter(closed_pred));
                            assert(closed[k] == closed.take(k + 1)[k]);
                            assert(closed[k] == fv[i as int]);
                            assert(closed.take(k) =~= closed.take(k + 1).take(k));
                            assert(closed.take(k) == fv.take(i as int).filter(closed_pred));
                            let (rb, rs) = choose|rb: Result<Seq<char>, Seq<char>>, rs: Result<(), Seq<char>>|
                                log_mid == log_before.push(
                                    FileCall::Write { path: file.absolute@, text: applied.after@, answer: Err(d) },
                                ) + recovery_calls(file.absolute@, applied.before@, rb, rs) && failure_view(first)
                                    == recovery(file.relative@, applied.before@, d, rb, rs);
                            let outs = choose|outcomes: Seq<Result<(), Seq<char>>>|
                                outcomes.len() == done@.len() && log@ == log_mid + rollback_calls(
                                    done_files(plan.files@, done@).reverse(),
                                    outcomes,
                                ) && rest_view == rollback_failures(
                                    done_files(plan.files@, done@).reverse(),
                                    outcomes,
                                );
                            let a = WriteAnswers { failed_at: Some(k), detail: d, read_back: rb, restore: rs, rollback: outs };
                            assert(log@ == log_mid + rollback_calls(closed.take(k).reverse(), outs));
                            assert(log@ =~= start + phase2_calls(fv, a));
                            assert(fv.take(i as int).filter(closed_pred).len() < closed.len());
                            assert(first_view =~= seq![failure_view(first)]);
                            assert(r.failures@.map_values(|f: RenameFailure| failure_view(f)) =~= first_view + rest_view);
                            assert(rename_view(r).written =~= Seq::<(Seq<char>, u32)>::empty());
                            assert(rename_view(r).buffers =~= Seq::<(Seq<char>, Seq<RangeEditView>)>::empty());
                            assert(rename_view(r) == phase2(fv, plan.total, texts(plan.notes@), a));
                        }
                        return r;
                    },
                }
            },
        }
        i = i + 1;
    }
    assert(fv.take(plan.files@.len() as int) =~= fv);
    let mut buffers: Vec<BufferEdits> = Vec::new();
    let mut j: usize = 0;
    assert(fv.take(0).filter(open_pred) =~= Seq::<FileView>::empty());
    while j < plan.files.len()
        invariant
            j <= plan.files@.len(),
            fv == file_views(plan.files@),
            open_pred == (|f: FileView| f.applied is None),
            buffers@.map_values(
                |b: BufferEdits| (b.path@, b.edits@.map_values(|e: RangeEdit| range_view(e))),
            ) == fv.take(j as int).filter(open_pred).map_values(
                |f: FileView| (f.relative, f.planned.map_values(|e: TextEditView| editor_edit(e))),
            ),
        decreases plan.files@.len() - j,
    {
        let file = &plan.files[j];
        assert(fv[j as int] == file_view(*file));
        proof {
            lemma_filter_step(fv, j as int, open_pred);
        }
        if file.applied.is_none() {
            let ghost bv = buffers@.map_values(
                |b: BufferEdits| (b.path@, b.edits@.map_values(|e: RangeEdit| range_view(e))),
            );
            let b = BufferEdits { path: file.relative.clone(), edits: buffer_edits(&file.planned) };
            buffers.push(b);
            proof {
                let f = fv[j as int];
                assert(buffers@.map_values(
                    |b: BufferEdits| (b.path@, b.edits@.map_values(|e: RangeEdit| range_view(e))),
                ) =~= bv.push((f.relative, f.planned.map_values(|e: TextEditView| editor_edit(e)))));
                assert(fv.take(j + 1).filter(open_pred) == fv.take(j as int).filter(open_pred).push(f));
                assert(fv.take(j + 1).filter(open_pred).map_values(
                    |f: FileView| (f.relative, f.planned.map_values(|e: TextEditView| editor_edit(e))),
                ) =~= fv.take(j as int).filter(open_pred).map_values(
                    |f: FileView| (f.relative, f.planned.map_values(|e: TextEditView| editor_edit(e))),
                ).push((f.relative, f.planned.map_values(|e: TextEditView| editor_edit(e)))));
            }
        }
        j = j + 1;
    }
    assert(fv.take(plan.files@.len() as int) =~= fv);
    let message = if plan.notes.len() == 0 {
        None
    } else {
        Some(joined_notes(&plan.notes))
    };
    let r = RenameResult {
        outcome: Availability::Ready,
        total: Some(plan.total),
        written,
        buffers,
        failures: Vec::new(),
        message,
        server: None,
    };
    proof {
        let a = WriteAnswers {
            failed_at: None,
            detail: Seq::empty(),
            read_back: Err(Seq::empty()),
            restore: Ok(()),
            rollback: Seq::empty(),
        };
        assert(rename_view(r).failures =~= Seq::<FailureView>::empty());
        assert(rename_view(r) == phase2(fv, plan.total, texts(plan.notes@), a));
        assert(log@ == start + phase2_calls(fv, a));
    }
    r
}

/// What a whole rename gives, given what every read and write answered:
/// a refusal with nothing touched, or phase 2's outcome on phase 1's plan.
pub open spec fn rename_outcome(
    root: Seq<char>,
    edit: WorkspaceEdit,
    open: Seq<Seq<char>>,
    expect: Seq<char>,
    reads: Seq<Result<Seq<char>, Seq<char>>>,
    writes: WriteAnswers,
) -> RenameView {
    let refused = |m: Seq<char>|
        RenameView {
            outcome: Availability::Failed,
            total: None,
            written: Seq::empty(),
            buffers: Seq::empty(),
            failures: Seq::empty(),
            message: Some(m),
            server: None,
        };
    if edit.resource_operations@.len() > 0 {
        refused(resource_message(edit.resource_operations@[0], edit.resource_operations@.len()))
    } else {
        match first_refusal(root, edit.documents@) {
            Some(m) => refused(m),
            None => match run(empty_plan(), groups_of(root, edit.documents@), open, expect, reads) {
                Err(m) => refused(m),
                Ok(p) => phase2(p.files, p.total, p.notes, writes),
            },
        }
    }
}

/// The write answers fit the plan phase 1 made, when it made one.
pub open spec fn writes_fit(
    root: Seq<char>,
    edit: WorkspaceEdit,
    open: Seq<Seq<char>>,
    expect: Seq<char>,
    reads: Seq<Result<Seq<char>, Seq<char>>>,
    writes: WriteAnswers,
) -> bool {
    match run(empty_plan(), groups_of(root, edit.documents@), open, expect, reads) {
        Ok(p) => answers_fit(p.files, writes),
        Err(_) => true,
    }
}

/// Every question a whole rename puts to [`Files`], given the answers:
/// none when it is refused before reading; otherwise phase 1's reads and,
/// when phase 1 made a plan, phase 2's writes, recovery and restores.
pub open spec fn rename_calls(
    root: Seq<char>,
    edit: WorkspaceEdit,
    open: Seq<Seq<char>>,
    expect: Seq<char>,
    reads: Seq<Result<Seq<char>, Seq<char>>>,
    writes: WriteAnswers,
) -> Seq<FileCall> {
    if edit.resource_operations@.len() > 0 || first_refusal(root, edit.documents@) is Some {
        Seq::empty()
    } else {
        let gs = groups_of(root, edit.documents@);
        read_calls(empty_plan(), gs, open, expect, reads) + match run(empty_plan(), gs, open, expect, reads) {
            Ok(p) => phase2_calls(p.files, writes),
            Err(_) => Seq::empty(),
        }
    }
}

/// Apply a whole `WorkspaceEdit`: closed files written, open buffers' edits
/// handed back. `open` holds the absolute paths of the editor's buffers;
/// `expect` is the identifier being renamed, and an empty one abstains from
/// the token check. Either every closed file was written, or the ones that
/// were are restored and the failures reported.
pub fn apply_workspace_edit<F: Files + ?Sized>(
    root: &str,
    edit: &WorkspaceEdit,
    open: &[String],
    expect: &str,
    files: &mut F,
) -> (r: RenameResult)
    ensures
        exists|reads: Seq<Result<Seq<char>, Seq<char>>>, writes: WriteAnswers|
            #![trigger rename_outcome(root@, *edit, texts(open@), expect@, reads, writes)]
            writes_fit(root@, *edit, texts(open@), expect@, reads, writes) && rename_view(r) == rename_outcome(
                root@,
                *edit,
                texts(open@),
                expect@,
                reads,
                writes,
            ),
{
    let mut log: Ghost<Seq<FileCall>> = Ghost(Seq::empty());
    apply_workspace_edit_traced(root, edit, open, expect, files, &mut log)
}

/// [`apply_workspace_edit`], with every question put to `files` and its
/// answer put on `log`: the questions are exactly [`rename_calls`] of the
/// answers the outcome is made of.
pub fn apply_workspace_edit_traced<F: Files + ?Sized>(
    root: &str,
    edit: &WorkspaceEdit,
    open: &[String],
    expect: &str,
    files: &mut F,
    log: &mut Ghost<Seq<FileCall>>,
) -> (r: RenameResult)
    ensures
        exists|reads: Seq<Result<Seq<char>, Seq<char>>>, writes: WriteAnswers|
            #![trigger rename_outcome(root@, *edit, texts(open@), expect@, reads, writes)]
            writes_fit(root@, *edit, texts(open@), expect@, reads, writes) && final(log)@ == old(log)@ + rename_calls(
                root@,
                *edit,
                texts(open@),
                expect@,
                reads,
                writes,
            ) && rename_view(r) == rename_outcome(root@, *edit, texts(open@), expect@, reads, writes),
{
    let ghost start = log@;
    let ghost gs = groups_of(root@, edit.documents@);
    let ghost op = texts(open@);
    match plan_workspace_edit(root, edit, open, expect, files, log) {
        Ok(plan) => {
            let ghost pv = (file_views(plan.files@), plan.total, texts(plan.notes@));
            let ghost mid = log@;
            let r = write_plan(plan, files, log);
            proof {
                let reads = choose|reads: Seq<Result<Seq<char>, Seq<char>>>|
                    reads.len() == gs.len() && mid == start + read_calls(empty_plan(), gs, op, expect@, reads)
                        && plan_outcome(Ok::<Plan, String>(plan), run(empty_plan(), gs, op, expect@, reads));
                let a = choose|a: WriteAnswers|
                    answers_fit(pv.0, a) && log@ == mid + phase2_calls(pv.0, a) && rename_view(r) == phase2(
                        pv.0,
                        pv.1,
                        pv.2,
                        a,
                    );
                assert(rename_view(r) == rename_outcome(root@, *edit, op, expect@, reads, a));
                assert(log@ =~= start + rename_calls(root@, *edit, op, expect@, reads, a));
                assert(writes_fit(root@, *edit, op, expect@, reads, a));
            }
            r
        },
        Err(refusal) => {
            let r = RenameResult::unavailable(Availability::Failed, refusal.as_str());
            proof {
                let a = WriteAnswers {
                    failed_at: None,
                    detail: Seq::empty(),
                    read_back: Err(Seq::empty()),
                    restore: Ok(()),
                    rollback: Seq::empty(),
                };
                assert(rename_view(r).written =~= Seq::<(Seq<char>, u32)>::empty());
                assert(rename_view(r).buffers =~= Seq::<(Seq<char>, Seq<RangeEditView>)>::empty());
                assert(rename_view(r).failures =~= Seq::<FailureView>::empty());
                if edit.resource_operations@.len() > 0 || first_refusal(root@, edit.documents@) is Some {
                    assert(rename_view(r) == rename_outcome(root@, *edit, op, expect@, Seq::empty(), a));
                    assert(log@ =~= start + rename_calls(root@, *edit, op, expect@, Seq::empty(), a));
                } else {
                    let reads = choose|reads: Seq<Result<Seq<char>, Seq<char>>>|
                        reads.len() == gs.len() && log@ == start + read_calls(empty_plan(), gs, op, expect@, reads)
                            && plan_outcome(Err::<Plan, String>(refusal), run(empty_plan(), gs, op, expect@, reads));
                    assert(rename_view(r) == rename_outcome(root@, *edit, op, expect@, reads, a));
                    assert(log@ =~= start + rename_calls(root@, *edit, op, expect@, reads, a));
                }
            }
            r
        },
    }
}

// ---------------------------------------------------------------------------
// Laws
// ---------------------------------------------------------------------------

/// A rename is either done or refused: a refusal carries no count and hands
/// back nothing to write or apply, so no half of a rename ever reaches the
/// editor; a finished rename reports no failure.
pub proof fn law_a_rename_is_done_or_refused_whole(
    root: Seq<char>,
    edit: WorkspaceEdit,
    open: Seq<Seq<char>>,
    expect: Seq<char>,
    reads: Seq<Result<Seq<char>, Seq<char>>>,
    writes: WriteAnswers,
)
    ensures
        ({
            let v = rename_outcome(root, edit, open, expect, reads, writes);
            &&& v.outcome == Availability::Ready || v.outcome == Availability::Failed
            &&& v.outcome == Availability::Failed ==> v.total is None && v.written.len() == 0 && v.buffers.len() == 0
                && v.message is Some
            &&& v.outcome == Availability::Ready ==> v.total is Some && v.failures.len() == 0
        }),
{
}

/// A file operation anywhere in the answer declines the whole rename, naming
/// it, whatever the files hold.
pub proof fn law_file_operations_are_declined(
    root: Seq<char>,
    edit: WorkspaceEdit,
    open: Seq<Seq<char>>,
    expect: Seq<char>,
    reads: Seq<Result<Seq<char>, Seq<char>>>,
    writes: WriteAnswers,
)
    requires
        edit.resource_operations@.len() > 0,
    ensures
        rename_outcome(root, edit, open, expect, reads, writes).outcome == Availability::Failed,
        rename_outcome(root, edit, open, expect, reads, writes).message == Some(
            resource_message(edit.resource_operations@[0], edit.resource_operations@.len()),
        ),
{
}

/// An answer with no documents is a count of zero, not a refusal.
pub proof fn law_zero_documents_is_a_count_of_zero(
    root: Seq<char>,
    edit: WorkspaceEdit,
    open: Seq<Seq<char>>,
    expect: Seq<char>,
    reads: Seq<Result<Seq<char>, Seq<char>>>,
    writes: WriteAnswers,
)
    requires
        edit.documents@.len() == 0,
        edit.resource_operations@.len() == 0,
        writes_fit(root, edit, open, expect, reads, writes),
    ensures
        ({
            let v = rename_outcome(root, edit, open, expect, reads, writes);
            &&& v.outcome == Availability::Ready
            &&& v.total == Some(0u32)
            &&& v.written.len() == 0
            &&& v.buffers.len() == 0
            &&& v.failures.len() == 0
            &&& v.message is None
        }),
{
    let docs = edit.documents@;
    lemma_path_order();
    assert(doc_paths(docs).to_set() =~= Seq::<Seq<char>>::empty().to_set());
    lemma_arranged_is(Seq::<Seq<char>>::empty(), doc_paths(docs).to_set(), by_path());
    assert(groups_of(root, docs) =~= Seq::<GroupView>::empty());
    let none = Seq::<FileView>::empty();
    assert(closed_files(none) =~= none);
    assert(open_files(none) =~= none);
    assert(written_of(none) =~= Seq::<(Seq<char>, u32)>::empty());
    assert(buffers_of(none) =~= Seq::<(Seq<char>, Seq<RangeEditView>)>::empty());
}

proof fn lemma_open_decides(
    st: PlanView,
    gs: Seq<GroupView>,
    open: Seq<Seq<char>>,
    expect: Seq<char>,
    reads: Seq<Result<Seq<char>, Seq<char>>>,
)
    requires
        forall|i: int| 0 <= i < st.files.len() ==> ((#[trigger] st.files[i]).applied is None) == open.contains(
            st.files[i].absolute,
        ),
    ensures
        run(st, gs, open, expect, reads) matches Ok(p) ==> forall|i: int|
            0 <= i < p.files.len() ==> ((#[trigger] p.files[i]).applied is None) == open.contains(p.files[i].absolute),
    decreases gs.len(),
{
    if gs.len() > 0 {
        lemma_open_decides(st, gs.drop_last(), open, expect, reads.drop_last());
        match run(st, gs.drop_last(), open, expect, reads.drop_last()) {
            Ok(mid) => {
                let g = gs.last();
                if let Ok(p) = step(mid, g, open, expect, reads.last()) {
                    assert forall|i: int| 0 <= i < p.files.len() implies ((#[trigger] p.files[i]).applied is None)
                        == open.contains(p.files[i].absolute) by {
                        if i < mid.files.len() {
                            assert(p.files[i] == mid.files[i]);
                        }
                    }
                }
            },
            Err(_) => {},
        }
    }
}

/// An open buffer is never written and a closed file never handed back: in
/// every plan, a file is to be written exactly when the editor does not have
/// it open.
pub proof fn law_a_file_is_written_exactly_when_it_is_not_open(
    root: Seq<char>,
    docs: Seq<DocumentEdits>,
    open: Seq<Seq<char>>,
    expect: Seq<char>,
    reads: Seq<Result<Seq<char>, Seq<char>>>,
)
    ensures
        run(empty_plan(), groups_of(root, docs), open, expect, reads) matches Ok(p) ==> forall|i: int|
            0 <= i < p.files.len() ==> ((#[trigger] p.files[i]).applied is None) == open.contains(p.files[i].absolute),
{
    lemma_open_decides(empty_plan(), groups_of(root, docs), open, expect, reads);
}

/// Phase 1 only reads: every question it puts is a read of a file that has
/// edits and that the editor does not have open.
pub proof fn law_phase_one_only_reads(
    st: PlanView,
    gs: Seq<GroupView>,
    open: Seq<Seq<char>>,
    expect: Seq<char>,
    reads: Seq<Result<Seq<char>, Seq<char>>>,
)
    ensures
        forall|j: int|
            0 <= j < read_calls(st, gs, open, expect, reads).len() ==> (#[trigger] read_calls(
                st,
                gs,
                open,
                expect,
                reads,
            )[j] matches FileCall::Read { path, .. } && !open.contains(path) && exists|k: int|
                0 <= k < gs.len() && (#[trigger] gs[k]).absolute == path && gs[k].edits.len() > 0),
    decreases gs.len(),
{
    reveal(read_calls);
    if gs.len() > 0 {
        let init = gs.drop_last();
        law_phase_one_only_reads(st, init, open, expect, reads.drop_last());
        let before = read_calls(st, init, open, expect, reads.drop_last());
        let all = read_calls(st, gs, open, expect, reads);
        assert forall|j: int| 0 <= j < all.len() implies (#[trigger] all[j] matches FileCall::Read { path, .. }
            && !open.contains(path) && exists|k: int| 0 <= k < gs.len() && (#[trigger] gs[k]).absolute == path
            && gs[k].edits.len() > 0) by {
            if j < before.len() {
                assert(all[j] == before[j]);
                if let FileCall::Read { path, .. } = before[j] {
                    let k = choose|k: int| 0 <= k < init.len() && (#[trigger] init[k]).absolute == path && init[k].edits.len() > 0;
                    assert(gs[k] == init[k]);
                }
            } else {
                assert(gs[gs.len() - 1] == gs.last());
            }
        }
    }
}

/// Every file phase 2 writes, restores included, is one the plan holds as
/// closed.
proof fn lemma_phase2_writes_closed(files: Seq<FileView>, a: WriteAnswers)
    requires
        answers_fit(files, a),
    ensures
        forall|j: int|
            0 <= j < phase2_calls(files, a).len() ==> (#[trigger] phase2_calls(files, a)[j] matches FileCall::Write {
                path,
                ..
            } ==> exists|m: int| 0 <= m < closed_files(files).len() && (#[trigger] closed_files(files)[m]).absolute == path),
{
    let closed = closed_files(files);
    let calls = phase2_calls(files, a);
    assert forall|j: int| 0 <= j < calls.len() implies (#[trigger] calls[j] matches FileCall::Write { path, .. }
        ==> exists|m: int| 0 <= m < closed.len() && (#[trigger] closed[m]).absolute == path) by {
        match a.failed_at {
            None => {
                assert(closed[j].absolute == closed[j].absolute);
            },
            Some(k) => {
                let w = written_calls(closed.take(k));
                let first = w.push(
                    FileCall::Write { path: closed[k].absolute, text: closed[k].applied->Some_0.1, answer: Err(a.detail) },
                );
                let rec = recovery_calls(closed[k].absolute, closed[k].applied->Some_0.0, a.read_back, a.restore);
                let back = rollback_calls(closed.take(k).reverse(), a.rollback);
                assert(calls == first + rec + back);
                if j < k {
                    assert(calls[j] == w[j]);
                    assert(closed.take(k)[j] == closed[j]);
                } else if j == k {
                    assert(calls[j] == first[j]);
                    assert(closed[k].absolute == closed[k].absolute);
                } else if j < k + 1 + rec.len() {
                    assert(calls[j] == rec[j - k - 1]);
                    assert(closed[k].absolute == closed[k].absolute);
                } else {
                    let m = j - k - 1 - rec.len();
                    assert(calls[j] == back[m]);
                    assert(closed.take(k).reverse()[m] == closed[k - 1 - m]);
                }
            },
        }
    }
}

/// An open buffer is never written: no question a rename puts to `files`,
/// whatever the answers, writes a path the editor has open.
pub proof fn law_open_files_are_never_written(
    root: Seq<char>,
    edit: WorkspaceEdit,
    open: Seq<Seq<char>>,
    expect: Seq<char>,
    reads: Seq<Result<Seq<char>, Seq<char>>>,
    writes: WriteAnswers,
)
    requires
        writes_fit(root, edit, open, expect, reads, writes),
    ensures
        forall|j: int|
            0 <= j < rename_calls(root, edit, open, expect, reads, writes).len() ==> (#[trigger] rename_calls(
                root,
                edit,
                open,
                expect,
                reads,
                writes,
            )[j] matches FileCall::Write { path, .. } ==> !open.contains(path)),
{
    if !(edit.resource_operations@.len() > 0 || first_refusal(root, edit.documents@) is Some) {
        let gs = groups_of(root, edit.documents@);
        let rc = read_calls(empty_plan(), gs, open, expect, reads);
        let calls = rename_calls(root, edit, open, expect, reads, writes);
        law_phase_one_only_reads(empty_plan(), gs, open, expect, reads);
        match run(empty_plan(), gs, open, expect, reads) {
            Ok(p) => {
                let tail = phase2_calls(p.files, writes);
                assert(calls == rc + tail);
                lemma_phase2_writes_closed(p.files, writes);
                law_a_file_is_written_exactly_when_it_is_not_open(root, edit.documents@, open, expect, reads);
                let closed = closed_files(p.files);
                let pred = |f: FileView| f.applied is Some;
                assert forall|j: int| 0 <= j < calls.len() implies (#[trigger] calls[j] matches FileCall::Write {
                    path,
                    ..
                } ==> !open.contains(path)) by {
                    if j < rc.len() {
                        assert(calls[j] == rc[j]);
                    } else {
                        assert(calls[j] == tail[j - rc.len()]);
                        if let FileCall::Write { path, .. } = tail[j - rc.len()] {
                            let m = choose|m: int| 0 <= m < closed.len() && (#[trigger] closed[m]).absolute == path;
                            p.files.lemma_filter_pred(pred, m);
                            p.files.lemma_filter_contains_rev(pred, closed[m]);
                            let i = choose|i: int| 0 <= i < p.files.len() && p.files[i] == closed[m];
                            assert((p.files[i].applied is None) == open.contains(p.files[i].absolute));
                        }
                    }
                }
            },
            Err(_) => {
                assert(calls =~= rc);
            },
        }
    }
}

/// A phase 2 in which every write succeeded is a finished rename: only a
/// write answering with an error leads to a rollback.
pub proof fn law_all_writes_succeeding_is_ready(files: Seq<FileView>, total: u32, notes: Seq<Seq<char>>, a: WriteAnswers)
    requires
        answers_fit(files, a),
        forall|j: int|
            0 <= j < phase2_calls(files, a).len() ==> (#[trigger] phase2_calls(files, a)[j] matches FileCall::Write {
                answer,
                ..
            } ==> answer is Ok),
    ensures
        phase2(files, total, notes, a).outcome == Availability::Ready,
{
    if let Some(k) = a.failed_at {
        let closed = closed_files(files);
        let calls = phase2_calls(files, a);
        assert(written_calls(closed.take(k)).len() == k);
        assert(calls[k] == FileCall::Write {
            path: closed[k].absolute,
            text: closed[k].applied->Some_0.1,
            answer: Err::<(), Seq<char>>(a.detail),
        });
    }
}

/// One file is planned once, whichever spellings of its URI the edits came
/// under, and the files go in path order.
pub proof fn law_each_file_is_planned_once(docs: Seq<DocumentEdits>)
    ensures
        group_paths(docs).no_duplicates(),
        increasing_by(group_paths(docs), by_path()),
        group_paths(docs).to_set() == doc_paths(docs).to_set(),
{
    lemma_path_order();
    vstd::seq_lib::seq_to_set_is_finite(doc_paths(docs));
    crate::order::lemma_arranged_exists(doc_paths(docs).to_set(), by_path());
    crate::order::lemma_increasing_distinct(group_paths(docs), by_path());
}

} // verus!
