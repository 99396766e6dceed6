//! The two answers a rename gets: the edit a server proposes, and whether the
//! caret is on something renameable at all.
//!
//! `null` is a real answer to both, never an error: it means nothing to change
//! and nothing to rename. A shape the protocol does not allow is refused rather
//! than read as an empty edit, which would invite the conclusion that the
//! symbol is unused.
use vstd::prelude::*;

use crate::json::{member, member_spec, shape_detail_spec, Json};
use crate::order::{
    arranged, by_text, increasing_by, lemma_arranged_is, lemma_increasing_insert, lemma_text_order, lemma_to_set_insert,
    lemma_to_set_push, lex_less, strict_total, text_lt, texts,
};
use crate::protocol::{
    method, range_of, range_spec, DecodeError, DocumentEdits, Range, ResourceOperation, TextEdit, TextEditView,
    WorkspaceEdit,
};
use crate::text::same_text;

verus! {

// ---------------------------------------------------------------------------
// Text edits
// ---------------------------------------------------------------------------

pub open spec fn text_edit_parts(range: Option<Range>, text: Option<Json>) -> Option<TextEditView> {
    match (range, text) {
        (Some(range), Some(Json::Str(t))) => Some(TextEditView { range, text: t@ }),
        _ => None,
    }
}

/// One text edit: from an object by its `range` and `newText`, other members
/// (an `annotationId` among them) read past, or from an array of the two.
pub open spec fn text_edit_spec(j: Json) -> Option<TextEditView> {
    match j {
        Json::Object(fs) => match member_spec(fs@, "range"@) {
            Some(r) => text_edit_parts(range_spec(r), member_spec(fs@, "newText"@)),
            None => None,
        },
        Json::Array(items) => if items@.len() == 2 {
            text_edit_parts(range_spec(items@[0]), Some(items@[1]))
        } else {
            None
        },
        _ => None,
    }
}

fn text_edit_of(j: &Json) -> (r: Option<TextEdit>)
    ensures
        match text_edit_spec(*j) {
            Some(e) => r matches Some(t) && t@ == e,
            None => r is None,
        },
{
    let (range, text) = match j {
        Json::Object(fs) => match member(fs, "range") {
            Some(r) => (r, member(fs, "newText")),
            None => {
                return None;
            },
        },
        Json::Array(items) => {
            if items.len() != 2 {
                return None;
            }
            (&items[0], Some(&items[1]))
        },
        _ => {
            return None;
        },
    };
    match (range_of(range), text) {
        (Some(range), Some(Json::Str(t))) => Some(TextEdit { range, new_text: t.clone() }),
        _ => None,
    }
}

/// Text edits as plain values.
pub open spec fn edit_views(v: Seq<TextEdit>) -> Seq<TextEditView> {
    v.map_values(|e: TextEdit| e@)
}

/// An array of text edits, every one of them readable.
pub open spec fn edit_list_spec(j: Json) -> Option<Seq<TextEditView>> {
    match j {
        Json::Array(items) => if forall|i: int| 0 <= i < items@.len() ==> (#[trigger] text_edit_spec(items@[i])) is Some {
            Some(Seq::new(items@.len(), |i: int| text_edit_spec(items@[i])->Some_0))
        } else {
            None
        },
        _ => None,
    }
}

fn edit_list_of(j: &Json) -> (r: Option<Vec<TextEdit>>)
    ensures
        match edit_list_spec(*j) {
            Some(es) => r matches Some(v) && edit_views(v@) == es,
            None => r is None,
        },
{
    let items = match j {
        Json::Array(items) => items,
        _ => {
            return None;
        },
    };
    let mut out: Vec<TextEdit> = Vec::new();
    let mut i: usize = 0;
    while i < items.len()
        invariant
            *j == Json::Array(*items),
            i <= items@.len(),
            out@.len() == i,
            forall|k: int| 0 <= k < i ==> (#[trigger] text_edit_spec(items@[k])) == Some(out@[k]@),
        decreases items@.len() - i,
    {
        match text_edit_of(&items[i]) {
            Some(e) => out.push(e),
            None => {
                assert(text_edit_spec(items@[i as int]) is None);
                return None;
            },
        }
        i = i + 1;
    }
    assert(edit_views(out@) =~= Seq::new(items@.len(), |k: int| text_edit_spec(items@[k])->Some_0));
    Some(out)
}

// ---------------------------------------------------------------------------
// Entries of `documentChanges`
// ---------------------------------------------------------------------------

/// A document's edits, as plain values.
pub ghost struct DocumentView {
    pub uri: Seq<char>,
    pub edits: Seq<TextEditView>,
}

pub open spec fn document_view(d: DocumentEdits) -> DocumentView {
    DocumentView { uri: d.uri@, edits: edit_views(d.edits@) }
}

pub open spec fn document_views(v: Seq<DocumentEdits>) -> Seq<DocumentView> {
    v.map_values(|d: DocumentEdits| document_view(d))
}

/// A file operation, as plain values.
pub ghost struct OperationView {
    pub kind: Seq<char>,
    pub uris: Seq<Seq<char>>,
}

pub open spec fn operation_view(o: ResourceOperation) -> OperationView {
    OperationView { kind: o.kind@, uris: texts(o.uris@) }
}

pub open spec fn operation_views(v: Seq<ResourceOperation>) -> Seq<OperationView> {
    v.map_values(|o: ResourceOperation| operation_view(o))
}

/// One entry of `documentChanges`: edits to a document, or a file operation.
pub ghost enum ChangeView {
    Document(DocumentView),
    Operation(OperationView),
}

/// A file operation of any kind, one this module does not know included: a
/// `rename` names the old URI and then the new, every other kind one `uri`.
pub open spec fn operation_spec(kind: Seq<char>, fs: Seq<(String, Json)>) -> Option<OperationView> {
    if kind == "rename"@ {
        match (member_spec(fs, "oldUri"@), member_spec(fs, "newUri"@)) {
            (Some(Json::Str(a)), Some(Json::Str(b))) => Some(OperationView { kind, uris: seq![a@, b@] }),
            _ => None,
        }
    } else {
        match member_spec(fs, "uri"@) {
            Some(Json::Str(u)) => Some(OperationView { kind, uris: seq![u@] }),
            _ => None,
        }
    }
}

/// Edits to one document: a `textDocument` object with a string `uri`, and
/// an `edits` array. The document's version is read past.
pub open spec fn document_change_spec(fs: Seq<(String, Json)>) -> Option<DocumentView> {
    match (member_spec(fs, "textDocument"@), member_spec(fs, "edits"@)) {
        (Some(Json::Object(td)), Some(es)) => match (member_spec(td@, "uri"@), edit_list_spec(es)) {
            (Some(Json::Str(u)), Some(edits)) => Some(DocumentView { uri: u@, edits }),
            _ => None,
        },
        _ => None,
    }
}

/// An entry with a string `kind` is a file operation; any other is edits to a
/// document.
pub open spec fn change_spec(j: Json) -> Option<ChangeView> {
    match j {
        Json::Object(fs) => match member_spec(fs@, "kind"@) {
            Some(Json::Str(k)) => match operation_spec(k@, fs@) {
                Some(o) => Some(ChangeView::Operation(o)),
                None => None,
            },
            _ => match document_change_spec(fs@) {
                Some(d) => Some(ChangeView::Document(d)),
                None => None,
            },
        },
        _ => None,
    }
}

enum Change {
    Document(DocumentEdits),
    Operation(ResourceOperation),
}

spec fn change_view(c: Change) -> ChangeView {
    match c {
        Change::Document(d) => ChangeView::Document(document_view(d)),
        Change::Operation(o) => ChangeView::Operation(operation_view(o)),
    }
}

fn change_of(j: &Json) -> (r: Option<Change>)
    ensures
        match change_spec(*j) {
            Some(c) => r matches Some(x) && change_view(x) == c,
            None => r is None,
        },
{
    let fs = match j {
        Json::Object(fs) => fs,
        _ => {
            return None;
        },
    };
    if let Some(Json::Str(k)) = member(fs, "kind") {
        let mut uris: Vec<String> = Vec::new();
        if same_text(k.as_str(), "rename") {
            match (member(fs, "oldUri"), member(fs, "newUri")) {
                (Some(Json::Str(a)), Some(Json::Str(b))) => {
                    uris.push(a.clone());
                    uris.push(b.clone());
                    assert(texts(uris@) =~= seq![a@, b@]);
                },
                _ => {
                    return None;
                },
            }
        } else {
            match member(fs, "uri") {
                Some(Json::Str(u)) => {
                    uris.push(u.clone());
                    assert(texts(uris@) =~= seq![u@]);
                },
                _ => {
                    return None;
                },
            }
        }
        let o = ResourceOperation { kind: k.clone(), uris };
        assert(operation_spec(k@, fs@) == Some(operation_view(o)));
        return Some(Change::Operation(o));
    }
    let (td, es) = match (member(fs, "textDocument"), member(fs, "edits")) {
        (Some(Json::Object(td)), Some(es)) => (td, es),
        _ => {
            return None;
        },
    };
    match (member(td, "uri"), edit_list_of(es)) {
        (Some(Json::Str(u)), Some(edits)) => Some(Change::Document(DocumentEdits { uri: u.clone(), edits })),
        _ => None,
    }
}

// ---------------------------------------------------------------------------
// One entry per document
// ---------------------------------------------------------------------------
//
// Two entries naming one file would be planned and applied apart, the second
// against text the first had already changed; so entries for one URI merge,
// their edits kept in the server's order. Documents come out in the order of
// their URIs, whatever order the server listed them in.

/// Every edit `ds` holds for `uri`, in order.
pub open spec fn edits_for(ds: Seq<DocumentView>, uri: Seq<char>) -> Seq<TextEditView>
    decreases ds.len(),
{
    if ds.len() == 0 {
        Seq::empty()
    } else {
        edits_for(ds.drop_last(), uri) + if ds.last().uri == uri {
            ds.last().edits
        } else {
            Seq::empty()
        }
    }
}

pub open spec fn uris_of(ds: Seq<DocumentView>) -> Seq<Seq<char>> {
    ds.map_values(|d: DocumentView| d.uri)
}

/// Each URI of `ds` once, in text order, with every edit `ds` holds for it.
pub open spec fn merged(ds: Seq<DocumentView>) -> Seq<DocumentView> {
    let keys = arranged(uris_of(ds).to_set(), by_text());
    Seq::new(keys.len(), |i: int| DocumentView { uri: keys[i], edits: edits_for(ds, keys[i]) })
}

/// A decoded rename names each document once, in URI order, whatever order
/// and however often the server listed it, and holds every edit the server
/// gave that document, in the server's order.
pub proof fn law_each_document_once_in_uri_order(ds: Seq<DocumentView>)
    ensures
        increasing_by(uris_of(merged(ds)), by_text()),
        uris_of(merged(ds)).to_set() == uris_of(ds).to_set(),
        forall|k: int| 0 <= k < merged(ds).len() ==> (#[trigger] merged(ds)[k]).edits == edits_for(ds, merged(ds)[k].uri),
{
    lemma_text_order();
    let set = uris_of(ds).to_set();
    vstd::seq_lib::seq_to_set_is_finite(uris_of(ds));
    crate::order::lemma_arranged_exists(set, by_text());
    let keys = arranged(set, by_text());
    assert(uris_of(merged(ds)) =~= keys);
}

/// `out` is `ds` merged, stated piece by piece.
pub open spec fn gathers(out: Seq<DocumentView>, ds: Seq<DocumentView>) -> bool {
    &&& increasing_by(uris_of(out), by_text())
    &&& uris_of(out).to_set() == uris_of(ds).to_set()
    &&& forall|k: int| 0 <= k < out.len() ==> (#[trigger] out[k]).edits == edits_for(ds, out[k].uri)
}

proof fn lemma_gathers_merged(out: Seq<DocumentView>, ds: Seq<DocumentView>)
    requires
        gathers(out, ds),
    ensures
        out == merged(ds),
{
    lemma_text_order();
    lemma_arranged_is(uris_of(out), uris_of(ds).to_set(), by_text());
    let keys = arranged(uris_of(ds).to_set(), by_text());
    assert(keys == uris_of(out));
    assert forall|k: int| 0 <= k < out.len() implies #[trigger] out[k] == merged(ds)[k] by {
        assert(keys[k] == out[k].uri);
    }
    assert(out =~= merged(ds));
}

/// A URI no entry names gets no edits.
proof fn lemma_edits_for_absent(ds: Seq<DocumentView>, uri: Seq<char>)
    requires
        !uris_of(ds).contains(uri),
    ensures
        edits_for(ds, uri) == Seq::<TextEditView>::empty(),
    decreases ds.len(),
{
    if ds.len() > 0 {
        let init = ds.drop_last();
        assert(!uris_of(init).contains(uri)) by {
            if uris_of(init).contains(uri) {
                let k = choose|k: int| 0 <= k < uris_of(init).len() && uris_of(init)[k] == uri;
                assert(uris_of(ds)[k] == uri);
            }
        }
        assert(uris_of(ds)[ds.len() - 1] == ds.last().uri);
        lemma_edits_for_absent(init, uri);
        assert(edits_for(ds, uri) =~= Seq::<TextEditView>::empty());
    }
}

/// Adding an entry adds its edits to its own URI and nothing to the others.
proof fn lemma_edits_for_push(ds: Seq<DocumentView>, d: DocumentView, uri: Seq<char>)
    ensures
        edits_for(ds.push(d), uri) == edits_for(ds, uri) + if d.uri == uri {
            d.edits
        } else {
            Seq::empty()
        },
{
    assert(ds.push(d).drop_last() =~= ds);
}

proof fn lemma_uris_push(ds: Seq<DocumentView>, d: DocumentView)
    ensures
        uris_of(ds.push(d)) == uris_of(ds).push(d.uri),
        uris_of(ds.push(d)).to_set() == uris_of(ds).to_set().insert(d.uri),
{
    assert(uris_of(ds.push(d)) =~= uris_of(ds).push(d.uri));
    lemma_to_set_push(uris_of(ds), d.uri);
}

/// Fold one more document into documents already merged.
fn merge_document(out: &mut Vec<DocumentEdits>, d: DocumentEdits, Ghost(ds): Ghost<Seq<DocumentView>>)
    requires
        gathers(document_views(old(out)@), ds),
    ensures
        gathers(document_views(final(out)@), ds.push(document_view(d))),
{
    proof {
        lemma_text_order();
    }
    let ghost before = document_views(out@);
    let ghost dv = document_view(d);
    let ghost all = ds.push(dv);
    let ghost keys = uris_of(before);
    let mut p: usize = 0;
    while p < out.len() && lex_less(out[p].uri.as_str(), d.uri.as_str(), false)
        invariant
            p <= out@.len(),
            document_views(out@) == before,
            keys == uris_of(before),
            dv == document_view(d),
            forall|k: int| 0 <= k < p ==> text_lt(#[trigger] keys[k], dv.uri),
        decreases out@.len() - p,
    {
        assert(keys[p as int] == out@[p as int].uri@);
        p = p + 1;
    }
    proof {
        lemma_uris_push(ds, dv);
    }
    if p < out.len() && same_text(out[p].uri.as_str(), d.uri.as_str()) {
        let mut existing = out.remove(p);
        let DocumentEdits { uri: _, edits: mut more } = d;
        existing.edits.append(&mut more);
        out.insert(p, existing);
        proof {
            let after = document_views(out@);
            let merged_here = DocumentView { uri: before[p as int].uri, edits: before[p as int].edits + dv.edits };
            assert(after =~= before.update(p as int, merged_here)) by {
                assert(edit_views(out@[p as int].edits@) =~= before[p as int].edits + dv.edits);
            }
            assert(uris_of(after) =~= keys);
            assert(keys.contains(dv.uri)) by {
                assert(keys[p as int] == dv.uri);
            }
            assert(uris_of(ds).to_set().insert(dv.uri) =~= uris_of(ds).to_set()) by {
                assert(keys.to_set().contains(dv.uri));
            }
            assert forall|k: int| 0 <= k < after.len() implies (#[trigger] after[k]).edits == edits_for(all, after[k].uri) by {
                lemma_edits_for_push(ds, dv, after[k].uri);
                if k != p {
                    assert(after[k] == before[k]);
                    if k < p {
                        assert(text_lt(keys[k], keys[p as int]));
                    } else {
                        assert(text_lt(keys[p as int], keys[k]));
                    }
                    assert(keys[k] != dv.uri);
                    assert(before[k].edits + Seq::<TextEditView>::empty() =~= before[k].edits);
                }
            }
        }
    } else {
        let ghost at = p as int;
        proof {
            if at < keys.len() {
                assert(keys[at] == out@[at].uri@);
                assert(keys[at] != dv.uri);
                assert(!text_lt(keys[at], dv.uri));
                assert(by_text()(keys[at], dv.uri) || by_text()(dv.uri, keys[at]));
            }
        }
        out.insert(p, d);
        proof {
            let after = document_views(out@);
            assert(after =~= before.insert(at, dv));
            assert(forall|k: int| 0 <= k < at ==> by_text()(#[trigger] keys[k], dv.uri));
            lemma_increasing_insert(keys, at, dv.uri, by_text());
            assert(uris_of(after) =~= keys.insert(at, dv.uri));
            lemma_to_set_insert(keys, at, dv.uri);
            assert(!keys.contains(dv.uri)) by {
                if keys.contains(dv.uri) {
                    let k = choose|k: int| 0 <= k < keys.len() && keys[k] == dv.uri;
                    if k < at {
                        assert(text_lt(keys[k], dv.uri));
                    } else {
                        assert(text_lt(dv.uri, keys[at]));
                        if k > at {
                            assert(by_text()(keys[at], keys[k]));
                        }
                    }
                }
            }
            assert(!uris_of(ds).contains(dv.uri)) by {
                if uris_of(ds).contains(dv.uri) {
                    assert(uris_of(ds).to_set().contains(dv.uri));
                    assert(keys.to_set().contains(dv.uri));
                }
            }
            lemma_edits_for_absent(ds, dv.uri);
            assert forall|k: int| 0 <= k < after.len() implies (#[trigger] after[k]).edits == edits_for(all, after[k].uri) by {
                lemma_edits_for_push(ds, dv, after[k].uri);
                if k == at {
                    assert(Seq::<TextEditView>::empty() + dv.edits =~= dv.edits);
                } else {
                    let old_k = if k < at { k } else { k - 1 };
                    assert(after[k] == before[old_k]);
                    assert(keys[old_k] != dv.uri);
                    assert(before[old_k].edits + Seq::<TextEditView>::empty() =~= before[old_k].edits);
                }
            }
        }
    }
}

// ---------------------------------------------------------------------------
// The workspace edit
// ---------------------------------------------------------------------------

/// Every entry of `documentChanges` readable, or nothing.
pub open spec fn changes_spec(items: Seq<Json>) -> Option<Seq<ChangeView>> {
    if forall|i: int| 0 <= i < items.len() ==> (#[trigger] change_spec(items[i])) is Some {
        Some(Seq::new(items.len(), |i: int| change_spec(items[i])->Some_0))
    } else {
        None
    }
}

/// The document entries among `cs`, in order.
pub open spec fn documents_among(cs: Seq<ChangeView>) -> Seq<DocumentView>
    decreases cs.len(),
{
    if cs.len() == 0 {
        Seq::empty()
    } else {
        match cs.last() {
            ChangeView::Document(d) => documents_among(cs.drop_last()).push(d),
            ChangeView::Operation(_) => documents_among(cs.drop_last()),
        }
    }
}

/// The file operations among `cs`, in order.
pub open spec fn operations_among(cs: Seq<ChangeView>) -> Seq<OperationView>
    decreases cs.len(),
{
    if cs.len() == 0 {
        Seq::empty()
    } else {
        match cs.last() {
            ChangeView::Document(_) => operations_among(cs.drop_last()),
            ChangeView::Operation(o) => operations_among(cs.drop_last()).push(o),
        }
    }
}

/// The legacy `changes` map, each member a URI and its edits.
pub open spec fn legacy_spec(fs: Seq<(String, Json)>) -> Option<Seq<DocumentView>> {
    if forall|i: int| 0 <= i < fs.len() ==> (#[trigger] edit_list_spec(fs[i].1)) is Some {
        Some(legacy_prefix(fs, fs.len() as int))
    } else {
        None
    }
}

pub open spec fn legacy_prefix(fs: Seq<(String, Json)>, n: int) -> Seq<DocumentView> {
    Seq::new(n as nat, |i: int| DocumentView { uri: fs[i].0@, edits: edit_list_spec(fs[i].1)->Some_0 })
}

/// A workspace edit, as plain values.
pub ghost struct WorkspaceEditView {
    pub documents: Seq<DocumentView>,
    pub operations: Seq<OperationView>,
}

pub open spec fn workspace_view(w: WorkspaceEdit) -> WorkspaceEditView {
    WorkspaceEditView { documents: document_views(w.documents@), operations: operation_views(w.resource_operations@) }
}

pub open spec fn no_edit() -> WorkspaceEditView {
    WorkspaceEditView { documents: Seq::empty(), operations: Seq::empty() }
}

/// A member that is there and not `null`: a `null` member means none of that
/// kind, as its absence does.
pub open spec fn present(v: Option<Json>) -> bool {
    v matches Some(x) && !(x is Null)
}

/// What a rename answer asks for. `null` and an object with neither shape
/// ask for nothing. `documentChanges` wins over the legacy `changes` map when
/// both are there: a server sending both has already said which counts.
pub open spec fn workspace_edit_spec(j: Json) -> Option<WorkspaceEditView> {
    match j {
        Json::Null => Some(no_edit()),
        Json::Object(fs) => if present(member_spec(fs@, "documentChanges"@)) {
            match member_spec(fs@, "documentChanges"@) {
                Some(Json::Array(items)) => match changes_spec(items@) {
                    Some(cs) => Some(
                        WorkspaceEditView { documents: merged(documents_among(cs)), operations: operations_among(cs) },
                    ),
                    None => None,
                },
                _ => None,
            }
        } else if present(member_spec(fs@, "changes"@)) {
            match member_spec(fs@, "changes"@) {
                Some(Json::Object(m)) => match legacy_spec(m@) {
                    Some(ds) => Some(WorkspaceEditView { documents: merged(ds), operations: Seq::empty() }),
                    None => None,
                },
                _ => None,
            }
        } else {
            Some(no_edit())
        },
        _ => None,
    }
}

fn empty_edit() -> (r: WorkspaceEdit)
    ensures
        workspace_view(r) == no_edit(),
{
    let r = WorkspaceEdit { documents: Vec::new(), resource_operations: Vec::new() };
    assert(document_views(r.documents@) =~= Seq::<DocumentView>::empty());
    assert(operation_views(r.resource_operations@) =~= Seq::<OperationView>::empty());
    r
}

fn changes_of(items: &Vec<Json>) -> (r: Option<WorkspaceEdit>)
    ensures
        match changes_spec(items@) {
            Some(cs) => r matches Some(e) && workspace_view(e) == WorkspaceEditView {
                documents: merged(documents_among(cs)),
                operations: operations_among(cs),
            },
            None => r is None,
        },
{
    let mut documents: Vec<DocumentEdits> = Vec::new();
    let mut operations: Vec<ResourceOperation> = Vec::new();
    let ghost mut cs: Seq<ChangeView> = Seq::empty();
    proof {
        lemma_text_order();
        assert(document_views(documents@) =~= Seq::<DocumentView>::empty());
        assert(operation_views(operations@) =~= Seq::<OperationView>::empty());
        assert(uris_of(Seq::<DocumentView>::empty()) =~= Seq::<Seq<char>>::empty());
    }
    let mut i: usize = 0;
    while i < items.len()
        invariant
            i <= items@.len(),
            cs.len() == i,
            forall|k: int| 0 <= k < i ==> (#[trigger] change_spec(items@[k])) == Some(cs[k]),
            gathers(document_views(documents@), documents_among(cs)),
            operation_views(operations@) == operations_among(cs),
        decreases items@.len() - i,
    {
        let ghost c = change_spec(items@[i as int]);
        match change_of(&items[i]) {
            Some(Change::Document(d)) => {
                merge_document(&mut documents, d, Ghost(documents_among(cs)));
            },
            Some(Change::Operation(o)) => {
                let ghost before = operations@;
                operations.push(o);
                assert(operation_views(operations@) =~= operation_views(before).push(operation_view(o)));
            },
            None => {
                assert(change_spec(items@[i as int]) is None);
                return None;
            },
        }
        proof {
            let next = cs.push(c->Some_0);
            assert(next.drop_last() =~= cs);
            cs = next;
        }
        i = i + 1;
    }
    assert(cs =~= Seq::new(items@.len(), |k: int| change_spec(items@[k])->Some_0));
    proof {
        lemma_gathers_merged(document_views(documents@), documents_among(cs));
    }
    Some(WorkspaceEdit { documents, resource_operations: operations })
}

fn legacy_of(m: &Vec<(String, Json)>) -> (r: Option<WorkspaceEdit>)
    ensures
        match legacy_spec(m@) {
            Some(ds) => r matches Some(e) && workspace_view(e) == WorkspaceEditView {
                documents: merged(ds),
                operations: Seq::empty(),
            },
            None => r is None,
        },
{
    let mut documents: Vec<DocumentEdits> = Vec::new();
    proof {
        lemma_text_order();
        assert(document_views(documents@) =~= Seq::<DocumentView>::empty());
        assert(legacy_prefix(m@, 0) =~= Seq::<DocumentView>::empty());
        assert(uris_of(Seq::<DocumentView>::empty()) =~= Seq::<Seq<char>>::empty());
    }
    let mut i: usize = 0;
    while i < m.len()
        invariant
            i <= m@.len(),
            forall|k: int| 0 <= k < i ==> (#[trigger] edit_list_spec(m@[k].1)) is Some,
            gathers(document_views(documents@), legacy_prefix(m@, i as int)),
        decreases m@.len() - i,
    {
        match edit_list_of(&m[i].1) {
            Some(edits) => {
                let d = DocumentEdits { uri: m[i].0.clone(), edits };
                let ghost dv = document_view(d);
                merge_document(&mut documents, d, Ghost(legacy_prefix(m@, i as int)));
                assert(legacy_prefix(m@, i + 1) =~= legacy_prefix(m@, i as int).push(dv));
            },
            None => {
                assert(edit_list_spec(m@[i as int].1) is None);
                return None;
            },
        }
        i = i + 1;
    }
    proof {
        lemma_gathers_merged(document_views(documents@), legacy_prefix(m@, m@.len() as int));
    }
    let r = WorkspaceEdit { documents, resource_operations: Vec::new() };
    assert(operation_views(r.resource_operations@) =~= Seq::<OperationView>::empty());
    Some(r)
}

/// Read a rename answer into the edits it asks for, one entry per document,
/// or say why it could not be read.
pub fn decode_workspace_edit(value: &Json) -> (r: Result<WorkspaceEdit, DecodeError>)
    ensures
        match workspace_edit_spec(*value) {
            Some(w) => r matches Ok(e) && workspace_view(e) == w,
            None => r matches Err(DecodeError::Shape { what, detail }) && what == method::RENAME
                && shape_detail_spec(*value, detail@),
        },
{
    let fs = match value {
        Json::Null => {
            return Ok(empty_edit());
        },
        Json::Object(fs) => fs,
        _ => {
            return Err(DecodeError::shape(method::RENAME, value));
        },
    };
    match member(fs, "documentChanges") {
        None | Some(Json::Null) => {},
        Some(Json::Array(items)) => {
            return match changes_of(items) {
                Some(e) => Ok(e),
                None => Err(DecodeError::shape(method::RENAME, value)),
            };
        },
        Some(_) => {
            return Err(DecodeError::shape(method::RENAME, value));
        },
    }
    match member(fs, "changes") {
        None | Some(Json::Null) => Ok(empty_edit()),
        Some(Json::Object(m)) => match legacy_of(m) {
            Some(e) => Ok(e),
            None => Err(DecodeError::shape(method::RENAME, value)),
        },
        Some(_) => Err(DecodeError::shape(method::RENAME, value)),
    }
}

// ---------------------------------------------------------------------------
// prepareRename
// ---------------------------------------------------------------------------

/// What a server said about renaming at the caret.
#[derive(Debug, Clone, PartialEq, Eq)]
pub enum PrepareRenameResponse {
    /// `null`: the caret is on a keyword, a comment or a literal.
    NotRenameable,
    /// The span a rename would replace, and the text the server would start
    /// the new name from, when it chose one.
    Range { range: Range, placeholder: Option<String> },
    /// `{"defaultBehavior": ...}`, `true` or `false` alike: renameable, with
    /// no special span. `false` is not a refusal.
    DefaultBehavior,
}

/// An optional placeholder: absent and `null` are none, a string is itself.
pub open spec fn placeholder_spec(v: Option<Json>) -> Option<Option<String>> {
    match v {
        None => Some(None),
        Some(Json::Null) => Some(None),
        Some(Json::Str(s)) => Some(Some(s)),
        _ => None,
    }
}

/// `{range, placeholder?}`.
pub open spec fn wrapped_spec(fs: Seq<(String, Json)>) -> Option<PrepareRenameResponse> {
    match member_spec(fs, "range"@) {
        Some(r) => match (range_spec(r), placeholder_spec(member_spec(fs, "placeholder"@))) {
            (Some(range), Some(placeholder)) => Some(PrepareRenameResponse::Range { range, placeholder }),
            _ => None,
        },
        None => None,
    }
}

/// Every shape a `prepareRename` answer may take, tried in order: `null`; a
/// bare range, as the real Roslyn sends; a range with a placeholder; a
/// `defaultBehavior` flag.
pub open spec fn prepare_rename_spec(j: Json) -> Option<PrepareRenameResponse> {
    if j is Null {
        Some(PrepareRenameResponse::NotRenameable)
    } else if range_spec(j) is Some {
        Some(PrepareRenameResponse::Range { range: range_spec(j)->Some_0, placeholder: None })
    } else {
        match j {
            Json::Object(fs) => if wrapped_spec(fs@) is Some {
                wrapped_spec(fs@)
            } else if member_spec(fs@, "defaultBehavior"@) matches Some(Json::Bool(_)) {
                Some(PrepareRenameResponse::DefaultBehavior)
            } else {
                None
            },
            _ => None,
        }
    }
}

fn wrapped_of(fs: &Vec<(String, Json)>) -> (r: Option<PrepareRenameResponse>)
    ensures
        r == wrapped_spec(fs@),
{
    let range = match member(fs, "range") {
        Some(r) => match range_of(r) {
            Some(range) => range,
            None => {
                return None;
            },
        },
        None => {
            return None;
        },
    };
    let placeholder = match member(fs, "placeholder") {
        None => None,
        Some(Json::Null) => None,
        Some(Json::Str(s)) => Some(s.clone()),
        Some(_) => {
            return None;
        },
    };
    Some(PrepareRenameResponse::Range { range, placeholder })
}

/// Read a `prepareRename` answer, or say why it could not be read.
pub fn decode_prepare_rename(value: &Json) -> (r: Result<PrepareRenameResponse, DecodeError>)
    ensures
        match prepare_rename_spec(*value) {
            Some(p) => r == Ok::<PrepareRenameResponse, DecodeError>(p),
            None => r matches Err(DecodeError::Shape { what, detail }) && what == method::PREPARE_RENAME
                && shape_detail_spec(*value, detail@),
        },
{
    if let Json::Null = value {
        return Ok(PrepareRenameResponse::NotRenameable);
    }
    if let Some(range) = range_of(value) {
        return Ok(PrepareRenameResponse::Range { range, placeholder: None });
    }
    if let Json::Object(fs) = value {
        if let Some(p) = wrapped_of(fs) {
            return Ok(p);
        }
        if let Some(Json::Bool(_)) = member(fs, "defaultBehavior") {
            return Ok(PrepareRenameResponse::DefaultBehavior);
        }
    }
    Err(DecodeError::shape(method::PREPARE_RENAME, value))
}

} // verus!
