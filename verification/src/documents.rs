//! What each server has been told about each open document.
//!
//! Pure: this decides what notifications are owed and returns them; it never
//! sends anything. Document synchronisation is a set of ordering rules — open
//! before change, never open twice, never let a version go backwards, catch a
//! late server up — and every one of them is a rule about a sequence of
//! messages, stated here in the contracts of the operations that produce them.
//!
//! * `didOpen` is idempotent per (document, server): re-opening is a change.
//! * Versions rise per document and never restart, across a close and a
//!   re-open too; at `i32::MAX` they stop rather than wrap.
//! * A server that has just started is told the whole open set.
//! * A close tells exactly the servers that had the document open.
//! * A change to a document nobody opened yields no actions.
//!
//! Paths are compared as they are written, and ordered component by component.
use vstd::prelude::*;

use crate::order::{
    arranged, by_path, by_text, increasing_by, lemma_arranged_is, lemma_lex_irreflexive, lemma_to_set_push,
    lemma_lex_total, lemma_lex_transitive, lemma_path_order, lemma_text_order, lex_less, path_lt,
    text_lt,
};
use crate::text::same_text;

verus! {

/// Which server an action is owed to: every id is a compile-time constant.
pub type ServerId = &'static str;

/// One notification owed to one server. Returned, never sent.
#[derive(Debug, Clone, PartialEq, Eq)]
pub enum SyncAction {
    DidOpen { server: ServerId, path: String, text: String, version: i32 },
    DidChange { server: ServerId, path: String, text: String, version: i32 },
    DidClose { server: ServerId, path: String },
}

/// A notification, as plain values.
pub ghost enum Notice {
    DidOpen { server: Seq<char>, path: Seq<char>, text: Seq<char>, version: i32 },
    DidChange { server: Seq<char>, path: Seq<char>, text: Seq<char>, version: i32 },
    DidClose { server: Seq<char>, path: Seq<char> },
}

/// What opening `path` with `text` for `servers` tells each server that
/// ends up with it, in id order: an open for a server that did not have it,
/// a change for one that did.
pub open spec fn open_notices(m: MirrorState, path: Seq<char>, text: Seq<char>, servers: Set<Seq<char>>) -> Seq<
    Notice,
> {
    let version = version_after(m, path);
    let before = servers_of(m, path);
    arranged(before + servers, by_text()).map_values(|id: Seq<char>| open_notice(before, path, text, version, id))
}

impl View for SyncAction {
    type V = Notice;

    open spec fn view(&self) -> Notice {
        match self {
            SyncAction::DidOpen { server, path, text, version } => Notice::DidOpen {
                server: server@,
                path: path@,
                text: text@,
                version: *version,
            },
            SyncAction::DidChange { server, path, text, version } => Notice::DidChange {
                server: server@,
                path: path@,
                text: text@,
                version: *version,
            },
            SyncAction::DidClose { server, path } => Notice::DidClose { server: server@, path: path@ },
        }
    }
}

pub open spec fn notice_server(n: Notice) -> Seq<char> {
    match n {
        Notice::DidOpen { server, .. } => server,
        Notice::DidChange { server, .. } => server,
        Notice::DidClose { server, .. } => server,
    }
}

pub open spec fn notice_path(n: Notice) -> Seq<char> {
    match n {
        Notice::DidOpen { path, .. } => path,
        Notice::DidChange { path, .. } => path,
        Notice::DidClose { path, .. } => path,
    }
}

/// A batch of actions, as plain values.
pub open spec fn notices(actions: Seq<SyncAction>) -> Seq<Notice> {
    actions.map_values(|a: SyncAction| a@)
}

impl SyncAction {
    /// Which server this is owed to.
    pub fn server(&self) -> (r: ServerId)
        ensures
            r@ == notice_server(self@),
    {
        match self {
            SyncAction::DidOpen { server, .. } => server,
            SyncAction::DidChange { server, .. } => server,
            SyncAction::DidClose { server, .. } => server,
        }
    }

    /// Which document this is about.
    pub fn path(&self) -> (r: &str)
        ensures
            r@ == notice_path(self@),
    {
        match self {
            SyncAction::DidOpen { path, .. } => path.as_str(),
            SyncAction::DidChange { path, .. } => path.as_str(),
            SyncAction::DidClose { path, .. } => path.as_str(),
        }
    }
}

/// One open document, and who has been told about it.
struct Document {
    version: i32,
    text: String,
    /// In id order, each once.
    servers: Vec<ServerId>,
}

/// Every path ever opened: its highest version, kept after a close, and the
/// document while it is open.
struct Entry {
    path: String,
    high_water: i32,
    document: Option<Document>,
}

/// The mirror of what every server has been told, and nothing else.
pub struct Documents {
    /// In path order, each path once.
    entries: Vec<Entry>,
}

/// An open document, as plain values.
pub ghost struct OpenDocument {
    pub version: i32,
    pub text: Seq<char>,
    pub servers: Set<Seq<char>>,
}

/// The whole mirror, as plain values: the open documents, and the highest
/// version ever used for every path ever opened.
pub ghost struct MirrorState {
    pub open: Map<Seq<char>, OpenDocument>,
    pub high_water: Map<Seq<char>, i32>,
}

pub ghost struct EntryView {
    pub path: Seq<char>,
    pub high_water: i32,
    pub document: Option<OpenDocument>,
}

pub open spec fn ids(s: Seq<ServerId>) -> Seq<Seq<char>> {
    s.map_values(|x: ServerId| x@)
}

spec fn document_view(d: Document) -> OpenDocument {
    OpenDocument { version: d.version, text: d.text@, servers: ids(d.servers@).to_set() }
}

spec fn entry_view(e: Entry) -> EntryView {
    EntryView {
        path: e.path@,
        high_water: e.high_water,
        document: match e.document {
            Some(d) => Some(document_view(d)),
            None => None,
        },
    }
}

spec fn entry_views(es: Seq<Entry>) -> Seq<EntryView> {
    es.map_values(|e: Entry| entry_view(e))
}

pub open spec fn paths_of(es: Seq<EntryView>) -> Seq<Seq<char>> {
    es.map_values(|e: EntryView| e.path)
}

pub open spec fn has_entry(es: Seq<EntryView>, p: Seq<char>) -> bool {
    exists|i: int| 0 <= i < es.len() && es[i].path == p
}

pub open spec fn entry_index(es: Seq<EntryView>, p: Seq<char>) -> int {
    choose|i: int| 0 <= i < es.len() && es[i].path == p
}

pub open spec fn distinct_paths(es: Seq<EntryView>) -> bool {
    forall|i: int, j: int| 0 <= i < es.len() && 0 <= j < es.len() && i != j ==> es[i].path != es[j].path
}

/// The mirror a table of entries stands for.
pub open spec fn mirror_of(es: Seq<EntryView>) -> MirrorState {
    MirrorState {
        open: Map::new(
            |p: Seq<char>| has_entry(es, p) && es[entry_index(es, p)].document is Some,
            |p: Seq<char>| es[entry_index(es, p)].document->Some_0,
        ),
        high_water: Map::new(
            |p: Seq<char>| has_entry(es, p),
            |p: Seq<char>| es[entry_index(es, p)].high_water,
        ),
    }
}

/// The mirror after `e` replaces the entry for its path, or joins the table.
pub open spec fn with_entry(m: MirrorState, e: EntryView) -> MirrorState {
    MirrorState {
        open: match e.document {
            Some(d) => m.open.insert(e.path, d),
            None => m.open.remove(e.path),
        },
        high_water: m.high_water.insert(e.path, e.high_water),
    }
}

impl View for Documents {
    type V = MirrorState;

    closed spec fn view(&self) -> MirrorState {
        mirror_of(entry_views(self.entries@))
    }
}

/// The version after `high_water`: one more, stopping at `i32::MAX` rather
/// than wrapping to a version that goes backwards.
pub open spec fn next_version(high_water: i32) -> i32 {
    if high_water == i32::MAX { i32::MAX } else { (high_water + 1) as i32 }
}

/// The highest version used for `p`, or 0 for a path never opened.
pub open spec fn high_water_of(m: MirrorState, p: Seq<char>) -> i32 {
    if m.high_water.contains_key(p) { m.high_water[p] } else { 0 }
}

/// The servers that have `p` open; none when it is not open.
pub open spec fn servers_of(m: MirrorState, p: Seq<char>) -> Set<Seq<char>> {
    if m.open.contains_key(p) { m.open[p].servers } else { Set::empty() }
}

proof fn lemma_index_of(es: Seq<EntryView>, i: int)
    requires
        distinct_paths(es),
        0 <= i < es.len(),
    ensures
        has_entry(es, es[i].path),
        entry_index(es, es[i].path) == i,
{
    assert(has_entry(es, es[i].path));
}

/// Replacing the entry at `i` with one for the same path.
proof fn lemma_mirror_update(es: Seq<EntryView>, i: int, e: EntryView)
    requires
        distinct_paths(es),
        0 <= i < es.len(),
        es[i].path == e.path,
    ensures
        distinct_paths(es.update(i, e)),
        mirror_of(es.update(i, e)) == with_entry(mirror_of(es), e),
{
    let fs = es.update(i, e);
    assert(distinct_paths(fs)) by {
        assert forall|a: int, b: int| 0 <= a < fs.len() && 0 <= b < fs.len() && a != b implies fs[a].path != fs[b].path by {
            assert(fs[a].path == es[a].path && fs[b].path == es[b].path);
        }
    }
    let m = mirror_of(es);
    let n = mirror_of(fs);
    let w = with_entry(m, e);
    lemma_index_of(fs, i);
    assert forall|q: Seq<char>| has_entry(fs, q) <==> has_entry(es, q) by {
        if has_entry(fs, q) {
            let k = entry_index(fs, q);
            assert(es[k].path == q);
        }
        if has_entry(es, q) {
            let k = entry_index(es, q);
            assert(fs[k].path == q);
        }
    }
    assert forall|q: Seq<char>| has_entry(es, q) && q != e.path implies entry_index(fs, q) == entry_index(es, q)
        && fs[entry_index(fs, q)] == es[entry_index(es, q)] by {
        let k = entry_index(es, q);
        assert(k != i);
        lemma_index_of(es, k);
        assert(fs[k] == es[k]);
        lemma_index_of(fs, k);
    }
    assert(n.open =~= w.open);
    assert(n.high_water =~= w.high_water);
}

/// Adding an entry for a path the table does not have, at position `i`.
proof fn lemma_mirror_insert(es: Seq<EntryView>, i: int, e: EntryView)
    requires
        distinct_paths(es),
        0 <= i <= es.len(),
        !has_entry(es, e.path),
    ensures
        distinct_paths(es.insert(i, e)),
        mirror_of(es.insert(i, e)) == with_entry(mirror_of(es), e),
{
    let fs = es.insert(i, e);
    assert(distinct_paths(fs)) by {
        assert forall|a: int, b: int| 0 <= a < fs.len() && 0 <= b < fs.len() && a != b implies fs[a].path != fs[b].path by {
            if a != i && b != i {
                let a0 = if a < i { a } else { a - 1 };
                let b0 = if b < i { b } else { b - 1 };
                assert(fs[a] == es[a0] && fs[b] == es[b0]);
            } else if a == i {
                let b0 = if b < i { b } else { b - 1 };
                assert(fs[b] == es[b0]);
            } else {
                let a0 = if a < i { a } else { a - 1 };
                assert(fs[a] == es[a0]);
            }
        }
    }
    let m = mirror_of(es);
    let n = mirror_of(fs);
    let w = with_entry(m, e);
    lemma_index_of(fs, i);
    assert forall|q: Seq<char>| has_entry(fs, q) <==> (has_entry(es, q) || q == e.path) by {
        if has_entry(fs, q) {
            let k = entry_index(fs, q);
            if k < i {
                assert(es[k].path == q);
            } else if k > i {
                assert(es[k - 1].path == q);
            }
        }
        if has_entry(es, q) {
            let k = entry_index(es, q);
            if k < i {
                assert(fs[k].path == q);
            } else {
                assert(fs[k + 1].path == q);
            }
        }
    }
    assert forall|q: Seq<char>| has_entry(es, q) implies fs[entry_index(fs, q)] == es[entry_index(es, q)] by {
        let k = entry_index(es, q);
        lemma_index_of(es, k);
        let k1 = if k < i { k } else { k + 1 };
        assert(fs[k1] == es[k]);
        lemma_index_of(fs, k1);
    }
    assert(n.open =~= w.open);
    assert(n.high_water =~= w.high_water);
}

proof fn lemma_sorted_distinct(es: Seq<EntryView>)
    requires
        increasing_by(paths_of(es), by_path()),
    ensures
        distinct_paths(es),
{
    assert forall|i: int, j: int| 0 <= i < es.len() && 0 <= j < es.len() && i != j implies es[i].path != es[j].path by {
        if i < j {
            assert(path_lt(paths_of(es)[i], paths_of(es)[j]));
            lemma_lex_irreflexive(es[i].path, true);
        } else {
            assert(path_lt(paths_of(es)[j], paths_of(es)[i]));
            lemma_lex_irreflexive(es[i].path, true);
        }
    }
}

spec fn servers_sorted(e: Entry) -> bool {
    e.document matches Some(d) ==> increasing_by(ids(d.servers@), by_text()) && d.version == e.high_water
}

impl Documents {
    /// The table is in path order with each path once, and every open
    /// document's servers are in id order with each id once.
    pub closed spec fn wf(&self) -> bool {
        &&& increasing_by(paths_of(entry_views(self.entries@)), by_path())
        &&& forall|i: int| 0 <= i < self.entries@.len() ==> servers_sorted(#[trigger] self.entries@[i])
    }

    pub fn new() -> (r: Self)
        ensures
            r.wf(),
            r@.open == Map::<Seq<char>, OpenDocument>::empty(),
            r@.high_water == Map::<Seq<char>, i32>::empty(),
    {
        let r = Documents { entries: Vec::new() };
        assert(r@.open =~= Map::<Seq<char>, OpenDocument>::empty());
        assert(r@.high_water =~= Map::<Seq<char>, i32>::empty());
        r
    }
}

proof fn lemma_sorted_insert(ps: Seq<Seq<char>>, i: int, p: Seq<char>)
    requires
        increasing_by(ps, by_path()),
        0 <= i <= ps.len(),
        forall|k: int| 0 <= k < i ==> path_lt(#[trigger] ps[k], p),
        i < ps.len() ==> path_lt(p, ps[i]),
    ensures
        increasing_by(ps.insert(i, p), by_path()),
{
    let qs = ps.insert(i, p);
    assert forall|a: int, b: int| 0 <= a < b < qs.len() implies (by_path())(#[trigger] qs[a], #[trigger] qs[b]) by {
        if b < i {
            assert(qs[a] == ps[a] && qs[b] == ps[b]);
        } else if b == i {
            assert(qs[a] == ps[a]);
        } else if a < i {
            assert(qs[a] == ps[a] && qs[b] == ps[b - 1]);
            assert(path_lt(ps[a], ps[b - 1]));
        } else if a == i {
            assert(qs[b] == ps[b - 1]);
            if b - 1 > i {
                assert(path_lt(ps[i], ps[b - 1]));
                lemma_lex_transitive(p, ps[i], ps[b - 1], true);
            }
        } else {
            assert(qs[a] == ps[a - 1] && qs[b] == ps[b - 1]);
        }
    }
}

/// Where `path` is in the table, or where it would go.
fn locate(entries: &Vec<Entry>, path: &str) -> (r: (usize, bool))
    requires
        increasing_by(paths_of(entry_views(entries@)), by_path()),
    ensures
        r.0 <= entries.len(),
        r.1 ==> r.0 < entries.len() && entries@[r.0 as int].path@ == path@,
        !r.1 ==> !has_entry(entry_views(entries@), path@),
        forall|k: int| 0 <= k < r.0 ==> path_lt(#[trigger] entries@[k].path@, path@),
        !r.1 && r.0 < entries.len() ==> path_lt(path@, entries@[r.0 as int].path@),
{
    let ghost es = entry_views(entries@);
    let mut i: usize = 0;
    while i < entries.len() && lex_less(entries[i].path.as_str(), path, true)
        invariant
            i <= entries.len(),
            es == entry_views(entries@),
            forall|k: int| 0 <= k < i ==> path_lt(#[trigger] entries@[k].path@, path@),
        decreases entries.len() - i,
    {
        i = i + 1;
    }
    let found = i < entries.len() && same_text(entries[i].path.as_str(), path);
    proof {
        if !found {
            if i < entries.len() {
                assert(!path_lt(entries@[i as int].path@, path@));
                lemma_lex_total(entries@[i as int].path@, path@, true);
            }
            if has_entry(es, path@) {
                let k = entry_index(es, path@);
                assert(es[k].path == entries@[k].path@);
                if k < i {
                    lemma_lex_irreflexive(path@, true);
                } else if k > i {
                    assert(path_lt(paths_of(es)[i as int], paths_of(es)[k]));
                    lemma_lex_transitive(path@, entries@[i as int].path@, path@, true);
                    lemma_lex_irreflexive(path@, true);
                }
            }
        }
    }
    (i, found)
}

/// Replace the entry at `i`.
fn put(entries: &mut Vec<Entry>, i: usize, e: Entry)
    requires
        i < old(entries).len(),
    ensures
        final(entries)@ == old(entries)@.update(i as int, e),
{
    let mut e = e;
    std::mem::swap(&mut entries[i], &mut e);
}

fn copy_ids(v: &Vec<ServerId>) -> (r: Vec<ServerId>)
    ensures
        r@ == v@,
{
    let mut r: Vec<ServerId> = Vec::new();
    let mut i: usize = 0;
    while i < v.len()
        invariant
            i <= v.len(),
            r@ == v@.take(i as int),
        decreases v.len() - i,
    {
        r.push(v[i]);
        i = i + 1;
        assert(r@ =~= v@.take(i as int));
    }
    assert(v@.take(v.len() as int) =~= v@);
    r
}

fn has_server(v: &Vec<ServerId>, id: &str) -> (r: bool)
    ensures
        r == ids(v@).contains(id@),
{
    let mut i: usize = 0;
    while i < v.len()
        invariant
            i <= v.len(),
            forall|k: int| 0 <= k < i ==> (#[trigger] v@[k])@ != id@,
        decreases v.len() - i,
    {
        if same_text(v[i], id) {
            assert(ids(v@)[i as int] == id@);
            return true;
        }
        i = i + 1;
    }
    assert forall|k: int| 0 <= k < ids(v@).len() implies ids(v@)[k] != id@ by {
        assert(ids(v@)[k] == v@[k]@);
    }
    false
}

/// Add `id` to a set of servers kept in id order.
fn add_server(v: &mut Vec<ServerId>, id: ServerId)
    requires
        increasing_by(ids(old(v)@), by_text()),
    ensures
        increasing_by(ids(final(v)@), by_text()),
        ids(final(v)@).to_set() == ids(old(v)@).to_set().insert(id@),
{
    let ghost before = ids(v@);
    let mut p: usize = 0;
    while p < v.len() && lex_less(v[p], id, false)
        invariant
            p <= v.len(),
            ids(v@) == before,
            forall|k: int| 0 <= k < p ==> text_lt(#[trigger] before[k], id@),
        decreases v.len() - p,
    {
        p = p + 1;
    }
    if p < v.len() && same_text(v[p], id) {
        assert(before[p as int] == id@);
        assert(before.to_set().insert(id@) =~= before.to_set());
        return;
    }
    v.insert(p, id);
    let ghost after = ids(v@);
    assert(after =~= before.insert(p as int, id@));
    proof {
        if p < before.len() {
            assert(!text_lt(before[p as int], id@));
            assert(before[p as int] != id@);
            lemma_lex_total(before[p as int], id@, false);
        }
        assert forall|a: int, b: int| 0 <= a < b < after.len() implies (by_text())(#[trigger] after[a], #[trigger] after[b]) by {
            if b < p {
                assert(after[a] == before[a] && after[b] == before[b]);
            } else if b == p {
                assert(after[a] == before[a]);
            } else if a < p {
                assert(after[a] == before[a] && after[b] == before[b - 1]);
                assert(text_lt(before[a], before[b - 1]));
            } else if a == p {
                assert(after[b] == before[b - 1]);
                if b - 1 > p {
                    assert(text_lt(before[p as int], before[b - 1]));
                    lemma_lex_transitive(id@, before[p as int], before[b - 1], false);
                }
            } else {
                assert(after[a] == before[a - 1] && after[b] == before[b - 1]);
            }
        }
        assert forall|x: Seq<char>| after.to_set().contains(x) <==> before.to_set().insert(id@).contains(x) by {
            if after.contains(x) {
                let k = choose|k: int| 0 <= k < after.len() && after[k] == x;
                if k < p {
                    assert(before[k] == x);
                } else if k > p {
                    assert(before[k - 1] == x);
                }
            }
            if before.contains(x) {
                let k = choose|k: int| 0 <= k < before.len() && before[k] == x;
                if k < p {
                    assert(after[k] == x);
                } else {
                    assert(after[k + 1] == x);
                }
            }
            if x == id@ {
                assert(after[p as int] == x);
            }
        }
        assert(after.to_set() =~= before.to_set().insert(id@));
    }
}

/// The open documents' paths, in the table's order.
pub open spec fn open_order(es: Seq<EntryView>) -> Seq<Seq<char>>
    decreases es.len(),
{
    if es.len() == 0 {
        Seq::empty()
    } else if es.last().document is Some {
        open_order(es.drop_last()).push(es.last().path)
    } else {
        open_order(es.drop_last())
    }
}

proof fn lemma_open_order(es: Seq<EntryView>)
    requires
        increasing_by(paths_of(es), by_path()),
    ensures
        increasing_by(open_order(es), by_path()),
        forall|x: Seq<char>| #[trigger] open_order(es).contains(x) ==> exists|k: int| 0 <= k < es.len() && es[k].path == x && es[k].document is Some,
        forall|k: int| 0 <= k < es.len() && (#[trigger] es[k]).document is Some ==> open_order(es).contains(es[k].path),
    decreases es.len(),
{
    if es.len() > 0 {
        let init = es.drop_last();
        assert(increasing_by(paths_of(init), by_path())) by {
            assert forall|a: int, b: int| 0 <= a < b < paths_of(init).len() implies (by_path())(#[trigger] paths_of(init)[a], #[trigger] paths_of(init)[b]) by {
                assert(paths_of(init)[a] == paths_of(es)[a] && paths_of(init)[b] == paths_of(es)[b]);
            }
        }
        lemma_open_order(init);
        let o = open_order(init);
        if es.last().document is Some {
            assert forall|a: int, b: int| 0 <= a < b < o.push(es.last().path).len() implies (by_path())(
                #[trigger] o.push(es.last().path)[a],
                #[trigger] o.push(es.last().path)[b],
            ) by {
                if b == o.len() {
                    assert(o.contains(o[a]));
                    let k = choose|k: int| 0 <= k < init.len() && init[k].path == o[a] && init[k].document is Some;
                    assert(path_lt(paths_of(es)[k], paths_of(es)[es.len() - 1]));
                }
            }
            assert forall|x: Seq<char>| #[trigger] o.push(es.last().path).contains(x) implies exists|k: int| 0 <= k < es.len() && es[k].path == x && es[k].document is Some by {
                let j = choose|j: int| 0 <= j < o.len() + 1 && o.push(es.last().path)[j] == x;
                if j < o.len() {
                    assert(o.contains(x));
                    let k = choose|k: int| 0 <= k < init.len() && init[k].path == x && init[k].document is Some;
                    assert(es[k] == init[k]);
                } else {
                    assert(es[es.len() - 1].path == x);
                }
            }
            assert forall|k: int| 0 <= k < es.len() && (#[trigger] es[k]).document is Some implies o.push(es.last().path).contains(es[k].path) by {
                if k < es.len() - 1 {
                    assert(init[k] == es[k]);
                    assert(o.contains(es[k].path));
                    let j = choose|j: int| 0 <= j < o.len() && o[j] == es[k].path;
                    assert(o.push(es.last().path)[j] == es[k].path);
                } else {
                    assert(o.push(es.last().path)[o.len() as int] == es[k].path);
                }
            }
        } else {
            assert forall|x: Seq<char>| #[trigger] o.contains(x) implies exists|k: int| 0 <= k < es.len() && es[k].path == x && es[k].document is Some by {
                let k = choose|k: int| 0 <= k < init.len() && init[k].path == x && init[k].document is Some;
                assert(es[k] == init[k]);
            }
            assert forall|k: int| 0 <= k < es.len() && (#[trigger] es[k]).document is Some implies o.contains(es[k].path) by {
                assert(init[k] == es[k]);
            }
        }
    }
}

/// The open documents' paths in table order are the open set, arranged.
proof fn lemma_open_order_arranged(es: Seq<EntryView>)
    requires
        increasing_by(paths_of(es), by_path()),
    ensures
        open_order(es) == arranged(mirror_of(es).open.dom(), by_path()),
{
    lemma_open_order(es);
    lemma_sorted_distinct(es);
    lemma_path_order();
    let o = open_order(es);
    let dom = mirror_of(es).open.dom();
    assert forall|x: Seq<char>| o.to_set().contains(x) <==> dom.contains(x) by {
        if o.contains(x) {
            let k = choose|k: int| 0 <= k < es.len() && es[k].path == x && es[k].document is Some;
            lemma_index_of(es, k);
        }
        if dom.contains(x) {
            let k = entry_index(es, x);
            assert(es[k].path == x);
        }
    }
    assert(o.to_set() =~= dom);
    lemma_arranged_is(o, dom, by_path());
}

proof fn lemma_lookup(es: Seq<EntryView>, i: int)
    requires
        distinct_paths(es),
        0 <= i < es.len(),
    ensures
        mirror_of(es).high_water.contains_key(es[i].path),
        mirror_of(es).high_water[es[i].path] == es[i].high_water,
        mirror_of(es).open.contains_key(es[i].path) <==> es[i].document is Some,
        es[i].document matches Some(d) ==> mirror_of(es).open[es[i].path] == d,
{
    lemma_index_of(es, i);
}

proof fn lemma_absent(es: Seq<EntryView>, p: Seq<char>)
    requires
        !has_entry(es, p),
    ensures
        !mirror_of(es).high_water.contains_key(p),
        !mirror_of(es).open.contains_key(p),
{
}

/// The version the next open or change of `p` carries.
pub open spec fn version_after(m: MirrorState, p: Seq<char>) -> i32 {
    next_version(high_water_of(m, p))
}

/// The mirror after `p` is opened with `text` on the servers `named`.
pub open spec fn after_open(m: MirrorState, p: Seq<char>, text: Seq<char>, named: Set<Seq<char>>) -> MirrorState {
    with_entry(
        m,
        EntryView {
            path: p,
            high_water: version_after(m, p),
            document: Some(
                OpenDocument { version: version_after(m, p), text, servers: servers_of(m, p) + named },
            ),
        },
    )
}

/// The mirror after `p` changes to `text`; nothing happens to a document
/// that is not open.
pub open spec fn after_change(m: MirrorState, p: Seq<char>, text: Seq<char>) -> MirrorState {
    if m.open.contains_key(p) {
        with_entry(
            m,
            EntryView {
                path: p,
                high_water: version_after(m, p),
                document: Some(
                    OpenDocument { version: version_after(m, p), text, servers: m.open[p].servers },
                ),
            },
        )
    } else {
        m
    }
}

/// The mirror after `p` is closed: its highest version is kept.
pub open spec fn after_close(m: MirrorState, p: Seq<char>) -> MirrorState {
    MirrorState { open: m.open.remove(p), high_water: m.high_water }
}

/// What a server is told when a document is opened: a change if it already
/// had the document open, an open otherwise.
pub open spec fn open_notice(
    before: Set<Seq<char>>,
    path: Seq<char>,
    text: Seq<char>,
    version: i32,
    server: Seq<char>,
) -> Notice {
    if before.contains(server) {
        Notice::DidChange { server, path, text, version }
    } else {
        Notice::DidOpen { server, path, text, version }
    }
}

impl Documents {
    /// Tell `servers` about `path`, whose contents are `text`.
    ///
    /// Every server that has it open or is named now is told, in id order, at
    /// one newly advanced version: an open for a server new to it, a change for
    /// one that already had it. A server left out of a later call keeps the
    /// document and hears the new text; nothing here closes anything.
    pub fn open(&mut self, path: &str, text: &str, servers: &[ServerId]) -> (r: Vec<SyncAction>)
        requires
            old(self).wf(),
        ensures
            final(self).wf(),
            final(self)@ == after_open(old(self)@, path@, text@, ids(servers@).to_set()),
            notices(r@) == open_notices(old(self)@, path@, text@, ids(servers@).to_set()),
    {
        let ghost es = entry_views(self.entries@);
        let ghost m = self@;
        proof { lemma_sorted_distinct(es); }
        let (i, found) = locate(&self.entries, path);
        let high_water = if found { self.entries[i].high_water } else { 0 };
        let version = if high_water == i32::MAX { high_water } else { high_water + 1 };
        let before: Vec<ServerId> = if found {
            match &self.entries[i].document {
                Some(d) => copy_ids(&d.servers),
                None => Vec::new(),
            }
        } else {
            Vec::new()
        };
        proof {
            if found {
                lemma_lookup(es, i as int);
                assert(servers_sorted(self.entries@[i as int]));
            } else {
                lemma_absent(es, path@);
            }
            assert(ids(Seq::<ServerId>::empty()).to_set() =~= Set::<Seq<char>>::empty());
        }
        let ghost before_set = servers_of(m, path@);
        assert(ids(before@).to_set() == before_set);
        assert(high_water == high_water_of(m, path@));
        let mut told = copy_ids(&before);
        let mut j: usize = 0;
        assert(ids(servers@.take(0)).to_set() =~= Set::<Seq<char>>::empty());
        assert(before_set + Set::<Seq<char>>::empty() =~= before_set);
        while j < servers.len()
            invariant
                j <= servers.len(),
                increasing_by(ids(told@), by_text()),
                ids(told@).to_set() == before_set + ids(servers@.take(j as int)).to_set(),
            decreases servers.len() - j,
        {
            add_server(&mut told, servers[j]);
            assert(ids(servers@.take(j + 1)).to_set() =~= ids(servers@.take(j as int)).to_set().insert(
                servers@[j as int]@,
            )) by {
                assert(servers@.take(j + 1) =~= servers@.take(j as int).push(servers@[j as int]));
                assert(ids(servers@.take(j + 1)) =~= ids(servers@.take(j as int)).push(servers@[j as int]@));
                lemma_to_set_push(ids(servers@.take(j as int)), servers@[j as int]@);
            }
            assert(before_set + ids(servers@.take(j + 1)).to_set() =~= (before_set + ids(
                servers@.take(j as int),
            ).to_set()).insert(servers@[j as int]@));
            j = j + 1;
        }
        assert(servers@.take(servers.len() as int) =~= servers@);
        let ghost told_set = before_set + ids(servers@).to_set();
        proof {
            lemma_text_order();
            lemma_arranged_is(ids(told@), told_set, by_text());
        }
        let mut actions: Vec<SyncAction> = Vec::new();
        let mut k: usize = 0;
        while k < told.len()
            invariant
                k <= told.len(),
                ids(before@).to_set() == before_set,
                notices(actions@) == ids(told@).take(k as int).map_values(
                    |id: Seq<char>| open_notice(before_set, path@, text@, version, id),
                ),
            decreases told.len() - k,
        {
            let id = told[k];
            let ghost prefix = notices(actions@);
            let already = has_server(&before, id);
            assert(already == before_set.contains(id@)) by {
                assert(ids(before@).contains(id@) == ids(before@).to_set().contains(id@));
            }
            if already {
                actions.push(
                    SyncAction::DidChange {
                        server: id,
                        path: path.to_owned(),
                        text: text.to_owned(),
                        version,
                    },
                );
            } else {
                actions.push(
                    SyncAction::DidOpen { server: id, path: path.to_owned(), text: text.to_owned(), version },
                );
            }
            assert(ids(told@)[k as int] == id@);
            assert(notices(actions@) =~= prefix.push(open_notice(before_set, path@, text@, version, id@)));
            assert(ids(told@).take(k + 1) =~= ids(told@).take(k as int).push(id@));
            assert(notices(actions@) =~= ids(told@).take(k + 1).map_values(
                |id: Seq<char>| open_notice(before_set, path@, text@, version, id),
            ));
            k = k + 1;
        }
        assert(ids(told@).take(told.len() as int) =~= ids(told@));
        let ghost told_view = ids(told@).to_set();
        let entry = Entry {
            path: path.to_owned(),
            high_water: version,
            document: Some(Document { version, text: text.to_owned(), servers: told }),
        };
        let ghost ev = entry_view(entry);
        assert(ev == EntryView {
            path: path@,
            high_water: version,
            document: Some(OpenDocument { version, text: text@, servers: told_set }),
        });
        if found {
            put(&mut self.entries, i, entry);
            assert(entry_views(self.entries@) =~= es.update(i as int, ev));
            proof {
                lemma_mirror_update(es, i as int, ev);
                assert(paths_of(es.update(i as int, ev)) =~= paths_of(es));
            }
        } else {
            self.entries.insert(i, entry);
            assert(entry_views(self.entries@) =~= es.insert(i as int, ev));
            proof {
                lemma_mirror_insert(es, i as int, ev);
                assert(paths_of(es.insert(i as int, ev)) =~= paths_of(es).insert(i as int, path@));
                lemma_sorted_insert(paths_of(es), i as int, path@);
            }
        }
        proof {
            assert forall|k: int| 0 <= k < self.entries@.len() implies servers_sorted(#[trigger] self.entries@[k]) by {
                if k != i {
                    let k0 = if found || k < i { k } else { k - 1 };
                    assert(self.entries@[k] == old(self).entries@[k0]);
                    assert(servers_sorted(old(self).entries@[k0]));
                }
            }
        }
        actions
    }
}

impl Documents {
    /// The document's contents changed: every server that has it open is told,
    /// in id order, at one newly advanced version. A document nobody opened
    /// yields no actions and changes nothing.
    pub fn change(&mut self, path: &str, text: &str) -> (r: Vec<SyncAction>)
        requires
            old(self).wf(),
        ensures
            final(self).wf(),
            final(self)@ == after_change(old(self)@, path@, text@),
            !old(self)@.open.contains_key(path@) ==> r@.len() == 0,
            old(self)@.open.contains_key(path@) ==> ({
                let m = old(self)@;
                let version = version_after(m, path@);
                let servers = m.open[path@].servers;
                notices(r@) == arranged(servers, by_text()).map_values(
                    |id: Seq<char>| Notice::DidChange { server: id, path: path@, text: text@, version },
                )
            }),
    {
        let ghost es = entry_views(self.entries@);
        let ghost m = self@;
        proof { lemma_sorted_distinct(es); }
        let (i, found) = locate(&self.entries, path);
        if !found {
            proof { lemma_absent(es, path@); }
            return Vec::new();
        }
        proof { lemma_lookup(es, i as int); }
        let servers = match &self.entries[i].document {
            Some(d) => copy_ids(&d.servers),
            None => {
                return Vec::new();
            },
        };
        assert(servers_sorted(self.entries@[i as int]));
        let high_water = self.entries[i].high_water;
        let version = if high_water == i32::MAX { high_water } else { high_water + 1 };
        let ghost set = ids(servers@).to_set();
        proof {
            lemma_text_order();
            lemma_arranged_is(ids(servers@), set, by_text());
        }
        let mut actions: Vec<SyncAction> = Vec::new();
        let mut k: usize = 0;
        while k < servers.len()
            invariant
                k <= servers.len(),
                notices(actions@) == ids(servers@).take(k as int).map_values(
                    |id: Seq<char>| Notice::DidChange { server: id, path: path@, text: text@, version },
                ),
            decreases servers.len() - k,
        {
            let id = servers[k];
            let ghost prefix = notices(actions@);
            actions.push(
                SyncAction::DidChange { server: id, path: path.to_owned(), text: text.to_owned(), version },
            );
            assert(ids(servers@)[k as int] == id@);
            assert(notices(actions@) =~= prefix.push(
                Notice::DidChange { server: id@, path: path@, text: text@, version },
            ));
            assert(ids(servers@).take(k + 1) =~= ids(servers@).take(k as int).push(id@));
            assert(notices(actions@) =~= ids(servers@).take(k + 1).map_values(
                |id: Seq<char>| Notice::DidChange { server: id, path: path@, text: text@, version },
            ));
            k = k + 1;
        }
        assert(ids(servers@).take(servers.len() as int) =~= ids(servers@));
        let entry = Entry {
            path: path.to_owned(),
            high_water: version,
            document: Some(Document { version, text: text.to_owned(), servers }),
        };
        let ghost ev = entry_view(entry);
        put(&mut self.entries, i, entry);
        assert(entry_views(self.entries@) =~= es.update(i as int, ev));
        proof {
            lemma_mirror_update(es, i as int, ev);
            assert(paths_of(es.update(i as int, ev)) =~= paths_of(es));
            assert forall|k: int| 0 <= k < self.entries@.len() implies servers_sorted(#[trigger] self.entries@[k]) by {
                if k != i {
                    assert(self.entries@[k] == old(self).entries@[k]);
                    assert(servers_sorted(old(self).entries@[k]));
                }
            }
        }
        actions
    }

    /// Forget the document, telling every server that had it open, in id
    /// order. The version is not forgotten: a re-open continues from it.
    pub fn close(&mut self, path: &str) -> (r: Vec<SyncAction>)
        requires
            old(self).wf(),
        ensures
            final(self).wf(),
            final(self)@ == after_close(old(self)@, path@),
            notices(r@) == arranged(servers_of(old(self)@, path@), by_text()).map_values(
                |id: Seq<char>| Notice::DidClose { server: id, path: path@ },
            ),
    {
        let ghost es = entry_views(self.entries@);
        let ghost m = self@;
        proof {
            lemma_sorted_distinct(es);
            lemma_text_order();
            assert(ids(Seq::<ServerId>::empty()).to_set() =~= Set::<Seq<char>>::empty());
            lemma_arranged_is(ids(Seq::<ServerId>::empty()), Set::<Seq<char>>::empty(), by_text());
            assert(ids(Seq::<ServerId>::empty()).map_values(
                |id: Seq<char>| Notice::DidClose { server: id, path: path@ },
            ) =~= notices(Seq::<SyncAction>::empty()));
        }
        let (i, found) = locate(&self.entries, path);
        if !found {
            proof { lemma_absent(es, path@); }
            assert(m.open.remove(path@) =~= m.open);
            return Vec::new();
        }
        proof { lemma_lookup(es, i as int); }
        let servers = match &self.entries[i].document {
            Some(d) => copy_ids(&d.servers),
            None => {
                assert(m.open.remove(path@) =~= m.open);
                return Vec::new();
            },
        };
        assert(servers_sorted(self.entries@[i as int]));
        let high_water = self.entries[i].high_water;
        proof { lemma_arranged_is(ids(servers@), ids(servers@).to_set(), by_text()); }
        let mut actions: Vec<SyncAction> = Vec::new();
        let mut k: usize = 0;
        while k < servers.len()
            invariant
                k <= servers.len(),
                notices(actions@) == ids(servers@).take(k as int).map_values(
                    |id: Seq<char>| Notice::DidClose { server: id, path: path@ },
                ),
            decreases servers.len() - k,
        {
            let id = servers[k];
            let ghost prefix = notices(actions@);
            actions.push(SyncAction::DidClose { server: id, path: path.to_owned() });
            assert(ids(servers@)[k as int] == id@);
            assert(notices(actions@) =~= prefix.push(Notice::DidClose { server: id@, path: path@ }));
            assert(ids(servers@).take(k + 1) =~= ids(servers@).take(k as int).push(id@));
            assert(notices(actions@) =~= ids(servers@).take(k + 1).map_values(
                |id: Seq<char>| Notice::DidClose { server: id, path: path@ },
            ));
            k = k + 1;
        }
        assert(ids(servers@).take(servers.len() as int) =~= ids(servers@));
        let entry = Entry { path: path.to_owned(), high_water, document: None };
        let ghost ev = entry_view(entry);
        put(&mut self.entries, i, entry);
        assert(entry_views(self.entries@) =~= es.update(i as int, ev));
        proof {
            lemma_mirror_update(es, i as int, ev);
            assert(paths_of(es.update(i as int, ev)) =~= paths_of(es));
            assert(m.high_water.insert(path@, high_water) =~= m.high_water);
            assert forall|k: int| 0 <= k < self.entries@.len() implies servers_sorted(#[trigger] self.entries@[k]) by {
                if k != i {
                    assert(self.entries@[k] == old(self).entries@[k]);
                    assert(servers_sorted(old(self).entries@[k]));
                }
            }
        }
        actions
    }

    /// What the servers currently believe this document contains: the
    /// editor's buffer, not the file on disk. `None` once it is closed.
    pub fn text(&self, path: &str) -> (r: Option<&str>)
        requires
            self.wf(),
        ensures
            match r {
                Some(t) => self@.open.contains_key(path@) && t@ == self@.open[path@].text,
                None => !self@.open.contains_key(path@),
            },
    {
        let ghost es = entry_views(self.entries@);
        proof { lemma_sorted_distinct(es); }
        let (i, found) = locate(&self.entries, path);
        if !found {
            proof { lemma_absent(es, path@); }
            return None;
        }
        proof { lemma_lookup(es, i as int); }
        match &self.entries[i].document {
            Some(d) => Some(d.text.as_str()),
            None => None,
        }
    }

    /// The version the servers were last told, while the document is open.
    pub fn version(&self, path: &str) -> (r: Option<i32>)
        requires
            self.wf(),
        ensures
            match r {
                Some(v) => self@.open.contains_key(path@) && v == self@.open[path@].version,
                None => !self@.open.contains_key(path@),
            },
    {
        let ghost es = entry_views(self.entries@);
        proof { lemma_sorted_distinct(es); }
        let (i, found) = locate(&self.entries, path);
        if !found {
            proof { lemma_absent(es, path@); }
            return None;
        }
        proof { lemma_lookup(es, i as int); }
        match &self.entries[i].document {
            Some(d) => Some(d.version),
            None => None,
        }
    }

    /// Whether the mirror holds this document open.
    pub fn is_open(&self, path: &str) -> (r: bool)
        requires
            self.wf(),
        ensures
            r == self@.open.contains_key(path@),
    {
        let ghost es = entry_views(self.entries@);
        proof { lemma_sorted_distinct(es); }
        let (i, found) = locate(&self.entries, path);
        if !found {
            proof { lemma_absent(es, path@); }
            return false;
        }
        proof { lemma_lookup(es, i as int); }
        self.entries[i].document.is_some()
    }

    /// Which servers have this document open, in id order.
    pub fn servers_for(&self, path: &str) -> (r: Vec<ServerId>)
        requires
            self.wf(),
        ensures
            ids(r@) == arranged(servers_of(self@, path@), by_text()),
            ids(r@).to_set() == servers_of(self@, path@),
    {
        let ghost es = entry_views(self.entries@);
        proof {
            lemma_sorted_distinct(es);
            lemma_text_order();
            assert(ids(Seq::<ServerId>::empty()).to_set() =~= Set::<Seq<char>>::empty());
            lemma_arranged_is(ids(Seq::<ServerId>::empty()), Set::<Seq<char>>::empty(), by_text());
        }
        let (i, found) = locate(&self.entries, path);
        if !found {
            proof { lemma_absent(es, path@); }
            return Vec::new();
        }
        proof { lemma_lookup(es, i as int); }
        assert(servers_sorted(self.entries@[i as int]));
        match &self.entries[i].document {
            Some(d) => {
                let r = copy_ids(&d.servers);
                proof { lemma_arranged_is(ids(r@), ids(r@).to_set(), by_text()); }
                r
            },
            None => Vec::new(),
        }
    }

    /// Every open document, in path order.
    pub fn open_paths(&self) -> (r: Vec<&str>)
        requires
            self.wf(),
        ensures
            r@.map_values(|p: &str| p@) == arranged(self@.open.dom(), by_path()),
    {
        let ghost es = entry_views(self.entries@);
        let mut out: Vec<&str> = Vec::new();
        let mut i: usize = 0;
        while i < self.entries.len()
            invariant
                i <= self.entries.len(),
                es == entry_views(self.entries@),
                out@.map_values(|p: &str| p@) == open_order(es.take(i as int)),
            decreases self.entries.len() - i,
        {
            assert(es.take(i + 1).drop_last() =~= es.take(i as int));
            assert(es.take(i + 1).last() == entry_view(self.entries@[i as int]));
            if self.entries[i].document.is_some() {
                out.push(self.entries[i].path.as_str());
            }
            assert(out@.map_values(|p: &str| p@) =~= open_order(es.take(i + 1)));
            i = i + 1;
        }
        assert(es.take(self.entries.len() as int) =~= es);
        proof { lemma_open_order_arranged(es); }
        out
    }
}

/// The open documents after `server` is recorded as having each of them.
pub open spec fn replayed(open: Map<Seq<char>, OpenDocument>, server: Seq<char>) -> Map<Seq<char>, OpenDocument> {
    Map::new(
        |p: Seq<char>| open.contains_key(p),
        |p: Seq<char>| OpenDocument {
            version: open[p].version,
            text: open[p].text,
            servers: open[p].servers.insert(server),
        },
    )
}

/// The mirror after `server` is told the whole open set.
pub open spec fn after_replay(m: MirrorState, server: Seq<char>) -> MirrorState {
    MirrorState { open: replayed(m.open, server), high_water: m.high_water }
}

spec fn replay_entry(e: EntryView, server: Seq<char>) -> EntryView {
    EntryView {
        path: e.path,
        high_water: e.high_water,
        document: match e.document {
            Some(d) => Some(OpenDocument { version: d.version, text: d.text, servers: d.servers.insert(server) }),
            None => None,
        },
    }
}

proof fn lemma_mirror_replay(es: Seq<EntryView>, fs: Seq<EntryView>, server: Seq<char>)
    requires
        distinct_paths(es),
        fs.len() == es.len(),
        forall|k: int| 0 <= k < es.len() ==> #[trigger] fs[k] == replay_entry(es[k], server),
    ensures
        distinct_paths(fs),
        paths_of(fs) == paths_of(es),
        mirror_of(fs).open == replayed(mirror_of(es).open, server),
        mirror_of(fs).high_water == mirror_of(es).high_water,
{
    assert(paths_of(fs) =~= paths_of(es)) by {
        assert forall|k: int| 0 <= k < es.len() implies paths_of(fs)[k] == paths_of(es)[k] by {
            assert(fs[k] == replay_entry(es[k], server));
        }
    }
    assert(distinct_paths(fs)) by {
        assert forall|a: int, b: int| 0 <= a < fs.len() && 0 <= b < fs.len() && a != b implies fs[a].path != fs[b].path by {
            assert(fs[a] == replay_entry(es[a], server) && fs[b] == replay_entry(es[b], server));
        }
    }
    assert forall|q: Seq<char>| has_entry(fs, q) <==> has_entry(es, q) by {
        if has_entry(fs, q) {
            let k = entry_index(fs, q);
            assert(fs[k] == replay_entry(es[k], server));
        }
        if has_entry(es, q) {
            let k = entry_index(es, q);
            assert(fs[k] == replay_entry(es[k], server));
        }
    }
    assert forall|q: Seq<char>| has_entry(es, q) implies entry_index(fs, q) == entry_index(es, q) by {
        let k = entry_index(es, q);
        assert(fs[k] == replay_entry(es[k], server));
        lemma_index_of(fs, k);
    }
    assert forall|q: Seq<char>| has_entry(es, q) implies #[trigger] fs[entry_index(fs, q)] == replay_entry(
        es[entry_index(es, q)],
        server,
    ) by {
        let k = entry_index(es, q);
        assert(fs[k] == replay_entry(es[k], server));
    }
    assert(mirror_of(fs).open =~= replayed(mirror_of(es).open, server));
    assert(mirror_of(fs).high_water =~= mirror_of(es).high_water);
}

impl Documents {
    /// Everything a server that has just started must be told to catch up.
    ///
    /// One open per open document, in path order, with the version and the
    /// text the mirror holds; versions do not advance. It does not skip
    /// documents already recorded as open on this server: a restarted process
    /// remembers nothing. The server is recorded as having each of them from
    /// now on, so it hears every later change.
    pub fn replay_for(&mut self, server: ServerId) -> (r: Vec<SyncAction>)
        requires
            old(self).wf(),
        ensures
            final(self).wf(),
            final(self)@ == after_replay(old(self)@, server@),
            notices(r@) == arranged(old(self)@.open.dom(), by_path()).map_values(
                |p: Seq<char>| Notice::DidOpen {
                    server: server@,
                    path: p,
                    text: old(self)@.open[p].text,
                    version: old(self)@.open[p].version,
                },
            ),
    {
        let ghost es = entry_views(self.entries@);
        let ghost m = self@;
        let ghost old_entries = self.entries@;
        proof { lemma_sorted_distinct(es); }
        let mut entries: Vec<Entry> = Vec::new();
        std::mem::swap(&mut entries, &mut self.entries);
        let mut actions: Vec<SyncAction> = Vec::new();
        let mut i: usize = 0;
        while i < entries.len()
            invariant
                i <= entries.len(),
                entries.len() == es.len(),
                es == entry_views(old_entries),
                distinct_paths(es),
                m == mirror_of(es),
                forall|k: int| 0 <= k < old_entries.len() ==> servers_sorted(#[trigger] old_entries[k]),
                forall|k: int| 0 <= k < i ==> #[trigger] entry_views(entries@)[k] == replay_entry(es[k], server@),
                forall|k: int| i <= k < entries.len() ==> #[trigger] entries@[k] == old_entries[k],
                forall|k: int| 0 <= k < entries.len() ==> servers_sorted(#[trigger] entries@[k]),
                notices(actions@) == open_order(es.take(i as int)).map_values(
                    |p: Seq<char>| Notice::DidOpen {
                        server: server@,
                        path: p,
                        text: m.open[p].text,
                        version: m.open[p].version,
                    },
                ),
            decreases entries.len() - i,
        {
            let ghost prefix = notices(actions@);
            let ghost before = entries@;
            assert(es.take(i + 1).drop_last() =~= es.take(i as int));
            assert(es.take(i + 1).last() == es[i as int]);
            proof { lemma_lookup(es, i as int); }
            let mut slot = Entry { path: String::new(), high_water: 0, document: None };
            std::mem::swap(&mut entries[i], &mut slot);
            let Entry { path, high_water, document } = slot;
            let document = match document {
                Some(d) => {
                    let Document { version, text, servers: held } = d;
                    let mut held = held;
                    add_server(&mut held, server);
                    actions.push(
                        SyncAction::DidOpen { server, path: path.clone(), text: text.clone(), version },
                    );
                    Some(Document { version, text, servers: held })
                },
                None => None,
            };
            let mut rebuilt = Entry { path, high_water, document };
            assert(entry_view(rebuilt) == replay_entry(es[i as int], server@));
            assert(servers_sorted(rebuilt));
            std::mem::swap(&mut entries[i], &mut rebuilt);
            assert(entries@ == before.update(i as int, entries@[i as int]));
            proof {
                assert forall|k: int| 0 <= k < i + 1 implies #[trigger] entry_views(entries@)[k] == replay_entry(es[k], server@) by {
                    if k < i {
                        assert(entries@[k] == before[k]);
                        assert(entry_views(before)[k] == replay_entry(es[k], server@));
                    }
                }
                if es[i as int].document is Some {
                    assert(notices(actions@) =~= prefix.push(
                        Notice::DidOpen {
                            server: server@,
                            path: es[i as int].path,
                            text: m.open[es[i as int].path].text,
                            version: m.open[es[i as int].path].version,
                        },
                    ));
                } else {
                    assert(notices(actions@) =~= prefix);
                }
            }
            i = i + 1;
        }
        assert(es.take(entries.len() as int) =~= es);
        let ghost fs = entry_views(entries@);
        proof {
            lemma_mirror_replay(es, fs, server@);
            lemma_open_order_arranged(es);
        }
        self.entries = entries;
        actions
    }

    /// Put a document's version, and its path's highest version, at `version`.
    /// The one way to reach the ceiling at `i32::MAX` without two billion
    /// edits; it exists for that test.
    pub fn force_version(&mut self, path: &str, version: i32)
        requires
            old(self).wf(),
        ensures
            final(self).wf(),
            final(self)@.high_water == old(self)@.high_water.insert(path@, version),
            final(self)@.open == if old(self)@.open.contains_key(path@) {
                old(self)@.open.insert(
                    path@,
                    OpenDocument {
                        version,
                        text: old(self)@.open[path@].text,
                        servers: old(self)@.open[path@].servers,
                    },
                )
            } else {
                old(self)@.open
            },
    {
        let ghost es = entry_views(self.entries@);
        let ghost m = self@;
        proof { lemma_sorted_distinct(es); }
        let (i, found) = locate(&self.entries, path);
        if !found {
            let entry = Entry { path: path.to_owned(), high_water: version, document: None };
            let ghost ev = entry_view(entry);
            self.entries.insert(i, entry);
            assert(entry_views(self.entries@) =~= es.insert(i as int, ev));
            proof {
                lemma_absent(es, path@);
                lemma_mirror_insert(es, i as int, ev);
                assert(paths_of(es.insert(i as int, ev)) =~= paths_of(es).insert(i as int, path@));
                lemma_sorted_insert(paths_of(es), i as int, path@);
                assert(m.open.remove(path@) =~= m.open);
                assert forall|k: int| 0 <= k < self.entries@.len() implies servers_sorted(#[trigger] self.entries@[k]) by {
                    if k != i {
                        let k0 = if k < i { k } else { k - 1 };
                        assert(self.entries@[k] == old(self).entries@[k0]);
                        assert(servers_sorted(old(self).entries@[k0]));
                    }
                }
            }
            return;
        }
        proof { lemma_lookup(es, i as int); }
        let mut slot = Entry { path: String::new(), high_water: 0, document: None };
        std::mem::swap(&mut self.entries[i], &mut slot);
        let Entry { path: kept, high_water: _, document } = slot;
        let document = match document {
            Some(d) => Some(Document { version, text: d.text, servers: d.servers }),
            None => None,
        };
        let mut rebuilt = Entry { path: kept, high_water: version, document };
        let ghost ev = entry_view(rebuilt);
        assert(servers_sorted(rebuilt)) by {
            assert(servers_sorted(old(self).entries@[i as int]));
        }
        std::mem::swap(&mut self.entries[i], &mut rebuilt);
        assert(entry_views(self.entries@) =~= es.update(i as int, ev));
        proof {
            lemma_mirror_update(es, i as int, ev);
            assert(paths_of(es.update(i as int, ev)) =~= paths_of(es));
            assert forall|k: int| 0 <= k < self.entries@.len() implies servers_sorted(#[trigger] self.entries@[k]) by {
                if k != i {
                    assert(self.entries@[k] == old(self).entries@[k]);
                    assert(servers_sorted(old(self).entries@[k]));
                }
            }
            if es[i as int].document is None {
                assert(m.open.remove(path@) =~= m.open);
            }
        }
    }
}

impl Default for Documents {
    fn default() -> (r: Self)
        ensures
            r.wf(),
            r@.open == Map::<Seq<char>, OpenDocument>::empty(),
            r@.high_water == Map::<Seq<char>, i32>::empty(),
    {
        Documents::new()
    }
}

// ---------------------------------------------------------------------------
// Laws
// ---------------------------------------------------------------------------

/// Every open document carries the highest version its path has used.
pub open spec fn consistent(m: MirrorState) -> bool {
    forall|p: Seq<char>| #[trigger] m.open.contains_key(p) ==> m.high_water.contains_key(p)
        && m.high_water[p] == m.open[p].version
}

/// Law: in a real mirror, every open document carries the highest version its
/// path has ever used.
pub proof fn law_open_versions_are_the_highest(d: &Documents)
    requires
        d.wf(),
    ensures
        consistent(d@),
{
    let es = entry_views(d.entries@);
    lemma_sorted_distinct(es);
    assert forall|p: Seq<char>| #[trigger] d@.open.contains_key(p) implies d@.high_water.contains_key(p)
        && d@.high_water[p] == d@.open[p].version by {
        let k = entry_index(es, p);
        lemma_lookup(es, k);
        assert(servers_sorted(d.entries@[k]));
    }
}

/// Law: no operation lowers the highest version of any path, so a version
/// never goes backwards, whatever is opened, changed, closed or replayed.
pub proof fn law_high_water_never_falls(
    m: MirrorState,
    p: Seq<char>,
    text: Seq<char>,
    named: Set<Seq<char>>,
    server: Seq<char>,
    q: Seq<char>,
)
    ensures
        high_water_of(after_open(m, p, text, named), q) >= high_water_of(m, q),
        high_water_of(after_change(m, p, text), q) >= high_water_of(m, q),
        high_water_of(after_close(m, p), q) == high_water_of(m, q),
        high_water_of(after_replay(m, server), q) == high_water_of(m, q),
{
}

/// Law: an open or a change carries a version above every one the path has
/// used, unless the count has reached `i32::MAX`, where it stays.
pub proof fn law_versions_rise(m: MirrorState, p: Seq<char>, text: Seq<char>, named: Set<Seq<char>>)
    ensures
        after_open(m, p, text, named).open[p].version == version_after(m, p),
        m.open.contains_key(p) ==> after_change(m, p, text).open[p].version == version_after(m, p),
        version_after(m, p) > high_water_of(m, p) || version_after(m, p) == i32::MAX,
        version_after(m, p) >= high_water_of(m, p),
{
}

/// Law: closing and re-opening a document continues its count rather than
/// restarting it.
pub proof fn law_reopen_continues_the_count(
    m: MirrorState,
    p: Seq<char>,
    text: Seq<char>,
    named: Set<Seq<char>>,
)
    requires
        consistent(m),
        m.open.contains_key(p),
    ensures
        after_open(after_close(m, p), p, text, named).open[p].version == next_version(m.open[p].version),
{
    assert(m.open.contains_key(p));
}

/// Law: a server that was replayed the open set is among those told about
/// every later change to any of those documents.
pub proof fn law_replayed_server_hears_later_changes(
    m: MirrorState,
    server: Seq<char>,
    p: Seq<char>,
    text: Seq<char>,
)
    requires
        m.open.contains_key(p),
    ensures
        after_change(after_replay(m, server), p, text).open[p].servers.contains(server),
{
}

/// Law: a server is never sent a second open for a document it has open; it
/// gets a change instead.
pub proof fn law_open_is_never_sent_twice(
    before: Set<Seq<char>>,
    path: Seq<char>,
    text: Seq<char>,
    version: i32,
    server: Seq<char>,
)
    ensures
        open_notice(before, path, text, version, server) is DidOpen ==> !before.contains(server),
        before.contains(server) ==> open_notice(before, path, text, version, server) is DidChange,
{
}

/// Law: a close leaves no trace of the document but its highest version.
pub proof fn law_closed_documents_are_forgotten_but_counted(m: MirrorState, p: Seq<char>)
    ensures
        !after_close(m, p).open.contains_key(p),
        servers_of(after_close(m, p), p) == Set::<Seq<char>>::empty(),
        after_close(m, p).high_water == m.high_water,
{
}

} // verus!
