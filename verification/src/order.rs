//! The two orders text is kept in: the order of `String`s, and the order of
//! paths, which compare component by component.
//!
//! Both are lexicographic over characters. For paths, the separator `/` sorts
//! before every other character, which makes a string comparison agree with a
//! comparison of components: `a/b` comes before `a-b` and before `a.rs`,
//! because the component `a` comes before `a-b` and `a.rs`.
use vstd::prelude::*;

use crate::text::chars_of;

verus! {

/// The rank of a character: its code point, except that as a path separator
/// `/` ranks first.
pub open spec fn rank(c: char, paths: bool) -> int {
    if paths && c == '/' { -1 } else { (c as u32) as int }
}

/// Lexicographic order by rank, a proper prefix first.
pub open spec fn lex_lt(x: Seq<char>, y: Seq<char>, paths: bool) -> bool
    decreases x.len(),
{
    if x.len() == 0 {
        y.len() > 0
    } else if y.len() == 0 {
        false
    } else if x[0] != y[0] {
        rank(x[0], paths) < rank(y[0], paths)
    } else {
        lex_lt(x.drop_first(), y.drop_first(), paths)
    }
}

/// The order of `String`s and `str`s: code point by code point.
pub open spec fn text_lt(x: Seq<char>, y: Seq<char>) -> bool {
    lex_lt(x, y, false)
}

/// The order of paths.
pub open spec fn path_lt(x: Seq<char>, y: Seq<char>) -> bool {
    lex_lt(x, y, true)
}

pub proof fn lemma_lex_irreflexive(x: Seq<char>, paths: bool)
    ensures
        !lex_lt(x, x, paths),
    decreases x.len(),
{
    if x.len() > 0 {
        lemma_lex_irreflexive(x.drop_first(), paths);
    }
}

pub proof fn lemma_lex_transitive(x: Seq<char>, y: Seq<char>, z: Seq<char>, paths: bool)
    requires
        lex_lt(x, y, paths),
        lex_lt(y, z, paths),
    ensures
        lex_lt(x, z, paths),
    decreases x.len(),
{
    if x.len() > 0 && y.len() > 0 && z.len() > 0 {
        if x[0] == y[0] && y[0] == z[0] {
            lemma_lex_transitive(x.drop_first(), y.drop_first(), z.drop_first(), paths);
        } else if x[0] == z[0] {
            // x[0] < y[0] < z[0] in rank, or one of the two steps is a tie.
            assert(false);
        }
    }
}

pub proof fn lemma_lex_total(x: Seq<char>, y: Seq<char>, paths: bool)
    requires
        x != y,
    ensures
        lex_lt(x, y, paths) || lex_lt(y, x, paths),
    decreases x.len(),
{
    if x.len() > 0 && y.len() > 0 && x[0] == y[0] {
        if x.drop_first() == y.drop_first() {
            assert(x =~= seq![x[0]] + x.drop_first());
            assert(y =~= seq![y[0]] + y.drop_first());
        }
        lemma_lex_total(x.drop_first(), y.drop_first(), paths);
    } else if x.len() == 0 && y.len() == 0 {
        assert(x =~= y);
    } else if x.len() > 0 && y.len() > 0 {
        vstd::utf8::char_u32_cast(x[0], x[0] as u32);
        vstd::utf8::char_u32_cast(y[0], y[0] as u32);
    }
}

/// Strings as their characters.
pub open spec fn texts(s: Seq<String>) -> Seq<Seq<char>> {
    s.map_values(|x: String| x@)
}

/// Whether `a` comes before `b`, as `String`'s `Ord` or as paths compare.
pub fn lex_less(a: &str, b: &str, paths: bool) -> (r: bool)
    ensures
        r == lex_lt(a@, b@, paths),
{
    let x = chars_of(a);
    let y = chars_of(b);
    let mut i: usize = 0;
    assert(x@.skip(0) =~= x@);
    assert(y@.skip(0) =~= y@);
    while i < x.len() && i < y.len() && x[i] == y[i]
        invariant
            x@ == a@,
            y@ == b@,
            i <= x.len(),
            i <= y.len(),
            lex_lt(x@, y@, paths) == lex_lt(x@.skip(i as int), y@.skip(i as int), paths),
        decreases x.len() - i,
    {
        assert(x@.skip(i as int).drop_first() =~= x@.skip(i + 1));
        assert(y@.skip(i as int).drop_first() =~= y@.skip(i + 1));
        i = i + 1;
    }
    if i == x.len() {
        i < y.len()
    } else if i == y.len() {
        false
    } else {
        let c = x[i];
        let d = y[i];
        if paths && c == '/' {
            true
        } else if paths && d == '/' {
            false
        } else {
            (c as u32) < (d as u32)
        }
    }
}

// ---------------------------------------------------------------------------
// Sorted sequences
// ---------------------------------------------------------------------------

/// Strictly increasing: sorted, and nothing twice.
pub open spec fn increasing_by<T>(s: Seq<T>, lt: spec_fn(T, T) -> bool) -> bool {
    forall|i: int, j: int| 0 <= i < j < s.len() ==> lt(#[trigger] s[i], #[trigger] s[j])
}

/// `lt` is a strict total order.
pub open spec fn strict_total<T>(lt: spec_fn(T, T) -> bool) -> bool {
    &&& forall|x: T| !#[trigger] lt(x, x)
    &&& forall|x: T, y: T, z: T| #[trigger] lt(x, y) && #[trigger] lt(y, z) ==> lt(x, z)
    &&& forall|x: T, y: T| x != y ==> #[trigger] lt(x, y) || #[trigger] lt(y, x)
}

/// The members of `set`, in increasing order.
pub open spec fn arranged<T>(set: Set<T>, lt: spec_fn(T, T) -> bool) -> Seq<T> {
    choose|s: Seq<T>| increasing_by(s, lt) && s.to_set() == set
}

pub open spec fn by_text() -> spec_fn(Seq<char>, Seq<char>) -> bool {
    |x: Seq<char>, y: Seq<char>| text_lt(x, y)
}

pub open spec fn by_path() -> spec_fn(Seq<char>, Seq<char>) -> bool {
    |x: Seq<char>, y: Seq<char>| path_lt(x, y)
}

pub proof fn lemma_lex_strict_total(paths: bool)
    ensures
        strict_total(|x: Seq<char>, y: Seq<char>| lex_lt(x, y, paths)),
{
    let lt = |x: Seq<char>, y: Seq<char>| lex_lt(x, y, paths);
    assert forall|x: Seq<char>| !#[trigger] lt(x, x) by {
        lemma_lex_irreflexive(x, paths);
    }
    assert forall|x: Seq<char>, y: Seq<char>, z: Seq<char>| #[trigger] lt(x, y) && #[trigger] lt(y, z) implies lt(x, z) by {
        lemma_lex_transitive(x, y, z, paths);
    }
    assert forall|x: Seq<char>, y: Seq<char>| x != y implies #[trigger] lt(x, y) || #[trigger] lt(y, x) by {
        lemma_lex_total(x, y, paths);
    }
}

pub proof fn lemma_text_order()
    ensures
        strict_total(by_text()),
{
    lemma_lex_strict_total(false);
    assert(by_text() =~= |x: Seq<char>, y: Seq<char>| lex_lt(x, y, false));
}

pub proof fn lemma_path_order()
    ensures
        strict_total(by_path()),
{
    lemma_lex_strict_total(true);
    assert(by_path() =~= |x: Seq<char>, y: Seq<char>| lex_lt(x, y, true));
}

/// Two increasing sequences of the same members are one sequence.
pub proof fn lemma_increasing_unique<T>(s: Seq<T>, t: Seq<T>, lt: spec_fn(T, T) -> bool)
    requires
        strict_total(lt),
        increasing_by(s, lt),
        increasing_by(t, lt),
        s.to_set() == t.to_set(),
    ensures
        s == t,
    decreases s.len(),
{
    if s.len() == 0 {
        if t.len() > 0 {
            assert(t.to_set().contains(t[0]));
        }
        assert(s =~= t);
    } else {
        assert(s.to_set().contains(s[0]));
        assert(t.contains(s[0]));
        let j = choose|j: int| 0 <= j < t.len() && t[j] == s[0];
        assert(t.to_set().contains(t[0]));
        assert(s.contains(t[0]));
        let i = choose|i: int| 0 <= i < s.len() && s[i] == t[0];
        if j > 0 {
            assert(lt(t[0], t[j]));
            if i > 0 {
                assert(lt(s[0], s[i]));
            }
        }
        assert(s[0] == t[0]);
        let s1 = s.drop_first();
        let t1 = t.drop_first();
        assert forall|x: T| s1.to_set().contains(x) <==> t1.to_set().contains(x) by {
            if s1.contains(x) {
                let k = choose|k: int| 0 <= k < s1.len() && s1[k] == x;
                assert(lt(s[0], s[k + 1]));
                assert(t.to_set().contains(x));
                let m = choose|m: int| 0 <= m < t.len() && t[m] == x;
                assert(m != 0);
                assert(t1[m - 1] == x);
            }
            if t1.contains(x) {
                let k = choose|k: int| 0 <= k < t1.len() && t1[k] == x;
                assert(lt(t[0], t[k + 1]));
                assert(s.to_set().contains(x));
                let m = choose|m: int| 0 <= m < s.len() && s[m] == x;
                assert(m != 0);
                assert(s1[m - 1] == x);
            }
        }
        assert(s1.to_set() =~= t1.to_set());
        assert(increasing_by(s1, lt)) by {
            assert forall|a: int, b: int| 0 <= a < b < s1.len() implies lt(#[trigger] s1[a], #[trigger] s1[b]) by {
                assert(s1[a] == s[a + 1] && s1[b] == s[b + 1]);
            }
        }
        assert(increasing_by(t1, lt)) by {
            assert forall|a: int, b: int| 0 <= a < b < t1.len() implies lt(#[trigger] t1[a], #[trigger] t1[b]) by {
                assert(t1[a] == t[a + 1] && t1[b] == t[b + 1]);
            }
        }
        lemma_increasing_unique(s1, t1, lt);
        assert(s =~= seq![s[0]] + s1);
        assert(t =~= seq![t[0]] + t1);
    }
}

/// An increasing arrangement of a set is the arrangement of it.
pub proof fn lemma_arranged_is<T>(s: Seq<T>, set: Set<T>, lt: spec_fn(T, T) -> bool)
    requires
        strict_total(lt),
        increasing_by(s, lt),
        s.to_set() == set,
    ensures
        arranged(set, lt) == s,
{
    let a = arranged(set, lt);
    assert(increasing_by(a, lt) && a.to_set() == set);
    lemma_increasing_unique(a, s, lt);
}

pub proof fn lemma_to_set_push<T>(s: Seq<T>, x: T)
    ensures
        s.push(x).to_set() == s.to_set().insert(x),
{
    assert forall|y: T| s.push(x).to_set().contains(y) <==> s.to_set().insert(x).contains(y) by {
        if s.push(x).contains(y) {
            let k = choose|k: int| 0 <= k < s.len() + 1 && s.push(x)[k] == y;
            if k < s.len() {
                assert(s[k] == y);
            }
        }
        if s.contains(y) {
            let k = choose|k: int| 0 <= k < s.len() && s[k] == y;
            assert(s.push(x)[k] == y);
        }
        if y == x {
            assert(s.push(x)[s.len() as int] == y);
        }
    }
    assert(s.push(x).to_set() =~= s.to_set().insert(x));
}

/// Putting `x` where everything before it is smaller and everything after it
/// larger keeps a sequence increasing.
pub proof fn lemma_increasing_insert<T>(s: Seq<T>, i: int, x: T, lt: spec_fn(T, T) -> bool)
    requires
        strict_total(lt),
        increasing_by(s, lt),
        0 <= i <= s.len(),
        forall|k: int| 0 <= k < i ==> lt(#[trigger] s[k], x),
        i < s.len() ==> lt(x, s[i]),
    ensures
        increasing_by(s.insert(i, x), lt),
{
    let t = s.insert(i, x);
    assert forall|a: int, b: int| 0 <= a < b < t.len() implies lt(#[trigger] t[a], #[trigger] t[b]) by {
        if b < i {
            assert(t[a] == s[a] && t[b] == s[b]);
        } else if b == i {
            assert(t[a] == s[a]);
        } else if a < i {
            assert(t[a] == s[a] && t[b] == s[b - 1]);
        } else if a == i {
            assert(t[b] == s[b - 1]);
            if b - 1 > i {
                assert(lt(s[i], s[b - 1]));
            }
        } else {
            assert(t[a] == s[a - 1] && t[b] == s[b - 1]);
        }
    }
}

/// Inserting adds exactly one member.
pub proof fn lemma_to_set_insert<T>(s: Seq<T>, i: int, x: T)
    requires
        0 <= i <= s.len(),
    ensures
        s.insert(i, x).to_set() == s.to_set().insert(x),
{
    let t = s.insert(i, x);
    assert forall|y: T| t.to_set().contains(y) <==> s.to_set().insert(x).contains(y) by {
        if t.contains(y) {
            let k = choose|k: int| 0 <= k < t.len() && t[k] == y;
            if k < i {
                assert(s[k] == y);
            } else if k > i {
                assert(s[k - 1] == y);
            }
        }
        if s.contains(y) {
            let k = choose|k: int| 0 <= k < s.len() && s[k] == y;
            if k < i {
                assert(t[k] == y);
            } else {
                assert(t[k + 1] == y);
            }
        }
        if y == x {
            assert(t[i] == y);
        }
    }
    assert(t.to_set() =~= s.to_set().insert(x));
}

/// Where `x` goes in an increasing sequence that does not hold it: after
/// everything smaller, before everything larger.
pub proof fn lemma_split_point<T>(s: Seq<T>, x: T, lt: spec_fn(T, T) -> bool) -> (i: int)
    requires
        strict_total(lt),
        increasing_by(s, lt),
        !s.contains(x),
    ensures
        0 <= i <= s.len(),
        forall|k: int| 0 <= k < i ==> lt(#[trigger] s[k], x),
        i < s.len() ==> lt(x, s[i]),
    decreases s.len(),
{
    if s.len() == 0 {
        0
    } else {
        let init = s.drop_last();
        assert(increasing_by(init, lt)) by {
            assert forall|a: int, b: int| 0 <= a < b < init.len() implies lt(#[trigger] init[a], #[trigger] init[b]) by {
                assert(init[a] == s[a] && init[b] == s[b]);
            }
        }
        assert(!init.contains(x)) by {
            if init.contains(x) {
                let k = choose|k: int| 0 <= k < init.len() && init[k] == x;
                assert(s[k] == x);
            }
        }
        let j = lemma_split_point(init, x, lt);
        let last = s.len() - 1;
        if j < last {
            assert(lt(x, init[j]));
            assert forall|k: int| 0 <= k < j implies lt(#[trigger] s[k], x) by {
                assert(s[k] == init[k]);
            }
            j
        } else {
            assert(s[last] != x);
            assert(lt(s[last], x) || lt(x, s[last]));
            assert forall|k: int| 0 <= k < last implies lt(#[trigger] s[k], x) by {
                assert(s[k] == init[k]);
            }
            if lt(x, s[last]) {
                last
            } else {
                s.len() as int
            }
        }
    }
}

/// Every finite set has its arrangement: the members, each once, in order.
pub proof fn lemma_arranged_exists<T>(set: Set<T>, lt: spec_fn(T, T) -> bool)
    requires
        strict_total(lt),
        set.finite(),
    ensures
        increasing_by(arranged(set, lt), lt),
        arranged(set, lt).to_set() == set,
    decreases set.len(),
{
    if set.len() == 0 {
        let e = Seq::<T>::empty();
        assert(set =~= Set::<T>::empty());
        assert(e.to_set() =~= set);
        assert(increasing_by(e, lt));
    } else {
        let x = set.choose();
        let rest = set.remove(x);
        lemma_arranged_exists(rest, lt);
        let a = arranged(rest, lt);
        assert(!a.contains(x)) by {
            if a.contains(x) {
                assert(a.to_set().contains(x));
            }
        }
        let i = lemma_split_point(a, x, lt);
        lemma_increasing_insert(a, i, x, lt);
        lemma_to_set_insert(a, i, x);
        assert(rest.insert(x) =~= set);
        let t = a.insert(i, x);
        assert(increasing_by(t, lt) && t.to_set() == set);
    }
}

/// An increasing sequence holds nothing twice.
pub proof fn lemma_increasing_distinct<T>(s: Seq<T>, lt: spec_fn(T, T) -> bool)
    requires
        strict_total(lt),
        increasing_by(s, lt),
    ensures
        s.no_duplicates(),
{
    assert forall|a: int, b: int| 0 <= a < s.len() && 0 <= b < s.len() && a != b implies s[a] != s[b] by {
        if a < b {
            assert(lt(s[a], s[b]));
        } else {
            assert(lt(s[b], s[a]));
        }
    }
}

/// No string comes after one that sorts below it.
pub open spec fn lex_sorted(s: Seq<Seq<char>>, paths: bool) -> bool {
    forall|i: int, j: int| 0 <= i < j < s.len() ==> !lex_lt(#[trigger] s[j], #[trigger] s[i], paths)
}

/// The same strings, sorted as `String`s or as paths.
pub fn sort_lex(paths: Vec<String>, order: bool) -> (r: Vec<String>)
    ensures
        texts(r@).to_multiset() == texts(paths@).to_multiset(),
        lex_sorted(texts(r@), order),
{
    broadcast use vstd::seq_lib::to_multiset_insert, vstd::seq_lib::to_multiset_build;

    let mut out: Vec<String> = Vec::new();
    let mut i: usize = 0;
    assert(texts(out@) =~= texts(paths@).take(0));
    while i < paths.len()
        invariant
            i <= paths.len(),
            texts(out@).to_multiset() == texts(paths@).take(i as int).to_multiset(),
            lex_sorted(texts(out@), order),
        decreases paths.len() - i,
    {
        let x = paths[i].clone();
        let ghost before = texts(out@);
        let mut p: usize = 0;
        while p < out.len() && !lex_less(x.as_str(), out[p].as_str(), order)
            invariant
                p <= out.len(),
                texts(out@) == before,
                forall|k: int| 0 <= k < p ==> !lex_lt(x@, #[trigger] before[k], order),
            decreases out.len() - p,
        {
            assert(before[p as int] == out@[p as int]@);
            p = p + 1;
        }
        let ghost xv = x@;
        out.insert(p, x);
        assert(texts(out@) =~= before.insert(p as int, xv));
        assert(texts(paths@).take(i + 1) =~= texts(paths@).take(i as int).push(paths@[i as int]@));
        assert(paths@[i as int]@ == xv);
        proof {
            vstd::seq_lib::to_multiset_insert(before, p as int, xv);
            vstd::seq_lib::to_multiset_build(texts(paths@).take(i as int), xv);
        }
        proof {
            let after = texts(out@);
            if p < before.len() {
                assert(before[p as int] == out@[p as int + 1]@);
            }
            assert forall|a: int, b: int| 0 <= a < b < after.len() implies !lex_lt(#[trigger] after[b], #[trigger] after[a], order) by {
                if b < p {
                    assert(after[a] == before[a] && after[b] == before[b]);
                } else if b == p {
                    assert(after[a] == before[a]);
                } else if a < p {
                    assert(after[a] == before[a] && after[b] == before[b - 1]);
                } else if a == p {
                    assert(after[b] == before[b - 1]);
                    assert(lex_lt(xv, before[p as int], order));
                    if lex_lt(before[b - 1], xv, order) {
                        lemma_lex_transitive(before[b - 1], xv, before[p as int], order);
                        lemma_lex_irreflexive(before[p as int], order);
                    }
                } else {
                    assert(after[a] == before[a - 1] && after[b] == before[b - 1]);
                }
            }
        }
        i = i + 1;
    }
    assert(texts(paths@).take(paths.len() as int) =~= texts(paths@));
    out
}

} // verus!
