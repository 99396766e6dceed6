//! Workspace-relative paths: the spelling that crosses to the frontend, and
//! the containment decision that every file the app opens or writes rests on.
use vstd::prelude::*;

use crate::text::{chars_of, string_of};

verus! {

/// The root with one `/` after it.
pub open spec fn root_prefix(root: Seq<char>) -> Seq<char> {
    if root.len() > 0 && root.last() == '/' {
        root
    } else {
        root.push('/')
    }
}

/// Whether a part of a path begins at `i`.
pub open spec fn part_starts(s: Seq<char>, i: int) -> bool {
    i == 0 || s[i - 1] == '/'
}

/// Whether the part beginning at `i` is `.` or `..`.
pub open spec fn dot_part(s: Seq<char>, i: int) -> bool {
    s[i] == '.' && (i + 1 == s.len() || s[i + 1] == '/' || (s[i + 1] == '.' && (i + 2 == s.len() || s[i + 2]
        == '/')))
}

/// A relative path that names a file below its root and nothing else: at
/// least one part, no empty part, and no `.` or `..` part.
pub open spec fn clean_relative(s: Seq<char>) -> bool {
    &&& s.len() > 0
    &&& s.last() != '/'
    &&& forall|i: int| 0 <= i < s.len() && #[trigger] part_starts(s, i) ==> s[i] != '/' && !dot_part(s, i)
}

/// The path below `root`, if `path` lies under it.
pub open spec fn relative_under(root: Seq<char>, path: Seq<char>) -> Option<Seq<char>> {
    let pre = root_prefix(root);
    if pre.len() <= path.len() && path.take(pre.len() as int) == pre && clean_relative(path.skip(pre.len() as int)) {
        Some(path.skip(pre.len() as int))
    } else {
        None
    }
}

/// The workspace-relative spelling of an absolute path, or `None` when the
/// path is not inside the root. Nothing outside the root is ever reached
/// through `..`, and the root itself is not a file in it.
pub fn relative_to_root(root: &str, path: &str) -> (r: Option<String>)
    ensures
        match relative_under(root@, path@) {
            Some(p) => r matches Some(s) && s@ == p,
            None => r is None,
        },
{
    let mut pre = chars_of(root);
    if pre.len() == 0 || pre[pre.len() - 1] != '/' {
        pre.push('/');
    }
    assert(pre@ == root_prefix(root@));
    let v = chars_of(path);
    let m = pre.len();
    let n = v.len();
    if m > n {
        return None;
    }
    let mut i: usize = 0;
    while i < m
        invariant
            i <= m <= n,
            m == pre@.len(),
            n == v@.len(),
            forall|j: int| 0 <= j < i ==> v@[j] == pre@[j],
            pre@ == root_prefix(root@),
            v@ == path@,
        decreases m - i,
    {
        if v[i] != pre[i] {
            assert(v@.take(m as int)[i as int] != pre@[i as int]);
            return None;
        }
        i = i + 1;
    }
    assert(v@.take(m as int) =~= pre@);
    let ghost s = v@.skip(m as int);
    if m == n {
        assert(s.len() == 0);
        return None;
    }
    if v[n - 1] == '/' {
        assert(s.last() == v@[n - 1]);
        return None;
    }
    let mut out: Vec<char> = Vec::new();
    let mut j: usize = m;
    while j < n
        invariant
            m <= j <= n,
            m < n,
            n == v@.len(),
            s == v@.skip(m as int),
            v@.take(m as int) == root_prefix(root@),
            m == root_prefix(root@).len(),
            v@ == path@,
            out@ == s.take(j - m),
            forall|k: int| 0 <= k < j - m && #[trigger] part_starts(s, k) ==> s[k] != '/' && !dot_part(s, k),
        decreases n - j,
    {
        let k = j - m;
        let starts = j == m || v[j - 1] == '/';
        assert(starts == part_starts(s, k as int)) by {
            if k > 0 {
                assert(s[k - 1] == v@[j - 1]);
            }
        }
        if starts {
            assert(s[k as int] == v@[j as int]);
            if v[j] == '/' {
                return None;
            }
            if v[j] == '.' {
                let single = j + 1 == n || v[j + 1] == '/';
                let double = j + 1 < n && v[j + 1] == '.' && (j + 2 == n || v[j + 2] == '/');
                proof {
                    if j + 1 < n {
                        assert(s[k + 1] == v@[j + 1]);
                    }
                    if j + 2 < n {
                        assert(s[k + 2] == v@[j + 2]);
                    }
                }
                if single || double {
                    assert(dot_part(s, k as int));
                    return None;
                }
            }
        }
        out.push(v[j]);
        assert(s.take(k + 1) =~= s.take(k as int).push(s[k as int]));
        j = j + 1;
    }
    assert(s.take(n - m) =~= s);
    Some(string_of(&out))
}

} // verus!
