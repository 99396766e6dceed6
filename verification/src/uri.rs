//! `file:` URIs and the paths they name.
//!
//! A URI is never compared as a string: two servers spell one file two ways
//! (a drive colon plain or percent-encoded), so identity is decided on the
//! path a URI decodes to. Paths here use `/` between their parts; a drive
//! path reads `C:/...`.
use vstd::prelude::*;

use crate::framing::utf8_text;
use crate::text::{chars_of, string_of};
use vstd::string::StringSliceAdditionalSpecFns;
use vstd::utf8::{decode_utf8, valid_utf8};

verus! {

/// Whether a drive colon is written plainly (`file:///C:/...`) or
/// percent-encoded (`file:///C%3A/...`). Servers differ, and identity is
/// decided on paths, never on URI strings.
#[derive(Debug, Clone, Copy, PartialEq, Eq, Hash, Structural)]
pub enum UriStyle {
    Plain,
    Encoded,
}

/// `file://`, as characters.
pub open spec fn scheme_chars() -> Seq<char> {
    seq!['f', 'i', 'l', 'e', ':', '/', '/']
}

/// `file://`, as bytes.
pub open spec fn scheme_bytes() -> Seq<u8> {
    seq![102u8, 105u8, 108u8, 101u8, 58u8, 47u8, 47u8]
}

/// `localhost`, the one host a `file:` URI may name, as bytes.
pub open spec fn localhost_bytes() -> Seq<u8> {
    seq![108u8, 111u8, 99u8, 97u8, 108u8, 104u8, 111u8, 115u8, 116u8]
}

pub open spec fn is_ascii_letter(b: u8) -> bool {
    (65 <= b && b <= 90) || (97 <= b && b <= 122)
}

/// A byte written as itself in a URI path: letters, digits, `-._~` and `/`.
pub open spec fn kept(b: u8) -> bool {
    is_ascii_letter(b) || (48 <= b && b <= 57) || b == 45 || b == 46 || b == 95 || b == 126 || b == 47
}

/// The upper-case hexadecimal digit of a value below sixteen.
pub open spec fn hex_digit(d: u8) -> char {
    if d < 10 { ((48 + d) as u8) as char } else { ((55 + d) as u8) as char }
}

/// Bytes as they are written in a URI path: kept bytes as themselves, every
/// other byte as `%` and two upper-case hexadecimal digits.
pub open spec fn escaped(b: Seq<u8>) -> Seq<char>
    decreases b.len(),
{
    if b.len() == 0 {
        Seq::empty()
    } else {
        let last = b.last();
        escaped(b.drop_last()) + if kept(last) {
            seq![last as char]
        } else {
            seq!['%', hex_digit(last / 16), hex_digit(last % 16)]
        }
    }
}

/// Whether a path starts with a drive: a letter, a colon, and then nothing
/// or `/`.
pub open spec fn has_drive(p: Seq<u8>) -> bool {
    p.len() >= 2 && is_ascii_letter(p[0]) && p[1] == 58 && (p.len() == 2 || p[2] == 47)
}

/// The `file:` URI of an absolute path, in a server's spelling; nothing for
/// a relative path.
pub open spec fn file_uri(p: Seq<u8>, style: UriStyle) -> Option<Seq<char>> {
    if has_drive(p) {
        Some(
            scheme_chars() + seq!['/', p[0] as char] + match style {
                UriStyle::Plain => seq![':'],
                UriStyle::Encoded => seq!['%', '3', 'A'],
            } + escaped(p.skip(2)),
        )
    } else if p.len() > 0 && p[0] == 47 {
        Some(scheme_chars() + escaped(p))
    } else {
        None
    }
}

fn hex(d: u8) -> (r: char)
    requires
        d < 16,
    ensures
        r == hex_digit(d),
{
    if d < 10 { (48 + d) as char } else { (55 + d) as char }
}

fn push_escaped(out: &mut Vec<char>, b: u8)
    ensures
        final(out)@ == old(out)@ + if kept(b) {
            seq![b as char]
        } else {
            seq!['%', hex_digit(b / 16), hex_digit(b % 16)]
        },
{
    if (65 <= b && b <= 90) || (97 <= b && b <= 122) || (48 <= b && b <= 57) || b == 45 || b == 46 || b == 95
        || b == 126 || b == 47 {
        out.push(b as char);
    } else {
        out.push('%');
        out.push(hex(b / 16));
        out.push(hex(b % 16));
    }
}

/// The `file:` URI of an absolute path, spelled in `style`; `None` for a path
/// that is not absolute, since a relative one names no file by itself.
pub fn to_file_uri(path: &str, style: UriStyle) -> (r: Option<String>)
    ensures
        match file_uri(path.spec_bytes(), style) {
            Some(u) => r matches Some(s) && s@ == u,
            None => r is None,
        },
{
    let p = path.as_bytes();
    let n = p.len();
    let drive = n >= 2 && ((65 <= p[0] && p[0] <= 90) || (97 <= p[0] && p[0] <= 122)) && p[1] == 58 && (n == 2
        || p[2] == 47);
    if !drive && !(n > 0 && p[0] == 47) {
        return None;
    }
    let start: usize = if drive { 2 } else { 0 };
    let mut out: Vec<char> = vec!['f', 'i', 'l', 'e', ':', '/', '/'];
    if drive {
        out.push('/');
        out.push(p[0] as char);
        match style {
            UriStyle::Plain => {
                out.push(':');
            },
            UriStyle::Encoded => {
                out.push('%');
                out.push('3');
                out.push('A');
            },
        }
    }
    let ghost head = out@;
    let ghost rest = p@.skip(start as int);
    let mut i: usize = start;
    assert(rest.take(0) =~= Seq::<u8>::empty());
    while i < n
        invariant
            start <= i <= n,
            n == p@.len(),
            start <= n,
            rest == p@.skip(start as int),
            rest.len() == n - start,
            out@ == head + escaped(rest.take(i - start)),
        decreases n - i,
    {
        let ghost before = out@;
        push_escaped(&mut out, p[i]);
        assert(rest.take(i + 1 - start).drop_last() =~= rest.take(i - start));
        assert(p@.skip(start as int)[i - start] == p@[i as int]);
        assert(rest.take(i + 1 - start).last() == p@[i as int]);
        assert(out@ =~= head + escaped(rest.take(i + 1 - start)));
        i = i + 1;
    }
    assert(rest.take(n - start) =~= rest);
    proof {
        if drive {
            assert(head =~= scheme_chars() + seq!['/', p@[0] as char] + match style {
                UriStyle::Plain => seq![':'],
                UriStyle::Encoded => seq!['%', '3', 'A'],
            });
        } else {
            assert(head =~= scheme_chars());
            assert(rest =~= p@);
        }
    }
    assert(out@ =~= file_uri(p@, style)->Some_0);
    Some(string_of(&out))
}

/// The value of a hexadecimal digit byte, either case.
pub open spec fn hex_value(b: u8) -> Option<u8> {
    if 48 <= b && b <= 57 {
        Some((b - 48) as u8)
    } else if 65 <= b && b <= 70 {
        Some((b - 55) as u8)
    } else if 97 <= b && b <= 102 {
        Some((b - 87) as u8)
    } else {
        None
    }
}

/// The bytes a percent-encoded path stands for; nothing when a `%` is not
/// followed by two hexadecimal digits.
pub open spec fn unescaped(b: Seq<u8>) -> Option<Seq<u8>>
    decreases b.len(),
{
    if b.len() == 0 {
        Some(Seq::empty())
    } else if b[0] == 37 {
        if b.len() >= 3 && hex_value(b[1]) is Some && hex_value(b[2]) is Some {
            match unescaped(b.skip(3)) {
                Some(r) => Some(seq![(hex_value(b[1])->Some_0 * 16 + hex_value(b[2])->Some_0) as u8] + r),
                None => None,
            }
        } else {
            None
        }
    } else {
        match unescaped(b.skip(1)) {
            Some(r) => Some(seq![b[0]] + r),
            None => None,
        }
    }
}

/// Where the first `/` is, or the length when there is none.
pub open spec fn first_slash(b: Seq<u8>) -> int
    decreases b.len(),
{
    if b.len() == 0 {
        0
    } else if b[0] == 47 {
        0
    } else {
        1 + first_slash(b.skip(1))
    }
}

pub open spec fn ascii_upper(c: char) -> char {
    if 'a' <= c && c <= 'z' { ((c as u32) - 32) as char } else { c }
}

/// A decoded path with the slash before a drive letter dropped and the
/// letter in upper case, so both spellings of a drive name one path.
pub open spec fn undrive(p: Seq<char>) -> Seq<char> {
    if p.len() >= 3 && p[0] == '/' && (('A' <= p[1] && p[1] <= 'Z') || ('a' <= p[1] && p[1] <= 'z')) && p[2] == ':'
        && (p.len() == 3 || p[3] == '/') {
        seq![ascii_upper(p[1])] + p.skip(2)
    } else {
        p
    }
}

/// The path a `file:` URI names: `file://`, an empty host or `localhost`,
/// then a percent-encoded UTF-8 path. Nothing for any other URI.
pub open spec fn file_path(u: Seq<u8>) -> Option<Seq<char>> {
    if u.len() < 7 || u.take(7) != scheme_bytes() {
        None
    } else {
        let rest = u.skip(7);
        let k = first_slash(rest);
        if k >= rest.len() || !(k == 0 || rest.take(k) == localhost_bytes()) {
            None
        } else {
            match unescaped(rest.skip(k)) {
                Some(b) => if valid_utf8(b) {
                    Some(undrive(decode_utf8(b)))
                } else {
                    None
                },
                None => None,
            }
        }
    }
}

proof fn lemma_first_slash_bounds(b: Seq<u8>)
    ensures
        0 <= first_slash(b) <= b.len(),
        first_slash(b) < b.len() ==> b[first_slash(b)] == 47,
        forall|j: int| 0 <= j < first_slash(b) ==> b[j] != 47,
    decreases b.len(),
{
    if b.len() > 0 && b[0] != 47 {
        lemma_first_slash_bounds(b.skip(1));
        assert forall|j: int| 0 <= j < first_slash(b) implies b[j] != 47 by {
            if j > 0 {
                assert(b[j] == b.skip(1)[j - 1]);
            }
        }
    }
}

proof fn lemma_first_slash_is(b: Seq<u8>, k: int)
    requires
        0 <= k <= b.len(),
        k < b.len() ==> b[k] == 47,
        forall|j: int| 0 <= j < k ==> b[j] != 47,
    ensures
        first_slash(b) == k,
    decreases b.len(),
{
    if b.len() > 0 && b[0] != 47 {
        assert forall|j: int| 0 <= j < k - 1 implies b.skip(1)[j] != 47 by {
            assert(b.skip(1)[j] == b[j + 1]);
        }
        lemma_first_slash_is(b.skip(1), k - 1);
    }
}

fn hex_of(b: u8) -> (r: Option<u8>)
    ensures
        r == hex_value(b),
{
    if 48 <= b && b <= 57 {
        Some(b - 48)
    } else if 65 <= b && b <= 70 {
        Some(b - 55)
    } else if 97 <= b && b <= 102 {
        Some(b - 87)
    } else {
        None
    }
}

fn upper(c: char) -> (r: char)
    ensures
        r == ascii_upper(c),
{
    if 'a' <= c && c <= 'z' {
        ((c as u32) - 32) as u8 as char
    } else {
        c
    }
}

/// The path a `file:` URI names, or nothing: another scheme, a host other
/// than `localhost`, a malformed escape or bytes that are not UTF-8 name no
/// file this app can open.
pub fn from_file_uri(uri: &str) -> (r: Option<String>)
    ensures
        match file_path(uri.spec_bytes()) {
            Some(p) => r matches Some(s) && s@ == p,
            None => r is None,
        },
{
    let u = uri.as_bytes();
    let n = u.len();
    if n < 7 || u[0] != 102 || u[1] != 105 || u[2] != 108 || u[3] != 101 || u[4] != 58 || u[5] != 47 || u[6] != 47 {
        proof {
            if n >= 7 {
                assert(u@.take(7) != scheme_bytes()) by {
                    if u@.take(7) == scheme_bytes() {
                        assert(u@[0] == u@.take(7)[0]);
                        assert(u@[1] == u@.take(7)[1]);
                        assert(u@[2] == u@.take(7)[2]);
                        assert(u@[3] == u@.take(7)[3]);
                        assert(u@[4] == u@.take(7)[4]);
                        assert(u@[5] == u@.take(7)[5]);
                        assert(u@[6] == u@.take(7)[6]);
                    }
                }
            }
        }
        return None;
    }
    assert(u@.take(7) =~= scheme_bytes());
    let ghost rest = u@.skip(7);
    let mut k: usize = 7;
    while k < n && u[k] != 47
        invariant
            7 <= k <= n,
            n == u@.len(),
            rest == u@.skip(7),
            forall|j: int| 7 <= j < k ==> u@[j] != 47,
        decreases n - k,
    {
        k = k + 1;
    }
    proof {
        assert forall|j: int| 0 <= j < k - 7 implies rest[j] != 47 by {
            assert(rest[j] == u@[j + 7]);
        }
        if k < n {
            assert(rest[k - 7] == u@[k as int]);
        }
        lemma_first_slash_is(rest, k - 7);
    }
    if k == n {
        return None;
    }
    let host = k - 7;
    if host != 0 {
        let ok = host == 9 && u[7] == 108 && u[8] == 111 && u[9] == 99 && u[10] == 97 && u[11] == 108 && u[12] == 104
            && u[13] == 111 && u[14] == 115 && u[15] == 116;
        if !ok {
            proof {
                if rest.take(host as int) =~= localhost_bytes() {
                    assert(host == 9);
                    assert(rest.take(9)[0] == u@[7]);
                    assert(rest.take(9)[1] == u@[8]);
                    assert(rest.take(9)[2] == u@[9]);
                    assert(rest.take(9)[3] == u@[10]);
                    assert(rest.take(9)[4] == u@[11]);
                    assert(rest.take(9)[5] == u@[12]);
                    assert(rest.take(9)[6] == u@[13]);
                    assert(rest.take(9)[7] == u@[14]);
                    assert(rest.take(9)[8] == u@[15]);
                }
            }
            return None;
        }
        assert(rest.take(host as int) =~= localhost_bytes());
    }
    // Decoding the escapes.
    let ghost path = rest.skip(host as int);
    let mut out: Vec<u8> = Vec::new();
    let mut i: usize = k;
    assert(path =~= u@.skip(k as int));
    assert(unescaped(path) is None ==> file_path(u@) is None);
    while i < n
        invariant
            k <= i <= n,
            n == u@.len(),
            u@ == uri.spec_bytes(),
            path == u@.skip(k as int),
            unescaped(path) is None ==> file_path(u@) is None,
            unescaped(path) == match unescaped(u@.skip(i as int)) {
                Some(r) => Some(out@ + r),
                None => None::<Seq<u8>>,
            },
        decreases n - i,
    {
        let ghost tail = u@.skip(i as int);
        if u[i] == 37 {
            if n - i > 2 {
                let hi = hex_of(u[i + 1]);
                let lo = hex_of(u[i + 2]);
                match (hi, lo) {
                    (Some(h), Some(l)) => {
                        assert(tail[1] == u@[i + 1] && tail[2] == u@[i + 2] && tail[0] == u@[i as int]);
                        assert(tail.skip(3) =~= u@.skip(i + 3));
                        let ghost before = out@;
                        out.push(h * 16 + l);
                        assert(forall|r: Seq<u8>| before + (seq![(h * 16 + l) as u8] + r) =~= out@ + r);
                        i = i + 3;
                    },
                    _ => {
                        assert(tail[1] == u@[i + 1] && tail[2] == u@[i + 2] && tail[0] == u@[i as int]);
                        assert(unescaped(tail) is None);
                        assert(unescaped(path) is None);
                        return None;
                    },
                }
            } else {
                assert(tail[0] == u@[i as int]);
                assert(unescaped(tail) is None);
                assert(unescaped(path) is None);
                return None;
            }
        } else {
            assert(tail[0] == u@[i as int]);
            assert(tail.skip(1) =~= u@.skip(i + 1));
            let ghost before = out@;
            out.push(u[i]);
            assert(forall|r: Seq<u8>| before + (seq![u@[i as int]] + r) =~= out@ + r);
            i = i + 1;
        }
    }
    assert(u@.skip(n as int) =~= Seq::<u8>::empty());
    assert(unescaped(path) == Some(out@)) by {
        assert(out@ + Seq::<u8>::empty() =~= out@);
    }
    let text = match utf8_text(out.as_slice()) {
        Some(t) => t,
        None => {
            return None;
        },
    };
    let v = chars_of(text.as_str());
    let m = v.len();
    if m >= 3 && v[0] == '/' && (('A' <= v[1] && v[1] <= 'Z') || ('a' <= v[1] && v[1] <= 'z')) && v[2] == ':' && (m
        == 3 || v[3] == '/') {
        let mut w: Vec<char> = Vec::new();
        w.push(upper(v[1]));
        let mut j: usize = 2;
        while j < m
            invariant
                2 <= j <= m,
                m == v@.len(),
                w@ == seq![ascii_upper(v@[1])] + v@.subrange(2, j as int),
            decreases m - j,
        {
            w.push(v[j]);
            assert(v@.subrange(2, j + 1) =~= v@.subrange(2, j as int).push(v@[j as int]));
            j = j + 1;
        }
        assert(v@.subrange(2, m as int) =~= v@.skip(2));
        Some(string_of(&w))
    } else {
        Some(text)
    }
}

} // verus!
