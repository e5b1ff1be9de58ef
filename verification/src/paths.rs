//! Slash-separated path handling: joining, the final component, the
//! extension, and recognising header files.

use vstd::prelude::*;

use crate::text::{chars_of, string_of, push_str, push_char, str_eq};

verus! {

broadcast use vstd::string::group_string_axioms;

/// `p` joined onto `root`: an absolute `p` replaces `root`; otherwise a `/`
/// is inserted between them unless `root` is empty or already ends in one.
pub open spec fn spec_join(root: Seq<char>, p: Seq<char>) -> Seq<char> {
    if p.len() > 0 && p[0] == '/' {
        p
    } else if root.len() == 0 || root.last() == '/' {
        root + p
    } else {
        root + seq!['/'] + p
    }
}

/// `p` joined onto an optional root; without a root, `p` itself.
pub open spec fn spec_join_root(root: Option<String>, p: Seq<char>) -> Seq<char> {
    match root {
        Some(r) => spec_join(r@, p),
        None => p,
    }
}

/// Joins `p` onto `root`.
pub fn join_path(root: &str, p: &str) -> (r: String)
    ensures
        r@ == spec_join(root@, p@),
{
    let pv = chars_of(p);
    if pv.len() > 0 && pv[0] == '/' {
        return string_of(&pv, 0, pv.len());
    }
    let rv = chars_of(root);
    let mut out = string_of(&rv, 0, rv.len());
    assert(rv@.subrange(0, rv@.len() as int) == rv@);
    if !(rv.len() == 0 || rv[rv.len() - 1] == '/') {
        push_char(&mut out, '/');
    }
    push_str(&mut out, p);
    assert(pv@.subrange(0, pv@.len() as int) == pv@);
    out
}

/// Joins a component-relative path onto its optional root path.
pub fn join_root(root: &Option<String>, path: &str) -> (r: String)
    ensures
        r@ == spec_join_root(*root, path@),
{
    match root {
        Some(rt) => join_path(rt.as_str(), path),
        None => crate::text::string_from(path),
    }
}

/// The position of the last `c` in `s`, or -1.
pub open spec fn last_index_of(s: Seq<char>, c: char) -> int
    decreases s.len(),
{
    if s.len() == 0 {
        -1
    } else if s.last() == c {
        s.len() - 1
    } else {
        last_index_of(s.drop_last(), c)
    }
}

/// Bounds of `last_index_of`.
pub proof fn lemma_last_index_of(s: Seq<char>, c: char)
    ensures
        -1 <= last_index_of(s, c) < s.len(),
        last_index_of(s, c) >= 0 ==> s[last_index_of(s, c)] == c,
        forall|k: int| last_index_of(s, c) < k < s.len() ==> s[k] != c,
    decreases s.len(),
{
    if s.len() > 0 && s.last() != c {
        lemma_last_index_of(s.drop_last(), c);
        let s0 = s.drop_last();
        assert forall|k: int| last_index_of(s, c) < k < s.len() implies s[k] != c by {
            if k < s.len() - 1 {
                assert(s[k] == s0[k]);
            }
        }
    }
}

/// The final component of a path: trailing slashes and `.` components are
/// ignored; there is none for an empty path, a root, or a path ending in `..`.
pub open spec fn spec_file_name(p: Seq<char>) -> Option<Seq<char>>
    decreases p.len(),
{
    if p.len() == 0 {
        None
    } else if p.last() == '/' {
        spec_file_name(p.drop_last())
    } else {
        let k = last_index_of(p, '/');
        let piece = p.subrange(k + 1, p.len() as int);
        if piece == seq!['.'] {
            if 0 <= k + 1 < p.len() {
                spec_file_name(p.subrange(0, k + 1))
            } else {
                None
            }
        } else if piece == seq!['.', '.'] {
            None
        } else {
            Some(piece)
        }
    }
}

/// The extension of a file name: the part after its last `.`, if that `.`
/// is not its first character.
pub open spec fn spec_name_extension(f: Seq<char>) -> Option<Seq<char>> {
    let k = last_index_of(f, '.');
    if k <= 0 {
        None
    } else {
        Some(f.subrange(k + 1, f.len() as int))
    }
}

/// The extension of the final component of a path.
pub open spec fn spec_extension(p: Seq<char>) -> Option<Seq<char>> {
    match spec_file_name(p) {
        Some(f) => spec_name_extension(f),
        None => None,
    }
}

/// The position of the last `c` in `v[0..end]`, or `None`.
fn last_index(v: &Vec<char>, end: usize, c: char) -> (r: Option<usize>)
    requires
        end <= v@.len(),
    ensures
        match r {
            Some(k) => k as int == last_index_of(v@.subrange(0, end as int), c),
            None => last_index_of(v@.subrange(0, end as int), c) == -1,
        },
{
    let mut i = end;
    while i > 0
        invariant
            i <= end <= v@.len(),
            last_index_of(v@.subrange(0, end as int), c) == last_index_of(
                v@.subrange(0, i as int),
                c,
            ),
        decreases i,
    {
        let ghost s = v@.subrange(0, i as int);
        assert(s.last() == v@[i - 1]);
        if v[i - 1] == c {
            return Some(i - 1);
        }
        assert(s.drop_last() =~= v@.subrange(0, i - 1));
        i = i - 1;
    }
    None
}

/// The final component of the path `v[0..end]`.
fn file_name_range(v: &Vec<char>, end: usize) -> (r: Option<(usize, usize)>)
    requires
        end <= v@.len(),
    ensures
        match r {
            Some((a, b)) => a <= b <= end && spec_file_name(v@.subrange(0, end as int)) == Some(
                v@.subrange(a as int, b as int),
            ),
            None => spec_file_name(v@.subrange(0, end as int)) is None,
        },
    decreases end,
{
    if end == 0 {
        return None;
    }
    let ghost p = v@.subrange(0, end as int);
    assert(p.last() == v@[end - 1]);
    if v[end - 1] == '/' {
        assert(p.drop_last() =~= v@.subrange(0, end - 1));
        return file_name_range(v, end - 1);
    }
    let k = last_index(v, end, '/');
    proof {
        lemma_last_index_of(p, '/');
    }
    let start = match k {
        Some(k) => k + 1,
        None => 0,
    };
    assert(p.subrange(start as int, p.len() as int) =~= v@.subrange(start as int, end as int));
    let len = end - start;
    if len == 1 && v[start] == '.' {
        assert(v@.subrange(start as int, end as int) =~= seq!['.']);
        if start == 0 {
            assert(p.subrange(0, 0) =~= Seq::<char>::empty());
            assert(spec_file_name(Seq::<char>::empty()) is None);
            return None;
        }
        assert(p.subrange(0, start as int) =~= v@.subrange(0, start as int));
        return file_name_range(v, start);
    }
    if len == 2 && v[start] == '.' && v[start + 1] == '.' {
        assert(v@.subrange(start as int, end as int) =~= seq!['.', '.']);
        return None;
    }
    proof {
        if len == 1 {
            assert(v@.subrange(start as int, end as int)[0] == v@[start as int]);
        }
        if len == 2 {
            assert(v@.subrange(start as int, end as int)[0] == v@[start as int]);
            assert(v@.subrange(start as int, end as int)[1] == v@[start + 1]);
        }
    }
    Some((start, end))
}

/// The final component of `path` (see `spec_file_name`).
pub fn file_name(path: &str) -> (r: Option<String>)
    ensures
        match r {
            Some(s) => spec_file_name(path@) == Some(s@),
            None => spec_file_name(path@) is None,
        },
{
    let v = chars_of(path);
    assert(v@.subrange(0, v@.len() as int) == v@);
    match file_name_range(&v, v.len()) {
        Some((a, b)) => Some(string_of(&v, a, b)),
        None => None,
    }
}

/// The extension of the final component of `path` (see `spec_extension`).
pub fn extension(path: &str) -> (r: Option<String>)
    ensures
        match r {
            Some(s) => spec_extension(path@) == Some(s@),
            None => spec_extension(path@) is None,
        },
{
    let v = chars_of(path);
    assert(v@.subrange(0, v@.len() as int) == v@);
    match file_name_range(&v, v.len()) {
        Some((a, b)) => {
            let k = last_index(&v, b, '.');
            let ghost f = v@.subrange(a as int, b as int);
            proof {
                lemma_last_index_of(v@.subrange(0, b as int), '.');
                lemma_last_index_of(f, '.');
                lemma_last_index_tail(v@.subrange(0, b as int), a as int, '.');
                assert(v@.subrange(0, b as int).subrange(a as int, b as int) =~= f);
            }
            match k {
                Some(k) => {
                    if k <= a {
                        None
                    } else {
                        assert(f.subrange(k - a + 1, f.len() as int) =~= v@.subrange(
                            k + 1,
                            b as int,
                        ));
                        Some(string_of(&v, k + 1, b))
                    }
                },
                None => None,
            }
        },
        None => None,
    }
}

/// The last `c` in a suffix `s[a..]` is the last `c` in `s`, shifted, when it
/// lies in the suffix; otherwise the suffix holds no `c`.
proof fn lemma_last_index_tail(s: Seq<char>, a: int, c: char)
    requires
        0 <= a <= s.len(),
    ensures
        ({
            let t = s.subrange(a, s.len() as int);
            let k = last_index_of(s, c);
            if k >= a {
                last_index_of(t, c) == k - a
            } else {
                last_index_of(t, c) == -1
            }
        }),
    decreases s.len() - a,
{
    let t = s.subrange(a, s.len() as int);
    if a < s.len() {
        assert(t.last() == s.last());
        if s.last() != c {
            lemma_last_index_tail(s.drop_last(), a, c);
            assert(t.drop_last() =~= s.drop_last().subrange(a, s.len() - 1));
        }
    } else {
        lemma_last_index_of(s, c);
    }
}

/// Whether an extension names a C/C++ header.
pub open spec fn is_header_extension(e: Seq<char>) -> bool {
    e == seq!['h'] || e == seq!['h', 'h'] || e == seq!['h', 'p', 'p'] || e == seq!['h', 'x', 'x']
}

/// Whether a path names a header file (extension `h`, `hh`, `hpp` or `hxx`).
pub open spec fn spec_is_header(p: Seq<char>) -> bool {
    match spec_extension(p) {
        Some(e) => is_header_extension(e),
        None => false,
    }
}

/// Whether an extension is one of the header extensions.
pub fn header_extension(e: &str) -> (r: bool)
    ensures
        r == is_header_extension(e@),
{
    let v = chars_of(e);
    let n = v.len();
    let r = (n == 1 && v[0] == 'h') || (n == 2 && v[0] == 'h' && v[1] == 'h') || (n == 3
        && v[0] == 'h' && ((v[1] == 'p' && v[2] == 'p') || (v[1] == 'x' && v[2] == 'x')));
    proof {
        if r {
            if n == 1 {
                assert(v@ =~= seq!['h']);
            } else if n == 2 {
                assert(v@ =~= seq!['h', 'h']);
            } else if v@[1] == 'p' {
                assert(v@ =~= seq!['h', 'p', 'p']);
            } else {
                assert(v@ =~= seq!['h', 'x', 'x']);
            }
        }
    }
    r
}

/// Whether `path` names a header file.
pub fn is_header(path: &str) -> (r: bool)
    ensures
        r == spec_is_header(path@),
{
    match extension(path) {
        Some(e) => header_extension(e.as_str()),
        None => false,
    }
}

} // verus!
