//! Instance placeholders: `{{instance}}` substitution in paths, defines and
//! XML content, and the `INSTANCE` transform of header content.

use vstd::prelude::*;

use crate::paths::{extension, header_extension, is_header_extension, spec_extension};
use crate::text::{
    chars_of,
    find_chars,
    find_from,
    lemma_find_from,
    occurs_at,
    push_chars,
    push_str,
    str_eq,
};

verus! {

broadcast use vstd::string::group_string_axioms;

/// Whether `c` is white space (the Unicode `White_Space` property, as
/// `char::is_whitespace` defines it).
pub open spec fn is_ws(c: char) -> bool {
    c == '\t' || c == '\n' || c == '\x0B' || c == '\x0C' || c == '\r' || c == ' ' || c == '\u{85}'
        || c == '\u{A0}' || c == '\u{1680}' || (0x2000 <= (c as int) <= 0x200A) || c == '\u{2028}'
        || c == '\u{2029}' || c == '\u{202F}' || c == '\u{205F}' || c == '\u{3000}'
}

/// Whether `c` is white space.
pub fn is_whitespace(c: char) -> (r: bool)
    ensures
        r == is_ws(c),
{
    c == '\t' || c == '\n' || c == '\x0B' || c == '\x0C' || c == '\r' || c == ' ' || c == '\u{85}'
        || c == '\u{A0}' || c == '\u{1680}' || ('\u{2000}' <= c && c <= '\u{200A}') || c
        == '\u{2028}' || c == '\u{2029}' || c == '\u{202F}' || c == '\u{205F}' || c == '\u{3000}'
}

/// The number of leading white-space characters of `s`.
pub open spec fn lead_ws(s: Seq<char>) -> nat
    decreases s.len(),
{
    if s.len() > 0 && is_ws(s[0]) {
        1 + lead_ws(s.drop_first())
    } else {
        0
    }
}

/// The number of trailing white-space characters of `s`.
pub open spec fn trail_ws(s: Seq<char>) -> nat
    decreases s.len(),
{
    if s.len() > 0 && is_ws(s.last()) {
        1 + trail_ws(s.drop_last())
    } else {
        0
    }
}

/// `s` without its leading white space.
pub open spec fn trim_start(s: Seq<char>) -> Seq<char> {
    s.skip(lead_ws(s) as int)
}

/// `s` without its leading and trailing white space.
pub open spec fn trim(s: Seq<char>) -> Seq<char> {
    let t = trim_start(s);
    t.take(t.len() - trail_ws(t))
}

pub(crate) proof fn lemma_lead_ws(s: Seq<char>)
    ensures
        lead_ws(s) <= s.len(),
        forall|k: int| 0 <= k < lead_ws(s) ==> is_ws(s[k]),
        lead_ws(s) < s.len() ==> !is_ws(s[lead_ws(s) as int]),
    decreases s.len(),
{
    if s.len() > 0 && is_ws(s[0]) {
        lemma_lead_ws(s.drop_first());
        assert forall|k: int| 0 <= k < lead_ws(s) implies is_ws(s[k]) by {
            if k > 0 {
                assert(s[k] == s.drop_first()[k - 1]);
            }
        }
    }
}

proof fn lemma_trail_ws(s: Seq<char>)
    ensures
        trail_ws(s) <= s.len(),
        forall|k: int| s.len() - trail_ws(s) <= k < s.len() ==> is_ws(s[k]),
        trail_ws(s) < s.len() ==> !is_ws(s[s.len() - 1 - trail_ws(s)]),
    decreases s.len(),
{
    if s.len() > 0 && is_ws(s.last()) {
        lemma_trail_ws(s.drop_last());
        assert forall|k: int| s.len() - trail_ws(s) <= k < s.len() implies is_ws(s[k]) by {
            if k < s.len() - 1 {
                assert(s[k] == s.drop_last()[k]);
            }
        }
    }
}

/// Counts the leading white space of `v[a..b]`.
pub(crate) fn count_lead_ws(v: &Vec<char>, a: usize, b: usize) -> (n: usize)
    requires
        a <= b <= v@.len(),
    ensures
        n == lead_ws(v@.subrange(a as int, b as int)),
{
    let mut i = a;
    while i < b && is_whitespace(v[i])
        invariant
            a <= i <= b <= v@.len(),
            lead_ws(v@.subrange(a as int, b as int)) == (i - a) + lead_ws(
                v@.subrange(i as int, b as int),
            ),
        decreases b - i,
    {
        assert(v@.subrange(i as int, b as int).drop_first() =~= v@.subrange(i + 1, b as int));
        i = i + 1;
    }
    i - a
}

/// Counts the trailing white space of `v[a..b]`.
fn count_trail_ws(v: &Vec<char>, a: usize, b: usize) -> (n: usize)
    requires
        a <= b <= v@.len(),
    ensures
        n == trail_ws(v@.subrange(a as int, b as int)),
{
    let mut j = b;
    while j > a && is_whitespace(v[j - 1])
        invariant
            a <= j <= b <= v@.len(),
            trail_ws(v@.subrange(a as int, b as int)) == (b - j) + trail_ws(
                v@.subrange(a as int, j as int),
            ),
        decreases j - a,
    {
        assert(v@.subrange(a as int, j as int).drop_last() =~= v@.subrange(a as int, j - 1));
        j = j - 1;
    }
    b - j
}

/// The characters of the word `instance`.
pub open spec fn instance_word() -> Seq<char> {
    seq!['i', 'n', 's', 't', 'a', 'n', 'c', 'e']
}

/// Whether the text between `{{` and `}}` names the instance placeholder.
pub open spec fn is_instance_token(inner: Seq<char>) -> bool {
    trim(inner) == instance_word()
}

/// Whether `trim(v[a..b])` is the word `instance`.
fn names_instance(v: &Vec<char>, a: usize, b: usize) -> (r: bool)
    requires
        a <= b <= v@.len(),
    ensures
        r == is_instance_token(v@.subrange(a as int, b as int)),
{
    let ghost s = v@.subrange(a as int, b as int);
    let l = count_lead_ws(v, a, b);
    proof {
        lemma_lead_ws(s);
    }
    let ghost t = trim_start(s);
    assert(t =~= v@.subrange(a + l, b as int));
    let t_ = count_trail_ws(v, a + l, b);
    proof {
        lemma_trail_ws(t);
    }
    let lo = a + l;
    let hi = b - t_;
    assert(trim(s) =~= v@.subrange(lo as int, hi as int));
    let word: Vec<char> = vec!['i', 'n', 's', 't', 'a', 'n', 'c', 'e'];
    assert(word@ =~= instance_word());
    if hi - lo != 8 {
        assert(instance_word().len() == 8);
        return false;
    }
    let mut k: usize = 0;
    while k < 8
        invariant
            lo + 8 == hi <= v@.len(),
            trim(v@.subrange(a as int, b as int)) == v@.subrange(lo as int, hi as int),
            word@ == instance_word(),
            k <= 8,
            forall|m: int| 0 <= m < k ==> v@[lo + m] == word@[m],
        decreases 8 - k,
    {
        if v[lo + k] != word[k] {
            assert(v@.subrange(lo as int, hi as int)[k as int] != instance_word()[k as int]);
            return false;
        }
        k = k + 1;
    }
    assert(v@.subrange(lo as int, hi as int) =~= instance_word());
    true
}

/// `{{`
pub open spec fn open_braces() -> Seq<char> {
    seq!['{', '{']
}

/// `}}`
pub open spec fn close_braces() -> Seq<char> {
    seq!['}', '}']
}

pub proof fn lemma_close_after_open(s: Seq<char>, st: int)
    requires
        occurs_at(s, open_braces(), st),
    ensures
        match find_from(s, close_braces(), st) {
            Some(e) => e >= st + 2 && e + 2 <= s.len(),
            None => true,
        },
{
    lemma_find_from(s, close_braces(), st);
    assert(s.subrange(st, st + 2)[0] == '{');
    assert(s.subrange(st, st + 2)[1] == '{');
    if occurs_at(s, close_braces(), st) {
        assert(s.subrange(st, st + 2)[0] == '}');
    }
    if occurs_at(s, close_braces(), st + 1) {
        assert(s.subrange(st + 1, st + 3)[0] == '}');
    }
}

/// The result of replacing each `{{instance}}` placeholder (white space
/// inside the braces allowed) of `s[pos..]` by `value`, scanning left to
/// right; any other `{{` is kept and the scan goes on after it.
pub open spec fn subst_from(s: Seq<char>, value: Seq<char>, pos: int) -> Seq<char>
    decreases s.len() - pos,
{
    if pos < 0 || pos > s.len() {
        Seq::empty()
    } else {
        match find_from(s, open_braces(), pos) {
            None => s.subrange(pos, s.len() as int),
            Some(st) => {
                proof {
                    lemma_find_from(s, open_braces(), pos);
                }
                match find_from(s, close_braces(), st) {
                    Some(e) => {
                        proof {
                            lemma_close_after_open(s, st);
                        }
                        if is_instance_token(s.subrange(st + 2, e)) {
                            s.subrange(pos, st) + value + subst_from(s, value, e + 2)
                        } else {
                            s.subrange(pos, st + 2) + subst_from(s, value, st + 2)
                        }
                    },
                    None => s.subrange(pos, st + 2) + subst_from(s, value, st + 2),
                }
            },
        }
    }
}

/// `s` with every `{{instance}}` placeholder replaced by `value`.
pub open spec fn spec_substitute(s: Seq<char>, value: Seq<char>) -> Seq<char> {
    subst_from(s, value, 0)
}

/// Replace `{{instance}}` with the given value
pub fn substitute_instance(input: &str, value: &str) -> (r: String)
    ensures
        r@ == spec_substitute(input@, value@),
{
    let v = chars_of(input);
    let n = v.len();
    let open: Vec<char> = vec!['{', '{'];
    let close: Vec<char> = vec!['}', '}'];
    assert(open@ =~= open_braces());
    assert(close@ =~= close_braces());
    let mut out = String::new();
    let mut pos: usize = 0;
    loop
        invariant
            pos <= v@.len(),
            n == v@.len(),
            v@ == input@,
            open@ == open_braces(),
            close@ == close_braces(),
            out@ + subst_from(v@, value@, pos as int) == spec_substitute(v@, value@),
        decreases v@.len() - pos,
    {
        let ghost before = out@;
        match find_chars(&v, &open, pos) {
            None => {
                assert(subst_from(v@, value@, pos as int) == v@.subrange(pos as int, v@.len() as int));
                push_chars(&mut out, &v, pos, v.len());
                return out;
            },
            Some(st) => {
                proof {
                    lemma_find_from(v@, open_braces(), pos as int);
                    lemma_close_after_open(v@, st as int);
                }
                match find_chars(&v, &close, st) {
                    Some(e) => {
                        assert(subst_from(v@, value@, pos as int) == (if is_instance_token(v@.subrange(st + 2, e as int)) {
                            v@.subrange(pos as int, st as int) + value@ + subst_from(v@, value@, e + 2)
                        } else {
                            v@.subrange(pos as int, st + 2) + subst_from(v@, value@, st + 2)
                        }));
                        if names_instance(&v, st + 2, e) {
                            push_chars(&mut out, &v, pos, st);
                            push_str(&mut out, value);
                            assert(out@ == before + v@.subrange(pos as int, st as int) + value@);
                            pos = e + 2;
                        } else {
                            push_chars(&mut out, &v, pos, st + 2);
                            pos = st + 2;
                        }
                    },
                    None => {
                        assert(subst_from(v@, value@, pos as int) == v@.subrange(pos as int, st + 2) + subst_from(v@, value@, st + 2));
                        push_chars(&mut out, &v, pos, st + 2);
                        pos = st + 2;
                    },
                }
            },
        }
    }
}

/// Whether `s` holds an `{{instance}}` placeholder: substituting a
/// character that cannot occur in a placeholder changes it.
pub open spec fn spec_has_instance_ph(s: Seq<char>) -> bool {
    spec_substitute(s, seq!['\u{1}']) != s
}

/// Whether a path contains an `{{instance}}` placeholder.
pub fn has_instance_ph(s: &str) -> (r: bool)
    ensures
        r == spec_has_instance_ph(s@),
{
    let marker: Vec<char> = vec!['\u{1}'];
    let m = crate::text::string_of(&marker, 0, 1);
    assert(marker@.subrange(0, 1) =~= seq!['\u{1}']);
    let sub = substitute_instance(s, m.as_str());
    !str_eq(sub.as_str(), s)
}

/// The result of replacing, left to right, each non-overlapping occurrence
/// of the non-empty pattern `pat` in `s[pos..]` by `with`.
pub open spec fn replace_from(s: Seq<char>, pat: Seq<char>, with: Seq<char>, pos: int) -> Seq<
    char,
>
    decreases s.len() - pos,
{
    if pos < 0 || pos > s.len() || pat.len() == 0 {
        Seq::empty()
    } else {
        match find_from(s, pat, pos) {
            None => s.subrange(pos, s.len() as int),
            Some(i) => {
                proof {
                    lemma_find_from(s, pat, pos);
                }
                s.subrange(pos, i) + with + replace_from(s, pat, with, i + pat.len())
            },
        }
    }
}

/// `s` with every occurrence of the non-empty pattern `pat` replaced by `with`
/// (as `str::replace` does).
pub open spec fn spec_replace(s: Seq<char>, pat: Seq<char>, with: Seq<char>) -> Seq<char> {
    replace_from(s, pat, with, 0)
}

/// Replaces every occurrence of the non-empty pattern `pat` in `s`.
pub fn replace_all(s: &str, pat: &str, with: &str) -> (r: String)
    requires
        pat@.len() > 0,
    ensures
        r@ == spec_replace(s@, pat@, with@),
{
    let v = chars_of(s);
    let n = v.len();
    let p = chars_of(pat);
    let mut out = String::new();
    let mut pos: usize = 0;
    loop
        invariant
            pos <= v@.len(),
            n == v@.len(),
            v@ == s@,
            p@ == pat@,
            p@.len() > 0,
            out@ + replace_from(v@, p@, with@, pos as int) == spec_replace(v@, p@, with@),
        decreases v@.len() - pos,
    {
        let ghost before = out@;
        match find_chars(&v, &p, pos) {
            None => {
                assert(replace_from(v@, p@, with@, pos as int) == v@.subrange(pos as int, v@.len() as int));
                push_chars(&mut out, &v, pos, v.len());
                return out;
            },
            Some(i) => {
                proof {
                    lemma_find_from(v@, p@, pos as int);
                }
                assert(occurs_at(v@, p@, i as int));
                assert(replace_from(v@, p@, with@, pos as int) == v@.subrange(pos as int, i as int) + with@ + replace_from(v@, p@, with@, i + p@.len()));
                push_chars(&mut out, &v, pos, i);
                push_str(&mut out, with);
                assert(out@ == before + v@.subrange(pos as int, i as int) + with@);
                pos = i + p.len();
            },
        }
    }
}

/// The upper-case form of a string, as `str::to_uppercase` computes it.
pub uninterp spec fn spec_to_uppercase(s: Seq<char>) -> Seq<char>;

/// `str::to_uppercase`: the Unicode upper-case mapping of every character;
/// its result is named by `spec_to_uppercase`.
#[verifier::external_body]
fn to_uppercase(s: &str) -> (r: String)
    ensures
        r@ == spec_to_uppercase(s@),
{
    s.to_uppercase()
}

/// `INSTANCE`
pub open spec fn instance_upper_word() -> Seq<char> {
    seq!['I', 'N', 'S', 'T', 'A', 'N', 'C', 'E']
}

/// The content of a config file expanded for `instance`: headers get each
/// `INSTANCE` replaced by the upper-cased instance name, XML files get their
/// `{{instance}}` placeholders substituted, other files are unchanged.
pub open spec fn spec_transform_instance_content(
    path: Seq<char>,
    instance: Seq<char>,
    content: Seq<char>,
) -> Seq<char> {
    match spec_extension(path) {
        Some(e) => if is_header_extension(e) {
            spec_replace(content, instance_upper_word(), spec_to_uppercase(instance))
        } else if e == seq!['x', 'm', 'l'] {
            spec_substitute(content, instance)
        } else {
            content
        },
        None => content,
    }
}

/// Transform config-file content for an instance, matching the conventions of the target filenames
pub fn transform_instance_content(path: &str, instance: &str, content: &str) -> (r: String)
    ensures
        r@ == spec_transform_instance_content(path@, instance@, content@),
{
    match extension(path) {
        Some(e) => {
            if header_extension(e.as_str()) {
                let upper = to_uppercase(instance);
                let word: Vec<char> = vec!['I', 'N', 'S', 'T', 'A', 'N', 'C', 'E'];
                let w = crate::text::string_of(&word, 0, 8);
                assert(word@.subrange(0, 8) =~= instance_upper_word());
                replace_all(content, w.as_str(), upper.as_str())
            } else {
                let xml: Vec<char> = vec!['x', 'm', 'l'];
                let ev = chars_of(e.as_str());
                if crate::text::chars_eq(&ev, &xml) {
                    assert(xml@ =~= seq!['x', 'm', 'l']);
                    substitute_instance(content, instance)
                } else {
                    proof {
                        if e@ == seq!['x', 'm', 'l'] {
                            assert(xml@ =~= ev@);
                        }
                    }
                    crate::text::string_from(content)
                }
            }
        },
        None => crate::text::string_from(content),
    }
}


/// Text without `{{` has no placeholder: substitution leaves it unchanged.
pub proof fn lemma_substitute_without_braces(s: Seq<char>, value: Seq<char>)
    requires
        forall|i: int| !occurs_at(s, open_braces(), i),
    ensures
        spec_substitute(s, value) == s,
{
    lemma_find_from(s, open_braces(), 0);
    assert(s.subrange(0, s.len() as int) =~= s);
}

} // verus!
