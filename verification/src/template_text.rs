//! Template text prepared for rendering: jinja2 templates grow lists with
//! `{% set seen = [] %}` and `seen.append(x)`, which needs a list that can
//! be appended to. Each such empty list literal is replaced by a call of
//! the function that makes one.

use vstd::prelude::*;

use crate::instance::is_ws;
use crate::text::{
    chars_end_with,
    chars_occur_at,
    chars_of,
    ends_with,
    find_chars,
    find_from,
    lemma_find_from,
    occurs_at,
    push_chars,
    push_str,
    starts_with,
};

verus! {

broadcast use vstd::string::group_string_axioms;

/// The name of the template function that makes an appendable list.
pub open spec fn list_function_name() -> Seq<char> {
    seq!['_', '_', 'a', 'p', 'p', 'e', 'n', 'd', 'a', 'b', 'l', 'e', '_', 'l', 'i', 's', 't']
}

/// The name of the template function that makes an appendable list.
pub fn appendable_list_function() -> (r: String)
    ensures
        r@ == list_function_name(),
{
    let v: Vec<char> = vec!['_', '_', 'a', 'p', 'p', 'e', 'n', 'd', 'a', 'b', 'l', 'e', '_', 'l', 'i', 's', 't'];
    let r = crate::text::string_of(&v, 0, v.len());
    assert(v@.subrange(0, v@.len() as int) =~= list_function_name());
    r
}

/// A call of that function: `__appendable_list()`.
pub open spec fn list_call() -> Seq<char> {
    list_function_name() + seq!['(', ')']
}

/// Characters trimmed around a tag's content: white space and the
/// whitespace-control marks `-` and `+`.
pub open spec fn is_trim_char(c: char) -> bool {
    c == '-' || c == '+' || is_ws(c)
}

/// The number of leading trim characters of `s`.
pub open spec fn lead_trim(s: Seq<char>) -> nat
    decreases s.len(),
{
    if s.len() > 0 && is_trim_char(s[0]) {
        1 + lead_trim(s.drop_first())
    } else {
        0
    }
}

/// The number of trailing trim characters of `s`.
pub open spec fn trail_trim(s: Seq<char>) -> nat
    decreases s.len(),
{
    if s.len() > 0 && is_trim_char(s.last()) {
        1 + trail_trim(s.drop_last())
    } else {
        0
    }
}

/// `s` without its leading and trailing trim characters.
pub open spec fn trim_tag(s: Seq<char>) -> Seq<char> {
    let t = s.skip(lead_trim(s) as int);
    t.take(t.len() - trail_trim(t))
}

/// `set `
pub open spec fn set_word() -> Seq<char> {
    seq!['s', 'e', 't', ' ']
}

/// `[]`
pub open spec fn empty_list() -> Seq<char> {
    seq!['[', ']']
}

/// Whether the tag `{% ... %}` sets a variable to an empty list.
pub open spec fn is_list_init(tag: Seq<char>) -> bool {
    let core = trim_tag(tag.subrange(2, tag.len() - 2));
    starts_with(core, set_word()) && ends_with(core, empty_list())
}

/// The position in the tag `{% ... %}` of the `[]` that ends its content.
pub open spec fn bracket_pos(tag: Seq<char>) -> int {
    let inner = tag.subrange(2, tag.len() - 2);
    2 + lead_trim(inner) + trim_tag(inner).len() - 2
}

/// The tag with the `[]` that ends its content replaced by the call.
pub open spec fn rewrite_tag(tag: Seq<char>) -> Seq<char> {
    let i = bracket_pos(tag);
    tag.take(i) + list_call() + tag.skip(i + 2)
}

/// `{%`
pub open spec fn tag_open() -> Seq<char> {
    seq!['{', '%']
}

/// `%}`
pub open spec fn tag_close() -> Seq<char> {
    seq!['%', '}']
}

/// `s[pos..]` with each tag that sets a variable to an empty list
/// rewritten; scanning stops at a tag that is not closed.
pub open spec fn prepare_from(s: Seq<char>, pos: int) -> Seq<char>
    decreases s.len() - pos,
{
    if pos < 0 || pos > s.len() {
        Seq::empty()
    } else {
        match find_from(s, tag_open(), pos) {
            None => s.subrange(pos, s.len() as int),
            Some(st) => {
                proof {
                    lemma_find_from(s, tag_open(), pos);
                }
                match find_from(s, tag_close(), st + 2) {
                    None => s.subrange(pos, s.len() as int),
                    Some(e) => {
                        proof {
                            lemma_find_from(s, tag_close(), st + 2);
                        }
                        let tag = s.subrange(st, e + 2);
                        s.subrange(pos, st) + (if is_list_init(tag) {
                            rewrite_tag(tag)
                        } else {
                            tag
                        }) + prepare_from(s, e + 2)
                    },
                }
            },
        }
    }
}

/// The template text with each `{% set name = [] %}` list made appendable.
pub open spec fn spec_prepare_template(s: Seq<char>) -> Seq<char> {
    prepare_from(s, 0)
}

/// Counts the leading trim characters of `v[a..b]`.
fn count_lead_trim(v: &Vec<char>, a: usize, b: usize) -> (n: usize)
    requires
        a <= b <= v@.len(),
    ensures
        n == lead_trim(v@.subrange(a as int, b as int)),
        n <= b - a,
{
    let mut i = a;
    while i < b && (v[i] == '-' || v[i] == '+' || crate::instance::is_whitespace(v[i]))
        invariant
            a <= i <= b <= v@.len(),
            lead_trim(v@.subrange(a as int, b as int)) == (i - a) + lead_trim(v@.subrange(i as int, b as int)),
        decreases b - i,
    {
        assert(v@.subrange(i as int, b as int).drop_first() =~= v@.subrange(i + 1, b as int));
        i = i + 1;
    }
    proof {
        if i < b {
            assert(v@.subrange(i as int, b as int)[0] == v@[i as int]);
        }
    }
    i - a
}

/// Counts the trailing trim characters of `v[a..b]`.
fn count_trail_trim(v: &Vec<char>, a: usize, b: usize) -> (n: usize)
    requires
        a <= b <= v@.len(),
    ensures
        n == trail_trim(v@.subrange(a as int, b as int)),
        n <= b - a,
{
    let mut j = b;
    while j > a && (v[j - 1] == '-' || v[j - 1] == '+' || crate::instance::is_whitespace(v[j - 1]))
        invariant
            a <= j <= b <= v@.len(),
            trail_trim(v@.subrange(a as int, b as int)) == (b - j) + trail_trim(v@.subrange(a as int, j as int)),
        decreases j - a,
    {
        assert(v@.subrange(a as int, j as int).drop_last() =~= v@.subrange(a as int, j - 1));
        j = j - 1;
    }
    proof {
        if j > a {
            assert(v@.subrange(a as int, j as int).last() == v@[j - 1]);
        }
    }
    b - j
}

/// Where the tag `v[st..end]` sets a variable to an empty list: the
/// position in `v` of the `[]` that ends its content.
fn list_init_bracket(v: &Vec<char>, st: usize, end: usize) -> (r: Option<usize>)
    requires
        st + 4 <= end <= v@.len(),
    ensures
        match r {
            Some(i) => {
                &&& is_list_init(v@.subrange(st as int, end as int))
                &&& i == st + bracket_pos(v@.subrange(st as int, end as int))
                &&& st + 2 <= i
                &&& i + 2 <= end
            },
            None => !is_list_init(v@.subrange(st as int, end as int)),
        },
{
    let ghost tag = v@.subrange(st as int, end as int);
    let ghost inner = tag.subrange(2, tag.len() - 2);
    assert(inner =~= v@.subrange(st + 2, end - 2));
    let l = count_lead_trim(v, st + 2, end - 2);
    let ghost t = inner.skip(l as int);
    assert(t =~= v@.subrange(st + 2 + l, end - 2));
    let tr = count_trail_trim(v, st + 2 + l, end - 2);
    let lo = st + 2 + l;
    let hi = end - 2 - tr;
    let ghost core = trim_tag(inner);
    assert(core =~= v@.subrange(lo as int, hi as int));
    let mut c: Vec<char> = Vec::new();
    let mut k = lo;
    while k < hi
        invariant
            lo <= k <= hi <= v@.len(),
            c@ == v@.subrange(lo as int, k as int),
        decreases hi - k,
    {
        c.push(v[k]);
        assert(c@ =~= v@.subrange(lo as int, k + 1));
        k = k + 1;
    }
    let set: Vec<char> = vec!['s', 'e', 't', ' '];
    let brackets: Vec<char> = vec!['[', ']'];
    assert(set@ =~= set_word());
    assert(brackets@ =~= empty_list());
    if chars_occur_at(&c, &set, 0) && chars_end_with(&c, &brackets) {
        assert(c@.len() >= 2);
        Some(hi - 2)
    } else {
        None
    }
}

/// The template text with each `{% set name = [] %}` list made appendable:
/// its `[]` becomes a call of `appendable_list_function`.
pub fn prepare_template(source: &str) -> (r: String)
    ensures
        r@ == spec_prepare_template(source@),
{
    let v = chars_of(source);
    let open: Vec<char> = vec!['{', '%'];
    let close: Vec<char> = vec!['%', '}'];
    assert(open@ =~= tag_open());
    assert(close@ =~= tag_close());
    let call = appendable_list_function();
    let mut out = String::new();
    let mut pos: usize = 0;
    let n = v.len();
    loop
        invariant
            pos <= v@.len(),
            n == v@.len(),
            v@ == source@,
            open@ == tag_open(),
            close@ == tag_close(),
            call@ == list_function_name(),
            out@ + prepare_from(v@, pos as int) == spec_prepare_template(v@),
        decreases v@.len() - pos,
    {
        match find_chars(&v, &open, pos) {
            None => {
                push_chars(&mut out, &v, pos, v.len());
                return out;
            },
            Some(st) => {
                proof {
                    lemma_find_from(v@, tag_open(), pos as int);
                    assert(occurs_at(v@, tag_open(), st as int));
                    assert(tag_open().len() == 2);
                }
                match find_chars(&v, &close, st + 2) {
                    None => {
                        push_chars(&mut out, &v, pos, v.len());
                        return out;
                    },
                    Some(e) => {
                        proof {
                            lemma_find_from(v@, tag_close(), st + 2);
                            assert(occurs_at(v@, tag_close(), e as int));
                            assert(tag_close().len() == 2);
                        }
                        let ghost before = out@;
                        let ghost tag = v@.subrange(st as int, e + 2);
                        push_chars(&mut out, &v, pos, st);
                        match list_init_bracket(&v, st, e + 2) {
                            Some(i) => {
                                push_chars(&mut out, &v, st, i);
                                push_str(&mut out, call.as_str());
                                let parens: Vec<char> = vec!['(', ')'];
                                push_chars(&mut out, &parens, 0, 2);
                                push_chars(&mut out, &v, i + 2, e + 2);
                                proof {
                                    assert(parens@.subrange(0, 2) =~= seq!['(', ')']);
                                    assert(tag.take(i - st) =~= v@.subrange(st as int, i as int));
                                    assert(tag.skip(i - st + 2) =~= v@.subrange(i + 2, e + 2));
                                    assert(out@ =~= before + v@.subrange(pos as int, st as int) + rewrite_tag(tag));
                                }
                            },
                            None => {
                                push_chars(&mut out, &v, st, e + 2);
                            },
                        }
                        pos = e + 2;
                    },
                }
            },
        }
    }
}

/// The banner that a rendered file starts with (the template variable
/// `autogenerated_c_file`), naming the template it comes from.
pub open spec fn spec_banner(source_name: Seq<char>) -> Seq<char> {
    "// This file is autogenerated. Do not edit it by hand.\n// Source template file: "@ + source_name
}

/// The banner naming the template `source_name`.
pub fn banner(source_name: &str) -> (r: String)
    ensures
        r@ == spec_banner(source_name@),
{
    let mut out = String::new();
    push_str(&mut out, "// This file is autogenerated. Do not edit it by hand.\n// Source template file: ");
    push_str(&mut out, source_name);
    assert(out@ =~= spec_banner(source_name@));
    out
}

} // verus!
