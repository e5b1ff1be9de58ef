//! The project's `configuration` overrides applied to the `#define` lines
//! of a config header.

use vstd::prelude::*;

use crate::instance::{count_lead_ws, is_whitespace, is_ws, lead_ws, lemma_lead_ws};
use crate::text::{
    chars_of,
    chars_occur_at,
    find_chars,
    find_from,
    lemma_find_from,
    push_char,
    push_chars,
    push_str,
    starts_with,
    str_eq,
    string_from,
    string_of,
};

verus! {

broadcast use vstd::string::group_string_axioms;

/// The result of `char::is_alphanumeric` on `c`.
pub uninterp spec fn spec_is_alphanumeric(c: char) -> bool;

/// `char::is_alphanumeric`: whether `c` is alphabetic or numeric in the
/// Unicode sense; on an ASCII character, whether it is an ASCII letter or
/// digit. Its result is named by `spec_is_alphanumeric`.
#[verifier::external_body]
fn is_alphanumeric(c: char) -> (r: bool)
    ensures
        r == spec_is_alphanumeric(c),
        (c as int) < 128 ==> (r <==> ((97 <= (c as int) <= 122) || (65 <= (c as int) <= 90) || (48 <= (
            c as int) <= 57))),
{
    c.is_alphanumeric()
}

/// Whether the ASCII character `c` may appear in a macro name: an ASCII
/// letter, an ASCII digit or `_`.
pub open spec fn is_ascii_name_char(c: char) -> bool {
    (97 <= (c as int) <= 122) || (65 <= (c as int) <= 90) || (48 <= (c as int) <= 57) || c == '_'
}

/// Whether `c` may appear in a macro name: on ASCII, a letter, a digit or
/// `_`; beyond ASCII, an alphabetic or numeric character in the Unicode
/// sense.
pub open spec fn is_name_char(c: char) -> bool {
    if (c as int) < 128 {
        is_ascii_name_char(c)
    } else {
        spec_is_alphanumeric(c)
    }
}

/// Whether `c` may appear in a macro name.
fn name_char(c: char) -> (r: bool)
    ensures
        r == is_name_char(c),
{
    is_alphanumeric(c) || c == '_'
}

/// The length of the macro name at the start of `s`.
pub open spec fn name_len(s: Seq<char>) -> nat
    decreases s.len(),
{
    if s.len() > 0 && is_name_char(s[0]) {
        1 + name_len(s.drop_first())
    } else {
        0
    }
}

/// `#define`
pub open spec fn define_word() -> Seq<char> {
    seq!['#', 'd', 'e', 'f', 'i', 'n', 'e']
}

/// The length of the line ending of `line`: 2 for `\r\n`, 1 for a lone
/// `\n`, 0 for none.
pub open spec fn nl_len(line: Seq<char>) -> int {
    if line.len() >= 2 && line[line.len() - 2] == '\r' && line.last() == '\n' {
        2
    } else if line.len() >= 1 && line.last() == '\n' {
        1
    } else {
        0
    }
}

/// A line without its line ending (`\r\n` or `\n`).
pub open spec fn strip_nl(line: Seq<char>) -> Seq<char> {
    line.take(line.len() - nl_len(line))
}

/// The line ending of a line (`\r\n`, `\n`, or nothing).
pub open spec fn nl_of(line: Seq<char>) -> Seq<char> {
    line.skip(line.len() - nl_len(line))
}

/// The value given last to `name` in `pairs`.
pub open spec fn lookup_value(pairs: Seq<(Seq<char>, Seq<char>)>, name: Seq<char>) -> Option<Seq<char>>
    decreases pairs.len(),
{
    if pairs.len() == 0 {
        None
    } else if pairs.last().0 == name {
        Some(pairs.last().1)
    } else {
        lookup_value(pairs.drop_last(), name)
    }
}

/// Where `content` is an object-like `#define NAME ...` line (`#define`
/// after optional indentation, then white space, then a name not directly
/// followed by `(`): the length of the indentation and the name.
pub open spec fn define_parts(content: Seq<char>) -> Option<(int, Seq<char>)> {
    let lead = lead_ws(content);
    let trimmed = content.skip(lead as int);
    if !starts_with(trimmed, define_word()) {
        None
    } else {
        let after = trimmed.skip(7);
        if after.len() == 0 || !is_ws(after[0]) {
            None
        } else {
            let rest = after.skip(lead_ws(after) as int);
            let n = name_len(rest);
            if n == 0 || (n < rest.len() && rest[n as int] == '(') {
                None
            } else {
                Some((lead as int, rest.take(n as int)))
            }
        }
    }
}

/// The line with the value of its object-like `#define NAME ...` replaced
/// by the value `pairs` gives `NAME`, keeping the indentation and the line
/// ending (`\r\n` or `\n`); any other line is unchanged.
pub open spec fn spec_rewrite_line(line: Seq<char>, pairs: Seq<(Seq<char>, Seq<char>)>) -> Seq<char> {
    let content = strip_nl(line);
    match define_parts(content) {
        Some((lead, name)) => match lookup_value(pairs, name) {
            Some(v) => content.take(lead) + define_word() + seq![' '] + name + seq![' '] + v + nl_of(line),
            None => line,
        },
        None => line,
    }
}

/// The value given last to `name`.
fn find_value<'a>(values: &'a Vec<(String, String)>, name: &str) -> (r: Option<&'a String>)
    ensures
        match r {
            Some(v) => lookup_value(values.deep_view(), name@) == Some(v@),
            None => lookup_value(values.deep_view(), name@) is None,
        },
{
    let mut n: usize = values.len();
    assert(values.deep_view().take(n as int) =~= values.deep_view());
    while n > 0
        invariant
            n <= values@.len(),
            lookup_value(values.deep_view(), name@) == lookup_value(values.deep_view().take(n as int), name@),
        decreases n,
    {
        let ghost t = values.deep_view().take(n as int);
        assert(t.last() == values.deep_view()[n - 1]);
        assert(t.drop_last() =~= values.deep_view().take(n - 1));
        assert(values.deep_view()[n - 1] == (values@[n - 1].0@, values@[n - 1].1@));
        if str_eq(values[n - 1].0.as_str(), name) {
            return Some(&values[n - 1].1);
        }
        n = n - 1;
    }
    None
}

/// The indentation length and the bounds of the name of the object-like
/// `#define` line `v[..end]`.
fn find_define_parts(v: &Vec<char>, end: usize) -> (r: Option<(usize, usize, usize)>)
    requires
        end <= v@.len(),
    ensures
        match r {
            Some((lead, b, c)) => lead <= b <= c <= end && define_parts(v@.subrange(0, end as int)) == Some(
                (lead as int, v@.subrange(b as int, c as int)),
            ),
            None => define_parts(v@.subrange(0, end as int)) is None,
        },
{
    let ghost content = v@.subrange(0, end as int);
    let lead = count_lead_ws(v, 0, end);
    proof {
        lemma_lead_ws(content);
    }
    let ghost trimmed = content.skip(lead as int);
    assert(trimmed =~= v@.subrange(lead as int, end as int));
    let word: Vec<char> = vec!['#', 'd', 'e', 'f', 'i', 'n', 'e'];
    assert(word@ =~= define_word());
    if 7 > end - lead || !chars_occur_at(v, &word, lead) {
        proof {
            if 7 <= end - lead && starts_with(trimmed, define_word()) {
                assert(v@.subrange(lead as int, lead + 7) =~= trimmed.subrange(0, 7));
            }
        }
        return None;
    }
    assert(starts_with(trimmed, define_word())) by {
        assert(v@.subrange(lead as int, lead + 7) =~= trimmed.subrange(0, 7));
    }
    let a = lead + 7;
    let ghost after = trimmed.skip(7);
    assert(after =~= v@.subrange(a as int, end as int));
    if a >= end || !is_whitespace(v[a]) {
        return None;
    }
    let ws = count_lead_ws(v, a, end);
    proof {
        lemma_lead_ws(after);
    }
    let b = a + ws;
    let ghost rest = after.skip(lead_ws(after) as int);
    assert(rest =~= v@.subrange(b as int, end as int));
    let mut c = b;
    while c < end && name_char(v[c])
        invariant
            b <= c <= end <= v@.len(),
            name_len(v@.subrange(b as int, end as int)) == (c - b) + name_len(v@.subrange(c as int, end as int)),
        decreases end - c,
    {
        assert(v@.subrange(c as int, end as int).drop_first() =~= v@.subrange(c + 1, end as int));
        c = c + 1;
    }
    assert(name_len(v@.subrange(c as int, end as int)) == 0) by {
        if c < end {
            assert(v@.subrange(c as int, end as int)[0] == v@[c as int]);
        }
    }
    let ghost n = name_len(rest);
    assert(n == c - b);
    if c == b {
        return None;
    }
    if c < end && v[c] == '(' {
        assert(rest[n as int] == v@[c as int]);
        return None;
    }
    proof {
        if n < rest.len() {
            assert(rest[n as int] == v@[c as int]);
        }
        assert(rest.take(n as int) =~= v@.subrange(b as int, c as int));
    }
    Some((lead, b, c))
}

/// If `line` is an object-like `#define NAME ...` whose NAME has an override,
/// return the line with the value replaced (indentation and line ending,
/// `\r\n` or `\n`, preserved). Otherwise return the line unchanged.
pub fn rewrite_define_line(line: &str, values: &Vec<(String, String)>) -> (r: String)
    ensures
        r@ == spec_rewrite_line(line@, values.deep_view()),
{
    let v = chars_of(line);
    let n = v.len();
    let end: usize = if n >= 2 && v[n - 2] == '\r' && v[n - 1] == '\n' {
        n - 2
    } else if n > 0 && v[n - 1] == '\n' {
        n - 1
    } else {
        n
    };
    assert(end == n - nl_len(line@));
    let ghost content = v@.subrange(0, end as int);
    assert(content =~= strip_nl(line@));
    match find_define_parts(&v, end) {
        None => string_from(line),
        Some((lead, b, c)) => {
            let name = string_of(&v, b, c);
            match find_value(values, name.as_str()) {
                Some(val) => {
                    let word: Vec<char> = vec!['#', 'd', 'e', 'f', 'i', 'n', 'e'];
                    assert(word@.subrange(0, 7) =~= define_word());
                    let mut out = string_of(&v, 0, lead);
                    assert(out@ =~= content.take(lead as int));
                    push_chars(&mut out, &word, 0, 7);
                    push_char(&mut out, ' ');
                    push_str(&mut out, name.as_str());
                    push_char(&mut out, ' ');
                    push_str(&mut out, val.as_str());
                    push_chars(&mut out, &v, end, n);
                    assert(nl_of(line@) =~= v@.subrange(end as int, n as int));
                    assert(out@ =~= content.take(lead as int) + define_word() + seq![' '] + name@ + seq![' ']
                        + val@ + nl_of(line@));
                    out
                },
                None => string_from(line),
            }
        },
    }
}

/// The end of the line of `s` that starts at `pos`: just past its newline,
/// or the end of `s`.
pub open spec fn line_end(s: Seq<char>, pos: int) -> int {
    match find_from(s, seq!['\n'], pos) {
        Some(i) => i + 1,
        None => s.len() as int,
    }
}

/// The lines of `s[pos..]` (each with its newline), each rewritten.
pub open spec fn rewrite_from(s: Seq<char>, pairs: Seq<(Seq<char>, Seq<char>)>, pos: int) -> Seq<char>
    decreases s.len() - pos,
{
    if pos < 0 || pos >= s.len() {
        Seq::empty()
    } else {
        proof {
            lemma_find_from(s, seq!['\n'], pos);
        }
        spec_rewrite_line(s.subrange(pos, line_end(s, pos)), pairs) + rewrite_from(s, pairs, line_end(s, pos))
    }
}

/// `s` with each of its lines rewritten by `spec_rewrite_line`.
pub open spec fn spec_rewrite_defines(s: Seq<char>, pairs: Seq<(Seq<char>, Seq<char>)>) -> Seq<char> {
    rewrite_from(s, pairs, 0)
}

/// Rewrites each line of `contents` (split after each newline) with
/// `rewrite_define_line`.
pub fn rewrite_defines(contents: &str, values: &Vec<(String, String)>) -> (r: String)
    ensures
        r@ == spec_rewrite_defines(contents@, values.deep_view()),
{
    let v = chars_of(contents);
    let nl: Vec<char> = vec!['\n'];
    assert(nl@ =~= seq!['\n']);
    let mut out = String::new();
    let mut pos: usize = 0;
    while pos < v.len()
        invariant
            pos <= v@.len(),
            v@ == contents@,
            nl@ == seq!['\n'],
            out@ + rewrite_from(v@, values.deep_view(), pos as int) == spec_rewrite_defines(v@, values.deep_view()),
        decreases v@.len() - pos,
    {
        proof {
            lemma_find_from(v@, seq!['\n'], pos as int);
        }
        let e = match find_chars(&v, &nl, pos) {
            Some(i) => i + 1,
            None => v.len(),
        };
        assert(e == line_end(v@, pos as int));
        let line = string_of(&v, pos, e);
        let rw = rewrite_define_line(line.as_str(), values);
        let ghost before = out@;
        push_str(&mut out, rw.as_str());
        assert(out@ + rewrite_from(v@, values.deep_view(), e as int) =~= before + rewrite_from(
            v@,
            values.deep_view(),
            pos as int,
        ));
        pos = e;
    }
    out
}

// ---------------------------------------------------------------------------
// Laws
// ---------------------------------------------------------------------------

/// The last value given to a name is the one used: if `pairs[i]` names `n`
/// and no later pair does, `n` gets the value of `pairs[i]`.
pub proof fn lemma_last_rule_wins(pairs: Seq<(Seq<char>, Seq<char>)>, n: Seq<char>, i: int)
    requires
        0 <= i < pairs.len(),
        pairs[i].0 == n,
        forall|j: int| i < j < pairs.len() ==> (#[trigger] pairs[j]).0 != n,
    ensures
        lookup_value(pairs, n) == Some(pairs[i].1),
    decreases pairs.len(),
{
    if i < pairs.len() - 1 {
        assert(pairs[pairs.len() - 1] == pairs.last());
        let p0 = pairs.drop_last();
        assert forall|j: int| i < j < p0.len() implies (#[trigger] p0[j]).0 != n by {
            assert(p0[j] == pairs[j]);
        }
        lemma_last_rule_wins(p0, n, i);
    }
}

/// The value that `pairs` gives the `#define` of `line`, if it has one.
pub open spec fn line_value(line: Seq<char>, pairs: Seq<(Seq<char>, Seq<char>)>) -> Option<Seq<char>> {
    match define_parts(strip_nl(line)) {
        Some((_, name)) => lookup_value(pairs, name),
        None => None,
    }
}

/// Leading white space that ends where a non-white character starts.
proof fn lemma_lead_ws_exact(s: Seq<char>, l: nat)
    requires
        l <= s.len(),
        forall|k: int| 0 <= k < l ==> is_ws(#[trigger] s[k]),
        l < s.len() ==> !is_ws(s[l as int]),
    ensures
        lead_ws(s) == l,
    decreases l,
{
    if l > 0 {
        let t = s.drop_first();
        assert forall|k: int| 0 <= k < l - 1 implies is_ws(#[trigger] t[k]) by {
            assert(t[k] == s[k + 1]);
            assert(is_ws(s[k + 1]));
        }
        if l - 1 < t.len() {
            assert(t[l - 1] == s[l as int]);
        }
        assert(is_ws(s[0]));
        lemma_lead_ws_exact(t, (l - 1) as nat);
    }
}

/// The characters counted by `name_len` are name characters.
proof fn lemma_name_len_chars(s: Seq<char>)
    ensures
        name_len(s) <= s.len(),
        forall|k: int| 0 <= k < name_len(s) ==> is_name_char(#[trigger] s[k]),
    decreases s.len(),
{
    if s.len() > 0 && is_name_char(s[0]) {
        let t = s.drop_first();
        lemma_name_len_chars(t);
        assert forall|k: int| 0 <= k < name_len(s) implies is_name_char(#[trigger] s[k]) by {
            if k > 0 {
                assert(s[k] == t[k - 1]);
            }
        }
    }
}

/// A run of name characters that ends where another character starts.
proof fn lemma_name_len_exact(s: Seq<char>, l: nat)
    requires
        l <= s.len(),
        forall|k: int| 0 <= k < l ==> is_name_char(#[trigger] s[k]),
        l < s.len() ==> !is_name_char(s[l as int]),
    ensures
        name_len(s) == l,
    decreases l,
{
    if l > 0 {
        let t = s.drop_first();
        assert forall|k: int| 0 <= k < l - 1 implies is_name_char(#[trigger] t[k]) by {
            assert(t[k] == s[k + 1]);
            assert(is_name_char(s[k + 1]));
        }
        if l - 1 < t.len() {
            assert(t[l - 1] == s[l as int]);
        }
        assert(is_name_char(s[0]));
        lemma_name_len_exact(t, (l - 1) as nat);
    }
}

/// The line ending of `x + w` is that of `w` when `x` ends in a space.
proof fn lemma_nl_after_space(x: Seq<char>, w: Seq<char>)
    requires
        x.len() > 0,
        x.last() == ' ',
    ensures
        nl_len(x + w) == nl_len(w),
{
    let r = x + w;
    if w.len() >= 2 {
        assert(r[r.len() - 2] == w[w.len() - 2]);
        assert(r.last() == w.last());
    } else if w.len() == 1 {
        assert(r[r.len() - 2] == ' ');
        assert(r.last() == w.last());
    } else {
        assert(r =~= x);
    }
}

/// Rewriting a `#define` line a second time changes nothing, unless the
/// value it took runs into the line's ending (a value ending in `\n` on a
/// line without an ending, or in `\r` on a line ending in a lone `\n`).
pub proof fn lemma_rewrite_line_idempotent(line: Seq<char>, pairs: Seq<(Seq<char>, Seq<char>)>)
    requires
        line_value(line, pairs) matches Some(v) ==> nl_of(v + nl_of(line)) == nl_of(line),
    ensures
        spec_rewrite_line(spec_rewrite_line(line, pairs), pairs) == spec_rewrite_line(line, pairs),
{
    let content = strip_nl(line);
    if let Some((lead, name)) = define_parts(content) {
        if let Some(v) = lookup_value(pairs, name) {
            let nl = nl_of(line);
            let indent = content.take(lead);
            let x = indent + define_word() + seq![' '] + name + seq![' '];
            let body = x + v;
            let r = body + nl;
            assert(r == spec_rewrite_line(line, pairs));
            // the ending of the rewritten line is the original ending
            assert(x.last() == ' ');
            lemma_nl_after_space(x, v + nl);
            assert(r =~= x + (v + nl));
            assert(nl_len(v + nl) == nl.len()) by {
                assert((v + nl).skip((v + nl).len() - nl_len(v + nl)).len() == nl_len(v + nl));
            }
            assert(strip_nl(r) =~= body);
            assert(nl_of(r) =~= nl);
            // the indentation is the same
            lemma_lead_ws(content);
            assert(lead == lead_ws(content));
            assert forall|k: int| 0 <= k < lead implies is_ws(#[trigger] body[k]) by {
                assert(body[k] == content[k]);
            }
            assert(body[lead] == '#');
            lemma_lead_ws_exact(body, lead as nat);
            // the name is the same
            let after0 = content.skip(lead).skip(7);
            lemma_lead_ws(after0);
            let rest0 = after0.skip(lead_ws(after0) as int);
            lemma_name_len_chars(rest0);
            let n = name_len(rest0);
            assert(name =~= rest0.take(n as int));
            assert(rest0[0] == name[0]);
            let trimmed = body.skip(lead);
            assert(trimmed =~= define_word() + seq![' '] + name + seq![' '] + v);
            assert(trimmed.subrange(0, 7) =~= define_word());
            assert(starts_with(trimmed, define_word()));
            let after = trimmed.skip(7);
            assert(after =~= seq![' '] + name + seq![' '] + v);
            assert forall|k: int| 0 <= k < 1 implies is_ws(#[trigger] after[k]) by {}
            assert(after[1] == name[0]);
            lemma_lead_ws_exact(after, 1);
            let rest = after.skip(1);
            assert(rest =~= name + seq![' '] + v);
            assert forall|k: int| 0 <= k < name.len() implies is_name_char(#[trigger] rest[k]) by {
                assert(rest[k] == name[k]);
                assert(name[k] == rest0[k]);
            }
            assert(rest[name.len() as int] == ' ');
            lemma_name_len_exact(rest, name.len());
            assert(rest.take(name.len() as int) =~= name);
            assert(define_parts(body) == Some((lead, name)));
            assert(body.take(lead) =~= indent);
        }
    }
}

/// Without any override, every line is left as it is.
pub proof fn lemma_rewrite_line_without_overrides(line: Seq<char>)
    ensures
        spec_rewrite_line(line, Seq::empty()) == line,
{
}

/// Without any override, rewriting leaves the text unchanged.
pub proof fn lemma_rewrite_without_overrides(s: Seq<char>)
    ensures
        spec_rewrite_defines(s, Seq::empty()) == s,
{
    lemma_rewrite_from_without_overrides(s, 0);
    assert(s.subrange(0, s.len() as int) =~= s);
}

proof fn lemma_rewrite_from_without_overrides(s: Seq<char>, pos: int)
    requires
        0 <= pos <= s.len(),
    ensures
        rewrite_from(s, Seq::empty(), pos) == s.subrange(pos, s.len() as int),
    decreases s.len() - pos,
{
    if pos < s.len() {
        lemma_find_from(s, seq!['\n'], pos);
        let e = line_end(s, pos);
        lemma_rewrite_from_without_overrides(s, e);
        lemma_rewrite_line_without_overrides(s.subrange(pos, e));
        assert(s.subrange(pos, e) + s.subrange(e, s.len() as int) =~= s.subrange(pos, s.len() as int));
    } else {
        assert(s.subrange(pos, s.len() as int) =~= Seq::<char>::empty());
    }
}

} // verus!
