//! Template contributions: the values that components and the project
//! contribute to template variables, grouped by variable and ordered by
//! priority (lowest first), then by contributing component id, keeping the
//! declaration order among equals.

use vstd::prelude::*;

use crate::definitions::{
    applies,
    clone_value,
    IntermediateTemplateContribution,
    TemplateContribution,
};
use crate::features::FeatureSet;
use crate::instances::{lemma_map_of, map_of};
use crate::resolve::opt_seq;
use crate::text::{lemma_lt_asymmetric, lemma_lt_irreflexive, lemma_lt_total, lemma_lt_transitive, seq_lt, str_eq, str_lt};

verus! {

broadcast use vstd::string::group_string_axioms;

/// A contribution: (variable name, value, priority, contributing component
/// id).
pub type ContribView = (Seq<char>, minijinja::Value, Option<i16>, Seq<char>);

/// The priority of a contribution; none counts as 0.
pub open spec fn priority_of(t: ContribView) -> int {
    match t.2 {
        Some(x) => x as int,
        None => 0,
    }
}

/// `a` is ordered strictly before `b`: a lower priority, or the same
/// priority and a smaller component id.
pub open spec fn contrib_lt(a: ContribView, b: ContribView) -> bool {
    priority_of(a) < priority_of(b) || (priority_of(a) == priority_of(b) && seq_lt(a.3, b.3))
}

/// The position at which `x` goes into `s`: after every element that is not
/// ordered strictly after it, scanning from the end.
pub open spec fn insert_pos(s: Seq<ContribView>, x: ContribView) -> int
    decreases s.len(),
{
    if s.len() == 0 || !contrib_lt(x, s.last()) {
        s.len() as int
    } else {
        insert_pos(s.drop_last(), x)
    }
}

/// `s` with `x` inserted at `insert_pos(s, x)`.
pub open spec fn insert_sorted(s: Seq<ContribView>, x: ContribView) -> Seq<ContribView> {
    s.insert(insert_pos(s, x), x)
}

/// The stable sort of `s` by `contrib_lt`: insertion of each element, in
/// order, into the sorted prefix.
pub open spec fn sort_contribs(s: Seq<ContribView>) -> Seq<ContribView>
    decreases s.len(),
{
    if s.len() == 0 {
        Seq::empty()
    } else {
        insert_sorted(sort_contribs(s.drop_last()), s.last())
    }
}

/// The contributions of `s` to the variable `n`, in order.
pub open spec fn group(s: Seq<ContribView>, n: Seq<char>) -> Seq<ContribView>
    decreases s.len(),
{
    if s.len() == 0 {
        Seq::empty()
    } else if s.last().0 == n {
        group(s.drop_last(), n).push(s.last())
    } else {
        group(s.drop_last(), n)
    }
}

/// Without a contribution to `n`, the group of `n` is empty.
proof fn lemma_group_empty(s: Seq<ContribView>, n: Seq<char>)
    requires
        forall|i: int| 0 <= i < s.len() ==> (#[trigger] s[i]).0 != n,
    ensures
        group(s, n) == Seq::<ContribView>::empty(),
    decreases s.len(),
{
    if s.len() > 0 {
        assert(s[s.len() - 1] == s.last());
        assert forall|i: int| 0 <= i < s.drop_last().len() implies (#[trigger] s.drop_last()[i]).0 != n by {
            assert(s.drop_last()[i] == s[i]);
        }
        lemma_group_empty(s.drop_last(), n);
    }
}

/// The variables with a contribution in `s`, each mapped to its values in
/// sorted order.
pub open spec fn contribution_map(s: Seq<ContribView>) -> Map<Seq<char>, Seq<minijinja::Value>> {
    Map::new(
        |n: Seq<char>| exists|i: int| 0 <= i < s.len() && (#[trigger] s[i]).0 == n,
        |n: Seq<char>| sort_contribs(group(s, n)).map_values(|t: ContribView| t.1),
    )
}

/// The contributions of the entries of `es` that apply in `p`, made by the
/// component `cid` (empty for the project).
pub open spec fn contribs_view(es: Seq<TemplateContribution>, cid: Seq<char>, p: Set<Seq<char>>) -> Seq<ContribView>
    decreases es.len(),
{
    if es.len() == 0 {
        Seq::empty()
    } else {
        let prev = contribs_view(es.drop_last(), cid, p);
        let e = es.last();
        if applies(e.condition, e.unless, p) {
            prev.push((e.name@, e.value, e.priority, cid))
        } else {
            prev
        }
    }
}

/// Appends the contributions of the entries of `es` that apply in `p`.
pub fn push_contributions(
    out: &mut Vec<IntermediateTemplateContribution>,
    es: &Option<Vec<TemplateContribution>>,
    cid: &str,
    p: &FeatureSet,
)
    ensures
        final(out).deep_view() == old(out).deep_view() + contribs_view(opt_seq(*es), cid@, p.set()),
{
    let ghost start = out.deep_view();
    match es {
        Some(list) => {
            let mut i: usize = 0;
            while i < list.len()
                invariant
                    i <= list@.len(),
                    out.deep_view() == start + contribs_view(list@.take(i as int), cid@, p.set()),
                decreases list@.len() - i,
            {
                assert(list@.take(i + 1).drop_last() =~= list@.take(i as int));
                assert(list@.take(i + 1).last() == list@[i as int]);
                let e = &list[i];
                if e.satisfied(p) {
                    let ghost before = out.deep_view();
                    out.push(
                        IntermediateTemplateContribution::from_contribution(
                            e,
                            crate::text::string_from(cid),
                        ),
                    );
                    assert(out.deep_view() =~= before.push((e.name@, e.value, e.priority, cid@)));
                }
                i = i + 1;
            }
            assert(list@.take(list@.len() as int) =~= list@);
        },
        None => {
            assert(out.deep_view() =~= start + Seq::empty());
        },
    }
}

/// Whether `a` is ordered strictly before `b`.
fn contrib_before(a: &IntermediateTemplateContribution, b: &IntermediateTemplateContribution) -> (r: bool)
    ensures
        r == contrib_lt(a.deep_view(), b.deep_view()),
{
    let pa: i16 = match a.priority {
        Some(x) => x,
        None => 0,
    };
    let pb: i16 = match b.priority {
        Some(x) => x,
        None => 0,
    };
    pa < pb || (pa == pb && str_lt(a.component_id.as_str(), b.component_id.as_str()))
}

/// Inserts `x` into `list` at `insert_pos`.
fn insert_contribution(list: &mut Vec<IntermediateTemplateContribution>, x: IntermediateTemplateContribution)
    ensures
        final(list).deep_view() == insert_sorted(old(list).deep_view(), x.deep_view()),
{
    let ghost s = list.deep_view();
    let ghost xv = x.deep_view();
    let mut pos = list.len();
    assert(s.take(pos as int) =~= s);
    while pos > 0 && contrib_before(&x, &list[pos - 1])
        invariant
            pos <= list@.len(),
            s == list.deep_view(),
            xv == x.deep_view(),
            insert_pos(s, xv) == insert_pos(s.take(pos as int), xv),
        decreases pos,
    {
        let ghost t = s.take(pos as int);
        assert(t.last() == s[pos - 1]);
        assert(t.drop_last() =~= s.take(pos - 1));
        pos = pos - 1;
    }
    proof {
        let t = s.take(pos as int);
        if pos > 0 {
            assert(t.last() == s[pos - 1]);
        }
        assert(insert_pos(t, xv) == pos);
    }
    let ghost before = list@;
    list.insert(pos, x);
    assert(list.deep_view() =~= s.insert(pos as int, xv)) by {
        assert(list@ == before.insert(pos as int, x));
    }
}

/// The values contributed to each template variable, in order.
#[derive(Debug)]
pub struct ContributionMap {
    names: Vec<String>,
    values: Vec<Vec<minijinja::Value>>,
}

/// The views of a list of value lists.
pub open spec fn values_view(v: Seq<Vec<minijinja::Value>>) -> Seq<Seq<minijinja::Value>> {
    v.map_values(|l: Vec<minijinja::Value>| l@)
}

impl View for ContributionMap {
    type V = Map<Seq<char>, Seq<minijinja::Value>>;

    closed spec fn view(&self) -> Map<Seq<char>, Seq<minijinja::Value>> {
        map_of(self.names.deep_view(), values_view(self.values@))
    }
}

impl ContributionMap {
    /// One value list per name, and no name twice.
    #[verifier::type_invariant]
    spec fn wf(&self) -> bool {
        &&& self.names@.len() == self.values@.len()
        &&& self.names.deep_view().no_duplicates()
    }

    /// The number of variables.
    pub fn len(&self) -> (r: usize)
        ensures
            r == self@.dom().len(),
    {
        proof {
            use_type_invariant(self);
            lemma_map_of(self.names.deep_view(), values_view(self.values@));
            self.names.deep_view().unique_seq_to_set();
            assert(self@.dom() =~= self.names.deep_view().to_set());
        }
        self.names.len()
    }

    /// The name of the `i`-th variable, and its values.
    pub fn entry(&self, i: usize) -> (r: (&String, &Vec<minijinja::Value>))
        requires
            i < self@.dom().len(),
        ensures
            self@.contains_key(r.0@),
            self@[r.0@] == r.1@,
    {
        proof {
            use_type_invariant(self);
            lemma_map_of(self.names.deep_view(), values_view(self.values@));
            self.names.deep_view().unique_seq_to_set();
            assert(self@.dom() =~= self.names.deep_view().to_set());
            assert(self.names.deep_view()[i as int] == self.names@[i as int]@);
            assert(values_view(self.values@)[i as int] == self.values@[i as int]@);
        }
        (&self.names[i], &self.values[i])
    }

    /// The values contributed to the variable `name`.
    pub fn get(&self, name: &str) -> (r: Option<&Vec<minijinja::Value>>)
        ensures
            match r {
                Some(v) => self@.contains_key(name@) && self@[name@] == v@,
                None => !self@.contains_key(name@),
            },
    {
        proof {
            use_type_invariant(self);
            lemma_map_of(self.names.deep_view(), values_view(self.values@));
        }
        let mut i: usize = 0;
        while i < self.names.len()
            invariant
                i <= self.names@.len(),
                self.names@.len() == self.values@.len(),
                forall|k: int| 0 <= k < i ==> self.names@[k]@ != name@,
            decreases self.names@.len() - i,
        {
            if str_eq(self.names[i].as_str(), name) {
                proof {
                    use_type_invariant(self);
                    lemma_map_of(self.names.deep_view(), values_view(self.values@));
                }
                assert(self.names.deep_view()[i as int] == name@);
                assert(values_view(self.values@)[i as int] == self.values@[i as int]@);
                return Some(&self.values[i]);
            }
            i = i + 1;
        }
        proof {
            if self.names.deep_view().contains(name@) {
                let k = choose|k: int|
                    0 <= k < self.names.deep_view().len() && self.names.deep_view()[k] == name@;
                assert(self.names@[k]@ == name@);
            }
        }
        None
    }

    /// Groups the contributions `all` by variable, each group in sorted
    /// order.
    pub fn from_contributions(all: &Vec<IntermediateTemplateContribution>) -> (r: ContributionMap)
        ensures
            r@ == contribution_map(all.deep_view()),
    {
        let ghost a = all.deep_view();
        let mut names: Vec<String> = Vec::new();
        let mut lists: Vec<Vec<IntermediateTemplateContribution>> = Vec::new();
        let mut i: usize = 0;
        while i < all.len()
            invariant
                i <= all@.len(),
                a == all.deep_view(),
                names@.len() == lists@.len(),
                names.deep_view().no_duplicates(),
                forall|n: Seq<char>|
                    names.deep_view().contains(n) <==> exists|k: int|
                        0 <= k < i && (#[trigger] a[k]).0 == n,
                forall|j: int|
                    0 <= j < lists@.len() ==> (#[trigger] lists@[j]).deep_view() == sort_contribs(
                        group(a.take(i as int), names@[j]@),
                    ),
            decreases all@.len() - i,
        {
            let t = &all[i];
            let ghost t0 = a.take(i as int);
            let ghost t1 = a.take(i + 1);
            assert(t1.drop_last() =~= t0);
            assert(t1.last() == t.deep_view());
            assert(a[i as int] == t.deep_view());
            let item = IntermediateTemplateContribution {
                name: crate::text::copy_string(&t.name),
                value: clone_value(&t.value),
                priority: t.priority,
                component_id: crate::text::copy_string(&t.component_id),
            };
            assert(item.deep_view() == t.deep_view());
            let mut pos: usize = 0;
            while pos < names.len() && !str_eq(names[pos].as_str(), t.name.as_str())
                invariant
                    pos <= names@.len(),
                    forall|k: int| 0 <= k < pos ==> names@[k]@ != t.name@,
                decreases names@.len() - pos,
            {
                pos = pos + 1;
            }
            let ghost names0 = names.deep_view();
            let ghost lists0 = lists@;
            if pos < names.len() {
                assert(names@[pos as int]@ == t.name@);
                let mut cur: Vec<IntermediateTemplateContribution> = Vec::new();
                std::mem::swap(&mut cur, &mut lists[pos]);
                assert(cur.deep_view() == sort_contribs(group(t0, t.name@)));
                insert_contribution(&mut cur, item);
                lists.set(pos, cur);
                proof {
                    assert(group(t1, t.name@) == group(t0, t.name@).push(t.deep_view()));
                    assert forall|j: int|
                        0 <= j < lists@.len() implies (#[trigger] lists@[j]).deep_view() == sort_contribs(
                        group(t1, names@[j]@),
                    ) by {
                        if j != pos {
                            assert(lists@[j] == lists0[j]);
                            assert(names@[j]@ != t.name@) by {
                                assert(names.deep_view()[j] == names@[j]@);
                                assert(names.deep_view()[pos as int] == names@[pos as int]@);
                            }
                            assert(group(t1, names@[j]@) == group(t0, names@[j]@));
                        } else {
                            assert(group(t1, t.name@).drop_last() =~= group(t0, t.name@));
                        }
                    }
                    assert forall|n: Seq<char>|
                        names.deep_view().contains(n) <==> exists|k: int|
                            0 <= k < i + 1 && (#[trigger] a[k]).0 == n by {
                        if n == t.name@ {
                            assert(a[i as int].0 == n);
                            assert(names.deep_view()[pos as int] == n);
                        }
                        if exists|k: int| 0 <= k < i + 1 && (#[trigger] a[k]).0 == n {
                            let k = choose|k: int| 0 <= k < i + 1 && (#[trigger] a[k]).0 == n;
                            if k < i {
                                assert(names0.contains(n));
                            }
                        }
                    }
                }
            } else {
                proof {
                    assert(!names0.contains(t.name@)) by {
                        if names0.contains(t.name@) {
                            let k = choose|k: int| 0 <= k < names0.len() && names0[k] == t.name@;
                            assert(names@[k]@ == t.name@);
                        }
                    }
                    assert forall|k: int| 0 <= k < t0.len() implies (#[trigger] t0[k]).0 != t.name@ by {
                        assert(t0[k] == a[k]);
                    }
                    lemma_group_empty(t0, t.name@);
                }
                let mut cur: Vec<IntermediateTemplateContribution> = Vec::new();
                insert_contribution(&mut cur, item);
                names.push(crate::text::copy_string(&t.name));
                lists.push(cur);
                proof {
                    assert(group(t1, t.name@) == group(t0, t.name@).push(t.deep_view()));
                    assert(sort_contribs(group(t1, t.name@)) == insert_sorted(
                        sort_contribs(group(t0, t.name@)),
                        t.deep_view(),
                    )) by {
                        assert(group(t1, t.name@).drop_last() =~= group(t0, t.name@));
                    }
                    assert(names.deep_view() =~= names0.push(t.name@));
                    assert forall|j: int|
                        0 <= j < lists@.len() implies (#[trigger] lists@[j]).deep_view() == sort_contribs(
                        group(t1, names@[j]@),
                    ) by {
                        if j < lists0.len() {
                            assert(lists@[j] == lists0[j]);
                            assert(names@[j]@ == names0[j]);
                            assert(names0[j] != t.name@);
                            assert(group(t1, names@[j]@) == group(t0, names@[j]@));
                        }
                    }
                    assert forall|x: int, y: int|
                        0 <= x < names.deep_view().len() && 0 <= y < names.deep_view().len() && x != y implies names.deep_view()[x]
                            != names.deep_view()[y] by {
                        if x == names0.len() {
                            assert(names0.contains(names0[y]));
                        } else if y == names0.len() {
                            assert(names0.contains(names0[x]));
                        }
                    }
                    assert forall|n: Seq<char>|
                        names.deep_view().contains(n) <==> exists|k: int|
                            0 <= k < i + 1 && (#[trigger] a[k]).0 == n by {
                        if n == t.name@ {
                            assert(a[i as int].0 == n);
                            assert(names.deep_view()[names0.len() as int] == n);
                        }
                        if names0.contains(n) {
                            let k = choose|k: int| 0 <= k < names0.len() && names0[k] == n;
                            assert(names.deep_view()[k] == n);
                        }
                        if names.deep_view().contains(n) && n != t.name@ {
                            let k = choose|k: int|
                                0 <= k < names.deep_view().len() && names.deep_view()[k] == n;
                            assert(names0[k] == n);
                        }
                        if exists|k: int| 0 <= k < i + 1 && (#[trigger] a[k]).0 == n {
                            let k = choose|k: int| 0 <= k < i + 1 && (#[trigger] a[k]).0 == n;
                            if k < i {
                                assert(names0.contains(n));
                            }
                        }
                    }
                }
            }
            i = i + 1;
        }
        assert(a.take(all@.len() as int) =~= a);
        let mut values: Vec<Vec<minijinja::Value>> = Vec::new();
        let mut j: usize = 0;
        while j < lists.len()
            invariant
                j <= lists@.len(),
                values@.len() == j,
                forall|q: int|
                    0 <= q < j ==> (#[trigger] values@[q])@ == lists@[q].deep_view().map_values(
                        |t: ContribView| t.1,
                    ),
            decreases lists@.len() - j,
        {
            let l = &lists[j];
            let mut vs: Vec<minijinja::Value> = Vec::new();
            let mut q: usize = 0;
            while q < l.len()
                invariant
                    q <= l@.len(),
                    vs@ == l.deep_view().map_values(|t: ContribView| t.1).take(q as int),
                decreases l@.len() - q,
            {
                vs.push(clone_value(&l[q].value));
                assert(l.deep_view()[q as int] == l@[q as int].deep_view());
                assert(vs@ =~= l.deep_view().map_values(|t: ContribView| t.1).take(q + 1));
                q = q + 1;
            }
            assert(vs@ =~= l.deep_view().map_values(|t: ContribView| t.1));
            values.push(vs);
            j = j + 1;
        }
        let r = ContributionMap { names, values };
        proof {
            lemma_map_of(r.names.deep_view(), values_view(r.values@));
            assert forall|n: Seq<char>| #[trigger] r@.contains_key(n) implies r@[n] == contribution_map(a)[n] by {
                let k = choose|k: int| 0 <= k < r.names.deep_view().len() && r.names.deep_view()[k] == n;
                assert(r.names.deep_view()[k] == r.names@[k]@);
                assert(r@[r.names.deep_view()[k]] == values_view(r.values@)[k]);
                assert(values_view(r.values@)[k] == r.values@[k]@);
            }
            assert(r@.dom() =~= contribution_map(a).dom());
            assert(r@ =~= contribution_map(a));
        }
        r
    }
}


// ---------------------------------------------------------------------------
// Laws
// ---------------------------------------------------------------------------

/// No contribution of `s` is ordered strictly before an earlier one.
pub open spec fn contribs_sorted(s: Seq<ContribView>) -> bool {
    forall|i: int, j: int| 0 <= i < j < s.len() ==> !contrib_lt(#[trigger] s[j], #[trigger] s[i])
}

/// `contrib_lt` is a strict order: irreflexive, asymmetric, and "not after"
/// is transitive.
proof fn lemma_contrib_order(a: ContribView, b: ContribView, c: ContribView)
    ensures
        !contrib_lt(a, a),
        contrib_lt(a, b) ==> !contrib_lt(b, a),
        !contrib_lt(b, a) && !contrib_lt(c, b) ==> !contrib_lt(c, a),
{
    lemma_lt_irreflexive(a.3);
    lemma_lt_asymmetric(a.3, b.3);
    if !contrib_lt(b, a) && !contrib_lt(c, b) && contrib_lt(c, a) {
        assert(priority_of(a) == priority_of(b) && priority_of(b) == priority_of(c));
        lemma_lt_total(a.3, b.3);
        lemma_lt_total(b.3, c.3);
        if a.3 == b.3 {
            lemma_lt_asymmetric(c.3, b.3);
        } else if b.3 == c.3 {
            lemma_lt_asymmetric(c.3, a.3);
        } else {
            lemma_lt_transitive(a.3, b.3, c.3);
            lemma_lt_asymmetric(a.3, c.3);
        }
    }
}

/// Where `insert_pos` puts `x`: every element from there on is ordered after
/// `x`, and the element just before is not.
proof fn lemma_insert_pos(s: Seq<ContribView>, x: ContribView)
    ensures
        0 <= insert_pos(s, x) <= s.len(),
        forall|k: int| insert_pos(s, x) <= k < s.len() ==> contrib_lt(x, #[trigger] s[k]),
        insert_pos(s, x) > 0 ==> !contrib_lt(x, s[insert_pos(s, x) - 1]),
    decreases s.len(),
{
    if s.len() > 0 && contrib_lt(x, s.last()) {
        let s0 = s.drop_last();
        lemma_insert_pos(s0, x);
        assert forall|k: int| insert_pos(s, x) <= k < s.len() implies contrib_lt(x, #[trigger] s[k]) by {
            if k < s.len() - 1 {
                assert(s0[k] == s[k]);
            }
        }
        if insert_pos(s, x) > 0 {
            assert(s0[insert_pos(s, x) - 1] == s[insert_pos(s, x) - 1]);
        }
    } else if s.len() > 0 {
        assert(s[s.len() - 1] == s.last());
    }
}

/// Inserting into a sorted sequence keeps it sorted.
proof fn lemma_insert_sorted(s: Seq<ContribView>, x: ContribView)
    requires
        contribs_sorted(s),
    ensures
        contribs_sorted(insert_sorted(s, x)),
        insert_sorted(s, x).to_multiset() == s.to_multiset().insert(x),
{
    let p = insert_pos(s, x);
    lemma_insert_pos(s, x);
    let r = insert_sorted(s, x);
    assert(r == s.insert(p, x));
    vstd::seq_lib::to_multiset_insert(s, p, x);
    assert forall|i: int, j: int| 0 <= i < j < r.len() implies !contrib_lt(#[trigger] r[j], #[trigger] r[i]) by {
        if j < p {
            assert(r[i] == s[i] && r[j] == s[j]);
        } else if i > p {
            assert(r[i] == s[i - 1] && r[j] == s[j - 1]);
        } else if i < p && j > p {
            assert(r[i] == s[i] && r[j] == s[j - 1]);
        } else if i == p {
            assert(r[i] == x && r[j] == s[j - 1]);
            lemma_contrib_order(x, s[j - 1], x);
        } else {
            assert(j == p && i < p);
            assert(r[i] == s[i] && r[j] == x);
            if i < p - 1 {
                assert(!contrib_lt(s[p - 1], s[i]));
            }
            lemma_contrib_order(s[i], s[p - 1], x);
        }
    }
}

/// The contributions to a variable come out sorted by priority, then by
/// component id, and they are exactly the contributions made.
pub proof fn lemma_sort_contribs(s: Seq<ContribView>)
    ensures
        contribs_sorted(sort_contribs(s)),
        sort_contribs(s).to_multiset() == s.to_multiset(),
    decreases s.len(),
{
    if s.len() == 0 {
        assert(sort_contribs(s) =~= s);
    } else {
        lemma_sort_contribs(s.drop_last());
        lemma_insert_sorted(sort_contribs(s.drop_last()), s.last());
        vstd::seq_lib::to_multiset_build(s.drop_last(), s.last());
        assert(s.drop_last().push(s.last()) =~= s);
    }
}

} // verus!
