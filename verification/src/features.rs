//! Ordered sets of feature names.
//!
//! A `FeatureSet` keeps its names strictly increasing in the order of
//! `seq_lt`, so that iterating it visits names in the same order as an
//! ordered map or set keyed by `String` would.

use vstd::prelude::*;

use crate::text::{seq_lt, lemma_lt_irreflexive, lemma_lt_asymmetric, lemma_lt_total, lemma_lt_transitive, str_eq, str_lt};

verus! {

/// Whether the names in `s` are strictly increasing (hence distinct).
pub open spec fn strictly_sorted(s: Seq<Seq<char>>) -> bool {
    forall|i: int, j: int| 0 <= i < j < s.len() ==> seq_lt(#[trigger] s[i], #[trigger] s[j])
}

/// The set of elements of a sequence of names.
pub open spec fn elems(s: Seq<Seq<char>>) -> Set<Seq<char>> {
    Set::new(|x: Seq<char>| s.contains(x))
}

/// The elements of `s.push(a)` are those of `s` and `a`.
pub proof fn lemma_elems_push(s: Seq<Seq<char>>, a: Seq<char>)
    ensures
        elems(s.push(a)) == elems(s).insert(a),
{
    assert forall|x: Seq<char>|
        elems(s.push(a)).contains(x) <==> elems(s).insert(a).contains(x) by {
        if s.push(a).contains(x) {
            let k = choose|k: int| 0 <= k < s.len() + 1 && s.push(a)[k] == x;
            if k < s.len() {
                assert(s[k] == x);
            }
        }
        if s.contains(x) {
            let k = choose|k: int| 0 <= k < s.len() && s[k] == x;
            assert(s.push(a)[k] == x);
        }
        if x == a {
            assert(s.push(a)[s.len() as int] == x);
        }
    }
    assert(elems(s.push(a)) =~= elems(s).insert(a));
}

/// The elements of `s.insert(p, a)` are those of `s` and `a`.
pub proof fn lemma_elems_insert(s: Seq<Seq<char>>, p: int, a: Seq<char>)
    requires
        0 <= p <= s.len(),
    ensures
        elems(s.insert(p, a)) == elems(s).insert(a),
{
    let t = s.insert(p, a);
    assert forall|x: Seq<char>| elems(t).contains(x) <==> elems(s).insert(a).contains(x) by {
        if t.contains(x) {
            let k = choose|k: int| 0 <= k < t.len() && t[k] == x;
            if k < p {
                assert(s[k] == x);
            } else if k > p {
                assert(s[k - 1] == x);
            }
        }
        if s.contains(x) {
            let k = choose|k: int| 0 <= k < s.len() && s[k] == x;
            if k < p {
                assert(t[k] == x);
            } else {
                assert(t[k + 1] == x);
            }
        }
        if x == a {
            assert(t[p] == x);
        }
    }
    assert(elems(t) =~= elems(s).insert(a));
}

/// Two strictly sorted sequences with the same elements are equal.
pub proof fn lemma_sorted_unique(a: Seq<Seq<char>>, b: Seq<Seq<char>>)
    requires
        strictly_sorted(a),
        strictly_sorted(b),
        forall|x: Seq<char>| a.contains(x) <==> b.contains(x),
    ensures
        a == b,
    decreases a.len(),
{
    if a.len() == 0 {
        if b.len() > 0 {
            assert(b.contains(b[0]));
        }
        assert(a =~= b);
    } else {
        assert(a.contains(a[0]));
        assert(b.len() > 0);
        assert(b.contains(b[0]));
        let k = choose|k: int| 0 <= k < b.len() && b[k] == a[0];
        let m = choose|m: int| 0 <= m < a.len() && a[m] == b[0];
        if k > 0 {
            assert(seq_lt(b[0], b[k]));
            if m == 0 {
                lemma_lt_irreflexive(a[0]);
            } else {
                assert(seq_lt(a[0], a[m]));
                lemma_lt_asymmetric(a[0], b[0]);
            }
        }
        assert(a[0] == b[0]);
        let a1 = a.drop_first();
        let b1 = b.drop_first();
        assert forall|x: Seq<char>| a1.contains(x) <==> b1.contains(x) by {
            if a1.contains(x) {
                let i = choose|i: int| 0 <= i < a1.len() && a1[i] == x;
                assert(a[i + 1] == x);
                assert(seq_lt(a[0], a[i + 1]));
                assert(b.contains(x));
                let j = choose|j: int| 0 <= j < b.len() && b[j] == x;
                if j == 0 {
                    lemma_lt_irreflexive(x);
                }
                assert(b1[j - 1] == x);
            }
            if b1.contains(x) {
                let i = choose|i: int| 0 <= i < b1.len() && b1[i] == x;
                assert(b[i + 1] == x);
                assert(seq_lt(b[0], b[i + 1]));
                assert(a.contains(x));
                let j = choose|j: int| 0 <= j < a.len() && a[j] == x;
                if j == 0 {
                    lemma_lt_irreflexive(x);
                }
                assert(a1[j - 1] == x);
            }
        }
        lemma_sorted_unique(a1, b1);
        assert(a =~= seq![a[0]] + a1);
        assert(b =~= seq![b[0]] + b1);
    }
}

/// A strictly sorted sequence whose elements all occur in `x` is no longer
/// than `x`.
pub proof fn lemma_sorted_len_bound(a: Seq<Seq<char>>, x: Seq<Seq<char>>)
    requires
        strictly_sorted(a),
        forall|i: int| 0 <= i < a.len() ==> x.contains(#[trigger] a[i]),
    ensures
        a.len() <= x.len(),
{
    broadcast use vstd::seq_lib::seq_to_set_is_finite;
    assert(a.no_duplicates()) by {
        assert forall|i: int, j: int| 0 <= i < a.len() && 0 <= j < a.len() && i != j implies a[i]
            != a[j] by {
            if i < j {
                assert(seq_lt(a[i], a[j]));
                lemma_lt_irreflexive(a[i]);
            } else {
                assert(seq_lt(a[j], a[i]));
                lemma_lt_irreflexive(a[j]);
            }
        }
    }
    a.unique_seq_to_set();
    x.lemma_cardinality_of_set();
    assert forall|e: Seq<char>| a.to_set().contains(e) implies x.to_set().contains(e) by {
        let i = choose|i: int| 0 <= i < a.len() && a[i] == e;
        assert(x.contains(a[i]));
    }
    vstd::set_lib::lemma_len_subset(a.to_set(), x.to_set());
}

/// A set of feature names, kept strictly sorted.
#[derive(Debug, Clone)]
pub struct FeatureSet {
    names: Vec<String>,
}

impl View for FeatureSet {
    type V = Seq<Seq<char>>;

    closed spec fn view(&self) -> Seq<Seq<char>> {
        self.names.deep_view()
    }
}

impl FeatureSet {
    /// Well-formedness: the names are strictly sorted.
    pub open spec fn wf(&self) -> bool {
        strictly_sorted(self@)
    }

    /// The names held, as a mathematical set.
    pub open spec fn set(&self) -> Set<Seq<char>> {
        elems(self@)
    }

    /// The empty set.
    pub fn new() -> (r: FeatureSet)
        ensures
            r.wf(),
            r@ == Seq::<Seq<char>>::empty(),
    {
        let r = FeatureSet { names: Vec::new() };
        assert(r@ =~= Seq::<Seq<char>>::empty());
        r
    }

    /// A copy of this set.
    pub fn copy(&self) -> (r: FeatureSet)
        ensures
            r@ == self@,
    {
        let names = self.names.clone();
        assert(names@ =~= self.names@);
        assert(names.deep_view() =~= self.names.deep_view());
        FeatureSet { names }
    }

    /// The number of names.
    pub fn len(&self) -> (r: usize)
        ensures
            r == self@.len(),
    {
        self.names.len()
    }

    /// Whether the set is empty.
    pub fn is_empty(&self) -> (r: bool)
        ensures
            r == (self@.len() == 0),
    {
        self.names.len() == 0
    }

    /// The `i`-th name in increasing order.
    pub fn get(&self, i: usize) -> (r: &String)
        requires
            i < self@.len(),
        ensures
            r@ == self@[i as int],
    {
        &self.names[i]
    }

    /// The names in increasing order.
    pub fn to_vec(&self) -> (r: Vec<String>)
        ensures
            r.deep_view() == self@,
    {
        let r = self.names.clone();
        assert(r.deep_view() =~= self@);
        r
    }

    /// Whether `name` is in the set.
    pub fn contains(&self, name: &str) -> (r: bool)
        ensures
            r == self@.contains(name@),
    {
        let mut i: usize = 0;
        while i < self.names.len()
            invariant
                i <= self@.len(),
                self@.len() == self.names@.len(),
                forall|k: int| 0 <= k < i ==> self@[k] != name@,
            decreases self@.len() - i,
        {
            assert(self@[i as int] == self.names@[i as int]@);
            if str_eq(self.names[i].as_str(), name) {
                assert(self@[i as int] == name@);
                return true;
            }
            i = i + 1;
        }
        false
    }

    /// Adds `name` to the set.
    pub fn insert(&mut self, name: String)
        requires
            old(self).wf(),
        ensures
            final(self).wf(),
            final(self).set() == old(self).set().insert(name@),
            final(self)@.len() <= old(self)@.len() + 1,
            !old(self).set().contains(name@) ==> final(self)@.len() == old(self)@.len() + 1,
    {
        let ghost old_v = self@;
        let n = self.names.len();
        let mut p: usize = 0;
        while p < n
            invariant
                n == self@.len(),
                self@ == old_v,
                self@.len() == self.names@.len(),
                p <= n,
                forall|k: int| 0 <= k < p ==> seq_lt(self@[k], name@),
            ensures
                p <= n,
                forall|k: int| 0 <= k < p ==> seq_lt(self@[k], name@),
                p < n ==> !seq_lt(old_v[p as int], name@),
            decreases n - p,
        {
            assert(self@[p as int] == self.names@[p as int]@);
            if !str_lt(self.names[p].as_str(), name.as_str()) {
                break;
            }
            p = p + 1;
        }
        if p < n {
            assert(self@[p as int] == self.names@[p as int]@);
            if str_eq(self.names[p].as_str(), name.as_str()) {
                assert(self.set() =~= elems(old_v).insert(name@));
                return;
            }
            proof {
                lemma_lt_total(old_v[p as int], name@);
            }
        }
        proof {
            assert forall|k: int| p <= k < n implies seq_lt(name@, #[trigger] old_v[k]) by {
                assert(seq_lt(name@, old_v[p as int]));
                if k > p {
                    assert(seq_lt(old_v[p as int], old_v[k]));
                    lemma_lt_transitive(name@, old_v[p as int], old_v[k]);
                }
            }
        }
        self.names.insert(p, name);
        assert(self@ =~= old_v.insert(p as int, name@));
        proof { lemma_elems_insert(old_v, p as int, name@); }
        assert forall|i: int, j: int| 0 <= i < j < self@.len() implies seq_lt(
            #[trigger] self@[i],
            #[trigger] self@[j],
        ) by {
            if i < p && j > p {
                lemma_lt_transitive(old_v[i], name@, old_v[j - 1]);
            }
        }
    }

    /// The set of the given names.
    pub fn from_names(v: &Vec<String>) -> (r: FeatureSet)
        ensures
            r.wf(),
            r.set() == elems(v.deep_view()),
    {
        let mut r = FeatureSet::new();
        let mut i: usize = 0;
        while i < v.len()
            invariant
                i <= v@.len(),
                r.wf(),
                r.set() == elems(v.deep_view().take(i as int)),
            decreases v@.len() - i,
        {
            r.insert(v[i].clone());
            proof {
                let t1 = v.deep_view().take(i + 1);
                let t0 = v.deep_view().take(i as int);
                assert(t1 =~= t0.push(v@[i as int]@));
                lemma_elems_push(t0, v@[i as int]@);
            }
            i = i + 1;
        }
        assert(v.deep_view().take(v@.len() as int) =~= v.deep_view());
        r
    }

    /// Adds every name of `other`.
    pub fn extend(&mut self, other: &FeatureSet)
        requires
            old(self).wf(),
        ensures
            final(self).wf(),
            final(self).set() == old(self).set().union(other.set()),
    {
        let ghost s0 = self.set();
        let mut i: usize = 0;
        while i < other.names.len()
            invariant
                i <= other@.len(),
                other@.len() == other.names@.len(),
                self.wf(),
                self.set() == s0.union(elems(other@.take(i as int))),
            decreases other@.len() - i,
        {
            assert(other@[i as int] == other.names@[i as int]@);
            self.insert(other.names[i].clone());
            proof {
                assert(other@.take(i + 1) =~= other@.take(i as int).push(other@[i as int]));
                lemma_elems_push(other@.take(i as int), other@[i as int]);
                assert(self.set() =~= s0.union(elems(other@.take(i + 1))));
            }
            i = i + 1;
        }
        assert(other@.take(other@.len() as int) =~= other@);
        assert(self.set() =~= s0.union(other.set()));
    }

    /// The names of `self` that are not in `other`, in increasing order.
    pub fn difference(&self, other: &FeatureSet) -> (r: FeatureSet)
        requires
            self.wf(),
        ensures
            r.wf(),
            r.set() == self.set().difference(other.set()),
    {
        self.filtered(other, false)
    }

    /// The names of `self` that are also in `other`, in increasing order.
    pub fn intersection(&self, other: &FeatureSet) -> (r: FeatureSet)
        requires
            self.wf(),
        ensures
            r.wf(),
            r.set() == self.set().intersect(other.set()),
    {
        self.filtered(other, true)
    }

    /// The names of `self` whose membership in `other` equals `keep`.
    fn filtered(&self, other: &FeatureSet, keep: bool) -> (r: FeatureSet)
        requires
            self.wf(),
        ensures
            r.wf(),
            r.set() == (if keep {
                self.set().intersect(other.set())
            } else {
                self.set().difference(other.set())
            }),
    {
        let mut out = FeatureSet::new();
        let mut i: usize = 0;
        while i < self.names.len()
            invariant
                i <= self@.len(),
                self@.len() == self.names@.len(),
                self.wf(),
                out.wf(),
                forall|k: int|
                    0 <= k < out@.len() ==> exists|m: int|
                        0 <= m < i && #[trigger] out@[k] == self@[m],
                forall|x: Seq<char>|
                    out@.contains(x) <==> (exists|m: int| 0 <= m < i && self@[m] == x)
                        && other@.contains(x) == keep,
            decreases self@.len() - i,
        {
            assert(self@[i as int] == self.names@[i as int]@);
            if other.contains(self.names[i].as_str()) == keep {
                let ghost o = out@;
                proof {
                    assert forall|k: int| 0 <= k < o.len() implies seq_lt(
                        #[trigger] o[k],
                        self@[i as int],
                    ) by {
                        let m = choose|m: int| 0 <= m < i && o[k] == self@[m];
                    }
                }
                out.names.push(self.names[i].clone());
                assert(out@ =~= o.push(self@[i as int]));
                assert forall|x: Seq<char>|
                    out@.contains(x) <==> (exists|m: int| 0 <= m < i + 1 && self@[m] == x)
                        && other@.contains(x) == keep by {
                    if out@.contains(x) {
                        let k = choose|k: int| 0 <= k < out@.len() && out@[k] == x;
                        if k < o.len() {
                            assert(o.contains(x));
                        }
                    }
                    if (exists|m: int| 0 <= m < i + 1 && self@[m] == x) && other@.contains(x)
                        == keep {
                        let m = choose|m: int| 0 <= m < i + 1 && self@[m] == x;
                        if m < i {
                            assert(o.contains(x));
                            let k = choose|k: int| 0 <= k < o.len() && o[k] == x;
                            assert(out@[k] == x);
                        } else {
                            assert(out@[o.len() as int] == x);
                        }
                    }
                }
                assert forall|k: int| 0 <= k < out@.len() implies exists|m: int|
                    0 <= m < i + 1 && #[trigger] out@[k] == self@[m] by {
                    if k < o.len() {
                        assert(out@[k] == o[k]);
                    } else {
                        assert(out@[k] == self@[i as int]);
                    }
                }
            }
            i = i + 1;
        }
        proof {
            let s1 = if keep {
                self.set().intersect(other.set())
            } else {
                self.set().difference(other.set())
            };
            assert forall|x: Seq<char>| out.set().contains(x) <==> s1.contains(x) by {
                if self@.contains(x) {
                    let m = choose|m: int| 0 <= m < self@.len() && self@[m] == x;
                }
            }
            assert(out.set() =~= s1);
        }
        out
    }

    /// Whether `self` and `other` have no name in common.
    pub fn is_disjoint(&self, other: &FeatureSet) -> (r: bool)
        ensures
            r == self.set().disjoint(other.set()),
    {
        let mut i: usize = 0;
        while i < self.names.len()
            invariant
                i <= self@.len(),
                self@.len() == self.names@.len(),
                forall|k: int| 0 <= k < i ==> !other@.contains(#[trigger] self@[k]),
            decreases self@.len() - i,
        {
            assert(self@[i as int] == self.names@[i as int]@);
            if other.contains(self.names[i].as_str()) {
                assert(self.set().contains(self@[i as int]));
                assert(other.set().contains(self@[i as int]));
                return false;
            }
            i = i + 1;
        }
        assert forall|x: Seq<char>| !(self.set().contains(x) && other.set().contains(x)) by {
            if self.set().contains(x) {
                let k = choose|k: int| 0 <= k < self@.len() && self@[k] == x;
                assert(!other@.contains(self@[k]));
            }
        }
        true
    }
}

} // verus!
