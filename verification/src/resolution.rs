//! The resolution of a project's components against an SDK: the listed
//! components, the components added for open requirements (directly when a
//! single SDK component can satisfy one, else through a recommendation),
//! and the success criteria that end it.

use vstd::prelude::*;

use std::rc::Rc;

use crate::component::{Component, ComponentId};
use crate::definitions::cond_holds;
use crate::features::{FeatureSet, elems, lemma_sorted_unique, strictly_sorted};
use crate::instances::{InstanceMap, instance_lists};
use crate::project::Project;
use crate::resolve::{
    candidates,
    closed_under,
    req_entry,
    check_duplicate_provides,
    collect_conflicts,
    collect_required,
    compute_provided,
    conflict_set,
    contains_id,
    dup_violation,
    feature_names,
    find_candidates,
    find_component,
    has_id,
    ids_of,
    is_closure,
    is_first_with_id,
    opt_seq,
    project_provided,
    provider_ids,
    provides_active,
    provs,
    required_set,
    ResolveError,
};
use crate::sdk::SDK;
use crate::text::{lemma_lt_asymmetric, lemma_lt_irreflexive, seq_lt};

verus! {

broadcast use vstd::string::group_string_axioms;

// ---------------------------------------------------------------------------
// The listed components
// ---------------------------------------------------------------------------

/// The component entries of a project.
pub open spec fn listed(proj: Project) -> Seq<ComponentId> {
    opt_seq(proj.component)
}

/// The ids of the component entries of a project, in order.
pub open spec fn listed_ids(proj: Project) -> Seq<Seq<char>> {
    listed(proj).map_values(|e: ComponentId| e.id@)
}

/// The names of `s` without repetitions, each at its first occurrence.
pub open spec fn dedup(s: Seq<Seq<char>>) -> Seq<Seq<char>>
    decreases s.len(),
{
    if s.len() == 0 {
        Seq::empty()
    } else {
        let d = dedup(s.drop_last());
        if d.contains(s.last()) {
            d
        } else {
            d.push(s.last())
        }
    }
}

/// `dedup` keeps exactly the names of `s`, once each.
proof fn lemma_dedup(s: Seq<Seq<char>>)
    ensures
        dedup(s).no_duplicates(),
        forall|x: Seq<char>| #[trigger] dedup(s).contains(x) <==> s.contains(x),
    decreases s.len(),
{
    if s.len() > 0 {
        let s0 = s.drop_last();
        lemma_dedup(s0);
        let d = dedup(s0);
        assert forall|x: Seq<char>| #[trigger] dedup(s).contains(x) <==> s.contains(x) by {
            if s0.contains(x) {
                let j = choose|j: int| 0 <= j < s0.len() && s0[j] == x;
                assert(s[j] == x);
            }
            if s.contains(x) && x != s.last() {
                let j = choose|j: int| 0 <= j < s.len() && s[j] == x;
                assert(s0[j] == x);
            }
            if !d.contains(s.last()) {
                if d.push(s.last()).contains(x) {
                    let j = choose|j: int| 0 <= j < d.len() + 1 && d.push(s.last())[j] == x;
                    if j < d.len() {
                        assert(d[j] == x);
                    }
                }
                if d.contains(x) {
                    let j = choose|j: int| 0 <= j < d.len() && d[j] == x;
                    assert(d.push(s.last())[j] == x);
                }
                assert(d.push(s.last())[d.len() as int] == s.last());
            }
            assert(s[s.len() - 1] == s.last());
        }
        if !d.contains(s.last()) {
            let e = d.push(s.last());
            assert forall|a: int, b: int| 0 <= a < e.len() && 0 <= b < e.len() && a != b implies e[a]
                != e[b] by {
                if a == d.len() {
                    assert(d.contains(d[b]));
                } else if b == d.len() {
                    assert(d.contains(d[a]));
                } else {
                    assert(d[a] != d[b]);
                }
            }
        }
    }
}

/// The first listed id that no SDK component has, if any.
pub open spec fn first_missing(ids: Seq<Seq<char>>, sdk: Seq<Rc<Component>>) -> Option<Seq<char>>
    decreases ids.len(),
{
    if ids.len() == 0 {
        None
    } else {
        match first_missing(ids.drop_last(), sdk) {
            Some(x) => Some(x),
            None => if has_id(sdk, ids.last()) {
                None
            } else {
                Some(ids.last())
            },
        }
    }
}

/// The first component id listed by the project that the SDK lacks.
pub open spec fn first_unknown(proj: Project, sdk: Seq<Rc<Component>>) -> Option<Seq<char>> {
    first_missing(listed_ids(proj), sdk)
}

/// Whether `first_missing` finds nothing: every id is in the SDK.
proof fn lemma_first_missing_none(ids: Seq<Seq<char>>, sdk: Seq<Rc<Component>>)
    requires
        first_missing(ids, sdk) is None,
    ensures
        forall|i: int| 0 <= i < ids.len() ==> has_id(sdk, #[trigger] ids[i]),
    decreases ids.len(),
{
    if ids.len() > 0 {
        lemma_first_missing_none(ids.drop_last(), sdk);
        assert forall|i: int| 0 <= i < ids.len() implies has_id(sdk, #[trigger] ids[i]) by {
            if i < ids.len() - 1 {
                assert(ids.drop_last()[i] == ids[i]);
            }
        }
    }
}

/// The ids of a list of components, in order.
pub open spec fn ids_seq(cs: Seq<Rc<Component>>) -> Seq<Seq<char>> {
    cs.map_values(|c: Rc<Component>| c.id@)
}

/// `c` is the first component of `sdk` with the id `id`.
pub open spec fn is_first_in(sdk: Seq<Rc<Component>>, c: Rc<Component>, id: Seq<char>) -> bool {
    exists|k: int| #[trigger] is_first_with_id(sdk, k, id) && sdk[k] == c
}

/// Every component of `cs` is one of the SDK's components.
pub open spec fn from_sdk(cs: Seq<Rc<Component>>, sdk: Seq<Rc<Component>>) -> bool {
    forall|i: int| 0 <= i < cs.len() ==> exists|k: int| 0 <= k < sdk.len() && #[trigger] sdk[k] == #[trigger] cs[i]
}

/// No two components of `cs` have the same id.
pub open spec fn ids_distinct(cs: Seq<Rc<Component>>) -> bool {
    forall|i: int, j: int| 0 <= i < j < cs.len() ==> (#[trigger] cs[i]).id@ != (#[trigger] cs[j]).id@
}

/// `cs` begins with the components the project lists: each listed id once,
/// in the order of its first listing, as the first SDK component with that
/// id.
pub open spec fn starts_with_listed(proj: Project, sdk: Seq<Rc<Component>>, cs: Seq<Rc<Component>>) -> bool {
    let d = dedup(listed_ids(proj));
    &&& d.len() <= cs.len()
    &&& forall|i: int| 0 <= i < d.len() ==> is_first_in(sdk, #[trigger] cs[i], d[i])
}

/// A selection of components for the project: the listed components
/// followed by further SDK components, no id twice.
pub open spec fn valid_selection(proj: Project, sdk: Seq<Rc<Component>>, cs: Seq<Rc<Component>>) -> bool {
    &&& starts_with_listed(proj, sdk, cs)
    &&& from_sdk(cs, sdk)
    &&& ids_distinct(cs)
}

/// The components the project lists, each once, in order.
fn listed_components(proj: &Project, sdk: &[Rc<Component>]) -> (r: Result<Vec<Rc<Component>>, ResolveError>)
    ensures
        match r {
            Ok(cs) => {
                &&& first_unknown(*proj, sdk@) is None
                &&& valid_selection(*proj, sdk@, cs@)
                &&& cs@.len() == dedup(listed_ids(*proj)).len()
            },
            Err(ResolveError::UnknownComponent(id)) => first_unknown(*proj, sdk@) == Some(id@),
            Err(_) => false,
        },
{
    let mut cs: Vec<Rc<Component>> = Vec::new();
    let ghost ids = listed_ids(*proj);
    match &proj.component {
        None => {
            assert(listed_ids(*proj) =~= Seq::<Seq<char>>::empty());
            assert(ids_seq(cs@) =~= dedup(ids));
            return Ok(cs);
        },
        Some(entries) => {
            assert(listed(*proj) == entries@);
            let mut i: usize = 0;
            while i < entries.len()
                invariant
                    i <= entries@.len(),
                    listed(*proj) == entries@,
                    ids == listed_ids(*proj),
                    ids.len() == entries@.len(),
                    first_missing(ids.take(i as int), sdk@) is None,
                    ids_seq(cs@) == dedup(ids.take(i as int)),
                    forall|j: int| 0 <= j < cs@.len() ==> is_first_in(sdk@, #[trigger] cs@[j], ids_seq(cs@)[j]),
                decreases entries@.len() - i,
            {
                let id = &entries[i].id;
                let ghost t0 = ids.take(i as int);
                let ghost t1 = ids.take(i + 1);
                assert(t1.drop_last() =~= t0);
                assert(ids[i as int] == id@);
                assert(t1.last() == id@);
                let present = contains_id(&cs, id.as_str());
                proof {
                    if has_id(cs@, id@) {
                        let a = choose|a: int| 0 <= a < cs@.len() && (#[trigger] cs@[a]).id@ == id@;
                        assert(ids_seq(cs@)[a] == id@);
                        assert(dedup(t0).contains(id@));
                    }
                    if dedup(t0).contains(id@) {
                        let a = choose|a: int| 0 <= a < dedup(t0).len() && dedup(t0)[a] == id@;
                        assert(cs@[a].id@ == id@);
                    }
                }
                if !present {
                    match find_component(sdk, id.as_str()) {
                        None => {
                            assert(first_missing(t1, sdk@) == Some(id@));
                            proof {
                                lemma_first_missing_prefix(ids, (i + 1) as int, sdk@);
                            }
                            return Err(ResolveError::UnknownComponent(id.clone()));
                        },
                        Some(k) => {
                            let ghost before = cs@;
                            cs.push(sdk[k].clone());
                            proof {
                                assert(ids_seq(cs@) =~= ids_seq(before).push(id@));
                                assert(is_first_with_id(sdk@, k as int, id@));
                                assert forall|j: int| 0 <= j < cs@.len() implies is_first_in(
                                    sdk@,
                                    #[trigger] cs@[j],
                                    ids_seq(cs@)[j],
                                ) by {
                                    if j < before.len() {
                                        assert(cs@[j] == before[j]);
                                        assert(ids_seq(cs@)[j] == ids_seq(before)[j]);
                                    } else {
                                        assert(cs@[j] == sdk@[k as int]);
                                    }
                                }
                            }
                        },
                    }
                }
                i = i + 1;
            }
            assert(ids.take(entries@.len() as int) =~= ids);
            proof {
                lemma_dedup(ids);
                assert(dedup(ids).len() == ids_seq(cs@).len());
                assert forall|a: int| 0 <= a < cs@.len() implies exists|k: int|
                    0 <= k < sdk@.len() && #[trigger] sdk@[k] == #[trigger] cs@[a] by {
                    assert(is_first_in(sdk@, cs@[a], ids_seq(cs@)[a]));
                    let k = choose|k: int| #[trigger] is_first_with_id(sdk@, k, ids_seq(cs@)[a]) && sdk@[k] == cs@[a];
                }
                assert forall|a: int, b: int| 0 <= a < b < cs@.len() implies (#[trigger] cs@[a]).id@
                    != (#[trigger] cs@[b]).id@ by {
                    assert(ids_seq(cs@)[a] == cs@[a].id@);
                    assert(ids_seq(cs@)[b] == cs@[b].id@);
                }
                assert forall|a: int| 0 <= a < dedup(ids).len() implies is_first_in(
                    sdk@,
                    #[trigger] cs@[a],
                    dedup(ids)[a],
                ) by {
                    assert(ids_seq(cs@)[a] == dedup(ids)[a]);
                }
            }
            Ok(cs)
        },
    }
}

/// Once `first_missing` of a prefix finds an id, it finds the same id for
/// the whole sequence.
proof fn lemma_first_missing_prefix(ids: Seq<Seq<char>>, n: int, sdk: Seq<Rc<Component>>)
    requires
        0 <= n <= ids.len(),
        first_missing(ids.take(n), sdk) is Some,
    ensures
        first_missing(ids, sdk) == first_missing(ids.take(n), sdk),
    decreases ids.len() - n,
{
    if n < ids.len() {
        let t = ids.take(n + 1);
        assert(t.drop_last() =~= ids.take(n));
        lemma_first_missing_prefix(ids, n + 1, sdk);
    } else {
        assert(ids.take(n) =~= ids);
    }
}

// ---------------------------------------------------------------------------
// The feature sets of a selection
// ---------------------------------------------------------------------------

/// The features provided by `cs` on top of `base`: the least set that holds
/// `base` and is closed under the provides of `cs`.
pub open spec fn provided_by(cs: Seq<Rc<Component>>, base: Set<Seq<char>>) -> Set<Seq<char>> {
    choose|p: Set<Seq<char>>| is_closure(p, cs, base)
}

/// Every selection has a closure: the features in every closed set that
/// holds `base`.
pub proof fn lemma_closure_exists(cs: Seq<Rc<Component>>, base: Set<Seq<char>>)
    ensures
        is_closure(provided_by(cs, base), cs, base),
{
    let p = Set::new(
        |x: Seq<char>|
            forall|q: Set<Seq<char>>| #[trigger] closed_under(q, cs) && base.subset_of(q) ==> q.contains(x),
    );
    assert(closed_under(p, cs)) by {
        assert forall|i: int, j: int|
            #![trigger provs(*cs[i])[j]]
            0 <= i < cs.len() && 0 <= j < provs(*cs[i]).len() && cond_holds(provs(*cs[i])[j].condition, p)
                implies p.contains(provs(*cs[i])[j].name@) by {
            assert forall|q: Set<Seq<char>>| #[trigger] closed_under(q, cs) && base.subset_of(q) implies q.contains(
                provs(*cs[i])[j].name@,
            ) by {
                assert(p.subset_of(q));
                assert(cond_holds(provs(*cs[i])[j].condition, q));
            }
        }
    }
    assert(is_closure(p, cs, base));
}

/// A closure is unique: any set with the closure property is `provided_by`.
pub proof fn lemma_closure_unique(p: Set<Seq<char>>, cs: Seq<Rc<Component>>, base: Set<Seq<char>>)
    requires
        is_closure(p, cs, base),
    ensures
        p == provided_by(cs, base),
{
    let q = provided_by(cs, base);
    assert(is_closure(q, cs, base));
    assert(p.subset_of(q));
    assert(q.subset_of(p));
    assert(p =~= q);
}

/// The provided features P of a selection.
pub open spec fn sel_provided(proj: Project, cs: Seq<Rc<Component>>) -> Set<Seq<char>> {
    provided_by(cs, project_provided(proj))
}

/// The required features R of a selection.
pub open spec fn sel_required(proj: Project, cs: Seq<Rc<Component>>) -> Set<Seq<char>> {
    required_set(proj, cs, sel_provided(proj, cs))
}

/// The conflicting features K of a selection.
pub open spec fn sel_conflicts(proj: Project, cs: Seq<Rc<Component>>) -> Set<Seq<char>> {
    conflict_set(proj, cs, sel_provided(proj, cs))
}

/// The open requirements of a selection: required and not provided.
pub open spec fn sel_open(proj: Project, cs: Seq<Rc<Component>>) -> Set<Seq<char>> {
    sel_required(proj, cs).difference(sel_provided(proj, cs))
}

/// The SDK components that could be added to a selection for the open
/// requirement `u`, in SDK order.
pub open spec fn sel_candidates(
    proj: Project,
    sdk: Seq<Rc<Component>>,
    cs: Seq<Rc<Component>>,
    u: Seq<char>,
) -> Seq<Rc<Component>> {
    candidates(
        sdk,
        cs,
        u,
        sel_required(proj, cs).union(sel_provided(proj, cs)),
        sel_conflicts(proj, cs),
    )
}

/// The success criteria: every required feature is provided, no provided
/// feature is in conflict, and no feature is provided twice unless every
/// provider allows it.
pub open spec fn resolved_at(proj: Project, cs: Seq<Rc<Component>>) -> bool {
    &&& sel_required(proj, cs).subset_of(sel_provided(proj, cs))
    &&& sel_conflicts(proj, cs).disjoint(sel_provided(proj, cs))
    &&& forall|n: Seq<char>| !#[trigger] dup_violation(cs, sel_provided(proj, cs), n)
}

// ---------------------------------------------------------------------------
// Termination measure
// ---------------------------------------------------------------------------

/// The number of SDK components whose id is not yet in `cs`.
pub open spec fn absent_count(sdk: Seq<Rc<Component>>, cs: Seq<Rc<Component>>) -> nat
    decreases sdk.len(),
{
    if sdk.len() == 0 {
        0
    } else {
        absent_count(sdk.drop_last(), cs) + if has_id(cs, sdk.last().id@) {
            0nat
        } else {
            1nat
        }
    }
}

/// Growing the ids of a selection does not raise `absent_count`, and lowers
/// it when an SDK component's id becomes present.
proof fn lemma_absent_count(sdk: Seq<Rc<Component>>, cs: Seq<Rc<Component>>, cs2: Seq<Rc<Component>>, k: int)
    requires
        forall|id: Seq<char>| #[trigger] has_id(cs, id) ==> has_id(cs2, id),
    ensures
        absent_count(sdk, cs2) <= absent_count(sdk, cs),
        0 <= k < sdk.len() && !has_id(cs, sdk[k].id@) && has_id(cs2, sdk[k].id@) ==> absent_count(
            sdk,
            cs2,
        ) < absent_count(sdk, cs),
    decreases sdk.len(),
{
    if sdk.len() > 0 {
        let s0 = sdk.drop_last();
        if 0 <= k < sdk.len() - 1 {
            assert(s0[k] == sdk[k]);
            lemma_absent_count(s0, cs, cs2, k);
        } else {
            lemma_absent_count(s0, cs, cs2, -1);
        }
        assert(has_id(cs, sdk.last().id@) ==> has_id(cs2, sdk.last().id@));
    }
}

/// Every element of `s.filter(pred)` is an element of `s`.
proof fn lemma_filter_from<A>(s: Seq<A>, pred: spec_fn(A) -> bool)
    ensures
        forall|i: int| 0 <= i < s.filter(pred).len() ==> exists|k: int| 0 <= k < s.len() && #[trigger] s[k] == #[trigger] s.filter(pred)[i],
        forall|i: int| 0 <= i < s.filter(pred).len() ==> pred(#[trigger] s.filter(pred)[i]),
    decreases s.len(),
{
    reveal(Seq::filter);
    if s.len() > 0 {
        let s0 = s.drop_last();
        lemma_filter_from(s0, pred);
        let f = s.filter(pred);
        let f0 = s0.filter(pred);
        assert forall|i: int| 0 <= i < f.len() implies exists|k: int| 0 <= k < s.len() && #[trigger] s[k] == #[trigger] f[i] by {
            if i < f0.len() {
                assert(f[i] == f0[i]);
                let k = choose|k: int| 0 <= k < s0.len() && #[trigger] s0[k] == #[trigger] f0[i];
                assert(s[k] == s0[k]);
            } else {
                assert(f[i] == s.last());
                assert(s[s.len() - 1] == s.last());
            }
        }
        assert forall|i: int| 0 <= i < f.len() implies pred(#[trigger] f[i]) by {
            if i < f0.len() {
                assert(f[i] == f0[i]);
            }
        }
    }
}


// ---------------------------------------------------------------------------
// Adding single candidates
// ---------------------------------------------------------------------------

/// The candidates for the `m`-th name of `names`.
pub open spec fn cands_at(
    sdk: Seq<Rc<Component>>,
    cs: Seq<Rc<Component>>,
    names: Seq<Seq<char>>,
    m: int,
    rp: Set<Seq<char>>,
    k: Set<Seq<char>>,
) -> Seq<Rc<Component>> {
    candidates(sdk, cs, names[m], rp, k)
}

/// Every component of `cs` from position `n` on provides, in `rp`, one of
/// the features `names`.
pub open spec fn each_provides_one_of(cs: Seq<Rc<Component>>, n: int, names: Seq<Seq<char>>, rp: Set<Seq<char>>) -> bool {
    forall|i: int| n <= i < cs.len() ==> #[trigger] provides_one_of(*cs[i], names, rp)
}

/// `c` provides, in `rp`, one of the features `names`.
pub open spec fn provides_one_of(c: Component, names: Seq<Seq<char>>, rp: Set<Seq<char>>) -> bool {
    exists|m: int| 0 <= m < names.len() && #[trigger] provides_active(c, names[m], rp)
}

/// Appending a component that provides one of `names` keeps
/// `each_provides_one_of`.
proof fn lemma_push_provides(
    cs: Seq<Rc<Component>>,
    n: int,
    names: Seq<Seq<char>>,
    rp: Set<Seq<char>>,
    c: Rc<Component>,
    m: int,
)
    requires
        each_provides_one_of(cs, n, names, rp),
        0 <= n,
        0 <= m < names.len(),
        provides_active(*c, names[m], rp),
    ensures
        each_provides_one_of(cs.push(c), n, names, rp),
{
    let t = cs.push(c);
    assert forall|i: int| n <= i < t.len() implies #[trigger] provides_one_of(*t[i], names, rp) by {
        if i < cs.len() {
            assert(t[i] == cs[i]);
            assert(provides_one_of(*cs[i], names, rp));
        } else {
            assert(t[i] == c);
            assert(provides_active(*t[i], names[m], rp));
        }
    }
}

/// The selection after adding, for each name of `us` in turn, its single
/// candidate when it has exactly one (given the selection so far).
pub open spec fn auto_fold(
    sdk: Seq<Rc<Component>>,
    c0: Seq<Rc<Component>>,
    us: Seq<Seq<char>>,
    rp: Set<Seq<char>>,
    k: Set<Seq<char>>,
) -> Seq<Rc<Component>>
    decreases us.len(),
{
    if us.len() == 0 {
        c0
    } else {
        let prev = auto_fold(sdk, c0, us.drop_last(), rp, k);
        let cands = candidates(sdk, prev, us.last(), rp, k);
        if cands.len() == 1 {
            prev.push(cands[0])
        } else {
            prev
        }
    }
}

/// `cs` begins with `c0`.
pub open spec fn extends(cs: Seq<Rc<Component>>, c0: Seq<Rc<Component>>) -> bool {
    c0.len() <= cs.len() && forall|i: int| 0 <= i < c0.len() ==> #[trigger] cs[i] == c0[i]
}

/// For each open requirement of `u`, in increasing order, adds its single
/// candidate when it has exactly one. Returns whether anything was added,
/// the first requirement without a candidate, and the first requirement
/// with several candidates together with their ids.
fn add_single_candidates(
    sdk: &[Rc<Component>],
    cs: &mut Vec<Rc<Component>>,
    u: &FeatureSet,
    rp: &FeatureSet,
    k: &FeatureSet,
) -> (r: (bool, Option<String>, Option<(String, Vec<String>)>))
    requires
        u.wf(),
        from_sdk(old(cs)@, sdk@),
        ids_distinct(old(cs)@),
    ensures
        from_sdk(final(cs)@, sdk@),
        ids_distinct(final(cs)@),
        extends(final(cs)@, old(cs)@),
        each_provides_one_of(final(cs)@, old(cs)@.len() as int, u@, rp.set()),
        final(cs)@ == auto_fold(sdk@, old(cs)@, u@, rp.set(), k.set()),
        r.0 <==> final(cs)@.len() > old(cs)@.len(),
        !r.0 ==> final(cs)@ == old(cs)@,
        !r.0 ==> forall|m: int|
            0 <= m < u@.len() ==> #[trigger] cands_at(sdk@, old(cs)@, u@, m, rp.set(), k.set()).len() != 1,
        !r.0 ==> match r.1 {
            Some(z) => exists|m: int|
                0 <= m < u@.len() && z@ == u@[m] && #[trigger] cands_at(sdk@, old(cs)@, u@, m, rp.set(), k.set()).len()
                    == 0 && forall|m2: int|
                    0 <= m2 < m ==> #[trigger] cands_at(sdk@, old(cs)@, u@, m2, rp.set(), k.set()).len() != 0,
            None => forall|m: int|
                0 <= m < u@.len() ==> #[trigger] cands_at(sdk@, old(cs)@, u@, m, rp.set(), k.set()).len() != 0,
        },
        !r.0 ==> match r.2 {
            Some((q, ids)) => exists|m: int|
                0 <= m < u@.len() && q@ == u@[m] && #[trigger] cands_at(sdk@, old(cs)@, u@, m, rp.set(), k.set()).len()
                    >= 2 && ids.deep_view() == ids_seq(cands_at(sdk@, old(cs)@, u@, m, rp.set(), k.set()))
                    && forall|m2: int|
                    0 <= m2 < m ==> #[trigger] cands_at(sdk@, old(cs)@, u@, m2, rp.set(), k.set()).len() < 2,
            None => forall|m: int|
                0 <= m < u@.len() ==> #[trigger] cands_at(sdk@, old(cs)@, u@, m, rp.set(), k.set()).len() < 2,
        },
{
    let ghost c0 = cs@;
    let ghost rps = rp.set();
    let ghost ks = k.set();
    let mut added = false;
    let mut zero: Option<String> = None;
    let mut multi: Option<(String, Vec<String>)> = None;
    let mut m: usize = 0;
    while m < u.len()
        invariant
            m <= u@.len(),
            c0 == old(cs)@,
            rps == rp.set(),
            ks == k.set(),
            from_sdk(cs@, sdk@),
            ids_distinct(cs@),
            extends(cs@, c0),
            each_provides_one_of(cs@, c0.len() as int, u@, rps),
            cs@ == auto_fold(sdk@, c0, u@.take(m as int), rps, ks),
            added <==> cs@.len() > c0.len(),
            !added ==> cs@ == c0,
            !added ==> forall|m2: int| 0 <= m2 < m ==> #[trigger] cands_at(sdk@, c0, u@, m2, rps, ks).len() != 1,
            !added ==> match zero {
                Some(z) => exists|m1: int|
                    0 <= m1 < m && z@ == u@[m1] && #[trigger] cands_at(sdk@, c0, u@, m1, rps, ks).len() == 0
                        && forall|m2: int| 0 <= m2 < m1 ==> #[trigger] cands_at(sdk@, c0, u@, m2, rps, ks).len() != 0,
                None => forall|m2: int| 0 <= m2 < m ==> #[trigger] cands_at(sdk@, c0, u@, m2, rps, ks).len() != 0,
            },
            !added ==> match multi {
                Some((q, ids)) => exists|m1: int|
                    0 <= m1 < m && q@ == u@[m1] && #[trigger] cands_at(sdk@, c0, u@, m1, rps, ks).len() >= 2
                        && ids.deep_view() == ids_seq(cands_at(sdk@, c0, u@, m1, rps, ks)) && forall|m2: int|
                        0 <= m2 < m1 ==> #[trigger] cands_at(sdk@, c0, u@, m2, rps, ks).len() < 2,
                None => forall|m2: int| 0 <= m2 < m ==> #[trigger] cands_at(sdk@, c0, u@, m2, rps, ks).len() < 2,
            },
        decreases u@.len() - m,
    {
        let name = u.get(m);
        let c = find_candidates(sdk, cs, name.as_str(), rp, k);
        let ghost cur = cs@;
        proof {
            let t1 = u@.take(m + 1);
            assert(t1.drop_last() =~= u@.take(m as int));
            assert(t1.last() == u@[m as int]);
        }
        proof {
            assert(c@ == candidates(sdk@, cur, u@[m as int], rps, ks));
            if !added {
                assert(c@ == cands_at(sdk@, c0, u@, m as int, rps, ks));
            }
        }
        if c.len() == 0 {
            if zero.is_none() {
                zero = Some(name.clone());
            }
        } else if c.len() == 1 {
            proof {
                lemma_filter_from(sdk@, crate::resolve::candidate_pred(cur, u@[m as int], rps, ks));
                assert(c@[0] == sdk@.filter(crate::resolve::candidate_pred(cur, u@[m as int], rps, ks))[0]);
                assert(!has_id(cur, c@[0].id@));
            }
            cs.push(c[0].clone());
            added = true;
            proof {
                assert forall|i: int| 0 <= i < cs@.len() implies exists|q: int|
                    0 <= q < sdk@.len() && #[trigger] sdk@[q] == #[trigger] cs@[i] by {
                    if i < cur.len() {
                        assert(cs@[i] == cur[i]);
                    } else {
                        assert(cs@[i] == c@[0]);
                    }
                }
                assert forall|a: int, b: int| 0 <= a < b < cs@.len() implies (#[trigger] cs@[a]).id@
                    != (#[trigger] cs@[b]).id@ by {
                    assert(cs@[a] == cur[a]);
                    if b < cur.len() {
                        assert(cs@[b] == cur[b]);
                    } else {
                        assert(cs@[b] == c@[0]);
                    }
                }
                assert forall|i: int| 0 <= i < c0.len() implies #[trigger] cs@[i] == c0[i] by {
                    assert(cs@[i] == cur[i]);
                }
                assert(cs@ == cur.push(c@[0]));
                lemma_push_provides(cur, c0.len() as int, u@, rps, c@[0], m as int);
                assert(each_provides_one_of(cs@, c0.len() as int, u@, rps));
            }
        } else {
            if multi.is_none() {
                let ids = ids_of(&c);
                multi = Some((name.clone(), ids));
            }
        }
        m = m + 1;
    }
    assert(u@.take(u@.len() as int) =~= u@);
    (added, zero, multi)
}


// ---------------------------------------------------------------------------
// Recommendations
// ---------------------------------------------------------------------------

/// The `recommends` entries of a component.
pub open spec fn recs(c: Component) -> Seq<crate::definitions::Recommendation> {
    opt_seq(c.recommends)
}

/// Recommendation `(a, b)` of `cs` is active in `p` and names `id`.
pub open spec fn rec_entry(cs: Seq<Rc<Component>>, p: Set<Seq<char>>, a: int, b: int, id: Seq<char>) -> bool {
    0 <= a < cs.len() && 0 <= b < recs(*cs[a]).len() && recs(*cs[a])[b].id@ == id && cond_holds(
        recs(*cs[a])[b].condition,
        p,
    )
}

/// The ids recommended by `cs` in `p`.
pub open spec fn rec_ids(cs: Seq<Rc<Component>>, p: Set<Seq<char>>) -> Set<Seq<char>> {
    Set::new(|id: Seq<char>| exists|a: int, b: int| #[trigger] rec_entry(cs, p, a, b, id))
}

/// The names of a finite set in increasing order.
pub open spec fn sorted_enum(s: Set<Seq<char>>) -> Seq<Seq<char>> {
    choose|q: Seq<Seq<char>>| strictly_sorted(q) && elems(q) == s
}

/// A strictly sorted sequence is the increasing enumeration of its names.
proof fn lemma_sorted_enum(q: Seq<Seq<char>>)
    requires
        strictly_sorted(q),
    ensures
        sorted_enum(elems(q)) == q,
{
    let e = sorted_enum(elems(q));
    assert(strictly_sorted(e) && elems(e) == elems(q));
    assert forall|x: Seq<char>| e.contains(x) <==> q.contains(x) by {
        assert(elems(e).contains(x) == e.contains(x));
        assert(elems(q).contains(x) == q.contains(x));
    }
    lemma_sorted_unique(e, q);
}

/// The first SDK component with the id `id`.
pub open spec fn first_sdk(sdk: Seq<Rc<Component>>, id: Seq<char>) -> Rc<Component> {
    sdk[choose|k: int| is_first_with_id(sdk, k, id)]
}

/// Only one position is the first with a given id.
proof fn lemma_first_sdk(sdk: Seq<Rc<Component>>, k: int, id: Seq<char>)
    requires
        is_first_with_id(sdk, k, id),
    ensures
        first_sdk(sdk, id) == sdk[k],
{
    let k2 = choose|k: int| is_first_with_id(sdk, k, id);
    assert(is_first_with_id(sdk, k2, id));
    if k2 < k {
        assert(sdk[k2].id@ != id);
    } else if k < k2 {
        assert(sdk[k].id@ != id);
    }
}

/// `c` provides, in `p`, an open requirement of `u` that is not in `k`.
pub open spec fn provides_open(c: Component, p: Set<Seq<char>>, k: Set<Seq<char>>, u: Set<Seq<char>>) -> bool {
    exists|j: int|
        0 <= j < provs(c).len() && cond_holds(provs(c)[j].condition, p) && !k.contains(
            (#[trigger] provs(c)[j]).name@,
        ) && u.contains(provs(c)[j].name@)
}

/// The recommended components worth adding, in the order of `ids`: for each
/// id not yet selected, the first SDK component with it, kept when it
/// provides an open requirement that is not in conflict.
pub open spec fn pool_from(
    ids: Seq<Seq<char>>,
    sdk: Seq<Rc<Component>>,
    cs: Seq<Rc<Component>>,
    p: Set<Seq<char>>,
    k: Set<Seq<char>>,
    u: Set<Seq<char>>,
) -> Seq<Rc<Component>>
    decreases ids.len(),
{
    if ids.len() == 0 {
        Seq::empty()
    } else {
        let prev = pool_from(ids.drop_last(), sdk, cs, p, k, u);
        let id = ids.last();
        if !has_id(cs, id) && has_id(sdk, id) && provides_open(*first_sdk(sdk, id), p, k, u) {
            prev.push(first_sdk(sdk, id))
        } else {
            prev
        }
    }
}

/// The recommended components worth adding to `cs`, by increasing id.
pub open spec fn rec_pool(
    sdk: Seq<Rc<Component>>,
    cs: Seq<Rc<Component>>,
    p: Set<Seq<char>>,
    k: Set<Seq<char>>,
    u: Set<Seq<char>>,
) -> Seq<Rc<Component>> {
    pool_from(sorted_enum(rec_ids(cs, p)), sdk, cs, p, k, u)
}

/// The features that `c` provides in `p`.
pub open spec fn active_names(c: Component, p: Set<Seq<char>>) -> Set<Seq<char>> {
    Set::new(|n: Seq<char>| provides_active(c, n, p))
}

/// The `i`-th component of `pool` provides, in `p`, no feature that another
/// component of `pool` provides.
pub open spec fn isolated(pool: Seq<Rc<Component>>, i: int, p: Set<Seq<char>>) -> bool {
    forall|j: int|
        0 <= j < pool.len() && j != i ==> active_names(*pool[i], p).disjoint(
            active_names(*(#[trigger] pool[j]), p),
        )
}

/// The first isolated component of `pool` from position `i` on, if any.
pub open spec fn first_isolated(pool: Seq<Rc<Component>>, p: Set<Seq<char>>, i: int) -> Option<Rc<Component>>
    decreases pool.len() - i,
{
    if i < 0 || i >= pool.len() {
        None
    } else if isolated(pool, i, p) {
        Some(pool[i])
    } else {
        first_isolated(pool, p, i + 1)
    }
}

/// The ids recommended by `cs` in `p`.
fn collect_rec_ids(cs: &Vec<Rc<Component>>, p: &FeatureSet) -> (r: FeatureSet)
    ensures
        r.wf(),
        r.set() == rec_ids(cs@, p.set()),
{
    let mut r = FeatureSet::new();
    let ghost ps = p.set();
    assert(r.set() =~= Set::new(
        |n: Seq<char>| exists|a: int, b: int| a < 0 && #[trigger] rec_entry(cs@, ps, a, b, n),
    ));
    let mut i: usize = 0;
    while i < cs.len()
        invariant
            r.wf(),
            i <= cs@.len(),
            ps == p.set(),
            r.set() == Set::new(
                |n: Seq<char>| exists|a: int, b: int| a < i && #[trigger] rec_entry(cs@, ps, a, b, n),
            ),
        decreases cs@.len() - i,
    {
        match &cs[i].recommends {
            None => {
                assert(recs(*cs@[i as int]).len() == 0);
            },
            Some(list) => {
                assert(recs(*cs@[i as int]) == list@);
                let mut j: usize = 0;
                while j < list.len()
                    invariant
                        r.wf(),
                        i < cs@.len(),
                        j <= list@.len(),
                        ps == p.set(),
                        recs(*cs@[i as int]) == list@,
                        r.set() == Set::new(
                            |n: Seq<char>|
                                exists|a: int, b: int|
                                    (a < i || (a == i && b < j)) && #[trigger] rec_entry(cs@, ps, a, b, n),
                        ),
                    decreases list@.len() - j,
                {
                    let ghost before = r.set();
                    let active = list[j].satisfied(p);
                    if active {
                        r.insert(list[j].id.clone());
                    }
                    assert(r.set() =~= Set::new(
                        |n: Seq<char>|
                            exists|a: int, b: int|
                                (a < i || (a == i && b < j + 1)) && #[trigger] rec_entry(cs@, ps, a, b, n),
                    )) by {
                        assert forall|n: Seq<char>|
                            exists|a: int, b: int|
                                (a < i || (a == i && b < j + 1)) && #[trigger] rec_entry(
                                    cs@,
                                    ps,
                                    a,
                                    b,
                                    n,
                                ) implies r.set().contains(n) by {
                            let (a, b) = choose|a: int, b: int|
                                (a < i || (a == i && b < j + 1)) && #[trigger] rec_entry(cs@, ps, a, b, n);
                            if a < i || b < j {
                                assert(before.contains(n));
                            }
                        }
                        if active {
                            assert(rec_entry(cs@, ps, i as int, j as int, list@[j as int].id@));
                        }
                    }
                    j = j + 1;
                }
            },
        }
        assert(r.set() =~= Set::new(
            |n: Seq<char>| exists|a: int, b: int| a < i + 1 && #[trigger] rec_entry(cs@, ps, a, b, n),
        )) by {
            assert forall|n: Seq<char>|
                exists|a: int, b: int| a < i + 1 && #[trigger] rec_entry(cs@, ps, a, b, n) implies r.set().contains(
                n,
            ) by {
                let (a, b) = choose|a: int, b: int| a < i + 1 && #[trigger] rec_entry(cs@, ps, a, b, n);
                assert(a < i || (a == i && b < recs(*cs@[i as int]).len()));
            }
        }
        i = i + 1;
    }
    assert(r.set() =~= rec_ids(cs@, p.set()));
    r
}

/// Whether `c` provides, in `p`, an open requirement of `u` not in `k`.
fn provides_open_req(c: &Component, p: &FeatureSet, k: &FeatureSet, u: &FeatureSet) -> (r: bool)
    ensures
        r == provides_open(*c, p.set(), k.set(), u.set()),
{
    match &c.provides {
        None => false,
        Some(list) => {
            assert(provs(*c) == list@);
            let mut j: usize = 0;
            while j < list.len()
                invariant
                    j <= list@.len(),
                    provs(*c) == list@,
                    forall|b: int|
                        0 <= b < j ==> !(cond_holds((#[trigger] list@[b]).condition, p.set()) && !k.set().contains(
                            list@[b].name@,
                        ) && u.set().contains(list@[b].name@)),
                decreases list@.len() - j,
            {
                let f = &list[j];
                if f.satisfied(p) && !k.contains(f.name.as_str()) && u.contains(f.name.as_str()) {
                    assert(provs(*c)[j as int] == list@[j as int]);
                    return true;
                }
                j = j + 1;
            }
            false
        },
    }
}

/// The features that `c` provides in `p`.
fn active_provide_names(c: &Component, p: &FeatureSet) -> (r: FeatureSet)
    ensures
        r.wf(),
        r.set() == active_names(*c, p.set()),
{
    let mut r = FeatureSet::new();
    match &c.provides {
        None => {
            assert(r.set() =~= active_names(*c, p.set()));
        },
        Some(list) => {
            assert(provs(*c) == list@);
            let mut j: usize = 0;
            while j < list.len()
                invariant
                    r.wf(),
                    j <= list@.len(),
                    provs(*c) == list@,
                    r.set() == Set::new(
                        |n: Seq<char>|
                            exists|b: int|
                                0 <= b < j && (#[trigger] list@[b]).name@ == n && cond_holds(
                                    list@[b].condition,
                                    p.set(),
                                ),
                    ),
                decreases list@.len() - j,
            {
                let ghost before = r.set();
                let active = list[j].satisfied(p);
                if active {
                    r.insert(list[j].name.clone());
                }
                assert(r.set() =~= Set::new(
                    |n: Seq<char>|
                        exists|b: int|
                            0 <= b < j + 1 && (#[trigger] list@[b]).name@ == n && cond_holds(
                                list@[b].condition,
                                p.set(),
                            ),
                )) by {
                    assert forall|n: Seq<char>|
                        exists|b: int|
                            0 <= b < j + 1 && (#[trigger] list@[b]).name@ == n && cond_holds(
                                list@[b].condition,
                                p.set(),
                            ) implies r.set().contains(n) by {
                        let b = choose|b: int|
                            0 <= b < j + 1 && (#[trigger] list@[b]).name@ == n && cond_holds(
                                list@[b].condition,
                                p.set(),
                            );
                        if b < j {
                            assert(before.contains(n));
                        }
                    }
                }
                j = j + 1;
            }
            assert(r.set() =~= active_names(*c, p.set())) by {
                assert forall|n: Seq<char>| #[trigger] active_names(*c, p.set()).contains(n) implies r.set().contains(n) by {
                    let b = choose|b: int|
                        0 <= b < provs(*c).len() && (#[trigger] provs(*c)[b]).name@ == n && cond_holds(
                            provs(*c)[b].condition,
                            p.set(),
                        );
                    assert(list@[b] == provs(*c)[b]);
                }
                assert forall|n: Seq<char>| r.set().contains(n) implies #[trigger] active_names(*c, p.set()).contains(n) by {
                    let b = choose|b: int|
                        0 <= b < list@.len() && (#[trigger] list@[b]).name@ == n && cond_holds(
                            list@[b].condition,
                            p.set(),
                        );
                    assert(provs(*c)[b] == list@[b]);
                }
            }
        },
    }
    r
}

/// The recommended component to add: the first, by id, of the recommended
/// components worth adding whose provided features no other of them
/// provides.
fn pick_recommendation(
    sdk: &[Rc<Component>],
    cs: &Vec<Rc<Component>>,
    p: &FeatureSet,
    k: &FeatureSet,
    u: &FeatureSet,
) -> (r: Option<Rc<Component>>)
    ensures
        r == first_isolated(rec_pool(sdk@, cs@, p.set(), k.set(), u.set()), p.set(), 0),
        match r {
            Some(c) => {
                &&& exists|q: int| 0 <= q < sdk@.len() && sdk@[q] == c
                &&& !has_id(cs@, c.id@)
                &&& provides_open(*c, p.set(), k.set(), u.set())
            },
            None => true,
        },
{
    let ids = collect_rec_ids(cs, p);
    let ghost ps = p.set();
    let ghost ks = k.set();
    let ghost us = u.set();
    proof {
        lemma_sorted_enum(ids@);
    }
    let mut pool: Vec<Rc<Component>> = Vec::new();
    let mut t: usize = 0;
    while t < ids.len()
        invariant
            t <= ids@.len(),
            ps == p.set(),
            ks == k.set(),
            us == u.set(),
            pool@ == pool_from(ids@.take(t as int), sdk@, cs@, ps, ks, us),
            forall|a: int|
                0 <= a < pool@.len() ==> (exists|q: int| 0 <= q < sdk@.len() && #[trigger] sdk@[q] == #[trigger] pool@[a]) && !has_id(
                    cs@,
                    pool@[a].id@,
                ) && provides_open(*pool@[a], ps, ks, us),
        decreases ids@.len() - t,
    {
        let id = ids.get(t);
        let ghost t1 = ids@.take(t + 1);
        assert(t1.drop_last() =~= ids@.take(t as int));
        assert(t1.last() == id@);
        let ghost before = pool@;
        if !contains_id(cs, id.as_str()) {
            match find_component(sdk, id.as_str()) {
                Some(q) => {
                    proof {
                        lemma_first_sdk(sdk@, q as int, id@);
                        assert(has_id(sdk@, id@));
                    }
                    if provides_open_req(&sdk[q], p, k, u) {
                        pool.push(sdk[q].clone());
                        proof {
                            assert forall|a: int|
                                0 <= a < pool@.len() implies (exists|q2: int|
                                    0 <= q2 < sdk@.len() && #[trigger] sdk@[q2] == #[trigger] pool@[a])
                                    && !has_id(cs@, pool@[a].id@) && provides_open(*pool@[a], ps, ks, us) by {
                                if a < before.len() {
                                    assert(pool@[a] == before[a]);
                                } else {
                                    assert(pool@[a] == sdk@[q as int]);
                                }
                            }
                        }
                    }
                },
                None => {},
            }
        }
        t = t + 1;
    }
    assert(ids@.take(ids@.len() as int) =~= ids@);
    assert(pool@ == rec_pool(sdk@, cs@, ps, ks, us));
    let mut names: Vec<FeatureSet> = Vec::new();
    let mut a: usize = 0;
    while a < pool.len()
        invariant
            a <= pool@.len(),
            names@.len() == a,
            forall|b: int| 0 <= b < a ==> (#[trigger] names@[b]).set() == active_names(*pool@[b], ps),
            ps == p.set(),
            ks == k.set(),
            us == u.set(),
            pool@ == rec_pool(sdk@, cs@, ps, ks, us),
            forall|a2: int|
                0 <= a2 < pool@.len() ==> (exists|q: int| 0 <= q < sdk@.len() && #[trigger] sdk@[q] == #[trigger] pool@[a2]) && !has_id(
                    cs@,
                    pool@[a2].id@,
                ) && provides_open(*pool@[a2], ps, ks, us),
        decreases pool@.len() - a,
    {
        names.push(active_provide_names(&pool[a], p));
        a = a + 1;
    }
    let mut i: usize = 0;
    while i < pool.len()
        invariant
            i <= pool@.len(),
            names@.len() == pool@.len(),
            forall|b: int| 0 <= b < pool@.len() ==> (#[trigger] names@[b]).set() == active_names(*pool@[b], ps),
            first_isolated(pool@, ps, 0) == first_isolated(pool@, ps, i as int),
            ps == p.set(),
            ks == k.set(),
            us == u.set(),
            pool@ == rec_pool(sdk@, cs@, ps, ks, us),
            forall|a2: int|
                0 <= a2 < pool@.len() ==> (exists|q: int| 0 <= q < sdk@.len() && #[trigger] sdk@[q] == #[trigger] pool@[a2]) && !has_id(
                    cs@,
                    pool@[a2].id@,
                ) && provides_open(*pool@[a2], ps, ks, us),
        decreases pool@.len() - i,
    {
        let mut ok = true;
        let mut j: usize = 0;
        while j < pool.len()
            invariant
                i < pool@.len(),
                j <= pool@.len(),
                names@.len() == pool@.len(),
                forall|b: int| 0 <= b < pool@.len() ==> (#[trigger] names@[b]).set() == active_names(*pool@[b], ps),
                ok == forall|j2: int|
                    0 <= j2 < j && j2 != i ==> active_names(*pool@[i as int], ps).disjoint(
                        active_names(*(#[trigger] pool@[j2]), ps),
                    ),
            decreases pool@.len() - j,
        {
            if j != i && !names[i].is_disjoint(&names[j]) {
                assert(names@[i as int].set() == active_names(*pool@[i as int], ps));
                assert(names@[j as int].set() == active_names(*pool@[j as int], ps));
                ok = false;
            } else if j != i {
                assert(names@[i as int].set() == active_names(*pool@[i as int], ps));
                assert(names@[j as int].set() == active_names(*pool@[j as int], ps));
            }
            j = j + 1;
        }
        if ok {
            let chosen = pool[i].clone();
            assert(chosen == pool@[i as int]);
            assert(isolated(pool@, i as int, ps));
            return Some(chosen);
        }
        assert(!isolated(pool@, i as int, ps));
        i = i + 1;
    }
    None
}


// ---------------------------------------------------------------------------
// Why a component was added
// ---------------------------------------------------------------------------

/// `c` provides, under the required and provided features of the selection
/// `cs`, one of its required features.
pub open spec fn provides_required(c: Component, proj: Project, cs: Seq<Rc<Component>>) -> bool {
    exists|v: Seq<char>|
        sel_required(proj, cs).contains(v) && #[trigger] provides_active(
            c,
            v,
            sel_required(proj, cs).union(sel_provided(proj, cs)),
        )
}

/// Every component of `cs` from position `n` on provides one of the
/// features the selection requires.
pub open spec fn justified(proj: Project, cs: Seq<Rc<Component>>, n: int) -> bool {
    forall|i: int| n <= i < cs.len() ==> #[trigger] provides_required(*cs[i], proj, cs)
}

/// A condition that holds in `s` holds in any larger set.
proof fn lemma_cond_mono(c: Option<Vec<String>>, s: Set<Seq<char>>, s2: Set<Seq<char>>)
    requires
        cond_holds(c, s),
        s.subset_of(s2),
    ensures
        cond_holds(c, s2),
{
}

/// Growing the selection grows its provided and its required features.
pub proof fn lemma_selection_monotone(proj: Project, cs: Seq<Rc<Component>>, cs2: Seq<Rc<Component>>)
    requires
        extends(cs2, cs),
    ensures
        sel_provided(proj, cs).subset_of(sel_provided(proj, cs2)),
        sel_required(proj, cs).subset_of(sel_required(proj, cs2)),
{
    lemma_provided_monotone(cs, cs2, project_provided(proj), project_provided(proj));
    let p = sel_provided(proj, cs);
    let p2 = sel_provided(proj, cs2);
    assert forall|n: Seq<char>| sel_required(proj, cs).contains(n) implies sel_required(proj, cs2).contains(n) by {
        if exists|a: int, b: int| #[trigger] req_entry(cs, p, a, b, n) {
            let (a, b) = choose|a: int, b: int| #[trigger] req_entry(cs, p, a, b, n);
            assert(cs2[a] == cs[a]);
            lemma_cond_mono(crate::resolve::reqs(*cs[a])[b].condition, p, p2);
            assert(req_entry(cs2, p2, a, b, n));
        }
    }
}

/// A component that provides a required feature of a selection still does
/// for a larger selection.
proof fn lemma_provides_required_mono(c: Component, proj: Project, cs: Seq<Rc<Component>>, cs2: Seq<Rc<Component>>)
    requires
        extends(cs2, cs),
        provides_required(c, proj, cs),
    ensures
        provides_required(c, proj, cs2),
{
    lemma_selection_monotone(proj, cs, cs2);
    let rp = sel_required(proj, cs).union(sel_provided(proj, cs));
    let rp2 = sel_required(proj, cs2).union(sel_provided(proj, cs2));
    let v = choose|v: Seq<char>| sel_required(proj, cs).contains(v) && #[trigger] provides_active(c, v, rp);
    let j = choose|j: int|
        0 <= j < provs(c).len() && (#[trigger] provs(c)[j]).name@ == v && cond_holds(provs(c)[j].condition, rp);
    lemma_cond_mono(provs(c)[j].condition, rp, rp2);
    assert(provides_active(c, v, rp2));
}

// ---------------------------------------------------------------------------
// One resolution pass
// ---------------------------------------------------------------------------

/// No open requirement of the selection has exactly one candidate.
pub open spec fn no_single_candidate(proj: Project, sdk: Seq<Rc<Component>>, cs: Seq<Rc<Component>>) -> bool {
    forall|v: Seq<char>| #[trigger]
        sel_open(proj, cs).contains(v) ==> sel_candidates(proj, sdk, cs, v).len() != 1
}

/// The recommended components worth adding to the selection.
pub open spec fn sel_rec_pool(proj: Project, sdk: Seq<Rc<Component>>, cs: Seq<Rc<Component>>) -> Seq<Rc<Component>> {
    rec_pool(sdk, cs, sel_provided(proj, cs), sel_conflicts(proj, cs), sel_open(proj, cs))
}

/// No recommendation can be added to the selection.
pub open spec fn no_recommendation(proj: Project, sdk: Seq<Rc<Component>>, cs: Seq<Rc<Component>>) -> bool {
    first_isolated(sel_rec_pool(proj, sdk, cs), sel_provided(proj, cs), 0) is None
}

/// Resolution stops at `cs` on the requirement `z`: nothing can be added,
/// and `z` is the least open requirement without any candidate.
pub open spec fn unsatisfied_at(proj: Project, sdk: Seq<Rc<Component>>, cs: Seq<Rc<Component>>, z: Seq<char>) -> bool {
    &&& sel_open(proj, cs).contains(z)
    &&& no_single_candidate(proj, sdk, cs)
    &&& sel_candidates(proj, sdk, cs, z).len() == 0
    &&& forall|v: Seq<char>| #[trigger]
        sel_open(proj, cs).contains(v) && seq_lt(v, z) ==> sel_candidates(proj, sdk, cs, v).len() != 0
    &&& (exists|v: Seq<char>| #[trigger]
        sel_open(proj, cs).contains(v) && sel_candidates(proj, sdk, cs, v).len() >= 2)
        ==> no_recommendation(proj, sdk, cs)
}

/// Resolution stops at `cs` on the requirement `q`: nothing can be added,
/// every open requirement has a candidate, and `q` is the least with
/// several, whose ids are `ids`.
pub open spec fn ambiguous_at(
    proj: Project,
    sdk: Seq<Rc<Component>>,
    cs: Seq<Rc<Component>>,
    q: Seq<char>,
    ids: Seq<Seq<char>>,
) -> bool {
    &&& sel_open(proj, cs).contains(q)
    &&& no_single_candidate(proj, sdk, cs)
    &&& forall|v: Seq<char>| #[trigger]
        sel_open(proj, cs).contains(v) ==> sel_candidates(proj, sdk, cs, v).len() != 0
    &&& sel_candidates(proj, sdk, cs, q).len() >= 2
    &&& ids == ids_seq(sel_candidates(proj, sdk, cs, q))
    &&& forall|v: Seq<char>| #[trigger]
        sel_open(proj, cs).contains(v) && seq_lt(v, q) ==> sel_candidates(proj, sdk, cs, v).len() < 2
    &&& no_recommendation(proj, sdk, cs)
}

/// Every requirement of `cs` is provided, and `clash` lists, in increasing
/// order, the provided features that are in conflict (at least one).
pub open spec fn conflicting_at(proj: Project, cs: Seq<Rc<Component>>, clash: Seq<Seq<char>>) -> bool {
    &&& sel_required(proj, cs).subset_of(sel_provided(proj, cs))
    &&& strictly_sorted(clash)
    &&& clash.len() > 0
    &&& elems(clash) == sel_conflicts(proj, cs).intersect(sel_provided(proj, cs))
}

/// Every requirement of `cs` is provided without conflict, and `f` is the
/// least feature provided twice without every provider allowing it; `comps`
/// lists the ids of its providers in increasing order.
pub open spec fn duplicate_at(proj: Project, cs: Seq<Rc<Component>>, f: Seq<char>, comps: Seq<Seq<char>>) -> bool {
    &&& sel_required(proj, cs).subset_of(sel_provided(proj, cs))
    &&& sel_conflicts(proj, cs).disjoint(sel_provided(proj, cs))
    &&& dup_violation(cs, sel_provided(proj, cs), f)
    &&& forall|n: Seq<char>| #[trigger] dup_violation(cs, sel_provided(proj, cs), n) ==> !seq_lt(n, f)
    &&& strictly_sorted(comps)
    &&& elems(comps) == provider_ids(cs, sel_provided(proj, cs), f)
}

/// Resolution of the selection `cs` fails with `e`.
pub open spec fn fails_at(proj: Project, sdk: Seq<Rc<Component>>, cs: Seq<Rc<Component>>, e: ResolveError) -> bool {
    match e {
        ResolveError::UnsatisfiedRequirement(z) => unsatisfied_at(proj, sdk, cs, z@),
        ResolveError::AmbiguousRequirement { requirement, candidates } => ambiguous_at(
            proj,
            sdk,
            cs,
            requirement@,
            candidates.deep_view(),
        ),
        ResolveError::ConflictingFeatures(v) => conflicting_at(proj, cs, v.deep_view()),
        ResolveError::DuplicateProvide { feature, components } => duplicate_at(
            proj,
            cs,
            feature@,
            components.deep_view(),
        ),
        ResolveError::UnknownComponent(_) => false,
    }
}

/// The selection that one resolution pass makes from `cs`: with open
/// requirements, the single candidates of each in increasing order; failing
/// that, when some open requirement has several candidates, the recommended
/// component to add. `None` when the pass adds nothing.
pub open spec fn next_selection(proj: Project, sdk: Seq<Rc<Component>>, cs: Seq<Rc<Component>>) -> Option<
    Seq<Rc<Component>>,
> {
    if sel_required(proj, cs).subset_of(sel_provided(proj, cs)) {
        None
    } else {
        let added = auto_fold(
            sdk,
            cs,
            sorted_enum(sel_open(proj, cs)),
            sel_required(proj, cs).union(sel_provided(proj, cs)),
            sel_conflicts(proj, cs),
        );
        if added.len() > cs.len() {
            Some(added)
        } else if exists|v: Seq<char>| #[trigger]
            sel_open(proj, cs).contains(v) && sel_candidates(proj, sdk, cs, v).len() >= 2 {
            match first_isolated(sel_rec_pool(proj, sdk, cs), sel_provided(proj, cs), 0) {
                Some(c) => Some(cs.push(c)),
                None => None,
            }
        } else {
            None
        }
    }
}

/// The listed components of the project: for each listed id, once and in
/// the order of its first listing, the first SDK component with that id.
pub open spec fn listed_selection(proj: Project, sdk: Seq<Rc<Component>>) -> Seq<Rc<Component>> {
    let d = dedup(listed_ids(proj));
    Seq::new(d.len(), |i: int| first_sdk(sdk, d[i]))
}

/// The selection after `n` resolution passes from `cs`; a pass that adds
/// nothing leaves the selection as it is.
pub open spec fn after_passes(proj: Project, sdk: Seq<Rc<Component>>, cs: Seq<Rc<Component>>, n: nat) -> Seq<
    Rc<Component>,
>
    decreases n,
{
    if n == 0 {
        cs
    } else {
        let prev = after_passes(proj, sdk, cs, (n - 1) as nat);
        match next_selection(proj, sdk, prev) {
            Some(c2) => c2,
            None => prev,
        }
    }
}

/// Resolution of the project against `sdk` stops at `cs`: some number of
/// passes from the listed components reaches `cs`, and a further pass adds
/// nothing.
pub open spec fn stops_at(proj: Project, sdk: Seq<Rc<Component>>, cs: Seq<Rc<Component>>) -> bool {
    &&& exists|n: nat| after_passes(proj, sdk, listed_selection(proj, sdk), n) == cs
    &&& next_selection(proj, sdk, cs) is None
}

/// What one resolution pass found.
enum Step {
    /// The selection meets the success criteria; its provided features.
    Resolved(FeatureSet),
    /// A component was added.
    Progress,
    /// Resolution cannot go on.
    Failed(ResolveError),
}

/// A sorted sequence's element below `u[m0]` sits at a lower index.
proof fn lemma_below(u: Seq<Seq<char>>, m0: int, v: Seq<char>) -> (m: int)
    requires
        strictly_sorted(u),
        0 <= m0 < u.len(),
        u.contains(v),
        seq_lt(v, u[m0]),
    ensures
        0 <= m < m0,
        u[m] == v,
{
    let m = choose|m: int| 0 <= m < u.len() && u[m] == v;
    if m == m0 {
        lemma_lt_irreflexive(v);
    } else if m > m0 {
        assert(seq_lt(u[m0], u[m]));
        lemma_lt_asymmetric(u[m0], v);
    }
    m
}

/// One pass of resolution over the selection `cs`: check the success
/// criteria, else add a component, else report why nothing can be added.
fn step(proj: &Project, sdk: &[Rc<Component>], cs: &mut Vec<Rc<Component>>, base: &FeatureSet) -> (r: Step)
    requires
        base.wf(),
        base.set() == project_provided(*proj),
        from_sdk(old(cs)@, sdk@),
        ids_distinct(old(cs)@),
    ensures
        from_sdk(final(cs)@, sdk@),
        ids_distinct(final(cs)@),
        extends(final(cs)@, old(cs)@),
        match r {
            Step::Progress => {
                &&& final(cs)@.len() > old(cs)@.len()
                &&& next_selection(*proj, sdk@, old(cs)@) == Some(final(cs)@)
                &&& forall|i: int|
                    old(cs)@.len() <= i < final(cs)@.len() ==> #[trigger] provides_required(
                        *final(cs)@[i],
                        *proj,
                        old(cs)@,
                    )
            },
            Step::Resolved(p) => {
                &&& final(cs)@ == old(cs)@
                &&& next_selection(*proj, sdk@, old(cs)@) is None
                &&& p.wf()
                &&& p.set() == sel_provided(*proj, old(cs)@)
                &&& resolved_at(*proj, old(cs)@)
            },
            Step::Failed(e) => {
                &&& final(cs)@ == old(cs)@
                &&& next_selection(*proj, sdk@, old(cs)@) is None
                &&& fails_at(*proj, sdk@, old(cs)@, e)
            },
        },
{
    let ghost c0 = cs@;
    let p = compute_provided(cs, base);
    proof {
        lemma_closure_unique(p.set(), cs@, base.set());
    }
    let ghost ps = p.set();
    assert(ps == sel_provided(*proj, c0));
    let req = collect_required(proj, cs, &p);
    let k = collect_conflicts(proj, cs, &p);
    let u = req.difference(&p);
    assert(req.set() == sel_required(*proj, c0));
    assert(k.set() == sel_conflicts(*proj, c0));
    assert(u.set() == sel_open(*proj, c0));
    if u.is_empty() {
        assert(sel_required(*proj, c0).subset_of(ps)) by {
            assert forall|x: Seq<char>| sel_required(*proj, c0).contains(x) implies ps.contains(x) by {
                if !ps.contains(x) {
                    assert(u.set().contains(x));
                }
            }
        }
        let clash = k.intersection(&p);
        if !clash.is_empty() {
            let v = clash.to_vec();
            assert(elems(v.deep_view()) == sel_conflicts(*proj, c0).intersect(ps));
            return Step::Failed(ResolveError::ConflictingFeatures(v));
        }
        assert(sel_conflicts(*proj, c0).disjoint(ps)) by {
            assert forall|x: Seq<char>| sel_conflicts(*proj, c0).contains(x) implies !ps.contains(x) by {
                if ps.contains(x) {
                    assert(clash.set().contains(x));
                }
            }
        }
        match check_duplicate_provides(cs, &p) {
            Ok(()) => {
                return Step::Resolved(p);
            },
            Err(e) => {
                return Step::Failed(e);
            },
        }
    }
    let mut rp = req.copy();
    rp.extend(&p);
    assert(rp.set() =~= sel_required(*proj, c0).union(ps));
    let ghost us = u.set();
    let ghost ks = k.set();
    let ghost rps = rp.set();
    proof {
        lemma_sorted_enum(u@);
        assert(u@.len() > 0);
        assert(elems(u@).contains(u@[0]));
        assert(!sel_required(*proj, c0).subset_of(ps));
    }
    let (added, zero, multi) = add_single_candidates(sdk, cs, &u, &rp, &k);
    if added {
        proof {
            assert(next_selection(*proj, sdk@, c0) == Some(cs@));
            assert forall|i: int| c0.len() <= i < cs@.len() implies #[trigger] provides_required(
                *cs@[i],
                *proj,
                c0,
            ) by {
                assert(provides_one_of(*cs@[i], u@, rps));
                let m = choose|m: int| 0 <= m < u@.len() && #[trigger] provides_active(*cs@[i], u@[m], rps);
                assert(elems(u@).contains(u@[m]));
                assert(sel_open(*proj, c0).contains(u@[m]));
            }
        }
        return Step::Progress;
    }
    assert(cs@ == c0);
    proof {
        assert forall|m: int| 0 <= m < u@.len() implies #[trigger] cands_at(sdk@, c0, u@, m, rps, ks)
            == sel_candidates(*proj, sdk@, c0, u@[m]) by {}
        assert forall|v: Seq<char>| #[trigger] sel_open(*proj, c0).contains(v) implies sel_candidates(
            *proj,
            sdk@,
            c0,
            v,
        ).len() != 1 by {
            assert(elems(u@).contains(v));
            let m = choose|m: int| 0 <= m < u@.len() && u@[m] == v;
            assert(cands_at(sdk@, c0, u@, m, rps, ks).len() != 1);
        }
    }
    if multi.is_some() {
        proof {
            let m = choose|m: int| 0 <= m < u@.len() && #[trigger] cands_at(sdk@, c0, u@, m, rps, ks).len() >= 2;
            assert(cands_at(sdk@, c0, u@, m, rps, ks).len() >= 2);
            assert(elems(u@).contains(u@[m]));
            assert(sel_open(*proj, c0).contains(u@[m]) && sel_candidates(*proj, sdk@, c0, u@[m]).len() >= 2);
        }
        match pick_recommendation(sdk, cs, &p, &k, &u) {
            Some(c) => {
                let ghost before = cs@;
                cs.push(c);
                proof {
                    assert forall|i: int| 0 <= i < cs@.len() implies exists|q: int|
                        0 <= q < sdk@.len() && #[trigger] sdk@[q] == #[trigger] cs@[i] by {
                        if i < before.len() {
                            assert(cs@[i] == before[i]);
                        }
                    }
                    assert forall|a: int, b: int| 0 <= a < b < cs@.len() implies (#[trigger] cs@[a]).id@
                        != (#[trigger] cs@[b]).id@ by {
                        assert(cs@[a] == before[a]);
                        if b < before.len() {
                            assert(cs@[b] == before[b]);
                        }
                    }
                    assert forall|i: int| 0 <= i < c0.len() implies #[trigger] cs@[i] == c0[i] by {}
                    let n0 = c0.len() as int;
                    let j = choose|j: int|
                        0 <= j < provs(*cs@[n0]).len() && cond_holds(provs(*cs@[n0])[j].condition, ps)
                            && !ks.contains((#[trigger] provs(*cs@[n0])[j]).name@) && us.contains(
                            provs(*cs@[n0])[j].name@,
                        );
                    assert(ps.subset_of(rps));
                    assert(cond_holds(provs(*cs@[n0])[j].condition, rps));
                    assert(provides_active(*cs@[n0], provs(*cs@[n0])[j].name@, rps));
                    assert(sel_open(*proj, c0).contains(provs(*cs@[n0])[j].name@));
                    assert(provides_required(*cs@[n0], *proj, c0));
                    assert forall|i: int| c0.len() <= i < cs@.len() implies #[trigger] provides_required(
                        *cs@[i],
                        *proj,
                        c0,
                    ) by {
                        assert(i == c0.len());
                    }
                    assert(cs@ == c0.push(c));
                    assert(next_selection(*proj, sdk@, c0) == Some(cs@));
                }
                return Step::Progress;
            },
            None => {
                assert(no_recommendation(*proj, sdk@, c0));
            },
        }
    }
    match zero {
        Some(z) => {
            proof {
                let m0 = choose|m: int|
                    0 <= m < u@.len() && z@ == u@[m] && #[trigger] cands_at(sdk@, c0, u@, m, rps, ks).len() == 0
                        && forall|m2: int|
                        0 <= m2 < m ==> #[trigger] cands_at(sdk@, c0, u@, m2, rps, ks).len() != 0;
                assert(cands_at(sdk@, c0, u@, m0, rps, ks).len() == 0);
                assert(elems(u@).contains(z@));
                assert forall|v: Seq<char>| #[trigger]
                    sel_open(*proj, c0).contains(v) && seq_lt(v, z@) implies sel_candidates(
                    *proj,
                    sdk@,
                    c0,
                    v,
                ).len() != 0 by {
                    assert(elems(u@).contains(v));
                    let m = lemma_below(u@, m0, v);
                    assert(cands_at(sdk@, c0, u@, m, rps, ks).len() != 0);
                }
                if exists|v: Seq<char>| #[trigger]
                    sel_open(*proj, c0).contains(v) && sel_candidates(*proj, sdk@, c0, v).len() >= 2 {
                    let v = choose|v: Seq<char>| #[trigger]
                        sel_open(*proj, c0).contains(v) && sel_candidates(*proj, sdk@, c0, v).len() >= 2;
                    assert(elems(u@).contains(v));
                    let m = choose|m: int| 0 <= m < u@.len() && u@[m] == v;
                    assert(cands_at(sdk@, c0, u@, m, rps, ks).len() >= 2);
                    assert(multi is Some);
                }
                assert(unsatisfied_at(*proj, sdk@, c0, z@));
            }
            return Step::Failed(ResolveError::UnsatisfiedRequirement(z));
        },
        None => {},
    }
    match multi {
        Some((q, ids)) => {
            proof {
                let m0 = choose|m: int|
                    0 <= m < u@.len() && q@ == u@[m] && #[trigger] cands_at(sdk@, c0, u@, m, rps, ks).len()
                        >= 2 && ids.deep_view() == ids_seq(cands_at(sdk@, c0, u@, m, rps, ks)) && forall|
                        m2: int,
                    | 0 <= m2 < m ==> #[trigger] cands_at(sdk@, c0, u@, m2, rps, ks).len() < 2;
                assert(cands_at(sdk@, c0, u@, m0, rps, ks).len() >= 2);
                assert(elems(u@).contains(q@));
                assert forall|v: Seq<char>| #[trigger]
                    sel_open(*proj, c0).contains(v) && seq_lt(v, q@) implies sel_candidates(
                    *proj,
                    sdk@,
                    c0,
                    v,
                ).len() < 2 by {
                    assert(elems(u@).contains(v));
                    let m = lemma_below(u@, m0, v);
                    assert(cands_at(sdk@, c0, u@, m, rps, ks).len() < 2);
                }
                assert forall|v: Seq<char>| #[trigger] sel_open(*proj, c0).contains(v) implies sel_candidates(
                    *proj,
                    sdk@,
                    c0,
                    v,
                ).len() != 0 by {
                    assert(elems(u@).contains(v));
                    let m = choose|m: int| 0 <= m < u@.len() && u@[m] == v;
                    assert(cands_at(sdk@, c0, u@, m, rps, ks).len() != 0);
                }
                assert(ambiguous_at(*proj, sdk@, c0, q@, ids.deep_view()));
            }
            return Step::Failed(ResolveError::AmbiguousRequirement { requirement: q, candidates: ids });
        },
        None => {},
    }
    proof {
        assert(cands_at(sdk@, c0, u@, 0, rps, ks).len() != 1);
        assert(cands_at(sdk@, c0, u@, 0, rps, ks).len() != 0);
        assert(cands_at(sdk@, c0, u@, 0, rps, ks).len() < 2);
    }
    Step::Failed(ResolveError::UnsatisfiedRequirement(u.get(0).clone()))
}

// ---------------------------------------------------------------------------
// Resolution
// ---------------------------------------------------------------------------

/// The outcome of a successful resolution.
#[derive(Debug)]
pub struct ResolveResult {
    /// The selected components: the listed ones, then those added.
    pub components: Vec<Rc<Component>>,
    /// The features the selected components and the project provide.
    pub provided_features: FeatureSet,
    /// Instance names per component id, for instantiable components included
    /// with an explicit `instance` list in the project.
    pub instances: InstanceMap,
}

impl Project {
    /// Resolves the project's components against `sdk`: starting from the
    /// listed components, adds SDK components for open requirements until
    /// every requirement is provided, then checks for conflicts and for
    /// features provided twice.
    pub fn resolve_components(&self, sdk: &SDK) -> (r: Result<ResolveResult, ResolveError>)
        ensures
            match r {
                Ok(res) => {
                    &&& first_unknown(*self, sdk.components@) is None
                    &&& valid_selection(*self, sdk.components@, res.components@)
                    &&& justified(*self, res.components@, dedup(listed_ids(*self)).len() as int)
                    &&& res.provided_features.wf()
                    &&& res.provided_features.set() == sel_provided(*self, res.components@)
                    &&& resolved_at(*self, res.components@)
                    &&& stops_at(*self, sdk.components@, res.components@)
                    &&& res.instances@ == instance_lists(listed(*self))
                },
                Err(ResolveError::UnknownComponent(id)) => first_unknown(*self, sdk.components@) == Some(id@),
                Err(e) => {
                    &&& first_unknown(*self, sdk.components@) is None
                    &&& exists|cs: Seq<Rc<Component>>|
                        stops_at(*self, sdk.components@, cs) && valid_selection(*self, sdk.components@, cs)
                            && justified(*self, cs, dedup(listed_ids(*self)).len() as int) && #[trigger] fails_at(
                            *self,
                            sdk.components@,
                            cs,
                            e,
                        )
                },
            },
    {
        let comps = sdk.components();
        let mut cs = match listed_components(self, comps) {
            Ok(cs) => cs,
            Err(e) => {
                return Err(e);
            },
        };
        let instances = match &self.component {
            Some(entries) => InstanceMap::from_entries(entries),
            None => {
                let m = InstanceMap::new();
                assert(instance_lists(listed(*self)) =~= Map::<Seq<char>, Seq<Seq<char>>>::empty());
                m
            },
        };
        let base = feature_names(&self.provides);
        assert(base.set() =~= project_provided(*self));
        let ghost start = listed_selection(*self, comps@);
        proof {
            let d = dedup(listed_ids(*self));
            assert forall|i: int| 0 <= i < d.len() implies cs@[i] == start[i] by {
                let k = choose|k: int| #[trigger] is_first_with_id(comps@, k, d[i]) && comps@[k] == cs@[i];
                lemma_first_sdk(comps@, k, d[i]);
            }
            assert(cs@ =~= start);
        }
        let ghost mut n: nat = 0;
        loop
            invariant
                comps@ == sdk.components@,
                after_passes(*self, comps@, start, n) == cs@,
                start == listed_selection(*self, comps@),
                first_unknown(*self, comps@) is None,
                valid_selection(*self, comps@, cs@),
                justified(*self, cs@, dedup(listed_ids(*self)).len() as int),
                base.wf(),
                base.set() == project_provided(*self),
                instances@ == instance_lists(listed(*self)),
            decreases absent_count(comps@, cs@),
        {
            let ghost prev = cs@;
            match step(self, comps, &mut cs, &base) {
                Step::Resolved(p) => {
                    return Ok(ResolveResult { components: cs, provided_features: p, instances });
                },
                Step::Failed(e) => {
                    assert(stops_at(*self, comps@, cs@));
                    return Err(e);
                },
                Step::Progress => {
                    proof {
                        n = n + 1;
                        assert(after_passes(*self, comps@, start, n) == cs@);
                        let n = prev.len() as int;
                        let x = cs@[n];
                        let q = choose|q: int| 0 <= q < comps@.len() && #[trigger] comps@[q] == #[trigger] cs@[n];
                        assert forall|id: Seq<char>| #[trigger] has_id(prev, id) implies has_id(cs@, id) by {
                            let a = choose|a: int| 0 <= a < prev.len() && (#[trigger] prev[a]).id@ == id;
                            assert(cs@[a] == prev[a]);
                        }
                        if has_id(prev, x.id@) {
                            let a = choose|a: int| 0 <= a < prev.len() && (#[trigger] prev[a]).id@ == x.id@;
                            assert(cs@[a] == prev[a]);
                            assert(cs@[a].id@ != cs@[n].id@);
                        }
                        assert(has_id(cs@, comps@[q].id@));
                        lemma_absent_count(comps@, prev, cs@, q);
                        assert forall|i: int| 0 <= i < dedup(listed_ids(*self)).len() implies is_first_in(
                            comps@,
                            #[trigger] cs@[i],
                            dedup(listed_ids(*self))[i],
                        ) by {
                            assert(cs@[i] == prev[i]);
                        }
                        assert forall|i: int|
                            dedup(listed_ids(*self)).len() <= i < cs@.len() implies #[trigger] provides_required(
                            *cs@[i],
                            *self,
                            cs@,
                        ) by {
                            if i < prev.len() {
                                assert(cs@[i] == prev[i]);
                                assert(provides_required(*prev[i], *self, prev));
                            }
                            lemma_provides_required_mono(*cs@[i], *self, prev, cs@);
                        }
                    }
                },
            }
        }
    }
}


// ---------------------------------------------------------------------------
// Laws
// ---------------------------------------------------------------------------

/// Once a pass adds nothing, further passes leave the selection unchanged.
proof fn lemma_after_passes_stable(
    proj: Project,
    sdk: Seq<Rc<Component>>,
    s: Seq<Rc<Component>>,
    n: nat,
    m: nat,
)
    requires
        n <= m,
        next_selection(proj, sdk, after_passes(proj, sdk, s, n)) is None,
    ensures
        after_passes(proj, sdk, s, m) == after_passes(proj, sdk, s, n),
    decreases m - n,
{
    if m > n {
        lemma_after_passes_stable(proj, sdk, s, n, (m - 1) as nat);
    }
}

/// Resolution is deterministic: there is only one selection at which it
/// stops.
pub proof fn lemma_stops_at_unique(
    proj: Project,
    sdk: Seq<Rc<Component>>,
    cs1: Seq<Rc<Component>>,
    cs2: Seq<Rc<Component>>,
)
    requires
        stops_at(proj, sdk, cs1),
        stops_at(proj, sdk, cs2),
    ensures
        cs1 == cs2,
{
    let s = listed_selection(proj, sdk);
    let n1 = choose|n: nat| after_passes(proj, sdk, s, n) == cs1;
    let n2 = choose|n: nat| after_passes(proj, sdk, s, n) == cs2;
    if n1 <= n2 {
        lemma_after_passes_stable(proj, sdk, s, n1, n2);
    } else {
        lemma_after_passes_stable(proj, sdk, s, n2, n1);
    }
}

/// Adding components, or features to start from, never removes a provided
/// feature: the closure grows with the selection.
pub proof fn lemma_provided_monotone(
    cs: Seq<Rc<Component>>,
    cs2: Seq<Rc<Component>>,
    base: Set<Seq<char>>,
    base2: Set<Seq<char>>,
)
    requires
        extends(cs2, cs),
        base.subset_of(base2),
    ensures
        provided_by(cs, base).subset_of(provided_by(cs2, base2)),
{
    lemma_closure_exists(cs, base);
    lemma_closure_exists(cs2, base2);
    let p1 = provided_by(cs, base);
    let p2 = provided_by(cs2, base2);
    assert(is_closure(p1, cs, base));
    assert(is_closure(p2, cs2, base2));
    assert(closed_under(p2, cs)) by {
        assert forall|i: int, j: int|
            #![trigger provs(*cs[i])[j]]
            0 <= i < cs.len() && 0 <= j < provs(*cs[i]).len() && cond_holds(provs(*cs[i])[j].condition, p2)
                implies p2.contains(provs(*cs[i])[j].name@) by {
            assert(cs2[i] == cs[i]);
            assert(provs(*cs2[i])[j] == provs(*cs[i])[j]);
        }
    }
    assert(base.subset_of(p2));
}

} // verus!
