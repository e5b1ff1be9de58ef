//! The feature sets of component resolution: the features a selection of
//! components provides, requires and conflicts with, the candidates for an
//! open requirement, and the duplicate-provide rule.

use vstd::prelude::*;

use std::rc::Rc;

use crate::component::{Component, ComponentId};
use crate::definitions::{cond_holds, names_of, Conflict, Feature, Require};
use crate::features::{FeatureSet, elems, lemma_sorted_len_bound, strictly_sorted};
use crate::text::{lemma_lt_irreflexive, lemma_lt_asymmetric, seq_lt};
use crate::project::Project;

verus! {

broadcast use vstd::string::group_string_axioms;

/// The entries of an optional list (none when absent).
pub open spec fn opt_seq<T>(o: Option<Vec<T>>) -> Seq<T> {
    match o {
        Some(v) => v@,
        None => Seq::empty(),
    }
}

/// The `provides` entries of a component.
pub open spec fn provs(c: Component) -> Seq<Feature> {
    opt_seq(c.provides)
}

/// Component `c` provides `name` when the features in `p` are present: one of
/// its provides entries has that name and its condition holds in `p`.
pub open spec fn provides_active(c: Component, name: Seq<char>, p: Set<Seq<char>>) -> bool {
    exists|j: int|
        0 <= j < provs(c).len() && (#[trigger] provs(c)[j]).name@ == name && cond_holds(
            provs(c)[j].condition,
            p,
        )
}

/// `p` is closed under the provides of `cs`: every provide whose condition
/// holds in `p` names a feature of `p`.
pub open spec fn closed_under(p: Set<Seq<char>>, cs: Seq<Rc<Component>>) -> bool {
    forall|i: int, j: int|
        #![trigger provs(*cs[i])[j]]
        0 <= i < cs.len() && 0 <= j < provs(*cs[i]).len() && cond_holds(
            provs(*cs[i])[j].condition,
            p,
        ) ==> p.contains(provs(*cs[i])[j].name@)
}

/// `p` is the feature set provided by `cs` on top of `base`: the least set
/// that contains `base` and is closed under the provides of `cs`.
pub open spec fn is_closure(p: Set<Seq<char>>, cs: Seq<Rc<Component>>, base: Set<Seq<char>>) -> bool {
    &&& base.subset_of(p)
    &&& closed_under(p, cs)
    &&& forall|q: Set<Seq<char>>| #[trigger]
        closed_under(q, cs) && base.subset_of(q) ==> p.subset_of(q)
}

/// The names of the provides of every component in `cs`, in order.
pub open spec fn provide_names(cs: Seq<Rc<Component>>) -> Seq<Seq<char>>
    decreases cs.len(),
{
    if cs.len() == 0 {
        Seq::empty()
    } else {
        provide_names(cs.drop_last()) + provs(*cs.last()).map_values(|f: Feature| f.name@)
    }
}

/// Every provide name of `cs` occurs in `provide_names(cs)`.
pub proof fn lemma_provide_names(cs: Seq<Rc<Component>>)
    ensures
        forall|i: int, j: int|
            #![trigger provs(*cs[i])[j]]
            0 <= i < cs.len() && 0 <= j < provs(*cs[i]).len() ==> provide_names(cs).contains(
                provs(*cs[i])[j].name@,
            ),
    decreases cs.len(),
{
    if cs.len() > 0 {
        let c0 = cs.drop_last();
        lemma_provide_names(c0);
        assert forall|i: int, j: int|
            #![trigger provs(*cs[i])[j]]
            0 <= i < cs.len() && 0 <= j < provs(*cs[i]).len() implies provide_names(cs).contains(
            provs(*cs[i])[j].name@,
        ) by {
            let n = provs(*cs[i])[j].name@;
            if i < cs.len() - 1 {
                assert(cs[i] == c0[i]);
                assert(provs(*c0[i])[j] == provs(*cs[i])[j]);
                let k = choose|k: int| 0 <= k < provide_names(c0).len() && provide_names(c0)[k] == n;
                assert(provide_names(cs)[k] == n);
            } else {
                assert(provs(*cs.last()).map_values(|f: Feature| f.name@)[j] == n);
                assert(provide_names(cs)[provide_names(c0).len() + j] == n);
            }
        }
    }
}

/// The features provided by `cs` on top of `base`.
pub fn compute_provided(cs: &Vec<Rc<Component>>, base: &FeatureSet) -> (p: FeatureSet)
    requires
        base.wf(),
    ensures
        p.wf(),
        is_closure(p.set(), cs@, base.set()),
{
    let ghost universe = base@ + provide_names(cs@);
    proof {
        lemma_provide_names(cs@);
    }
    let mut p = base.copy();
    assert forall|k: int| 0 <= k < p@.len() implies universe.contains(#[trigger] p@[k]) by {
        assert(universe[k] == p@[k]);
    }
    loop
        invariant
            p.wf(),
            base.wf(),
            universe == base@ + provide_names(cs@),
            forall|i: int, j: int|
                #![trigger provs(*cs@[i])[j]]
                0 <= i < cs@.len() && 0 <= j < provs(*cs@[i]).len() ==> provide_names(
                    cs@,
                ).contains(provs(*cs@[i])[j].name@),
            base.set().subset_of(p.set()),
            forall|q: Set<Seq<char>>| #[trigger]
                closed_under(q, cs@) && base.set().subset_of(q) ==> p.set().subset_of(q),
            forall|k: int| 0 <= k < p@.len() ==> universe.contains(#[trigger] p@[k]),
        decreases universe.len() - p@.len(),
    {
        proof {
            lemma_sorted_len_bound(p@, universe);
        }
        let ghost len0 = p@.len();
        let ghost set0 = p.set();
        let mut changed = false;
        let mut i: usize = 0;
        while i < cs.len()
            invariant
                p.wf(),
                base.wf(),
                i <= cs@.len(),
                universe == base@ + provide_names(cs@),
                forall|i: int, j: int|
                    #![trigger provs(*cs@[i])[j]]
                    0 <= i < cs@.len() && 0 <= j < provs(*cs@[i]).len() ==> provide_names(
                        cs@,
                    ).contains(provs(*cs@[i])[j].name@),
                base.set().subset_of(p.set()),
                forall|q: Set<Seq<char>>| #[trigger]
                    closed_under(q, cs@) && base.set().subset_of(q) ==> p.set().subset_of(q),
                forall|k: int| 0 <= k < p@.len() ==> universe.contains(#[trigger] p@[k]),
                p@.len() >= len0,
                changed ==> p@.len() > len0,
                !changed ==> p.set() == set0 && p@.len() == len0,
                !changed ==> forall|a: int, j: int|
                    #![trigger provs(*cs@[a])[j]]
                    0 <= a < i && 0 <= j < provs(*cs@[a]).len() && cond_holds(
                        provs(*cs@[a])[j].condition,
                        p.set(),
                    ) ==> p.set().contains(provs(*cs@[a])[j].name@),
            decreases cs@.len() - i,
        {
            match &cs[i].provides {
                None => {},
                Some(fs) => {
                    assert(provs(*cs@[i as int]) == fs@);
                    let mut j: usize = 0;
                    while j < fs.len()
                        invariant
                            p.wf(),
                            base.wf(),
                            i < cs@.len(),
                            j <= fs@.len(),
                            provs(*cs@[i as int]) == fs@,
                            universe == base@ + provide_names(cs@),
                            forall|i: int, j: int|
                                #![trigger provs(*cs@[i])[j]]
                                0 <= i < cs@.len() && 0 <= j < provs(*cs@[i]).len()
                                    ==> provide_names(cs@).contains(provs(*cs@[i])[j].name@),
                            base.set().subset_of(p.set()),
                            forall|q: Set<Seq<char>>| #[trigger]
                                closed_under(q, cs@) && base.set().subset_of(q) ==> p.set().subset_of(
                                    q,
                                ),
                            forall|k: int| 0 <= k < p@.len() ==> universe.contains(#[trigger] p@[k]),
                            p@.len() >= len0,
                            changed ==> p@.len() > len0,
                            !changed ==> p.set() == set0 && p@.len() == len0,
                            !changed ==> forall|a: int, b: int|
                                #![trigger provs(*cs@[a])[b]]
                                0 <= a < cs@.len() && 0 <= b < provs(*cs@[a]).len() && (a < i || (
                                a == i && b < j)) && cond_holds(provs(*cs@[a])[b].condition, p.set())
                                    ==> p.set().contains(provs(*cs@[a])[b].name@),
                        decreases fs@.len() - j,
                    {
                        let f = &fs[j];
                        assert(provs(*cs@[i as int])[j as int] == *f);
                        if !p.contains(f.name.as_str()) && f.satisfied(&p) {
                            let ghost before = p.set();
                            proof {
                                assert forall|q: Set<Seq<char>>| #[trigger]
                                    closed_under(q, cs@) && base.set().subset_of(q) implies q.contains(
                                    f.name@,
                                ) by {
                                    assert(before.subset_of(q));
                                    assert(cond_holds(f.condition, q));
                                }
                                assert(universe.contains(f.name@)) by {
                                    let k = choose|k: int|
                                        0 <= k < provide_names(cs@).len() && provide_names(cs@)[k]
                                            == f.name@;
                                    assert(universe[base@.len() + k] == f.name@);
                                }
                            }
                            let ghost old_v = p@;
                            p.insert(f.name.clone());
                            changed = true;
                            proof {
                                assert forall|k: int| 0 <= k < p@.len() implies universe.contains(
                                    #[trigger] p@[k],
                                ) by {
                                    assert(p.set().contains(p@[k]));
                                    if p@[k] != f.name@ {
                                        assert(elems(old_v).contains(p@[k]));
                                        let m = choose|m: int|
                                            0 <= m < old_v.len() && old_v[m] == p@[k];
                                        assert(universe.contains(old_v[m]));
                                    }
                                }
                            }
                        }
                        j = j + 1;
                    }
                },
            }
            proof {
                if !changed {
                    assert forall|a: int, j: int|
                        #![trigger provs(*cs@[a])[j]]
                        0 <= a < i + 1 && 0 <= j < provs(*cs@[a]).len() && cond_holds(
                            provs(*cs@[a])[j].condition,
                            p.set(),
                        ) implies p.set().contains(provs(*cs@[a])[j].name@) by {
                        if a == i {
                            assert(provs(*cs@[i as int]) == opt_seq(cs@[i as int].provides));
                        }
                    }
                }
            }
            i = i + 1;
        }
        if !changed {
            assert(closed_under(p.set(), cs@));
            return p;
        }
        proof {
            lemma_sorted_len_bound(p@, universe);
        }
    }
}

/// The `requires` entries of a component.
pub open spec fn reqs(c: Component) -> Seq<Require> {
    opt_seq(c.requires)
}

/// The `conflicts` entries of a component.
pub open spec fn confs(c: Component) -> Seq<Conflict> {
    opt_seq(c.conflicts)
}

/// The features a project provides by itself (whatever their conditions).
pub open spec fn project_provided(proj: Project) -> Set<Seq<char>> {
    Set::new(
        |n: Seq<char>|
            exists|j: int|
                0 <= j < opt_seq(proj.provides).len() && (#[trigger] opt_seq(proj.provides)[j]).name@
                    == n,
    )
}

/// The features a project requires by itself (whatever their conditions).
pub open spec fn project_required(proj: Project) -> Set<Seq<char>> {
    Set::new(
        |n: Seq<char>|
            exists|j: int|
                0 <= j < opt_seq(proj.requires).len() && (#[trigger] opt_seq(proj.requires)[j]).name@
                    == n,
    )
}


/// Provide `(a, b)` of `cs` (the `b`-th provides entry of the `a`-th
/// component) is active in `p` and names `n`.
pub open spec fn prov_entry(cs: Seq<Rc<Component>>, p: Set<Seq<char>>, a: int, b: int, n: Seq<char>) -> bool {
    0 <= a < cs.len() && 0 <= b < provs(*cs[a]).len() && provs(*cs[a])[b].name@ == n && cond_holds(
        provs(*cs[a])[b].condition,
        p,
    )
}

/// The ids of the components of `cs` that provide `name` in `p`.
pub open spec fn provider_ids(cs: Seq<Rc<Component>>, p: Set<Seq<char>>, name: Seq<char>) -> Set<
    Seq<char>,
> {
    Set::new(
        |id: Seq<char>|
            exists|a: int, b: int| #[trigger] prov_entry(cs, p, a, b, name) && cs[a].id@ == id,
    )
}

/// `name` is provided in `p` by two components of `cs` with different ids,
/// and not every provide of it is marked `allow_multiple`.
pub open spec fn dup_violation(cs: Seq<Rc<Component>>, p: Set<Seq<char>>, name: Seq<char>) -> bool {
    &&& exists|x: Seq<char>, y: Seq<char>|
        #[trigger] provider_ids(cs, p, name).contains(x) && #[trigger] provider_ids(
            cs,
            p,
            name,
        ).contains(y) && x != y
    &&& exists|a: int, b: int| #[trigger]
        prov_entry(cs, p, a, b, name) && provs(*cs[a])[b].allow_multiple != Some(true)
}

/// Requirement `(a, b)` of `cs` (the `b`-th requires entry of the `a`-th
/// component) is active in `p` and names `n`.
pub open spec fn req_entry(cs: Seq<Rc<Component>>, p: Set<Seq<char>>, a: int, b: int, n: Seq<char>) -> bool {
    0 <= a < cs.len() && 0 <= b < reqs(*cs[a]).len() && reqs(*cs[a])[b].name@ == n && cond_holds(
        reqs(*cs[a])[b].condition,
        p,
    )
}

/// The required features R: the project's requirements and every
/// requirement of `cs` whose condition holds in `p`.
pub open spec fn required_set(proj: Project, cs: Seq<Rc<Component>>, p: Set<Seq<char>>) -> Set<
    Seq<char>,
> {
    Set::new(
        |n: Seq<char>|
            project_required(proj).contains(n) || exists|a: int, b: int| #[trigger]
                req_entry(cs, p, a, b, n),
    )
}

/// Conflict `(a, b)` of `cs` is active in `p` and names `n`.
pub open spec fn conf_entry(cs: Seq<Rc<Component>>, p: Set<Seq<char>>, a: int, b: int, n: Seq<char>) -> bool {
    0 <= a < cs.len() && 0 <= b < confs(*cs[a]).len() && confs(*cs[a])[b].name@ == n && cond_holds(
        confs(*cs[a])[b].condition,
        p,
    )
}

/// The project's `b`-th conflict is active in `p` and names `n`.
pub open spec fn project_conf_entry(proj: Project, p: Set<Seq<char>>, b: int, n: Seq<char>) -> bool {
    0 <= b < opt_seq(proj.conflicts).len() && opt_seq(proj.conflicts)[b].name@ == n && cond_holds(
        opt_seq(proj.conflicts)[b].condition,
        p,
    )
}

/// The conflicting features K: every conflict of `cs` and of the project
/// whose condition holds in `p`.
pub open spec fn conflict_set(proj: Project, cs: Seq<Rc<Component>>, p: Set<Seq<char>>) -> Set<
    Seq<char>,
> {
    Set::new(
        |n: Seq<char>|
            (exists|a: int, b: int| #[trigger] conf_entry(cs, p, a, b, n)) || exists|b: int| #[trigger]
                project_conf_entry(proj, p, b, n),
    )
}

/// The names of a list of requirements, whatever their conditions.
pub(crate) fn require_names(v: &Option<Vec<Require>>) -> (r: FeatureSet)
    ensures
        r.wf(),
        r.set() == Set::new(
            |n: Seq<char>|
                exists|j: int| 0 <= j < opt_seq(*v).len() && (#[trigger] opt_seq(*v)[j]).name@ == n,
        ),
{
    let mut r = FeatureSet::new();
    let ghost full = opt_seq(*v);
    match v {
        None => {
            assert(r.set() =~= Set::new(
                |n: Seq<char>|
                    exists|j: int| 0 <= j < opt_seq(*v).len() && (#[trigger] opt_seq(*v)[j]).name@ == n,
            ));
        },
        Some(list) => {
            let mut i: usize = 0;
            while i < list.len()
                invariant
                    r.wf(),
                    i <= list@.len(),
                    full == list@,
                    r.set() == Set::new(
                        |n: Seq<char>|
                            exists|j: int| 0 <= j < i && (#[trigger] full[j]).name@ == n,
                    ),
                decreases list@.len() - i,
            {
                let ghost before = r.set();
                r.insert(list[i].name.clone());
                assert(r.set() =~= Set::new(
                    |n: Seq<char>| exists|j: int| 0 <= j < i + 1 && (#[trigger] full[j]).name@ == n,
                )) by {
                    assert forall|n: Seq<char>| exists|j: int| 0 <= j < i + 1 && (#[trigger] full[j]).name@ == n implies r.set().contains(n) by {
                        if exists|j: int| 0 <= j < i + 1 && (#[trigger] full[j]).name@ == n {
                            let j = choose|j: int| 0 <= j < i + 1 && (#[trigger] full[j]).name@ == n;
                            if j < i {
                                assert(before.contains(n));
                            }
                        }
                    }
                }
                i = i + 1;
            }
        },
    }
    r
}

/// The names of a list of provides, whatever their conditions.
pub(crate) fn feature_names(v: &Option<Vec<Feature>>) -> (r: FeatureSet)
    ensures
        r.wf(),
        r.set() == Set::new(
            |n: Seq<char>|
                exists|j: int| 0 <= j < opt_seq(*v).len() && (#[trigger] opt_seq(*v)[j]).name@ == n,
        ),
{
    let mut r = FeatureSet::new();
    let ghost full = opt_seq(*v);
    match v {
        None => {
            assert(r.set() =~= Set::new(
                |n: Seq<char>|
                    exists|j: int| 0 <= j < opt_seq(*v).len() && (#[trigger] opt_seq(*v)[j]).name@ == n,
            ));
        },
        Some(list) => {
            let mut i: usize = 0;
            while i < list.len()
                invariant
                    r.wf(),
                    i <= list@.len(),
                    full == list@,
                    r.set() == Set::new(
                        |n: Seq<char>|
                            exists|j: int| 0 <= j < i && (#[trigger] full[j]).name@ == n,
                    ),
                decreases list@.len() - i,
            {
                let ghost before = r.set();
                r.insert(list[i].name.clone());
                assert(r.set() =~= Set::new(
                    |n: Seq<char>| exists|j: int| 0 <= j < i + 1 && (#[trigger] full[j]).name@ == n,
                )) by {
                    assert forall|n: Seq<char>| exists|j: int| 0 <= j < i + 1 && (#[trigger] full[j]).name@ == n implies r.set().contains(n) by {
                        if exists|j: int| 0 <= j < i + 1 && (#[trigger] full[j]).name@ == n {
                            let j = choose|j: int| 0 <= j < i + 1 && (#[trigger] full[j]).name@ == n;
                            if j < i {
                                assert(before.contains(n));
                            }
                        }
                    }
                }
                i = i + 1;
            }
        },
    }
    r
}

/// The required features R of `cs` in `p`.
pub(crate) fn collect_required(proj: &Project, cs: &Vec<Rc<Component>>, p: &FeatureSet) -> (r: FeatureSet)
    ensures
        r.wf(),
        r.set() == required_set(*proj, cs@, p.set()),
{
    let mut r = require_names(&proj.requires);
    let ghost ps = p.set();
    let mut i: usize = 0;
    while i < cs.len()
        invariant
            r.wf(),
            i <= cs@.len(),
            ps == p.set(),
            r.set() == Set::new(
                |n: Seq<char>|
                    project_required(*proj).contains(n) || exists|a: int, b: int|
                        a < i && #[trigger] req_entry(cs@, ps, a, b, n),
            ),
        decreases cs@.len() - i,
    {
        match &cs[i].requires {
            None => {
                assert(reqs(*cs@[i as int]).len() == 0);
            },
            Some(list) => {
                assert(reqs(*cs@[i as int]) == list@);
                let mut j: usize = 0;
                while j < list.len()
                    invariant
                        r.wf(),
                        i < cs@.len(),
                        j <= list@.len(),
                        ps == p.set(),
                        reqs(*cs@[i as int]) == list@,
                        r.set() == Set::new(
                            |n: Seq<char>|
                                project_required(*proj).contains(n) || exists|a: int, b: int|
                                    (a < i || (a == i && b < j)) && #[trigger] req_entry(
                                        cs@,
                                        ps,
                                        a,
                                        b,
                                        n,
                                    ),
                        ),
                    decreases list@.len() - j,
                {
                    let ghost before = r.set();
                    let active = list[j].satisfied(p);
                    if active {
                        r.insert(list[j].name.clone());
                    }
                    assert(r.set() =~= Set::new(
                        |n: Seq<char>|
                            project_required(*proj).contains(n) || exists|a: int, b: int|
                                (a < i || (a == i && b < j + 1)) && #[trigger] req_entry(
                                    cs@,
                                    ps,
                                    a,
                                    b,
                                    n,
                                ),
                    )) by {
                        assert forall|n: Seq<char>| project_required(*proj).contains(n) || exists|
                                a: int,
                                b: int,
                            | (a < i || (a == i && b < j + 1)) && #[trigger] req_entry(cs@, ps, a, b, n) implies r.set().contains(n) by {
                            if exists|a: int, b: int|
                                (a < i || (a == i && b < j + 1)) && #[trigger] req_entry(cs@, ps, a, b, n) {
                                let (a, b) = choose|a: int, b: int|
                                    (a < i || (a == i && b < j + 1)) && #[trigger] req_entry(cs@, ps, a, b, n);
                                if a < i || b < j {
                                    assert(before.contains(n));
                                }
                            }
                        }
                        if active {
                            assert(req_entry(cs@, ps, i as int, j as int, list@[j as int].name@));
                        }
                    }
                    j = j + 1;
                }
            },
        }
        assert(r.set() =~= Set::new(
            |n: Seq<char>|
                project_required(*proj).contains(n) || exists|a: int, b: int|
                    a < i + 1 && #[trigger] req_entry(cs@, ps, a, b, n),
        )) by {
            assert forall|n: Seq<char>| project_required(*proj).contains(n) || exists|a: int, b: int|
                    a < i + 1 && #[trigger] req_entry(cs@, ps, a, b, n) implies r.set().contains(n) by {
                if exists|a: int, b: int| a < i + 1 && #[trigger] req_entry(cs@, ps, a, b, n) {
                    let (a, b) = choose|a: int, b: int| a < i + 1 && #[trigger] req_entry(cs@, ps, a, b, n);
                    assert(a < i || (a == i && b < reqs(*cs@[i as int]).len()));
                }
            }
        }
        i = i + 1;
    }
    assert(r.set() =~= required_set(*proj, cs@, p.set()));
    r
}

/// The component conflicts of `cs` active in `p`.
fn collect_component_conflicts(cs: &Vec<Rc<Component>>, p: &FeatureSet) -> (r: FeatureSet)
    ensures
        r.wf(),
        r.set() == Set::new(|n: Seq<char>| exists|a: int, b: int| #[trigger] conf_entry(cs@, p.set(), a, b, n)),
{
    let mut r = FeatureSet::new();
    let ghost ps = p.set();
    assert(r.set() =~= Set::new(
        |n: Seq<char>| false || exists|a: int, b: int| a < 0 && #[trigger] conf_entry(cs@, ps, a, b, n),
    ));
    let mut i: usize = 0;
    while i < cs.len()
        invariant
            r.wf(),
            i <= cs@.len(),
            ps == p.set(),
            r.set() == Set::new(
                |n: Seq<char>|
                    false || exists|a: int, b: int|
                        a < i && #[trigger] conf_entry(cs@, ps, a, b, n),
            ),
        decreases cs@.len() - i,
    {
        match &cs[i].conflicts {
            None => {
                assert(confs(*cs@[i as int]).len() == 0);
            },
            Some(list) => {
                assert(confs(*cs@[i as int]) == list@);
                let mut j: usize = 0;
                while j < list.len()
                    invariant
                        r.wf(),
                        i < cs@.len(),
                        j <= list@.len(),
                        ps == p.set(),
                        confs(*cs@[i as int]) == list@,
                        r.set() == Set::new(
                            |n: Seq<char>|
                                false || exists|a: int, b: int|
                                    (a < i || (a == i && b < j)) && #[trigger] conf_entry(
                                        cs@,
                                        ps,
                                        a,
                                        b,
                                        n,
                                    ),
                        ),
                    decreases list@.len() - j,
                {
                    let ghost before = r.set();
                    let active = list[j].satisfied(p);
                    if active {
                        r.insert(list[j].name.clone());
                    }
                    assert(r.set() =~= Set::new(
                        |n: Seq<char>|
                            false || exists|a: int, b: int|
                                (a < i || (a == i && b < j + 1)) && #[trigger] conf_entry(
                                    cs@,
                                    ps,
                                    a,
                                    b,
                                    n,
                                ),
                    )) by {
                        assert forall|n: Seq<char>| false || exists|
                                a: int,
                                b: int,
                            | (a < i || (a == i && b < j + 1)) && #[trigger] conf_entry(cs@, ps, a, b, n) implies r.set().contains(n) by {
                            if exists|a: int, b: int|
                                (a < i || (a == i && b < j + 1)) && #[trigger] conf_entry(cs@, ps, a, b, n) {
                                let (a, b) = choose|a: int, b: int|
                                    (a < i || (a == i && b < j + 1)) && #[trigger] conf_entry(cs@, ps, a, b, n);
                                if a < i || b < j {
                                    assert(before.contains(n));
                                }
                            }
                        }
                        if active {
                            assert(conf_entry(cs@, ps, i as int, j as int, list@[j as int].name@));
                        }
                    }
                    j = j + 1;
                }
            },
        }
        assert(r.set() =~= Set::new(
            |n: Seq<char>|
                false || exists|a: int, b: int|
                    a < i + 1 && #[trigger] conf_entry(cs@, ps, a, b, n),
        )) by {
            assert forall|n: Seq<char>| false || exists|a: int, b: int|
                    a < i + 1 && #[trigger] conf_entry(cs@, ps, a, b, n) implies r.set().contains(n) by {
                if exists|a: int, b: int| a < i + 1 && #[trigger] conf_entry(cs@, ps, a, b, n) {
                    let (a, b) = choose|a: int, b: int| a < i + 1 && #[trigger] conf_entry(cs@, ps, a, b, n);
                    assert(a < i || (a == i && b < confs(*cs@[i as int]).len()));
                }
            }
        }
        i = i + 1;
    }
    assert(r.set() =~= Set::new(|n: Seq<char>| exists|a: int, b: int| #[trigger] conf_entry(cs@, p.set(), a, b, n)));
    r
}


/// The names of the provides of `cs` active in `p`.
pub(crate) fn collect_active_provides(cs: &Vec<Rc<Component>>, p: &FeatureSet) -> (r: FeatureSet)
    ensures
        r.wf(),
        r.set() == Set::new(|n: Seq<char>| exists|a: int, b: int| #[trigger] prov_entry(cs@, p.set(), a, b, n)),
{
    let mut r = FeatureSet::new();
    let ghost ps = p.set();
    assert(r.set() =~= Set::new(
        |n: Seq<char>| false || exists|a: int, b: int| a < 0 && #[trigger] prov_entry(cs@, ps, a, b, n),
    ));
    let mut i: usize = 0;
    while i < cs.len()
        invariant
            r.wf(),
            i <= cs@.len(),
            ps == p.set(),
            r.set() == Set::new(
                |n: Seq<char>|
                    false || exists|a: int, b: int|
                        a < i && #[trigger] prov_entry(cs@, ps, a, b, n),
            ),
        decreases cs@.len() - i,
    {
        match &cs[i].provides {
            None => {
                assert(provs(*cs@[i as int]).len() == 0);
            },
            Some(list) => {
                assert(provs(*cs@[i as int]) == list@);
                let mut j: usize = 0;
                while j < list.len()
                    invariant
                        r.wf(),
                        i < cs@.len(),
                        j <= list@.len(),
                        ps == p.set(),
                        provs(*cs@[i as int]) == list@,
                        r.set() == Set::new(
                            |n: Seq<char>|
                                false || exists|a: int, b: int|
                                    (a < i || (a == i && b < j)) && #[trigger] prov_entry(
                                        cs@,
                                        ps,
                                        a,
                                        b,
                                        n,
                                    ),
                        ),
                    decreases list@.len() - j,
                {
                    let ghost before = r.set();
                    let active = list[j].satisfied(p);
                    if active {
                        r.insert(list[j].name.clone());
                    }
                    assert(r.set() =~= Set::new(
                        |n: Seq<char>|
                            false || exists|a: int, b: int|
                                (a < i || (a == i && b < j + 1)) && #[trigger] prov_entry(
                                    cs@,
                                    ps,
                                    a,
                                    b,
                                    n,
                                ),
                    )) by {
                        assert forall|n: Seq<char>| false || exists|
                                a: int,
                                b: int,
                            | (a < i || (a == i && b < j + 1)) && #[trigger] prov_entry(cs@, ps, a, b, n) implies r.set().contains(n) by {
                            if exists|a: int, b: int|
                                (a < i || (a == i && b < j + 1)) && #[trigger] prov_entry(cs@, ps, a, b, n) {
                                let (a, b) = choose|a: int, b: int|
                                    (a < i || (a == i && b < j + 1)) && #[trigger] prov_entry(cs@, ps, a, b, n);
                                if a < i || b < j {
                                    assert(before.contains(n));
                                }
                            }
                        }
                        if active {
                            assert(prov_entry(cs@, ps, i as int, j as int, list@[j as int].name@));
                        }
                    }
                    j = j + 1;
                }
            },
        }
        assert(r.set() =~= Set::new(
            |n: Seq<char>|
                false || exists|a: int, b: int|
                    a < i + 1 && #[trigger] prov_entry(cs@, ps, a, b, n),
        )) by {
            assert forall|n: Seq<char>| false || exists|a: int, b: int|
                    a < i + 1 && #[trigger] prov_entry(cs@, ps, a, b, n) implies r.set().contains(n) by {
                if exists|a: int, b: int| a < i + 1 && #[trigger] prov_entry(cs@, ps, a, b, n) {
                    let (a, b) = choose|a: int, b: int| a < i + 1 && #[trigger] prov_entry(cs@, ps, a, b, n);
                    assert(a < i || (a == i && b < provs(*cs@[i as int]).len()));
                }
            }
        }
        i = i + 1;
    }
    assert(r.set() =~= Set::new(|n: Seq<char>| exists|a: int, b: int| #[trigger] prov_entry(cs@, p.set(), a, b, n)));
    r
}


/// The conflicting features K of `cs` and the project in `p`.
pub(crate) fn collect_conflicts(proj: &Project, cs: &Vec<Rc<Component>>, p: &FeatureSet) -> (r: FeatureSet)
    ensures
        r.wf(),
        r.set() == conflict_set(*proj, cs@, p.set()),
{
    let mut r = collect_component_conflicts(cs, p);
    let ghost ps = p.set();
    let ghost comp_part = r.set();
    match &proj.conflicts {
        None => {
            assert(r.set() =~= conflict_set(*proj, cs@, p.set()));
        },
        Some(list) => {
            assert(opt_seq(proj.conflicts) == list@);
            let mut j: usize = 0;
            while j < list.len()
                invariant
                    r.wf(),
                    j <= list@.len(),
                    ps == p.set(),
                    opt_seq(proj.conflicts) == list@,
                    r.set() == comp_part.union(
                        Set::new(
                            |n: Seq<char>|
                                exists|b: int| b < j && #[trigger] project_conf_entry(*proj, ps, b, n),
                        ),
                    ),
                decreases list@.len() - j,
            {
                let ghost before = r.set();
                let active = list[j].satisfied(p);
                if active {
                    r.insert(list[j].name.clone());
                }
                assert(r.set() =~= comp_part.union(
                    Set::new(
                        |n: Seq<char>|
                            exists|b: int| b < j + 1 && #[trigger] project_conf_entry(*proj, ps, b, n),
                    ),
                )) by {
                    assert forall|n: Seq<char>| exists|b: int|
                            b < j + 1 && #[trigger] project_conf_entry(*proj, ps, b, n) implies r.set().contains(n) by {
                        if exists|b: int| b < j + 1 && #[trigger] project_conf_entry(*proj, ps, b, n) {
                            let b = choose|b: int| b < j + 1 && #[trigger] project_conf_entry(*proj, ps, b, n);
                            if b < j {
                                assert(before.contains(n));
                            }
                        }
                    }
                    if active {
                        assert(project_conf_entry(*proj, ps, j as int, list@[j as int].name@));
                    }
                }
                j = j + 1;
            }
            assert(r.set() =~= conflict_set(*proj, cs@, p.set())) by {
                assert forall|n: Seq<char>|
                    r.set().contains(n) <== conflict_set(*proj, cs@, p.set()).contains(n) by {
                    if exists|b: int| #[trigger] project_conf_entry(*proj, ps, b, n) {
                        let b = choose|b: int| #[trigger] project_conf_entry(*proj, ps, b, n);
                        assert(b < j);
                    }
                }
            }
        },
    }
    r
}

/// Why a project's components could not be resolved.
#[derive(Debug, Clone, PartialEq, Eq)]
pub enum ResolveError {
    UnknownComponent(String),
    UnsatisfiedRequirement(String),
    AmbiguousRequirement { requirement: String, candidates: Vec<String> },
    ConflictingFeatures(Vec<String>),
    DuplicateProvide { feature: String, components: Vec<String> },
}

/// The names joined with `, `.
pub open spec fn join_names(v: Seq<Seq<char>>) -> Seq<char>
    decreases v.len(),
{
    if v.len() == 0 {
        Seq::empty()
    } else if v.len() == 1 {
        v[0]
    } else {
        join_names(v.drop_last()) + seq![',', ' '] + v.last()
    }
}

/// The names of `v` joined with `, `.
fn join_with_commas(v: &Vec<String>) -> (r: String)
    ensures
        r@ == join_names(v.deep_view()),
{
    let mut out = String::new();
    let mut i: usize = 0;
    while i < v.len()
        invariant
            i <= v@.len(),
            out@ == join_names(v.deep_view().take(i as int)),
        decreases v@.len() - i,
    {
        let ghost t1 = v.deep_view().take(i + 1);
        assert(t1.drop_last() =~= v.deep_view().take(i as int));
        assert(t1.last() == v@[i as int]@);
        if i > 0 {
            crate::text::push_char(&mut out, ',');
            crate::text::push_char(&mut out, ' ');
        }
        crate::text::push_str(&mut out, v[i].as_str());
        proof {
            if i == 0 {
                assert(out@ =~= t1[0]);
            } else {
                assert(out@ =~= join_names(t1.drop_last()) + seq![',', ' '] + t1.last());
            }
        }
        i = i + 1;
    }
    assert(v.deep_view().take(v@.len() as int) =~= v.deep_view());
    out
}

/// The message that describes a resolution error.
pub open spec fn error_message(e: ResolveError) -> Seq<char> {
    match e {
        ResolveError::UnknownComponent(id) => "unknown component: "@ + id@,
        ResolveError::UnsatisfiedRequirement(req) => "no component provides required feature: "@ + req@,
        ResolveError::AmbiguousRequirement { requirement, candidates } => "requirement "@ + requirement@
            + " has multiple providers, none auto-selectable: "@ + join_names(candidates.deep_view()),
        ResolveError::ConflictingFeatures(fs) => "conflicting features provided: "@ + join_names(fs.deep_view()),
        ResolveError::DuplicateProvide { feature, components } => "feature "@ + feature@
            + " provided by multiple components without allow_multiple: "@ + join_names(
            components.deep_view(),
        ),
    }
}

impl ResolveError {
    /// The message that describes this error.
    pub fn message(&self) -> (r: String)
        ensures
            r@ == error_message(*self),
    {
        let mut out = String::new();
        match self {
            ResolveError::UnknownComponent(id) => {
                crate::text::push_str(&mut out, "unknown component: ");
                crate::text::push_str(&mut out, id.as_str());
            },
            ResolveError::UnsatisfiedRequirement(req) => {
                crate::text::push_str(&mut out, "no component provides required feature: ");
                crate::text::push_str(&mut out, req.as_str());
            },
            ResolveError::AmbiguousRequirement { requirement, candidates } => {
                crate::text::push_str(&mut out, "requirement ");
                crate::text::push_str(&mut out, requirement.as_str());
                crate::text::push_str(&mut out, " has multiple providers, none auto-selectable: ");
                let joined = join_with_commas(candidates);
                crate::text::push_str(&mut out, joined.as_str());
            },
            ResolveError::ConflictingFeatures(fs) => {
                crate::text::push_str(&mut out, "conflicting features provided: ");
                let joined = join_with_commas(fs);
                crate::text::push_str(&mut out, joined.as_str());
            },
            ResolveError::DuplicateProvide { feature, components } => {
                crate::text::push_str(&mut out, "feature ");
                crate::text::push_str(&mut out, feature.as_str());
                crate::text::push_str(&mut out, " provided by multiple components without allow_multiple: ");
                let joined = join_with_commas(components);
                crate::text::push_str(&mut out, joined.as_str());
            },
        }
        assert(out@ =~= error_message(*self));
        out
    }
}

/// A strictly sorted sequence has more than one element exactly when two of
/// its elements differ.
proof fn lemma_two_distinct(s: Seq<Seq<char>>)
    requires
        strictly_sorted(s),
    ensures
        s.len() > 1 <==> exists|x: Seq<char>, y: Seq<char>|
            #[trigger] elems(s).contains(x) && #[trigger] elems(s).contains(y) && x != y,
{
    if s.len() > 1 {
        assert(seq_lt(s[0], s[1]));
        lemma_lt_irreflexive(s[0]);
        assert(elems(s).contains(s[0]) && elems(s).contains(s[1]));
    } else {
        assert forall|x: Seq<char>, y: Seq<char>|
            #[trigger] elems(s).contains(x) && #[trigger] elems(s).contains(y) implies x == y by {
            let i = choose|i: int| 0 <= i < s.len() && s[i] == x;
            let j = choose|j: int| 0 <= j < s.len() && s[j] == y;
        }
    }
}

/// The ids of the components of `cs` that provide `name` in `p`, and whether
/// every such provide is marked `allow_multiple`.
fn providers_of(cs: &Vec<Rc<Component>>, p: &FeatureSet, name: &str) -> (r: (FeatureSet, bool))
    ensures
        r.0.wf(),
        r.0.set() == provider_ids(cs@, p.set(), name@),
        r.1 == forall|a: int, b: int| #[trigger]
            prov_entry(cs@, p.set(), a, b, name@) ==> provs(*cs@[a])[b].allow_multiple == Some(true),
{
    let ghost ps = p.set();
    let mut ids = FeatureSet::new();
    let mut all_allow = true;
    let mut i: usize = 0;
    assert(ids.set() =~= Set::new(
        |id: Seq<char>|
            exists|a: int, b: int| a < 0 && #[trigger] prov_entry(cs@, ps, a, b, name@) && cs@[a].id@ == id,
    ));
    while i < cs.len()
        invariant
            ids.wf(),
            i <= cs@.len(),
            ps == p.set(),
            ids.set() == Set::new(
                |id: Seq<char>|
                    exists|a: int, b: int|
                        a < i && #[trigger] prov_entry(cs@, ps, a, b, name@) && cs@[a].id@ == id,
            ),
            all_allow == forall|a: int, b: int|
                a < i && #[trigger] prov_entry(cs@, ps, a, b, name@) ==> provs(*cs@[a])[b].allow_multiple
                    == Some(true),
        decreases cs@.len() - i,
    {
        match &cs[i].provides {
            None => {
                assert(provs(*cs@[i as int]).len() == 0);
            },
            Some(list) => {
                assert(provs(*cs@[i as int]) == list@);
                let mut j: usize = 0;
                while j < list.len()
                    invariant
                        ids.wf(),
                        i < cs@.len(),
                        j <= list@.len(),
                        ps == p.set(),
                        provs(*cs@[i as int]) == list@,
                        ids.set() == Set::new(
                            |id: Seq<char>|
                                exists|a: int, b: int|
                                    (a < i || (a == i && b < j)) && #[trigger] prov_entry(
                                        cs@,
                                        ps,
                                        a,
                                        b,
                                        name@,
                                    ) && cs@[a].id@ == id,
                        ),
                        all_allow == forall|a: int, b: int|
                            (a < i || (a == i && b < j)) && #[trigger] prov_entry(cs@, ps, a, b, name@)
                                ==> provs(*cs@[a])[b].allow_multiple == Some(true),
                    decreases list@.len() - j,
                {
                    let ghost before = ids.set();
                    let f = &list[j];
                    let hit = crate::text::str_eq(f.name.as_str(), name) && f.satisfied(p);
                    if hit {
                        ids.insert(cs[i].id.clone());
                        if f.allow_multiple != Some(true) {
                            all_allow = false;
                        }
                    }
                    assert(ids.set() =~= Set::new(
                        |id: Seq<char>|
                            exists|a: int, b: int|
                                (a < i || (a == i && b < j + 1)) && #[trigger] prov_entry(
                                    cs@,
                                    ps,
                                    a,
                                    b,
                                    name@,
                                ) && cs@[a].id@ == id,
                    )) by {
                        assert forall|id: Seq<char>| exists|a: int, b: int|
                                (a < i || (a == i && b < j + 1)) && #[trigger] prov_entry(
                                    cs@,
                                    ps,
                                    a,
                                    b,
                                    name@,
                                ) && cs@[a].id@ == id implies ids.set().contains(id) by {
                            if exists|a: int, b: int|
                                (a < i || (a == i && b < j + 1)) && #[trigger] prov_entry(
                                    cs@,
                                    ps,
                                    a,
                                    b,
                                    name@,
                                ) && cs@[a].id@ == id {
                                let (a, b) = choose|a: int, b: int|
                                    (a < i || (a == i && b < j + 1)) && #[trigger] prov_entry(
                                        cs@,
                                        ps,
                                        a,
                                        b,
                                        name@,
                                    ) && cs@[a].id@ == id;
                                if a < i || b < j {
                                    assert(before.contains(id));
                                }
                            }
                        }
                        if hit {
                            assert(prov_entry(cs@, ps, i as int, j as int, name@));
                        }
                    }
                    proof {
                        if hit {
                            assert(prov_entry(cs@, ps, i as int, j as int, name@));
                        }
                    }
                    j = j + 1;
                }
            },
        }
        assert(ids.set() =~= Set::new(
            |id: Seq<char>|
                exists|a: int, b: int|
                    a < i + 1 && #[trigger] prov_entry(cs@, ps, a, b, name@) && cs@[a].id@ == id,
        )) by {
            assert forall|id: Seq<char>| exists|a: int, b: int|
                    a < i + 1 && #[trigger] prov_entry(cs@, ps, a, b, name@) && cs@[a].id@ == id implies ids.set().contains(id) by {
                if exists|a: int, b: int|
                    a < i + 1 && #[trigger] prov_entry(cs@, ps, a, b, name@) && cs@[a].id@ == id {
                    let (a, b) = choose|a: int, b: int|
                        a < i + 1 && #[trigger] prov_entry(cs@, ps, a, b, name@) && cs@[a].id@ == id;
                    assert(a < i || (a == i && b < provs(*cs@[i as int]).len()));
                }
            }
        }
        i = i + 1;
    }
    assert(ids.set() =~= provider_ids(cs@, p.set(), name@));
    (ids, all_allow)
}

/// Enforce the SLC success criterion that no feature is provided by two
/// components unless `allow_multiple` is set on every provider of it.
pub(crate) fn check_duplicate_provides(cs: &Vec<Rc<Component>>, p: &FeatureSet) -> (r: Result<(), ResolveError>)
    requires
        p.wf(),
    ensures
        match r {
            Ok(_) => forall|n: Seq<char>| !#[trigger] dup_violation(cs@, p.set(), n),
            Err(ResolveError::DuplicateProvide { feature, components }) => {
                &&& dup_violation(cs@, p.set(), feature@)
                &&& forall|n: Seq<char>| #[trigger]
                    dup_violation(cs@, p.set(), n) ==> !seq_lt(n, feature@)
                &&& strictly_sorted(components.deep_view())
                &&& elems(components.deep_view()) == provider_ids(cs@, p.set(), feature@)
            },
            Err(_) => false,
        },
{
    let names = collect_active_provides(cs, p);
    let ghost ps = p.set();
    let mut k: usize = 0;
    while k < names.len()
        invariant
            names.wf(),
            k <= names@.len(),
            ps == p.set(),
            names.set() == Set::new(
                |n: Seq<char>| exists|a: int, b: int| #[trigger] prov_entry(cs@, ps, a, b, n),
            ),
            forall|m: int| 0 <= m < k ==> !#[trigger] dup_violation(cs@, ps, names@[m]),
        decreases names@.len() - k,
    {
        let name = names.get(k);
        let (ids, all_allow) = providers_of(cs, p, name.as_str());
        proof {
            lemma_two_distinct(ids@);
        }
        if ids.len() > 1 && !all_allow {
            let components = ids.to_vec();
            proof {
                assert forall|n: Seq<char>| #[trigger]
                    dup_violation(cs@, ps, n) implies !seq_lt(n, name@) by {
                    let (a, b) = choose|a: int, b: int| #[trigger]
                        prov_entry(cs@, ps, a, b, n) && provs(*cs@[a])[b].allow_multiple != Some(true);
                    assert(names.set().contains(n));
                    let m = choose|m: int| 0 <= m < names@.len() && names@[m] == n;
                    if m > k {
                        assert(seq_lt(names@[k as int], names@[m]));
                        lemma_lt_asymmetric(names@[k as int], names@[m]);
                    } else if m == k {
                        lemma_lt_irreflexive(n);
                    }
                }
            }
            return Err(ResolveError::DuplicateProvide { feature: name.clone(), components });
        }
        k = k + 1;
    }
    proof {
        assert forall|n: Seq<char>| !#[trigger] dup_violation(cs@, ps, n) by {
            if dup_violation(cs@, ps, n) {
                let (a, b) = choose|a: int, b: int| #[trigger]
                    prov_entry(cs@, ps, a, b, n) && provs(*cs@[a])[b].allow_multiple != Some(true);
                assert(names.set().contains(n));
                let m = choose|m: int| 0 <= m < names@.len() && names@[m] == n;
            }
        }
    }
    Ok(())
}

/// Some component of `cs` has the id `id`.
pub open spec fn has_id(cs: Seq<Rc<Component>>, id: Seq<char>) -> bool {
    exists|a: int| 0 <= a < cs.len() && (#[trigger] cs[a]).id@ == id
}

/// Whether some component of `cs` has the id `id`.
pub(crate) fn contains_id(cs: &Vec<Rc<Component>>, id: &str) -> (r: bool)
    ensures
        r == has_id(cs@, id@),
{
    let mut a: usize = 0;
    while a < cs.len()
        invariant
            a <= cs@.len(),
            forall|m: int| 0 <= m < a ==> (#[trigger] cs@[m]).id@ != id@,
        decreases cs@.len() - a,
    {
        if crate::text::str_eq(cs[a].id.as_str(), id) {
            assert(cs@[a as int].id@ == id@);
            return true;
        }
        a = a + 1;
    }
    false
}

/// `sdk[k]` is the first component of `sdk` with the id `id`.
pub open spec fn is_first_with_id(sdk: Seq<Rc<Component>>, k: int, id: Seq<char>) -> bool {
    0 <= k < sdk.len() && sdk[k].id@ == id && forall|m: int| 0 <= m < k ==> (#[trigger] sdk[m]).id@ != id
}

/// The position of the first component of `sdk` with the id `id`.
pub(crate) fn find_component(sdk: &[Rc<Component>], id: &str) -> (r: Option<usize>)
    ensures
        match r {
            Some(k) => is_first_with_id(sdk@, k as int, id@),
            None => !has_id(sdk@, id@),
        },
{
    let mut k: usize = 0;
    while k < sdk.len()
        invariant
            k <= sdk@.len(),
            forall|m: int| 0 <= m < k ==> (#[trigger] sdk@[m]).id@ != id@,
        decreases sdk@.len() - k,
    {
        if crate::text::str_eq(sdk[k].id.as_str(), id) {
            return Some(k);
        }
        k = k + 1;
    }
    None
}

/// Component `c` provides, in `rp`, some feature of `k`.
pub open spec fn provides_conflicting(c: Component, rp: Set<Seq<char>>, k: Set<Seq<char>>) -> bool {
    exists|j: int|
        0 <= j < provs(c).len() && k.contains((#[trigger] provs(c)[j]).name@) && cond_holds(
            provs(c)[j].condition,
            rp,
        )
}

/// `c` can be added to `cs` for the open requirement `u`: it is not in `cs`,
/// it provides `u` under the required-and-provided features `rp`, and it
/// provides no feature of the conflict set `k`.
pub open spec fn is_candidate(
    c: Component,
    cs: Seq<Rc<Component>>,
    u: Seq<char>,
    rp: Set<Seq<char>>,
    k: Set<Seq<char>>,
) -> bool {
    !has_id(cs, c.id@) && provides_active(c, u, rp) && !provides_conflicting(c, rp, k)
}

/// The candidate test as a predicate on components.
pub open spec fn candidate_pred(
    cs: Seq<Rc<Component>>,
    u: Seq<char>,
    rp: Set<Seq<char>>,
    k: Set<Seq<char>>,
) -> spec_fn(Rc<Component>) -> bool {
    |c: Rc<Component>| is_candidate(*c, cs, u, rp, k)
}

/// The candidates for `u` among the SDK components, in SDK order.
pub open spec fn candidates(
    sdk: Seq<Rc<Component>>,
    cs: Seq<Rc<Component>>,
    u: Seq<char>,
    rp: Set<Seq<char>>,
    k: Set<Seq<char>>,
) -> Seq<Rc<Component>> {
    sdk.filter(candidate_pred(cs, u, rp, k))
}

/// Whether `c` provides `name` in `p`.
pub(crate) fn provides_in(c: &Component, name: &str, p: &FeatureSet) -> (r: bool)
    ensures
        r == provides_active(*c, name@, p.set()),
{
    match &c.provides {
        None => false,
        Some(list) => {
            assert(provs(*c) == list@);
            let mut j: usize = 0;
            while j < list.len()
                invariant
                    j <= list@.len(),
                    provs(*c) == list@,
                    forall|b: int|
                        0 <= b < j ==> !((#[trigger] list@[b]).name@ == name@ && cond_holds(
                            list@[b].condition,
                            p.set(),
                        )),
                decreases list@.len() - j,
            {
                if crate::text::str_eq(list[j].name.as_str(), name) && list[j].satisfied(p) {
                    assert(provs(*c)[j as int] == list@[j as int]);
                    return true;
                }
                j = j + 1;
            }
            false
        },
    }
}

/// Whether `c` provides, in `rp`, some feature of `k`.
fn provides_any_of(c: &Component, rp: &FeatureSet, k: &FeatureSet) -> (r: bool)
    ensures
        r == provides_conflicting(*c, rp.set(), k.set()),
{
    match &c.provides {
        None => false,
        Some(list) => {
            assert(provs(*c) == list@);
            let mut j: usize = 0;
            while j < list.len()
                invariant
                    j <= list@.len(),
                    provs(*c) == list@,
                    forall|b: int|
                        0 <= b < j ==> !(k.set().contains((#[trigger] list@[b]).name@) && cond_holds(
                            list@[b].condition,
                            rp.set(),
                        )),
                decreases list@.len() - j,
            {
                if list[j].satisfied(rp) && k.contains(list[j].name.as_str()) {
                    assert(provs(*c)[j as int] == list@[j as int]);
                    return true;
                }
                j = j + 1;
            }
            false
        },
    }
}

/// The candidates for `u` among the SDK components, in SDK order.
pub(crate) fn find_candidates(
    sdk: &[Rc<Component>],
    cs: &Vec<Rc<Component>>,
    u: &str,
    rp: &FeatureSet,
    k: &FeatureSet,
) -> (r: Vec<Rc<Component>>)
    ensures
        r@ == candidates(sdk@, cs@, u@, rp.set(), k.set()),
{
    let ghost pred = candidate_pred(cs@, u@, rp.set(), k.set());
    let mut out: Vec<Rc<Component>> = Vec::new();
    let mut m: usize = 0;
    while m < sdk.len()
        invariant
            m <= sdk@.len(),
            pred == candidate_pred(cs@, u@, rp.set(), k.set()),
            out@ == sdk@.take(m as int).filter(pred),
        decreases sdk@.len() - m,
    {
        let c = &sdk[m];
        let ok = !contains_id(cs, c.id.as_str()) && provides_in(c, u, rp) && !provides_any_of(
            c,
            rp,
            k,
        );
        assert(sdk@.take(m + 1).drop_last() =~= sdk@.take(m as int));
        assert(sdk@.take(m + 1).last() == sdk@[m as int]);
        assert(ok == pred(sdk@[m as int]));
        if ok {
            out.push(c.clone());
        }
        proof {
            reveal(Seq::filter);
        }
        assert(out@ =~= sdk@.take(m + 1).filter(pred));
        m = m + 1;
    }
    assert(sdk@.take(sdk@.len() as int) =~= sdk@);
    out
}

/// The ids of a list of components.
pub(crate) fn ids_of(cs: &Vec<Rc<Component>>) -> (r: Vec<String>)
    ensures
        r.deep_view() == cs@.map_values(|c: Rc<Component>| c.id@),
{
    let mut out: Vec<String> = Vec::new();
    let mut a: usize = 0;
    while a < cs.len()
        invariant
            a <= cs@.len(),
            out.deep_view() == cs@.take(a as int).map_values(|c: Rc<Component>| c.id@),
        decreases cs@.len() - a,
    {
        let ghost before = out.deep_view();
        out.push(cs[a].id.clone());
        assert(out.deep_view() =~= before.push(cs@[a as int].id@));
        assert(cs@.take(a + 1).map_values(|c: Rc<Component>| c.id@) =~= cs@.take(a as int).map_values(
            |c: Rc<Component>| c.id@,
        ).push(cs@[a as int].id@));
        a = a + 1;
    }
    assert(cs@.take(cs@.len() as int) =~= cs@);
    out
}

} // verus!
