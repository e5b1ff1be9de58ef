//! The instance names that a project gives its instantiable components,
//! kept per component id.

use vstd::prelude::*;

use crate::component::ComponentId;
use crate::text::str_eq;

verus! {

broadcast use vstd::string::group_string_axioms;

/// The map from the ids in `ids` to the lists at the same positions; a
/// later position wins over an earlier one with the same id.
pub open spec fn map_of<V>(ids: Seq<Seq<char>>, lists: Seq<V>) -> Map<Seq<char>, V>
    decreases ids.len(),
{
    if ids.len() == 0 || lists.len() == 0 {
        Map::empty()
    } else {
        map_of(ids.drop_last(), lists.drop_last()).insert(ids.last(), lists.last())
    }
}

/// With distinct ids, the map has exactly the ids as keys, each mapped to
/// the list at its position.
pub proof fn lemma_map_of<V>(ids: Seq<Seq<char>>, lists: Seq<V>)
    requires
        ids.len() == lists.len(),
        ids.no_duplicates(),
    ensures
        forall|k: Seq<char>| #[trigger] map_of(ids, lists).contains_key(k) <==> ids.contains(k),
        forall|i: int| 0 <= i < ids.len() ==> map_of(ids, lists)[#[trigger] ids[i]] == lists[i],
    decreases ids.len(),
{
    if ids.len() > 0 {
        let i0 = ids.drop_last();
        let l0 = lists.drop_last();
        assert(i0.no_duplicates());
        lemma_map_of(i0, l0);
        assert forall|k: Seq<char>| #[trigger] map_of(ids, lists).contains_key(k) <==> ids.contains(
            k,
        ) by {
            assert(map_of(ids, lists) == map_of(i0, l0).insert(ids.last(), lists.last()));
            if ids.contains(k) && k != ids.last() {
                let j = choose|j: int| 0 <= j < ids.len() && ids[j] == k;
                assert(i0[j] == k);
            }
            if i0.contains(k) {
                let j = choose|j: int| 0 <= j < i0.len() && i0[j] == k;
                assert(ids[j] == k);
            }
            if k == ids.last() {
                assert(ids[ids.len() - 1] == k);
            }
        }
        assert forall|i: int| 0 <= i < ids.len() implies map_of(ids, lists)[#[trigger] ids[i]]
            == lists[i] by {
            if i < ids.len() - 1 {
                assert(ids[i] != ids[ids.len() - 1]);
                assert(i0[i] == ids[i]);
            }
        }
    }
}

/// Changing the list at position `i` changes the value of `ids[i]` only.
pub proof fn lemma_map_of_update<V>(ids: Seq<Seq<char>>, lists: Seq<V>, i: int, x: V)
    requires
        ids.len() == lists.len(),
        ids.no_duplicates(),
        0 <= i < ids.len(),
    ensures
        map_of(ids, lists.update(i, x)) == map_of(ids, lists).insert(ids[i], x),
{
    let l2 = lists.update(i, x);
    lemma_map_of(ids, lists);
    lemma_map_of(ids, l2);
    assert forall|k: Seq<char>| #[trigger] map_of(ids, l2).contains_key(k) implies map_of(ids, l2)[k]
        == map_of(ids, lists).insert(ids[i], x)[k] by {
        let j = choose|j: int| 0 <= j < ids.len() && ids[j] == k;
        assert(map_of(ids, l2)[ids[j]] == l2[j]);
        assert(map_of(ids, lists)[ids[j]] == lists[j]);
    }
    assert(map_of(ids, l2) =~= map_of(ids, lists).insert(ids[i], x));
}

/// The instance lists of the component entries `entries`: each entry with
/// an `instance` list adds its names, in order, after those of earlier
/// entries with the same id.
pub open spec fn instance_lists(entries: Seq<ComponentId>) -> Map<Seq<char>, Seq<Seq<char>>>
    decreases entries.len(),
{
    if entries.len() == 0 {
        Map::empty()
    } else {
        let m = instance_lists(entries.drop_last());
        let e = entries.last();
        match e.instance {
            Some(list) => m.insert(
                e.id@,
                (if m.contains_key(e.id@) {
                    m[e.id@]
                } else {
                    Seq::empty()
                }) + list.deep_view(),
            ),
            None => m,
        }
    }
}

/// Instance names per component id.
#[derive(Debug)]
pub struct InstanceMap {
    ids: Vec<String>,
    lists: Vec<Vec<String>>,
}

impl View for InstanceMap {
    type V = Map<Seq<char>, Seq<Seq<char>>>;

    closed spec fn view(&self) -> Map<Seq<char>, Seq<Seq<char>>> {
        map_of(self.ids.deep_view(), self.lists.deep_view())
    }
}

impl InstanceMap {
    /// One list per id, and no id twice.
    #[verifier::type_invariant]
    spec fn wf(&self) -> bool {
        &&& self.ids@.len() == self.lists@.len()
        &&& self.ids.deep_view().no_duplicates()
    }

    /// The empty map.
    pub fn new() -> (r: InstanceMap)
        ensures
            r@ == Map::<Seq<char>, Seq<Seq<char>>>::empty(),
    {
        let r = InstanceMap { ids: Vec::new(), lists: Vec::new() };
        assert(r.ids.deep_view() =~= Seq::<Seq<char>>::empty());
        r
    }

    /// The position of `id`, if present.
    fn position(&self, id: &str) -> (r: Option<usize>)
        ensures
            match r {
                Some(i) => i < self.ids@.len() && self.ids@[i as int]@ == id@,
                None => !self.ids.deep_view().contains(id@),
            },
    {
        let mut i: usize = 0;
        while i < self.ids.len()
            invariant
                i <= self.ids@.len(),
                forall|k: int| 0 <= k < i ==> self.ids@[k]@ != id@,
            decreases self.ids@.len() - i,
        {
            if str_eq(self.ids[i].as_str(), id) {
                return Some(i);
            }
            i = i + 1;
        }
        proof {
            if self.ids.deep_view().contains(id@) {
                let k = choose|k: int|
                    0 <= k < self.ids.deep_view().len() && self.ids.deep_view()[k] == id@;
                assert(self.ids@[k]@ == id@);
            }
        }
        None
    }

    /// The instance names of component `id`, if it has any entry.
    pub fn get(&self, id: &str) -> (r: Option<&Vec<String>>)
        ensures
            match r {
                Some(v) => self@.contains_key(id@) && v.deep_view() == self@[id@],
                None => !self@.contains_key(id@),
            },
    {
        proof {
            use_type_invariant(self);
            lemma_map_of(self.ids.deep_view(), self.lists.deep_view());
        }
        match self.position(id) {
            Some(i) => {
                assert(self.ids.deep_view()[i as int] == id@);
                assert(self.lists.deep_view()[i as int] == self.lists@[i as int].deep_view());
                Some(&self.lists[i])
            },
            None => None,
        }
    }

    /// Appends `more` to the instance names of `id` (creating its entry).
    pub fn append(&mut self, id: &str, more: &Vec<String>)
        ensures
            final(self)@ == old(self)@.insert(
                id@,
                (if old(self)@.contains_key(id@) {
                    old(self)@[id@]
                } else {
                    Seq::empty()
                }) + more.deep_view(),
            ),
    {
        proof {
            use_type_invariant(&*self);
            lemma_map_of(self.ids.deep_view(), self.lists.deep_view());
        }
        let ghost ids0 = self.ids.deep_view();
        let ghost lists0 = self.lists.deep_view();
        let pos = self.position(id);
        let mut cur: Vec<String> = match pos {
            Some(i) => self.lists[i].clone(),
            None => Vec::new(),
        };
        let ghost start = cur.deep_view();
        proof {
            match pos {
                Some(i) => {
                    assert(start =~= lists0[i as int]);
                    assert(ids0[i as int] == id@);
                    assert(map_of(ids0, lists0)[ids0[i as int]] == lists0[i as int]);
                    assert(ids0.contains(id@));
                },
                None => {
                    assert(start =~= Seq::<Seq<char>>::empty());
                    assert(!map_of(ids0, lists0).contains_key(id@));
                },
            }
        }
        let mut k: usize = 0;
        while k < more.len()
            invariant
                k <= more@.len(),
                cur.deep_view() == start + more.deep_view().take(k as int),
            decreases more@.len() - k,
        {
            let ghost before = cur.deep_view();
            cur.push(more[k].clone());
            assert(cur.deep_view() =~= before.push(more@[k as int]@));
            assert(more.deep_view().take(k + 1) =~= more.deep_view().take(k as int).push(
                more@[k as int]@,
            ));
            k = k + 1;
        }
        assert(more.deep_view().take(more@.len() as int) =~= more.deep_view());
        let ghost newlist = cur.deep_view();
        let mut tmp = InstanceMap::new();
        std::mem::swap(&mut tmp, self);
        let InstanceMap { mut ids, mut lists } = tmp;
        assert(ids.deep_view() == ids0);
        assert(lists.deep_view() == lists0);
        match pos {
            Some(i) => {
                lists.set(i, cur);
                proof {
                    assert(lists.deep_view() =~= lists0.update(i as int, newlist));
                    lemma_map_of_update(ids0, lists0, i as int, newlist);
                }
            },
            None => {
                ids.push(crate::text::string_from(id));
                lists.push(cur);
                proof {
                    assert(ids.deep_view() =~= ids0.push(id@));
                    assert(lists.deep_view() =~= lists0.push(newlist));
                    assert(ids.deep_view().drop_last() =~= ids0);
                    assert(lists.deep_view().drop_last() =~= lists0);
                    assert forall|a: int, b: int|
                        0 <= a < ids.deep_view().len() && 0 <= b < ids.deep_view().len() && a != b implies ids.deep_view()[a]
                            != ids.deep_view()[b] by {
                        if a == ids0.len() {
                            assert(ids0[b] == ids.deep_view()[b]);
                        } else if b == ids0.len() {
                            assert(ids0[a] == ids.deep_view()[a]);
                        }
                    }
                }
            },
        }
        *self = InstanceMap { ids, lists };
    }

    /// The instance lists of the component entries `entries`.
    pub fn from_entries(entries: &Vec<ComponentId>) -> (r: InstanceMap)
        ensures
            r@ == instance_lists(entries@),
    {
        let mut m = InstanceMap::new();
        let mut i: usize = 0;
        while i < entries.len()
            invariant
                i <= entries@.len(),
                m@ == instance_lists(entries@.take(i as int)),
            decreases entries@.len() - i,
        {
            assert(entries@.take(i + 1).drop_last() =~= entries@.take(i as int));
            assert(entries@.take(i + 1).last() == entries@[i as int]);
            if let Some(list) = &entries[i].instance {
                m.append(entries[i].id.as_str(), list);
            }
            i = i + 1;
        }
        assert(entries@.take(entries@.len() as int) =~= entries@);
        m
    }
}

} // verus!
