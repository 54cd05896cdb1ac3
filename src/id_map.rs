//! A map from ids to values that keeps its keys in the order they were
//! first inserted.
use crate::model::views;
use crate::text::{same_id, sort_unique, strictly_sorted};
use vstd::prelude::*;

verus! {

/// Entries keyed by id, each id once, in order of first insertion.
#[derive(Debug)]
pub struct IdMap<V> {
    entries: Vec<(String, V)>,
}

impl<V: DeepView> View for IdMap<V> {
    type V = Map<Seq<char>, V::V>;

    closed spec fn view(&self) -> Map<Seq<char>, V::V> {
        Map::new(
            |k: Seq<char>| self.keys().contains(k),
            |k: Seq<char>| self.entries@[self.keys().index_of(k)].1.deep_view(),
        )
    }
}

/// Where `k` was first inserted, or at the end if it is new.
pub open spec fn keys_after_insert(keys: Seq<Seq<char>>, k: Seq<char>) -> Seq<Seq<char>> {
    if keys.contains(k) {
        keys
    } else {
        keys.push(k)
    }
}

impl<V: DeepView> IdMap<V> {
    /// The keys in order of first insertion.
    pub closed spec fn keys(&self) -> Seq<Seq<char>> {
        self.entries@.map_values(|e: (String, V)| e.0@)
    }

    /// Each key once, and the keys are exactly the map's domain.
    pub open spec fn wf(&self) -> bool {
        &&& self.keys().no_duplicates()
        &&& self@.dom() == self.keys().to_set()
    }

    proof fn lemma_index_of(&self, i: int)
        requires
            self.keys().no_duplicates(),
            0 <= i < self.keys().len(),
        ensures
            self.keys().index_of(self.keys()[i]) == i,
            self@.contains_key(self.keys()[i]),
            self@[self.keys()[i]] == self.entries@[i].1.deep_view(),
    {
        let keys = self.keys();
        assert(keys.contains(keys[i]));
        let j = keys.index_of(keys[i]);
        assert(0 <= j < keys.len() && keys[j] == keys[i]);
    }

    proof fn lemma_dom(&self)
        ensures
            self@.dom() == self.keys().to_set(),
    {
        assert(self@.dom() =~= self.keys().to_set());
    }

    /// An empty map.
    pub fn new() -> (r: Self)
        ensures
            r.wf(),
            r@ == Map::<Seq<char>, V::V>::empty(),
            r.keys() == Seq::<Seq<char>>::empty(),
    {
        let r = IdMap { entries: Vec::new() };
        assert(r.keys() =~= Seq::<Seq<char>>::empty());
        assert(r@ =~= Map::<Seq<char>, V::V>::empty());
        r
    }

    /// The number of keys.
    pub fn len(&self) -> (r: usize)
        ensures
            r == self.keys().len(),
    {
        self.entries.len()
    }

    /// Whether there are no keys.
    pub fn is_empty(&self) -> (r: bool)
        ensures
            r == (self.keys().len() == 0),
    {
        self.entries.len() == 0
    }

    /// The position of `k` among the keys.
    fn find(&self, k: &str) -> (r: Option<usize>)
        requires
            self.wf(),
        ensures
            r is None <==> !self@.contains_key(k@),
            r matches Some(i) ==> i < self.keys().len() && self.keys()[i as int] == k@,
    {
        proof {
            self.lemma_dom();
        }
        let mut i: usize = 0;
        while i < self.entries.len()
            invariant
                i <= self.entries.len(),
                forall|j: int| 0 <= j < i ==> self.keys()[j] != k@,
            decreases self.entries.len() - i,
        {
            if same_id(self.entries[i].0.as_str(), k) {
                assert(self.keys()[i as int] == k@);
                assert(self.keys().contains(k@));
                return Some(i);
            }
            i = i + 1;
        }
        None
    }

    /// Whether `k` is a key.
    pub fn contains_key(&self, k: &str) -> (r: bool)
        requires
            self.wf(),
        ensures
            r == self@.contains_key(k@),
    {
        self.find(k).is_some()
    }

    /// The value under `k`, if any.
    pub fn get(&self, k: &str) -> (r: Option<&V>)
        requires
            self.wf(),
        ensures
            r is None <==> !self@.contains_key(k@),
            r matches Some(v) ==> v.deep_view() == self@[k@],
    {
        match self.find(k) {
            Some(i) => {
                proof {
                    self.lemma_index_of(i as int);
                }
                Some(&self.entries[i].1)
            },
            None => None,
        }
    }

    /// The key at position `i` in order of first insertion.
    pub fn key_at(&self, i: usize) -> (r: &String)
        requires
            i < self.keys().len(),
        ensures
            r@ == self.keys()[i as int],
    {
        &self.entries[i].0
    }

    /// The value of the key at position `i`.
    pub fn value_at(&self, i: usize) -> (r: &V)
        requires
            self.wf(),
            i < self.keys().len(),
        ensures
            r.deep_view() == self@[self.keys()[i as int]],
    {
        proof {
            self.lemma_index_of(i as int);
        }
        &self.entries[i].1
    }

    /// Sets the value under `k`, keeping the key's place if it was there.
    pub fn insert(&mut self, k: String, v: V)
        requires
            old(self).wf(),
        ensures
            final(self).wf(),
            final(self)@ == old(self)@.insert(k@, v.deep_view()),
            final(self).keys() == keys_after_insert(old(self).keys(), k@),
    {
        let ghost kv = k@;
        let ghost vv = v.deep_view();
        proof {
            self.lemma_dom();
        }
        match self.find(k.as_str()) {
            Some(i) => {
                let ghost before = *self;
                self.entries.set(i, (k, v));
                proof {
                    assert(self.keys() =~= before.keys());
                    assert forall|j: int| 0 <= j < self.keys().len() implies #[trigger] self@[self.keys()[j]]
                        == before@.insert(kv, vv)[self.keys()[j]] by {
                        self.lemma_index_of(j);
                        before.lemma_index_of(j);
                        if j != i {
                            assert(self.keys()[j] != kv);
                        }
                    }
                    self.lemma_dom();
                    before.lemma_dom();
                    assert forall|key| #[trigger] self@.contains_key(key) implies self@[key] == before@.insert(
                        kv,
                        vv,
                    )[key] by {
                        let j = choose|j: int| 0 <= j < self.keys().len() && self.keys()[j] == key;
                    }
                    assert(self@ =~= before@.insert(kv, vv));
                }
            },
            None => {
                let ghost before = *self;
                self.entries.push((k, v));
                proof {
                    let n = before.keys().len();
                    assert(self.keys() =~= before.keys().push(kv));
                    before.keys().lemma_push_to_set_commute(kv);
                    assert(self.keys().no_duplicates());
                    assert forall|j: int| 0 <= j < self.keys().len() implies #[trigger] self@[self.keys()[j]]
                        == before@.insert(kv, vv)[self.keys()[j]] by {
                        self.lemma_index_of(j);
                        if j < n {
                            before.lemma_index_of(j);
                        }
                    }
                    self.lemma_dom();
                    before.lemma_dom();
                    assert forall|key| #[trigger] self@.contains_key(key) implies self@[key] == before@.insert(
                        kv,
                        vv,
                    )[key] by {
                        let j = choose|j: int| 0 <= j < self.keys().len() && self.keys()[j] == key;
                    }
                    assert(self@ =~= before@.insert(kv, vv));
                }
            },
        }
    }
}

/// `m` with `item` added at the end of the list under `k`, which starts
/// empty if `k` is new.
pub open spec fn appended(
    m: Map<Seq<char>, Seq<Seq<char>>>,
    k: Seq<char>,
    item: Seq<char>,
) -> Map<Seq<char>, Seq<Seq<char>>> {
    m.insert(k, (if m.contains_key(k) { m[k] } else { seq![] }).push(item))
}

/// The entries of `m` whose list holds more than one item.
pub open spec fn repeated(m: Map<Seq<char>, Seq<Seq<char>>>) -> Map<Seq<char>, Seq<Seq<char>>> {
    Map::new(|k: Seq<char>| m.contains_key(k) && m[k].len() > 1, |k: Seq<char>| m[k])
}

proof fn lemma_list_view(v: Vec<String>)
    ensures
        v.deep_view() == views(v@),
{
    assert(v.deep_view() =~= views(v@));
}

impl IdMap<Vec<String>> {
    proof fn lemma_replaced(before: Self, after: Self, i: int)
        requires
            before.keys().no_duplicates(),
            0 <= i < before.entries@.len(),
            after.entries@.len() == before.entries@.len(),
            after.entries@[i].0@ == before.entries@[i].0@,
            forall|j: int| 0 <= j < before.entries@.len() && j != i ==> after.entries@[j]
                == before.entries@[j],
        ensures
            after.keys() == before.keys(),
            after.keys().no_duplicates(),
            after@ == before@.insert(before.keys()[i], after.entries@[i].1.deep_view()),
    {
        assert(after.keys() =~= before.keys());
        let kv = before.keys()[i];
        let vv = after.entries@[i].1.deep_view();
        assert forall|j: int| 0 <= j < after.keys().len() implies #[trigger] after@[after.keys()[j]]
            == before@.insert(kv, vv)[after.keys()[j]] by {
            after.lemma_index_of(j);
            before.lemma_index_of(j);
            if j != i {
                assert(after.keys()[j] != kv);
            }
        }
        after.lemma_dom();
        before.lemma_dom();
        assert forall|key| #[trigger] after@.contains_key(key) implies after@[key] == before@.insert(
            kv,
            vv,
        )[key] by {
            let j = choose|j: int| 0 <= j < after.keys().len() && after.keys()[j] == key;
        }
        assert(after@ =~= before@.insert(kv, vv));
    }

    /// Adds `item` at the end of the list under `k`.
    pub fn append(&mut self, k: &String, item: String)
        requires
            old(self).wf(),
        ensures
            final(self).wf(),
            final(self)@ == appended(old(self)@, k@, item@),
            final(self).keys() == keys_after_insert(old(self).keys(), k@),
    {
        match self.find(k.as_str()) {
            Some(i) => {
                let ghost before = *self;
                let mut entry = (String::new(), Vec::new());
                self.entries.set_and_swap(i, &mut entry);
                entry.1.push(item);
                self.entries.set_and_swap(i, &mut entry);
                proof {
                    before.lemma_index_of(i as int);
                    IdMap::lemma_replaced(before, *self, i as int);
                    assert(self.entries@[i as int].1.deep_view() =~= before.entries@[
                        i as int
                    ].1.deep_view().push(item@));
                    before.lemma_dom();
                    self.lemma_dom();
                }
            },
            None => {
                let ghost before = *self;
                let list = vec![item];
                assert(list.deep_view() =~= seq![item@]);
                self.insert(k.clone(), list);
                assert(seq![item@] =~= Seq::<Seq<char>>::empty().push(item@));
            },
        }
    }

    /// Sorts each list ascending and drops repeated items from it.
    pub fn sort_values(&mut self)
        requires
            old(self).wf(),
        ensures
            final(self).wf(),
            final(self).keys() == old(self).keys(),
            final(self)@.dom() == old(self)@.dom(),
            forall|k: Seq<char>| #[trigger]
                final(self)@.contains_key(k) ==> strictly_sorted(final(self)@[k])
                    && final(self)@[k].to_set() == old(self)@[k].to_set(),
    {
        let ghost start = *self;
        let mut i: usize = 0;
        while i < self.entries.len()
            invariant
                i <= self.entries.len(),
                self.wf(),
                self.keys() == start.keys(),
                self@.dom() == start@.dom(),
                start.wf(),
                forall|j: int|
                    0 <= j < i ==> strictly_sorted(#[trigger] self@[self.keys()[j]])
                        && self@[self.keys()[j]].to_set() == start@[self.keys()[j]].to_set(),
                forall|j: int|
                    i <= j < self.keys().len() ==> #[trigger] self@[self.keys()[j]]
                        == start@[self.keys()[j]],
            decreases self.entries.len() - i,
        {
            let ghost before = *self;
            let sorted = sort_unique(&self.entries[i].1);
            let mut entry = (String::new(), Vec::new());
            self.entries.set_and_swap(i, &mut entry);
            entry.1 = sorted;
            self.entries.set_and_swap(i, &mut entry);
            proof {
                before.lemma_index_of(i as int);
                lemma_list_view(before.entries@[i as int].1);
                lemma_list_view(sorted);
                IdMap::lemma_replaced(before, *self, i as int);
                before.lemma_dom();
                self.lemma_dom();
                assert forall|j: int| 0 <= j < self.keys().len() && j != i implies self.keys()[j]
                    != self.keys()[i as int] by {}
            }
            i = i + 1;
        }
        proof {
            self.lemma_dom();
            assert forall|k: Seq<char>| #[trigger] self@.contains_key(k) implies strictly_sorted(
                self@[k],
            ) && self@[k].to_set() == start@[k].to_set() by {
                let j = choose|j: int| 0 <= j < self.keys().len() && self.keys()[j] == k;
            }
        }
    }

    /// The entries whose list holds more than one item, in the same order.
    pub fn repeated_entries(&self) -> (r: Self)
        requires
            self.wf(),
        ensures
            r.wf(),
            r@ == repeated(self@),
            r.keys() == self.keys().filter(|k: Seq<char>| self@[k].len() > 1),
    {
        let ghost keys = self.keys();
        let ghost keep = |k: Seq<char>| self@[k].len() > 1;
        let mut r: IdMap<Vec<String>> = IdMap::new();
        let mut i: usize = 0;
        proof {
            self.lemma_dom();
        }
        while i < self.entries.len()
            invariant
                i <= self.entries.len(),
                self.wf(),
                keys == self.keys(),
                keep == (|k: Seq<char>| self@[k].len() > 1),
                r.wf(),
                r.keys() == keys.take(i as int).filter(keep),
                r@ == Map::new(
                    |k: Seq<char>| keys.take(i as int).contains(k) && self@[k].len() > 1,
                    |k: Seq<char>| self@[k],
                ),
            decreases self.entries.len() - i,
        {
            proof {
                self.lemma_index_of(i as int);
                lemma_list_view(self.entries@[i as int].1);
                assert(keys.take(i + 1) =~= keys.take(i as int).push(keys[i as int]));
                keys.take(i as int).lemma_filter_push(keys[i as int], keep);
                assert forall|k: Seq<char>| keys.take(i + 1).contains(k) <==> (keys.take(
                    i as int,
                ).contains(k) || k == keys[i as int]) by {
                    if keys.take(i + 1).contains(k) {
                        let m = choose|m: int| 0 <= m < i + 1 && #[trigger] keys.take(i + 1)[m] == k;
                        if m < i {
                            assert(keys.take(i as int)[m] == k);
                        }
                    }
                    if k == keys[i as int] {
                        assert(keys.take(i + 1)[i as int] == k);
                    }
                    if keys.take(i as int).contains(k) {
                        let m = choose|m: int| 0 <= m < i && #[trigger] keys.take(i as int)[m] == k;
                        assert(keys.take(i + 1)[m] == k);
                    }
                }
            }
            assert(self@[keys[i as int]].len() == self.entries@[i as int].1@.len());
            if self.entries[i].1.len() > 1 {
                assert(keep(keys[i as int]));
                let k = self.entries[i].0.clone();
                let v = self.entries[i].1.clone();
                proof {
                    lemma_list_view(v);
                    assert(v.deep_view() =~= self.entries@[i as int].1.deep_view());
                    if r.keys().contains(k@) {
                        assert(keys.take(i as int).filter(keep).contains(k@));
                        keys.take(i as int).lemma_filter_contains_rev(keep, k@);
                        let m = choose|m: int| 0 <= m < i && #[trigger] keys.take(i as int)[m] == k@;
                        assert(keys[m] == keys[i as int]);
                    }
                }
                r.insert(k, v);
            } else {
                assert(!keep(keys[i as int]));
            }
            proof {
                let ghost cur = Map::new(
                    |k: Seq<char>| keys.take(i + 1).contains(k) && self@[k].len() > 1,
                    |k: Seq<char>| self@[k],
                );
                assert forall|x: Seq<char>| #[trigger] r@.contains_key(x) == cur.contains_key(x) by {
                    if x == keys[i as int] {
                        assert(keys.take(i + 1)[i as int] == x);
                        assert(keys.take(i + 1).contains(x));
                        assert(cur.contains_key(x) == keep(x));
                    }
                }
                assert forall|x: Seq<char>| #[trigger] r@.contains_key(x) implies r@[x] == cur[x] by {
                }
                assert(r@ =~= cur);
            }
            i = i + 1;
        }
        proof {
            assert(keys.take(i as int) =~= keys);
            assert(r@ =~= repeated(self@));
        }
        r
    }
}

} // verus!
