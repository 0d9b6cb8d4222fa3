use vstd::prelude::*;
use vstd::std_specs::iter::IteratorSpec;

verus! {

/// A key of the library's tables: a plain value whose exec comparison is equality.
pub trait MapKey: Copy {
    fn same_key(&self, other: &Self) -> (r: bool)
        ensures
            r == (*self == *other),
    ;
}

/// A table from integer keys to values, held in a std `HashMap`.
pub struct U64Map<V> {
    map: std::collections::HashMap<u64, V>,
}

impl<V> View for U64Map<V> {
    type V = Map<u64, V>;

    closed spec fn view(&self) -> Map<u64, V> {
        self.map@
    }
}

impl<V> U64Map<V> {
    pub fn new() -> (t: Self)
        ensures
            t@ == Map::<u64, V>::empty(),
    {
        U64Map { map: std::collections::HashMap::new() }
    }

    /// The table holds finitely many keys.
    pub proof fn lemma_finite(&self)
        ensures
            self@.dom().finite(),
    {
        broadcast use vstd::std_specs::hash::group_hash_axioms;

    }

    /// The number of keys.
    pub fn len(&self) -> (n: usize)
        ensures
            n == self@.dom().len(),
    {
        broadcast use vstd::std_specs::hash::group_hash_axioms;

        self.map.len()
    }

    pub fn contains_key(&self, k: &u64) -> (b: bool)
        ensures
            b == self@.contains_key(*k),
    {
        broadcast use vstd::std_specs::hash::group_hash_axioms;

        self.map.contains_key(k)
    }

    pub fn get(&self, k: &u64) -> (r: Option<&V>)
        ensures
            match r {
                Some(v) => self@.contains_key(*k) && *v == self@[*k],
                None => !self@.contains_key(*k),
            },
    {
        broadcast use vstd::std_specs::hash::group_hash_axioms;

        self.map.get(k)
    }

    /// Sets the value of `k`, giving back the value it replaced.
    pub fn insert(&mut self, k: u64, v: V) -> (r: Option<V>)
        ensures
            final(self)@ == old(self)@.insert(k, v),
            match r {
                Some(p) => old(self)@.contains_key(k) && p == old(self)@[k],
                None => !old(self)@.contains_key(k),
            },
    {
        broadcast use vstd::std_specs::hash::group_hash_axioms;

        self.map.insert(k, v)
    }

    /// Takes `k` out of the table, giving back its value.
    pub fn remove(&mut self, k: &u64) -> (r: Option<V>)
        ensures
            final(self)@ == old(self)@.remove(*k),
            match r {
                Some(p) => old(self)@.contains_key(*k) && p == old(self)@[*k],
                None => !old(self)@.contains_key(*k),
            },
    {
        broadcast use vstd::std_specs::hash::group_hash_axioms;

        self.map.remove(k)
    }

    /// The keys, each once.
    pub fn keys(&self) -> (ks: Vec<u64>)
        ensures
            ks@.no_duplicates(),
            forall|k: u64| #[trigger] ks@.contains(k) <==> self@.contains_key(k),
    {
        broadcast use vstd::std_specs::hash::group_hash_axioms;

        let ghost all = vstd::std_specs::hash::spec_keys_iter(&self.map).remaining().unref();
        let mut ks: Vec<u64> = Vec::new();
        for k in it: self.map.keys()
            invariant
                all == vstd::std_specs::hash::spec_keys_iter(&self.map).remaining().unref(),
                it.seq().unref() == all,
                ks@ == all.take(it.index()),
        {
            proof {
                assert(all.take(it.index() + 1) =~= all.take(it.index()).push(*k));
            }
            ks.push(*k);
        }
        proof {
            assert(ks@ =~= all);
            assert forall|k: u64| #[trigger] ks@.contains(k) <==> self@.contains_key(k) by {
                assert(all.to_set().contains(k) == self@.dom().contains(k));
            }
        }
        ks
    }
}

/// A table from keys to values held as a vector of distinct-keyed entries,
/// for keys that are not integers: vstd's model of `HashMap` covers integer keys only, and
/// a struct or tuple key would have to be assumed to fit it.
/// viewed as a finite map.
#[verifier::reject_recursive_types(K)]
pub struct KeyedVec<K, V> {
    entries: Vec<(K, V)>,
    model: Ghost<Map<K, V>>,
}

impl<K, V> View for KeyedVec<K, V> {
    type V = Map<K, V>;

    closed spec fn view(&self) -> Map<K, V> {
        self.model@
    }
}

impl<K: MapKey, V> KeyedVec<K, V> {
    /// Keys are distinct and the entries are exactly the map's pairs.
    pub closed spec fn wf(&self) -> bool {
        &&& forall|i: int, j: int|
            0 <= i < j < self.entries@.len() ==> #[trigger] self.entries@[i].0
                != #[trigger] self.entries@[j].0
        &&& forall|i: int|
            0 <= i < self.entries@.len() ==> #[trigger] self.model@.contains_key(
                self.entries@[i].0,
            ) && self.model@[self.entries@[i].0] == self.entries@[i].1
        &&& forall|k: K|
            #[trigger] self.model@.contains_key(k) ==> exists|i: int|
                0 <= i < self.entries@.len() && #[trigger] self.entries@[i].0 == k
    }

    pub fn new() -> (t: Self)
        ensures
            t.wf(),
            t@ == Map::<K, V>::empty(),
    {
        KeyedVec { entries: Vec::new(), model: Ghost(Map::empty()) }
    }

    fn index_of(&self, k: &K) -> (r: Option<usize>)
        requires
            self.wf(),
        ensures
            match r {
                Some(i) => i < self.entries@.len() && self.entries@[i as int].0 == *k,
                None => !self@.contains_key(*k),
            },
    {
        let mut i: usize = 0;
        while i < self.entries.len()
            invariant
                self.wf(),
                i <= self.entries@.len(),
                forall|j: int| 0 <= j < i ==> self.entries@[j].0 != *k,
            decreases self.entries@.len() - i,
        {
            if self.entries[i].0.same_key(k) {
                return Some(i);
            }
            i = i + 1;
        }
        None
    }

    /// The number of keys.
    pub fn len(&self) -> (n: usize)
        requires
            self.wf(),
        ensures
            n == self@.dom().len(),
    {
        proof {
            self.lemma_len();
        }
        self.entries.len()
    }

    /// The table holds finitely many keys.
    pub proof fn lemma_finite(&self)
        requires
            self.wf(),
        ensures
            self@.dom().finite(),
    {
        self.lemma_len();
    }

    proof fn lemma_len(&self)
        requires
            self.wf(),
        ensures
            self@.dom().finite(),
            self@.dom().len() == self.entries@.len(),
    {
        let ks = self.entries@.map_values(|e: (K, V)| e.0);
        assert(ks.no_duplicates()) by {
            assert forall|i: int, j: int|
                0 <= i < ks.len() && 0 <= j < ks.len() && i != j implies ks[i] != ks[j] by {
                if i < j {
                    assert(self.entries@[i].0 != self.entries@[j].0);
                } else {
                    assert(self.entries@[j].0 != self.entries@[i].0);
                }
            }
        }
        assert(ks.to_set() =~= self@.dom()) by {
            assert forall|k: K| self@.dom().contains(k) implies ks.to_set().contains(k) by {
                let i = choose|i: int| 0 <= i < self.entries@.len() && self.entries@[i].0 == k;
                assert(ks[i] == k);
            }
            assert forall|k: K| ks.to_set().contains(k) implies self@.dom().contains(k) by {
                let i = choose|i: int| 0 <= i < ks.len() && ks[i] == k;
                assert(self.model@.contains_key(self.entries@[i].0));
            }
        }
        ks.unique_seq_to_set();
    }

    pub fn contains_key(&self, k: &K) -> (b: bool)
        requires
            self.wf(),
        ensures
            b == self@.contains_key(*k),
    {
        match self.index_of(k) {
            Some(i) => {
                assert(self.model@.contains_key(self.entries@[i as int].0));
                true
            },
            None => false,
        }
    }

    pub fn get(&self, k: &K) -> (r: Option<&V>)
        requires
            self.wf(),
        ensures
            match r {
                Some(v) => self@.contains_key(*k) && *v == self@[*k],
                None => !self@.contains_key(*k),
            },
    {
        match self.index_of(k) {
            Some(i) => {
                assert(self.model@.contains_key(self.entries@[i as int].0));
                Some(&self.entries[i].1)
            },
            None => None,
        }
    }

    /// The keys, each once.
    pub fn keys(&self) -> (ks: Vec<K>)
        requires
            self.wf(),
        ensures
            ks@.no_duplicates(),
            forall|k: K| #[trigger] ks@.contains(k) <==> self@.contains_key(k),
    {
        let mut ks: Vec<K> = Vec::new();
        let mut i: usize = 0;
        while i < self.entries.len()
            invariant
                self.wf(),
                i <= self.entries@.len(),
                ks@.len() == i,
                forall|j: int| 0 <= j < i ==> #[trigger] ks@[j] == self.entries@[j].0,
            decreases self.entries@.len() - i,
        {
            ks.push(self.entries[i].0);
            i = i + 1;
        }
        proof {
            assert forall|a: int, b: int|
                0 <= a < ks@.len() && 0 <= b < ks@.len() && a != b implies ks@[a] != ks@[b] by {
                if a < b {
                    assert(self.entries@[a].0 != self.entries@[b].0);
                } else {
                    assert(self.entries@[b].0 != self.entries@[a].0);
                }
            }
            assert forall|k: K| #[trigger] ks@.contains(k) <==> self@.contains_key(k) by {
                if ks@.contains(k) {
                    let j = choose|j: int| 0 <= j < ks@.len() && ks@[j] == k;
                    assert(self.model@.contains_key(self.entries@[j].0));
                }
                if self@.contains_key(k) {
                    let j = choose|j: int| 0 <= j < self.entries@.len() && self.entries@[j].0 == k;
                    assert(ks@[j] == k);
                }
            }
        }
        ks
    }

    /// Sets the value of `k`, giving back the value it replaced.
    pub fn insert(&mut self, k: K, v: V) -> (r: Option<V>)
        requires
            old(self).wf(),
        ensures
            final(self).wf(),
            final(self)@ == old(self)@.insert(k, v),
            match r {
                Some(p) => old(self)@.contains_key(k) && p == old(self)@[k],
                None => !old(self)@.contains_key(k),
            },
    {
        match self.index_of(&k) {
            Some(i) => {
                let ghost old_entries = self.entries@;
                let ghost old_model = self.model@;
                proof {
                    assert(old_model.contains_key(old_entries[i as int].0));
                }
                let mut pair = (k, v);
                self.entries.set_and_swap(i, &mut pair);
                self.model = Ghost(old_model.insert(k, v));
                proof {
                    assert forall|j: int|
                        0 <= j < self.entries@.len() implies #[trigger] self.model@.contains_key(
                        self.entries@[j].0,
                    ) && self.model@[self.entries@[j].0] == self.entries@[j].1 by {
                        if j != i {
                            assert(old_entries[j].0 != k) by {
                                if j < i {
                                    assert(old_entries[j].0 != old_entries[i as int].0);
                                } else {
                                    assert(old_entries[i as int].0 != old_entries[j].0);
                                }
                            }
                        }
                    }
                    assert forall|kk: K| #[trigger] self.model@.contains_key(kk) implies exists|
                        j: int,
                    | 0 <= j < self.entries@.len() && #[trigger] self.entries@[j].0 == kk by {
                        if kk == k {
                            assert(self.entries@[i as int].0 == kk);
                        } else {
                            let j = choose|j: int|
                                0 <= j < old_entries.len() && old_entries[j].0 == kk;
                            assert(self.entries@[j].0 == kk);
                        }
                    }
                }
                let (_, old_v) = pair;
                Some(old_v)
            },
            None => {
                let ghost old_entries = self.entries@;
                let ghost old_model = self.model@;
                self.entries.push((k, v));
                self.model = Ghost(old_model.insert(k, v));
                proof {
                    assert forall|a: int, b: int|
                        0 <= a < b < self.entries@.len() implies #[trigger] self.entries@[a].0
                        != #[trigger] self.entries@[b].0 by {
                        if b == old_entries.len() {
                            assert(old_model.contains_key(old_entries[a].0));
                        } else {
                            assert(old_entries[a].0 != old_entries[b].0);
                        }
                    }
                    assert forall|j: int|
                        0 <= j < self.entries@.len() implies #[trigger] self.model@.contains_key(
                        self.entries@[j].0,
                    ) && self.model@[self.entries@[j].0] == self.entries@[j].1 by {
                        if j < old_entries.len() {
                            assert(old_model.contains_key(old_entries[j].0));
                        }
                    }
                    assert forall|kk: K| #[trigger] self.model@.contains_key(kk) implies exists|
                        j: int,
                    | 0 <= j < self.entries@.len() && #[trigger] self.entries@[j].0 == kk by {
                        if kk == k {
                            assert(self.entries@[old_entries.len() as int].0 == kk);
                        } else {
                            let j = choose|j: int|
                                0 <= j < old_entries.len() && old_entries[j].0 == kk;
                            assert(self.entries@[j].0 == kk);
                        }
                    }
                }
                None
            },
        }
    }

    /// Takes `k` out of the table, giving back its value.
    pub fn remove(&mut self, k: &K) -> (r: Option<V>)
        requires
            old(self).wf(),
        ensures
            final(self).wf(),
            final(self)@ == old(self)@.remove(*k),
            match r {
                Some(p) => old(self)@.contains_key(*k) && p == old(self)@[*k],
                None => !old(self)@.contains_key(*k),
            },
    {
        match self.index_of(k) {
            Some(i) => {
                let ghost old_entries = self.entries@;
                let ghost old_model = self.model@;
                proof {
                    assert(old_model.contains_key(old_entries[i as int].0));
                }
                let (_, v) = self.entries.remove(i);
                self.model = Ghost(old_model.remove(*k));
                proof {
                    assert forall|a: int, b: int|
                        0 <= a < b < self.entries@.len() implies #[trigger] self.entries@[a].0
                        != #[trigger] self.entries@[b].0 by {
                        let oa = if a < i { a } else { a + 1 };
                        let ob = if b < i { b } else { b + 1 };
                        assert(self.entries@[a] == old_entries[oa]);
                        assert(self.entries@[b] == old_entries[ob]);
                        assert(old_entries[oa].0 != old_entries[ob].0);
                    }
                    assert forall|j: int|
                        0 <= j < self.entries@.len() implies #[trigger] self.model@.contains_key(
                        self.entries@[j].0,
                    ) && self.model@[self.entries@[j].0] == self.entries@[j].1 by {
                        let oj = if j < i { j } else { j + 1 };
                        assert(self.entries@[j] == old_entries[oj]);
                        assert(old_model.contains_key(old_entries[oj].0));
                        if j < i {
                            assert(old_entries[oj].0 != old_entries[i as int].0);
                        } else {
                            assert(old_entries[i as int].0 != old_entries[oj].0);
                        }
                    }
                    assert forall|kk: K| #[trigger] self.model@.contains_key(kk) implies exists|
                        j: int,
                    | 0 <= j < self.entries@.len() && #[trigger] self.entries@[j].0 == kk by {
                        let oj = choose|j: int|
                            0 <= j < old_entries.len() && old_entries[j].0 == kk;
                        assert(oj != i);
                        if oj < i {
                            assert(self.entries@[oj].0 == kk);
                        } else {
                            assert(self.entries@[oj - 1].0 == kk);
                        }
                    }
                }
                Some(v)
            },
            None => {
                assert(self.model@.remove(*k) =~= self.model@);
                None
            },
        }
    }
}

} // verus!
