//! A small map from names to values that keeps its entries in insertion order.
use vstd::prelude::*;

verus! {

/// Entries `(name, value)` with pairwise distinct names, oldest first.
pub struct NamedMap<V> {
    pub entries: Vec<(String, V)>,
}

impl<V> NamedMap<V> {
    /// The names, in entry order.
    pub open spec fn names(&self) -> Seq<Seq<char>> {
        Seq::new(self.entries@.len(), |i: int| self.entries@[i].0@)
    }

    /// No name occurs twice.
    pub open spec fn wf(&self) -> bool {
        forall|i: int, j: int|
            0 <= i < j < self.entries@.len() ==> #[trigger] self.entries@[i].0@ != #[trigger] self.entries@[j].0@
    }

    /// The position of `name`, if present.
    pub open spec fn position(&self, name: Seq<char>) -> int {
        choose|i: int| 0 <= i < self.entries@.len() && #[trigger] self.entries@[i].0@ == name
    }

    /// Whether `name` has an entry.
    pub open spec fn has(&self, name: Seq<char>) -> bool {
        exists|i: int| 0 <= i < self.entries@.len() && #[trigger] self.entries@[i].0@ == name
    }

    /// The value stored under `name`.
    pub open spec fn at(&self, name: Seq<char>) -> V {
        self.entries@[self.position(name)].1
    }

    /// The map from names to values.
    pub open spec fn as_map(&self) -> Map<Seq<char>, V> {
        Map::new(|k: Seq<char>| self.has(k), |k: Seq<char>| self.at(k))
    }

    /// An entry's position is the position of its name.
    pub proof fn lemma_position(&self, i: int)
        requires
            self.wf(),
            0 <= i < self.entries@.len(),
        ensures
            self.has(self.entries@[i].0@),
            self.position(self.entries@[i].0@) == i,
            self.at(self.entries@[i].0@) == self.entries@[i].1,
    {
        let k = self.entries@[i].0@;
        assert(self.has(k));
        let p = self.position(k);
        if p != i {
            if p < i {
                assert(self.entries@[p].0@ != self.entries@[i].0@);
            } else {
                assert(self.entries@[i].0@ != self.entries@[p].0@);
            }
        }
    }

    /// An empty map.
    pub fn new() -> (m: Self)
        ensures
            m.wf(),
            m.entries@.len() == 0,
            m.as_map() == Map::<Seq<char>, V>::empty(),
    {
        let m = NamedMap { entries: Vec::new() };
        assert(m.as_map() =~= Map::<Seq<char>, V>::empty());
        m
    }

    /// The number of entries.
    pub fn len(&self) -> (n: usize)
        ensures
            n == self.entries@.len(),
    {
        self.entries.len()
    }

    /// Whether there are no entries.
    pub fn is_empty(&self) -> (b: bool)
        ensures
            b == (self.entries@.len() == 0),
    {
        self.entries.len() == 0
    }

    /// The position of `name`.
    pub fn find(&self, name: &str) -> (r: Option<usize>)
        ensures
            match r {
                Some(i) => i < self.entries@.len() && self.entries@[i as int].0@ == name@
                    && forall|j: int| 0 <= j < i ==> #[trigger] self.entries@[j].0@ != name@,
                None => !self.has(name@),
            },
    {
        let k = String::from_str(name);
        let mut i: usize = 0;
        while i < self.entries.len()
            invariant
                i <= self.entries@.len(),
                k@ == name@,
                forall|j: int| 0 <= j < i ==> #[trigger] self.entries@[j].0@ != name@,
            decreases self.entries@.len() - i,
        {
            if self.entries[i].0 == k {
                return Some(i);
            }
            i += 1;
        }
        None
    }

    /// The value stored under `name`.
    pub fn get(&self, name: &str) -> (r: Option<&V>)
        requires
            self.wf(),
        ensures
            match r {
                Some(v) => self.as_map().contains_key(name@) && self.as_map()[name@] == *v,
                None => !self.as_map().contains_key(name@),
            },
    {
        match self.find(name) {
            Some(i) => {
                proof {
                    self.lemma_position(i as int);
                }
                Some(&self.entries[i].1)
            },
            None => None,
        }
    }

    /// Whether no name occurs twice.
    pub fn is_wf(&self) -> (b: bool)
        ensures
            b == self.wf(),
    {
        let mut i: usize = 0;
        while i < self.entries.len()
            invariant
                i <= self.entries@.len(),
                forall|a: int, c: int|
                    0 <= a < c < i ==> #[trigger] self.entries@[a].0@ != #[trigger] self.entries@[c].0@,
            decreases self.entries@.len() - i,
        {
            match self.find(self.entries[i].0.as_str()) {
                Some(j) => {
                    if j != i {
                        assert(self.entries@[j as int].0@ == self.entries@[i as int].0@);
                        assert(j < i);
                        return false;
                    }
                },
                None => {
                    assert(self.entries@[i as int].0@ == self.entries@[i as int].0@);
                    return false;
                },
            }
            i += 1;
        }
        true
    }

    /// Whether `name` has an entry.
    pub fn contains_key(&self, name: &str) -> (b: bool)
        ensures
            b == self.has(name@),
    {
        self.find(name).is_some()
    }
}


impl<V> NamedMap<V> {
    /// Replacing the value of entry `i` keeps the names and sets the map at its name.
    pub proof fn lemma_set_value(old_map: &Self, new_map: &Self, i: int, v: V)
        requires
            old_map.wf(),
            0 <= i < old_map.entries@.len(),
            new_map.entries@ == old_map.entries@.update(i, (old_map.entries@[i].0, v)),
        ensures
            new_map.wf(),
            new_map.as_map() == old_map.as_map().insert(old_map.entries@[i].0@, v),
    {
        let k = old_map.entries@[i].0@;
        assert forall|a: int, b: int| 0 <= a < b < new_map.entries@.len() implies #[trigger] new_map.entries@[a].0@
            != #[trigger] new_map.entries@[b].0@ by {
            assert(old_map.entries@[a].0@ != old_map.entries@[b].0@);
        }
        assert forall|n: Seq<char>| #[trigger] new_map.has(n) == old_map.has(n) by {
            if new_map.has(n) {
                let j = choose|j: int| 0 <= j < new_map.entries@.len() && #[trigger] new_map.entries@[j].0@ == n;
                assert(old_map.entries@[j].0@ == n);
            }
            if old_map.has(n) {
                let j = choose|j: int| 0 <= j < old_map.entries@.len() && #[trigger] old_map.entries@[j].0@ == n;
                assert(new_map.entries@[j].0@ == n);
            }
        }
        assert forall|n: Seq<char>| new_map.has(n) implies #[trigger] new_map.at(n) == (if n == k {
            v
        } else {
            old_map.at(n)
        }) by {
            let j = choose|j: int| 0 <= j < new_map.entries@.len() && #[trigger] new_map.entries@[j].0@ == n;
            new_map.lemma_position(j);
            old_map.lemma_position(j);
            if n == k {
                old_map.lemma_position(i);
            }
        }
        assert(new_map.as_map() =~= old_map.as_map().insert(k, v));
    }

    /// Appending an entry with a new name sets the map at that name.
    pub proof fn lemma_push(old_map: &Self, new_map: &Self, name: String, v: V)
        requires
            old_map.wf(),
            !old_map.has(name@),
            new_map.entries@ == old_map.entries@.push((name, v)),
        ensures
            new_map.wf(),
            new_map.as_map() == old_map.as_map().insert(name@, v),
    {
        let n0 = old_map.entries@.len();
        assert forall|a: int, b: int| 0 <= a < b < new_map.entries@.len() implies #[trigger] new_map.entries@[a].0@
            != #[trigger] new_map.entries@[b].0@ by {
            if b == n0 {
                assert(old_map.entries@[a].0@ != name@);
            } else {
                assert(old_map.entries@[a].0@ != old_map.entries@[b].0@);
            }
        }
        assert forall|n: Seq<char>| #[trigger] new_map.has(n) == (old_map.has(n) || n == name@) by {
            if new_map.has(n) {
                let j = choose|j: int| 0 <= j < new_map.entries@.len() && #[trigger] new_map.entries@[j].0@ == n;
                if j < n0 {
                    assert(old_map.entries@[j].0@ == n);
                }
            }
            if old_map.has(n) {
                let j = choose|j: int| 0 <= j < old_map.entries@.len() && #[trigger] old_map.entries@[j].0@ == n;
                assert(new_map.entries@[j].0@ == n);
            }
            if n == name@ {
                assert(new_map.entries@[n0 as int].0@ == n);
            }
        }
        assert forall|n: Seq<char>| new_map.has(n) implies #[trigger] new_map.at(n) == (if n == name@ {
            v
        } else {
            old_map.at(n)
        }) by {
            let j = choose|j: int| 0 <= j < new_map.entries@.len() && #[trigger] new_map.entries@[j].0@ == n;
            new_map.lemma_position(j);
            if j < n0 {
                old_map.lemma_position(j);
            }
        }
        assert(new_map.as_map() =~= old_map.as_map().insert(name@, v));
    }

    /// The position of `name`, adding it with value `fresh` when absent.
    pub fn slot(&mut self, name: &str, fresh: V) -> (i: usize)
        requires
            old(self).wf(),
        ensures
            final(self).wf(),
            i < final(self).entries@.len(),
            final(self).entries@[i as int].0@ == name@,
            old(self).has(name@) ==> final(self).entries@ == old(self).entries@,
            !old(self).has(name@) ==> final(self).entries@.len() == old(self).entries@.len() + 1
                && final(self).entries@.drop_last() == old(self).entries@
                && final(self).entries@[i as int].1 == fresh,
            final(self).as_map() == (if old(self).has(name@) {
                old(self).as_map()
            } else {
                old(self).as_map().insert(name@, fresh)
            }),
    {
        match self.find(name) {
            Some(i) => {
                assert(self.has(name@));
                i
            },
            None => {
                let ghost before = *self;
                let key = String::from_str(name);
                self.entries.push((key, fresh));
                proof {
                    NamedMap::lemma_push(&before, self, key, fresh);
                    assert(self.entries@.drop_last() =~= before.entries@);
                }
                self.entries.len() - 1
            },
        }
    }

    /// Stores `v` under `name`, replacing the value there if any; a new name goes last.
    pub fn insert(&mut self, name: &str, v: V)
        requires
            old(self).wf(),
        ensures
            final(self).wf(),
            final(self).as_map() == old(self).as_map().insert(name@, v),
            old(self).has(name@) ==> final(self).entries@.len() == old(self).entries@.len(),
            !old(self).has(name@) ==> final(self).entries@.len() == old(self).entries@.len() + 1,
    {
        match self.find(name) {
            Some(i) => {
                self.set_value(i, v);
            },
            None => {
                let ghost before = *self;
                let key = String::from_str(name);
                self.entries.push((key, v));
                proof {
                    NamedMap::lemma_push(&before, self, key, v);
                }
            },
        }
    }

    /// Replaces the value of entry `i`.
    pub fn set_value(&mut self, i: usize, v: V)
        requires
            old(self).wf(),
            i < old(self).entries@.len(),
        ensures
            final(self).wf(),
            final(self).entries@ == old(self).entries@.update(i as int, (old(self).entries@[i as int].0, v)),
            final(self).as_map() == old(self).as_map().insert(old(self).entries@[i as int].0@, v),
    {
        let ghost before = *self;
        let ghost vv = v;
        self.entries[i].1 = v;
        proof {
            assert(self.entries@ =~= before.entries@.update(i as int, (before.entries@[i as int].0, vv)));
            NamedMap::lemma_set_value(&before, self, i as int, vv);
        }
    }
}


impl<V> NamedMap<V> {
    /// A table with distinct names has as many names as entries.
    pub proof fn lemma_size(&self)
        requires
            self.wf(),
        ensures
            self.as_map().dom().finite(),
            self.as_map().dom().len() == self.entries@.len(),
    {
        let names = self.names();
        assert(names.no_duplicates()) by {
            assert forall|i: int, j: int| 0 <= i < names.len() && 0 <= j < names.len() && i != j implies names[i]
                != names[j] by {
                if i < j {
                    assert(self.entries@[i].0@ != self.entries@[j].0@);
                } else {
                    assert(self.entries@[j].0@ != self.entries@[i].0@);
                }
            }
        }
        assert(self.as_map().dom() =~= names.to_set()) by {
            assert forall|k: Seq<char>| self.as_map().dom().contains(k) <==> names.to_set().contains(k) by {
                if self.has(k) {
                    let i = choose|i: int| 0 <= i < self.entries@.len() && #[trigger] self.entries@[i].0@ == k;
                    assert(names[i] == k);
                }
                if names.to_set().contains(k) {
                    let i = choose|i: int| 0 <= i < names.len() && names[i] == k;
                    assert(self.entries@[i].0@ == k);
                }
            }
        }
        names.unique_seq_to_set();
        vstd::seq_lib::seq_to_set_is_finite(names);
    }
}

} // verus!
