use vstd::prelude::*;

use vstd::hash_map::StringHashMap;

verus! {

/// A map from strings to values that keeps its entries in a sequence: a new
/// key goes last, and a removed entry's place is taken by the last entry.
///
/// Its meaning is the map `self@` from the keys' character sequences to the
/// values' views; `keys()` and `vals()` give the entries in order. A hash
/// table finds the place of each key.
pub struct StrMap<V: View> {
    entries: Vec<(String, V)>,
    positions: StringHashMap<usize>,
    contents: Ghost<Map<Seq<char>, V::V>>,
}

impl<V: View> View for StrMap<V> {
    type V = Map<Seq<char>, V::V>;

    closed spec fn view(&self) -> Map<Seq<char>, V::V> {
        self.contents@
    }
}

impl<V: View> StrMap<V> {
    /// The keys, in entry order.
    pub closed spec fn keys(self) -> Seq<Seq<char>> {
        Seq::new(self.entries@.len(), |i: int| self.entries@[i].0@)
    }

    /// The values, in entry order.
    pub closed spec fn values(self) -> Seq<V> {
        Seq::new(self.entries@.len(), |i: int| self.entries@[i].1)
    }

    /// The values' views, in entry order.
    pub closed spec fn vals(self) -> Seq<V::V> {
        Seq::new(self.entries@.len(), |i: int| self.entries@[i].1@)
    }

    /// The hash table maps each key to its place.
    pub closed spec fn positions_agree(self) -> bool {
        &&& self.positions@.dom() == self.contents@.dom()
        &&& forall|i: int|
            #![trigger self.entries@[i]]
            0 <= i < self.entries@.len() ==> self.positions@[self.entries@[i].0@] == i
    }

    /// The entries are distinct keys, and `self@` maps each key to the value
    /// stored beside it.
    pub open spec fn wf(self) -> bool {
        &&& self.keys().len() == self.vals().len()
        &&& self.values().len() == self.keys().len()
        &&& forall|i: int|
            #![trigger self.values()[i]]
            0 <= i < self.keys().len() ==> self.values()[i]@ == self.vals()[i]
        &&& forall|i: int, j: int|
            0 <= i < self.keys().len() && 0 <= j < self.keys().len() && i != j ==> self.keys()[i]
                != self.keys()[j]
        &&& forall|i: int|
            #![trigger self.keys()[i]]
            0 <= i < self.keys().len() ==> self@.contains_key(self.keys()[i]) && self@[self.keys()[i]]
                == self.vals()[i]
        &&& forall|k: Seq<char>| #[trigger] self@.contains_key(k) ==> self.keys().contains(k)
        &&& self@.dom().finite()
        &&& self@.dom().len() == self.keys().len()
        &&& self.keys().len() <= usize::MAX
        &&& self.positions_agree()
    }

    /// The position of `k` among the keys, if it is one of them.
    pub open spec fn position_of(self, k: Seq<char>) -> int {
        self.keys().index_of(k)
    }

    /// The sequence `s` with its last element moved into place `i`.
    pub open spec fn swap_out<T>(s: Seq<T>, i: int) -> Seq<T> {
        s.update(i, s.last()).drop_last()
    }

    /// An empty map.
    pub fn new() -> (m: Self)
        ensures
            m.wf(),
            m@ == Map::<Seq<char>, V::V>::empty(),
            m.keys() == Seq::<Seq<char>>::empty(),
    {
        let m = StrMap {
            entries: Vec::new(),
            positions: StringHashMap::new(),
            contents: Ghost(Map::empty()),
        };
        assert(m.keys() =~= Seq::<Seq<char>>::empty());
        assert(m.vals() =~= Seq::<V::V>::empty());
        assert(m.positions@.dom() =~= m.contents@.dom());
        m
    }

    /// The number of entries.
    pub fn len(&self) -> (n: usize)
        requires
            self.wf(),
        ensures
            n == self.keys().len(),
            n == self@.len(),
    {
        self.entries.len()
    }

    /// Whether the map has no entry.
    pub fn is_empty(&self) -> (b: bool)
        requires
            self.wf(),
        ensures
            b <==> self@ == Map::<Seq<char>, V::V>::empty(),
            b <==> self.keys().len() == 0,
    {
        proof {
            if self.entries@.len() > 0 {
                assert(self@.contains_key(self.keys()[0]));
            } else {
                assert(self@.dom() =~= Set::<Seq<char>>::empty()) by {
                    assert forall|k: Seq<char>| !self@.contains_key(k) by {
                        if self@.contains_key(k) {
                            assert(self.keys().contains(k));
                        }
                    }
                }
                assert(self@ =~= Map::<Seq<char>, V::V>::empty());
            }
        }
        self.entries.len() == 0
    }

    /// The key of the `i`-th entry.
    pub fn key_at(&self, i: usize) -> (k: &String)
        requires
            self.wf(),
            i < self.keys().len(),
        ensures
            k@ == self.keys()[i as int],
    {
        &self.entries[i].0
    }

    /// The value of the `i`-th entry.
    pub fn value_at(&self, i: usize) -> (v: &V)
        requires
            self.wf(),
            i < self.keys().len(),
        ensures
            *v == self.values()[i as int],
            v@ == self.vals()[i as int],
            v@ == self@[self.keys()[i as int]],
    {
        &self.entries[i].1
    }

    /// The position of `key`, or `None` where it is no key of the map.
    pub fn find(&self, key: &String) -> (r: Option<usize>)
        requires
            self.wf(),
        ensures
            r is None <==> !self@.contains_key(key@),
            r matches Some(i) ==> i < self.keys().len() && self.keys()[i as int] == key@ && i
                == self.position_of(key@),
    {
        match self.positions.get(key.as_str()) {
            None => None,
            Some(p) => {
                let i = *p;
                proof {
                    assert(self@.contains_key(key@));
                    assert(self.keys().contains(key@));
                    let j = choose|j: int| 0 <= j < self.keys().len() && self.keys()[j] == key@;
                    assert(self.entries@[j].0@ == key@);
                    assert(i == j);
                    let q = self.keys().index_of(key@);
                    assert(self.keys()[q] == key@);
                    assert(q == j);
                }
                Some(i)
            },
        }
    }

    /// The value stored under `key`.
    pub fn get(&self, key: &String) -> (r: Option<&V>)
        requires
            self.wf(),
        ensures
            r is Some <==> self@.contains_key(key@),
            r matches Some(v) ==> v@ == self@[key@],
    {
        match self.find(key) {
            Some(i) => Some(&self.entries[i].1),
            None => None,
        }
    }

    /// Stores `value` under `key`: a new key goes last, a present one keeps
    /// its place.
    pub fn insert(&mut self, key: String, value: V)
        requires
            old(self).wf(),
        ensures
            final(self).wf(),
            final(self)@ == old(self)@.insert(key@, value@),
            old(self)@.contains_key(key@) ==> final(self).keys() == old(self).keys(),
            !old(self)@.contains_key(key@) ==> final(self).keys() == old(self).keys().push(key@),
            old(self)@.contains_key(key@) ==> final(self).values() == old(self).values().update(
                old(self).position_of(key@),
                value,
            ),
            !old(self)@.contains_key(key@) ==> final(self).values() == old(self).values().push(value),
    {
        match self.find(&key) {
            Some(i) => {
                let _ = self.set_value_at(i, value);
            },
            None => {
                let ghost k = key@;
                let ghost v = value@;
                let ghost old_keys = self.keys();
                let ghost old_values = self.values();
                let ghost old_entries = self.entries@;
                let ghost old_map = self@;
                let ghost value_copy = value;
                let n = self.entries.len();
                self.positions.insert(key.clone(), n);
                self.entries.push((key, value));
                let _ = self.entries.len();
                self.contents = Ghost(self.contents@.insert(k, v));
                proof {
                    assert(self.keys() =~= old_keys.push(k));
                    assert(self.values() =~= old_values.push(value_copy));
                    assert(self.keys().len() == self.vals().len());
                    assert forall|kk: Seq<char>| #[trigger] self@.contains_key(kk) implies self.keys().contains(kk) by {
                        if kk == k {
                            assert(self.keys()[old_keys.len() as int] == k);
                        } else {
                            assert(old_map.contains_key(kk));
                            assert(old_keys.contains(kk));
                            let j = choose|j: int| 0 <= j < old_keys.len() && old_keys[j] == kk;
                            assert(self.keys()[j] == kk);
                        }
                    }
                    assert forall|j: int| 0 <= j < old_keys.len() implies old_keys[j] != k by {
                        assert(old_map.contains_key(old_keys[j]));
                    }
                    assert(self@.dom() =~= old_map.dom().insert(k));
                    assert(self.positions@.dom() =~= self.contents@.dom());
                    assert forall|i: int| 0 <= i < self.entries@.len() implies self.positions@[#[trigger] self.entries@[i].0@]
                        == i by {
                        if i < n {
                            assert(self.entries@[i] == old_entries[i]);
                            assert(old_keys[i] == old_entries[i].0@);
                            assert(old_entries[i].0@ != k);
                        }
                    }
                }
            },
        }
    }

    /// Replaces the value of the `i`-th entry, and hands back the value it had.
    pub fn set_value_at(&mut self, i: usize, value: V) -> (prev: V)
        requires
            old(self).wf(),
            i < old(self).keys().len(),
        ensures
            prev == old(self).values()[i as int],
            final(self).wf(),
            final(self).keys() == old(self).keys(),
            final(self).values() == old(self).values().update(i as int, value),
            final(self)@ == old(self)@.insert(old(self).keys()[i as int], value@),
    {
        let ghost k = self.keys()[i as int];
        let ghost v = value@;
        let ghost old_keys = self.keys();
        let ghost old_vals = self.vals();
        let ghost old_values = self.values();
        let ghost old_entries = self.entries@;
        let ghost old_map = self@;
        let ghost value_copy = value;
        let (key, prev) = self.entries.remove(i);
        self.entries.insert(i, (key, value));
        self.contents = Ghost(self.contents@.insert(k, v));
        proof {
            assert(self.keys() =~= old_keys);
            assert(self.vals() =~= old_vals.update(i as int, v));
            assert(self.values() =~= old_values.update(i as int, value_copy));
            assert(old_map.contains_key(k));
            assert(self@.dom() =~= old_map.dom());
            assert forall|kk: Seq<char>| #[trigger] self@.contains_key(kk) implies self.keys().contains(kk) by {
                assert(old_map.contains_key(kk));
            }
            assert forall|j: int| 0 <= j < self.entries@.len() implies self.positions@[#[trigger] self.entries@[j].0@]
                == j by {
                assert(self.entries@[j].0@ == old_keys[j]);
                assert(old_entries[j].0@ == old_keys[j]);
            }
        }
        prev
    }

    /// Removes `key` and what it maps to; the last entry takes its place.
    pub fn remove(&mut self, key: &String) -> (r: Option<V>)
        requires
            old(self).wf(),
        ensures
            final(self).wf(),
            final(self)@ == old(self)@.remove(key@),
            r is Some <==> old(self)@.contains_key(key@),
            r matches Some(v) ==> v@ == old(self)@[key@],
            old(self)@.contains_key(key@) ==> final(self).keys() == Self::swap_out(
                old(self).keys(),
                old(self).position_of(key@),
            ),
            old(self)@.contains_key(key@) ==> final(self).values() == Self::swap_out(
                old(self).values(),
                old(self).position_of(key@),
            ),
            !old(self)@.contains_key(key@) ==> final(self).keys() == old(self).keys(),
            !old(self)@.contains_key(key@) ==> final(self).values() == old(self).values(),
    {
        match self.find(key) {
            None => {
                proof {
                    assert(self@.remove(key@) =~= self@);
                }
                None
            },
            Some(i) => {
                let ghost k = key@;
                let ghost old_keys = self.keys();
                let ghost old_vals = self.vals();
                let ghost old_values = self.values();
                let ghost old_entries = self.entries@;
                let ghost old_map = self@;
                let last = self.entries.len() - 1;
                let (_, v) = self.entries.swap_remove(i);
                self.positions.remove(key.as_str());
                if i < last {
                    let moved = self.entries[i].0.clone();
                    self.positions.insert(moved, i);
                }
                self.contents = Ghost(self.contents@.remove(k));
                proof {
                    assert(self.keys() =~= Self::swap_out(old_keys, i as int));
                    assert(self.vals() =~= Self::swap_out(old_vals, i as int));
                    assert(self.values() =~= Self::swap_out(old_values, i as int));
                    assert(old_vals[i as int] == old_map[k]);
                    assert forall|a: int, b: int|
                        0 <= a < self.keys().len() && 0 <= b < self.keys().len() && a != b implies self.keys()[a]
                        != self.keys()[b] by {
                        let a0 = if a == i {
                            last as int
                        } else {
                            a
                        };
                        let b0 = if b == i {
                            last as int
                        } else {
                            b
                        };
                        assert(self.keys()[a] == old_keys[a0]);
                        assert(self.keys()[b] == old_keys[b0]);
                    }
                    assert forall|a: int|
                        #![trigger self.keys()[a]]
                        0 <= a < self.keys().len() implies self@.contains_key(self.keys()[a])
                        && self@[self.keys()[a]] == self.vals()[a] by {
                        let a0 = if a == i {
                            last as int
                        } else {
                            a
                        };
                        assert(self.keys()[a] == old_keys[a0]);
                        assert(self.vals()[a] == old_vals[a0]);
                        assert(a0 != i);
                        assert(old_keys[a0] != k);
                    }
                    assert forall|kk: Seq<char>| #[trigger] self@.contains_key(kk) implies self.keys().contains(kk) by {
                        assert(old_map.contains_key(kk));
                        assert(old_keys.contains(kk));
                        let j = choose|j: int| 0 <= j < old_keys.len() && old_keys[j] == kk;
                        assert(j != i);
                        if j == last {
                            assert(self.keys()[i as int] == kk);
                        } else {
                            assert(self.keys()[j] == kk);
                        }
                    }
                    assert(self@.dom() =~= old_map.dom().remove(k));
                    assert(self.positions@.dom() =~= self.contents@.dom());
                    assert forall|j: int| 0 <= j < self.entries@.len() implies self.positions@[#[trigger] self.entries@[j].0@]
                        == j by {
                        if j == i {
                            assert(self.entries@[j] == old_entries[last as int]);
                        } else {
                            assert(self.entries@[j] == old_entries[j]);
                            assert(old_entries[j].0@ == old_keys[j]);
                            assert(old_keys[j] != k);
                            if i < last {
                                assert(old_keys[j] != old_keys[last as int]);
                            }
                        }
                    }
                }
                Some(v)
            },
        }
    }
}

} // verus!
