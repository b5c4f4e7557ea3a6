//! A small map with string keys, kept as a list of entries with distinct
//! keys in the order they were first inserted.

use vstd::prelude::*;

verus! {

/// A map from strings to values of type `V`.
pub struct StrMap<V> {
    entries: Vec<(String, V)>,
}

impl<V> View for StrMap<V> {
    type V = Map<Seq<char>, V>;

    closed spec fn view(&self) -> Map<Seq<char>, V> {
        Map::new(
            |k: Seq<char>| self.has_key(k),
            |k: Seq<char>| self.entries@[self.index_of(k)].1,
        )
    }
}

impl<V> StrMap<V> {
    /// No key occurs twice.
    #[verifier::type_invariant]
    spec fn distinct_keys(self) -> bool {
        forall|i: int, j: int|
            0 <= i < self.entries.len() && 0 <= j < self.entries.len() && i != j
                ==> #[trigger] self.entries@[i].0@ != #[trigger] self.entries@[j].0@
    }

    /// Whether some entry has the key `k`.
    spec fn has_key(self, k: Seq<char>) -> bool {
        exists|i: int| 0 <= i < self.entries.len() && #[trigger] self.entries@[i].0@ == k
    }

    /// The position of the entry with key `k`.
    spec fn index_of(self, k: Seq<char>) -> int {
        choose|i: int| 0 <= i < self.entries.len() && #[trigger] self.entries@[i].0@ == k
    }

    /// The keys, in the order they were first inserted.
    pub closed spec fn key_order(self) -> Seq<Seq<char>> {
        self.entries@.map_values(|e: (String, V)| e.0@)
    }

    /// The entry at position `i` has key `k` exactly when `i` is the position
    /// of `k`.
    proof fn lemma_index(self, i: int)
        requires
            self.distinct_keys(),
            0 <= i < self.entries.len(),
        ensures
            self.has_key(self.entries@[i].0@),
            self.index_of(self.entries@[i].0@) == i,
            self@.contains_key(self.entries@[i].0@),
            self@[self.entries@[i].0@] == self.entries@[i].1,
    {
        let k = self.entries@[i].0@;
        assert(self.has_key(k));
        let j = self.index_of(k);
        assert(self.entries@[j].0@ == k);
    }

    /// An empty map.
    pub fn new() -> (m: Self)
        ensures
            m@ == Map::<Seq<char>, V>::empty(),
            m.key_order() == Seq::<Seq<char>>::empty(),
    {
        let m = StrMap { entries: Vec::new() };
        assert(m@ =~= Map::<Seq<char>, V>::empty());
        assert(m.key_order() =~= Seq::<Seq<char>>::empty());
        m
    }

    /// The number of keys.
    pub fn len(&self) -> (n: usize)
        ensures
            n == self@.dom().len(),
            n == self.key_order().len(),
            self@.dom() == self.key_order().to_set(),
            self.key_order().no_duplicates(),
    {
        proof {
            use_type_invariant(self);
            self.lemma_dom_len();
        }
        self.entries.len()
    }

    proof fn lemma_dom_len(self)
        requires
            self.distinct_keys(),
        ensures
            self@.dom() == self.key_order().to_set(),
            self.key_order().no_duplicates(),
            self@.dom().len() == self.entries.len(),
    {
        let ks = self.key_order();
        assert forall|k: Seq<char>| self@.dom().contains(k) <==> ks.contains(k) by {
            if self.has_key(k) {
                let i = choose|i: int| 0 <= i < self.entries.len() && #[trigger] self.entries@[i].0@ == k;
                assert(ks[i] == k);
            }
            if ks.contains(k) {
                let i = choose|i: int| 0 <= i < ks.len() && ks[i] == k;
                assert(self.entries@[i].0@ == k);
            }
        }
        assert(self@.dom() =~= ks.to_set());
        assert(ks.no_duplicates()) by {
            assert forall|i: int, j: int| 0 <= i < ks.len() && 0 <= j < ks.len() && i != j implies ks[i] != ks[j] by {
                assert(self.entries@[i].0@ != self.entries@[j].0@);
            }
        }
        ks.unique_seq_to_set();
    }

    /// The value of `key`, if it has one.
    pub fn get(&self, key: &String) -> (r: Option<&V>)
        ensures
            match r {
                Some(v) => self@.contains_key(key@) && *v == self@[key@],
                None => !self@.contains_key(key@),
            },
    {
        proof {
            use_type_invariant(self);
        }
        let mut i: usize = 0;
        while i < self.entries.len()
            invariant
                i <= self.entries.len(),
                self.distinct_keys(),
                forall|j: int| 0 <= j < i ==> self.entries@[j].0@ != key@,
            decreases self.entries.len() - i,
        {
            if self.entries[i].0 == *key {
                proof {
                    self.lemma_index(i as int);
                }
                return Some(&self.entries[i].1);
            }
            i = i + 1;
        }
        None
    }

    /// Gives `key` the value `value`: an existing key keeps its place, a new
    /// one comes last.
    pub fn insert(&mut self, key: String, value: V)
        ensures
            final(self)@ == old(self)@.insert(key@, value),
            old(self)@.contains_key(key@) ==> final(self).key_order() == old(self).key_order(),
            !old(self)@.contains_key(key@) ==> final(self).key_order() == old(self).key_order().push(
                key@,
            ),
    {
        proof {
            use_type_invariant(&*self);
        }
        let mut i: usize = 0;
        while i < self.entries.len()
            invariant
                i <= self.entries.len(),
                old(self).distinct_keys(),
                self.entries@ == old(self).entries@,
                forall|j: int| 0 <= j < i ==> self.entries@[j].0@ != key@,
            decreases self.entries.len() - i,
        {
            if self.entries[i].0 == key {
                proof {
                    old(self).lemma_index(i as int);
                }
                let ghost k = key@;
                let mut entries: Vec<(String, V)> = Vec::new();
                std::mem::swap(&mut entries, &mut self.entries);
                entries.set(i, (key, value));
                proof {
                    assert forall|a: int, b: int|
                        0 <= a < entries.len() && 0 <= b < entries.len() && a != b
                            implies #[trigger] entries@[a].0@ != #[trigger] entries@[b].0@ by {
                        assert(old(self).entries@[a].0@ != old(self).entries@[b].0@ || a == b);
                    }
                }
                self.entries = entries;
                proof {
                    assert forall|kk: Seq<char>| #[trigger] self@.contains_key(kk)
                        == old(self)@.insert(k, value).contains_key(kk) by {
                        if old(self).has_key(kk) {
                            let t = old(self).index_of(kk);
                            assert(self.entries@[t].0@ == kk || t == i);
                        }
                        if self.has_key(kk) {
                            let t = self.index_of(kk);
                            assert(old(self).entries@[t].0@ == kk || t == i);
                        }
                    }
                    assert forall|kk: Seq<char>| #[trigger] self@.contains_key(kk) implies self@[kk]
                        == old(self)@.insert(k, value)[kk] by {
                        let t = self.index_of(kk);
                        self.lemma_index(t);
                        if kk != k {
                            old(self).lemma_index(t);
                        }
                    }
                    assert(self@ =~= old(self)@.insert(k, value));
                    assert(self.key_order() =~= old(self).key_order());
                }
                return;
            }
            i = i + 1;
        }
        let ghost k = key@;
        let mut entries: Vec<(String, V)> = Vec::new();
        std::mem::swap(&mut entries, &mut self.entries);
        entries.push((key, value));
        proof {
            assert forall|a: int, b: int|
                0 <= a < entries.len() && 0 <= b < entries.len() && a != b
                    implies #[trigger] entries@[a].0@ != #[trigger] entries@[b].0@ by {
                if a < old(self).entries.len() && b < old(self).entries.len() {
                    assert(old(self).entries@[a].0@ != old(self).entries@[b].0@);
                }
            }
        }
        self.entries = entries;
        proof {
            let n = old(self).entries.len() as int;
            assert(!old(self).has_key(k));
            assert(self.entries@[n].0@ == k);
            assert forall|kk: Seq<char>| #[trigger] self@.contains_key(kk)
                == old(self)@.insert(k, value).contains_key(kk) by {
                if old(self).has_key(kk) {
                    let t = old(self).index_of(kk);
                    assert(self.entries@[t].0@ == kk);
                }
                if self.has_key(kk) {
                    let t = self.index_of(kk);
                    if t < n {
                        assert(old(self).entries@[t].0@ == kk);
                    }
                }
            }
            assert forall|kk: Seq<char>| #[trigger] self@.contains_key(kk) implies self@[kk]
                == old(self)@.insert(k, value)[kk] by {
                let t = self.index_of(kk);
                self.lemma_index(t);
                if kk != k {
                    old(self).lemma_index(t);
                }
            }
            assert(self@ =~= old(self)@.insert(k, value));
            assert(self.key_order() =~= old(self).key_order().push(k));
        }
    }

    /// The key and value at position `i` in insertion order.
    pub fn entry_at(&self, i: usize) -> (r: (&String, &V))
        requires
            i < self.key_order().len(),
        ensures
            r.0@ == self.key_order()[i as int],
            self@.contains_key(r.0@),
            *r.1 == self@[r.0@],
    {
        proof {
            use_type_invariant(self);
            self.lemma_index(i as int);
        }
        (&self.entries[i].0, &self.entries[i].1)
    }
}

impl StrMap<String> {
    /// The first key, in insertion order, whose value is `value`.
    pub closed spec fn first_key_of(self, value: Seq<char>) -> Option<Seq<char>> {
        if exists|i: int| 0 <= i < self.entries.len() && #[trigger] self.entries@[i].1@ == value {
            let i = choose|i: int|
                0 <= i < self.entries.len() && #[trigger] self.entries@[i].1@ == value && forall|j: int|
                    0 <= j < i ==> self.entries@[j].1@ != value;
            Some(self.entries@[i].0@)
        } else {
            None
        }
    }

    /// The first key, in insertion order, whose value is `value`.
    pub fn key_of_value(&self, value: &String) -> (r: Option<String>)
        ensures
            match r {
                Some(k) => self@.contains_key(k@) && self@[k@]@ == value@,
                None => forall|k: Seq<char>| #[trigger] self@.contains_key(k) ==> self@[k]@ != value@,
            },
            r matches Some(k) ==> self.first_key_of(value@) == Some(k@),
            r is None ==> self.first_key_of(value@) is None,
    {
        proof {
            use_type_invariant(self);
        }
        let mut i: usize = 0;
        while i < self.entries.len()
            invariant
                i <= self.entries.len(),
                self.distinct_keys(),
                forall|j: int| 0 <= j < i ==> self.entries@[j].1@ != value@,
            decreases self.entries.len() - i,
        {
            if self.entries[i].1 == *value {
                proof {
                    self.lemma_index(i as int);
                    let c = choose|c: int|
                        0 <= c < self.entries.len() && #[trigger] self.entries@[c].1@ == value@
                            && forall|j: int| 0 <= j < c ==> self.entries@[j].1@ != value@;
                    assert(c == i as int) by {
                        if c < i {
                        } else if c > i {
                            assert(self.entries@[i as int].1@ == value@);
                        }
                    }
                }
                return Some(self.entries[i].0.clone());
            }
            i = i + 1;
        }
        proof {
            assert forall|k: Seq<char>| #[trigger] self@.contains_key(k) implies self@[k]@ != value@ by {
                let t = self.index_of(k);
                self.lemma_index(t);
            }
        }
        None
    }
}

} // verus!
