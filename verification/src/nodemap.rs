//! An ordered map from node ids to payloads, kept sorted by key the way a
//! `BTreeMap<String, N>` iterates: strictly increasing keys, so no key occurs
//! twice.

use vstd::prelude::*;
use crate::text::{seq_lt, str_eq, str_lt, lemma_seq_lt_irreflexive, lemma_seq_lt_transitive, lemma_seq_lt_total, lemma_seq_lt_asymmetric};

verus! {

/// Keys in strictly increasing lexicographic order.
pub open spec fn keys_sorted(keys: Seq<Seq<char>>) -> bool {
    forall|i: int, j: int| 0 <= i < j < keys.len() ==> seq_lt(#[trigger] keys[i], #[trigger] keys[j])
}

/// Strictly sorted keys hold no duplicates.
pub proof fn lemma_sorted_no_duplicates(keys: Seq<Seq<char>>)
    requires
        keys_sorted(keys),
    ensures
        keys.no_duplicates(),
{
    assert forall|i: int, j: int| 0 <= i < keys.len() && 0 <= j < keys.len() && i != j implies keys[i] != keys[j] by {
        if i < j {
            assert(seq_lt(keys[i], keys[j]));
            lemma_seq_lt_irreflexive(keys[i]);
        } else {
            assert(seq_lt(keys[j], keys[i]));
            lemma_seq_lt_irreflexive(keys[j]);
        }
    }
}

/// In a sequence without duplicates, `index_of` finds the one position holding the element.
pub proof fn lemma_index_of<T>(s: Seq<T>, x: T, i: int)
    requires
        s.no_duplicates(),
        0 <= i < s.len(),
        s[i] == x,
    ensures
        s.index_of(x) == i,
{
    assert(s.contains(x));
    let j = s.index_of(x);
    assert(0 <= j < s.len() && s[j] == x);
}

/// Ordered map from string keys to payloads.
pub struct NodeMap<N> {
    entries: Vec<(String, N)>,
}

impl<N> NodeMap<N> {
    /// The keys, in iteration (ascending) order.
    pub closed spec fn keys(&self) -> Seq<Seq<char>> {
        self.entries@.map_values(|e: (String, N)| e.0@)
    }

    /// The payloads, aligned with [`Self::keys`].
    pub closed spec fn values(&self) -> Seq<N> {
        self.entries@.map_values(|e: (String, N)| e.1)
    }

    #[verifier::type_invariant]
    closed spec fn inv(&self) -> bool {
        keys_sorted(self.keys())
    }

    /// Is `k` a key of the map?
    pub open spec fn has(&self, k: Seq<char>) -> bool {
        self.keys().contains(k)
    }

    /// The payload stored under `k` (meaningful when `self.has(k)`).
    pub open spec fn payload(&self, k: Seq<char>) -> N {
        self.values()[self.keys().index_of(k)]
    }

    /// The map as a mathematical map.
    pub open spec fn as_map(&self) -> Map<Seq<char>, N> {
        Map::new(|k: Seq<char>| self.has(k), |k: Seq<char>| self.payload(k))
    }

    /// Keys and payloads are aligned.
    pub proof fn lemma_aligned(&self)
        ensures
            self.keys().len() == self.values().len(),
    {
    }

    /// The keys are strictly sorted, hence distinct, and aligned with the payloads.
    pub fn facts(&self)
        ensures
            keys_sorted(self.keys()),
            self.keys().no_duplicates(),
            self.keys().len() == self.values().len(),
    {
        proof {
            use_type_invariant(self);
            lemma_sorted_no_duplicates(self.keys());
        }
    }

    /// An empty map.
    pub fn new() -> (r: Self)
        ensures
            r.keys().len() == 0,
            r.values().len() == 0,
    {
        let r = NodeMap { entries: Vec::new() };
        assert(r.keys() =~= Seq::<Seq<char>>::empty());
        r
    }

    /// Number of entries.
    pub fn len(&self) -> (r: usize)
        ensures
            r == self.keys().len(),
            r == self.values().len(),
    {
        self.entries.len()
    }

    /// Key at position `i` in ascending order.
    pub fn key_at(&self, i: usize) -> (r: &String)
        requires
            i < self.keys().len(),
        ensures
            r@ == self.keys()[i as int],
    {
        &self.entries[i].0
    }

    /// Payload at position `i` in ascending key order.
    pub fn value_at(&self, i: usize) -> (r: &N)
        requires
            i < self.keys().len(),
        ensures
            *r == self.values()[i as int],
    {
        &self.entries[i].1
    }

    /// Position of `k` among the keys, if present.
    pub fn position(&self, k: &str) -> (r: Option<usize>)
        ensures
            match r {
                Some(i) => i < self.keys().len() && self.keys()[i as int] == k@,
                None => !self.keys().contains(k@),
            },
    {
        let mut i: usize = 0;
        while i < self.entries.len()
            invariant
                i <= self.entries.len(),
                forall|t: int| 0 <= t < i ==> self.keys()[t] != k@,
            decreases self.entries.len() - i,
        {
            if str_eq(self.entries[i].0.as_str(), k) {
                return Some(i);
            }
            i = i + 1;
        }
        None
    }

    /// Is `k` a key?
    pub fn contains_key(&self, k: &str) -> (r: bool)
        ensures
            r == self.has(k@),
    {
        self.position(k).is_some()
    }

    /// Payload stored under `k`, if any.
    pub fn get(&self, k: &str) -> (r: Option<&N>)
        ensures
            match r {
                Some(v) => self.has(k@) && *v == self.payload(k@),
                None => !self.has(k@),
            },
    {
        proof {
            use_type_invariant(self);
            lemma_sorted_no_duplicates(self.keys());
        }
        match self.position(k) {
            Some(i) => {
                proof {
                    lemma_index_of(self.keys(), k@, i as int);
                }
                Some(&self.entries[i].1)
            },
            None => None,
        }
    }

    /// Insert `v` under `k`, replacing the payload of an existing key; keys stay sorted.
    pub fn insert(&mut self, k: String, v: N)
        ensures
            final(self).as_map() == old(self).as_map().insert(k@, v),
            final(self).keys().to_set() == old(self).keys().to_set().insert(k@),
            old(self).has(k@) ==> final(self).keys() == old(self).keys(),
            !old(self).has(k@) ==> final(self).keys().len() == old(self).keys().len() + 1,
    {
        proof {
            use_type_invariant(&*self);
            lemma_sorted_no_duplicates(self.keys());
        }
        let ghost old_keys = self.keys();
        let ghost old_vals = self.values();
        let mut entries: Vec<(String, N)> = Vec::new();
        std::mem::swap(&mut entries, &mut self.entries);
        let n = entries.len();
        assert(entries@.map_values(|e: (String, N)| e.0@) == old_keys);
        let mut p: usize = 0;
        while p < n && str_lt(entries[p].0.as_str(), k.as_str())
            invariant
                n == entries@.len(),
                entries@.map_values(|e: (String, N)| e.0@) == old_keys,
                p <= n,
                forall|t: int| 0 <= t < p ==> seq_lt(#[trigger] old_keys[t], k@),
            decreases n - p,
        {
            p = p + 1;
        }
        // every key at or after `p` is not below `k`
        assert(p < n ==> !seq_lt(old_keys[p as int], k@));
        if p < n && str_eq(entries[p].0.as_str(), k.as_str()) {
            let ghost before = entries@;
            entries.set(p, (k, v));
            proof {
                let ks = entries@.map_values(|e: (String, N)| e.0@);
                assert(ks =~= old_keys);
                let m1 = Map::new(|q: Seq<char>| ks.contains(q), |q: Seq<char>| entries@.map_values(|e: (String, N)| e.1)[ks.index_of(q)]);
                assert(ks.no_duplicates());
                assert forall|q: Seq<char>| ks.contains(q) implies #[trigger] m1[q] == old_keys_map(old_keys, old_vals).insert(k@, v)[q] by {
                    let t = choose|t: int| 0 <= t < ks.len() && ks[t] == q;
                    lemma_index_of(ks, q, t);
                    lemma_index_of(old_keys, q, t);
                }
                assert(old_keys.contains(k@));
                assert(m1 =~= old_keys_map(old_keys, old_vals).insert(k@, v));
                assert(ks.to_set() =~= old_keys.to_set().insert(k@));
            }
            self.entries = entries;
        } else {
            proof {
                if p < n {
                    lemma_seq_lt_total(old_keys[p as int], k@);
                    assert(seq_lt(k@, old_keys[p as int]));
                }
                assert forall|t: int| p <= t < n implies seq_lt(k@, #[trigger] old_keys[t]) by {
                    if t > p {
                        lemma_seq_lt_transitive(k@, old_keys[p as int], old_keys[t]);
                    }
                }
                assert(!old_keys.contains(k@)) by {
                    if old_keys.contains(k@) {
                        let t = old_keys.index_of(k@);
                        if t < p {
                            lemma_seq_lt_irreflexive(k@);
                        } else {
                            lemma_seq_lt_irreflexive(k@);
                        }
                    }
                }
            }
            entries.insert(p, (k, v));
            proof {
                let ks = entries@.map_values(|e: (String, N)| e.0@);
                let vs = entries@.map_values(|e: (String, N)| e.1);
                assert(ks =~= old_keys.insert(p as int, k@));
                assert(vs =~= old_vals.insert(p as int, v));
                assert(keys_sorted(ks)) by {
                    assert forall|i: int, j: int| 0 <= i < j < ks.len() implies seq_lt(#[trigger] ks[i], #[trigger] ks[j]) by {
                        if j < p {
                        } else if j == p {
                        } else if i < p {
                            lemma_seq_lt_transitive(old_keys[i], k@, old_keys[j - 1]);
                        } else if i == p {
                        } else {
                        }
                    }
                }
                lemma_sorted_no_duplicates(ks);
                let m1 = Map::new(|q: Seq<char>| ks.contains(q), |q: Seq<char>| vs[ks.index_of(q)]);
                assert forall|q: Seq<char>| #[trigger] ks.contains(q) <==> old_keys.insert(p as int, k@).contains(q) by {}
                assert forall|q: Seq<char>| ks.contains(q) implies #[trigger] m1[q] == old_keys_map(old_keys, old_vals).insert(k@, v)[q] by {
                    let t = choose|t: int| 0 <= t < ks.len() && ks[t] == q;
                    lemma_index_of(ks, q, t);
                    if q == k@ {
                        assert(t == p);
                    } else {
                        if t < p {
                            assert(old_keys[t] == q);
                            lemma_index_of(old_keys, q, t);
                        } else {
                            assert(old_keys[t - 1] == q);
                            lemma_index_of(old_keys, q, t - 1);
                        }
                    }
                }
                assert forall|q: Seq<char>| old_keys_map(old_keys, old_vals).insert(k@, v).dom().contains(q) implies ks.contains(q) by {
                    if q != k@ {
                        let t = old_keys.index_of(q);
                        if t < p {
                            assert(ks[t] == q);
                        } else {
                            assert(ks[t + 1] == q);
                        }
                    } else {
                        assert(ks[p as int] == k@);
                    }
                }
                assert(m1 =~= old_keys_map(old_keys, old_vals).insert(k@, v));
                assert(ks.to_set() =~= old_keys.to_set().insert(k@));
            }
            self.entries = entries;
        }
    }
}

/// The map denoted by aligned key and payload sequences.
pub open spec fn old_keys_map<N>(keys: Seq<Seq<char>>, vals: Seq<N>) -> Map<Seq<char>, N> {
    Map::new(|q: Seq<char>| keys.contains(q), |q: Seq<char>| vals[keys.index_of(q)])
}

} // verus!
