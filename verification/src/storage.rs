//! A key-value store keyed by account identifier.
//!
//! Entries are held in insertion order in a vector of pairs with pairwise
//! distinct keys. The store is viewed in specifications both as the raw entry
//! sequence (whose order the validator selector may enumerate) and as the map
//! it denotes.

use vstd::prelude::*;

verus! {

/// An account identifier, as the host's identity layer hands it in.
pub type AccountId = u64;

/// Pairwise distinct keys: no key occurs at two positions.
pub open spec fn distinct_keys<V>(s: Seq<(AccountId, V)>) -> bool {
    forall|i: int, j: int| 0 <= i < j < s.len() ==> (#[trigger] s[i]).0 != (#[trigger] s[j]).0
}

/// Whether some entry of `s` carries `key`.
pub open spec fn has_key<V>(s: Seq<(AccountId, V)>, key: AccountId) -> bool {
    exists|i: int| 0 <= i < s.len() && (#[trigger] s[i]).0 == key
}

/// An index at which `key` occurs in `s` (meaningful only when `has_key` holds).
pub open spec fn key_index<V>(s: Seq<(AccountId, V)>, key: AccountId) -> int {
    choose|i: int| 0 <= i < s.len() && (#[trigger] s[i]).0 == key
}

/// The finite map denoted by an entry sequence; under `distinct_keys` every
/// entry is visible.
pub open spec fn seq_to_map<V>(s: Seq<(AccountId, V)>) -> Map<AccountId, V> {
    Map::new(|key: AccountId| has_key(s, key), |key: AccountId| s[key_index(s, key)].1)
}

/// Under `distinct_keys`, the index of the key carried by entry `i` is `i`
/// itself.
pub proof fn lemma_at_key_index<V>(s: Seq<(AccountId, V)>, i: int)
    requires
        distinct_keys(s),
        0 <= i < s.len(),
    ensures
        has_key(s, s[i].0),
        key_index(s, s[i].0) == i,
{
    let key = s[i].0;
    assert(has_key(s, key)) by {
        assert(0 <= i < s.len() && s[i].0 == key);
    }
    let w = key_index(s, key);
    assert(0 <= w < s.len() && s[w].0 == key);
    if w < i {
        assert(s[w].0 != s[i].0);
    }
    if i < w {
        assert(s[i].0 != s[w].0);
    }
}

/// A map from account identifiers to values, backed by a vector of entries
/// with pairwise distinct keys, kept in insertion order.
pub struct StorageMap<V> {
    entries: Vec<(AccountId, V)>,
}

impl<V> StorageMap<V> {
    /// The raw entry sequence, in insertion order.
    pub closed spec fn entries_seq(&self) -> Seq<(AccountId, V)> {
        self.entries@
    }

    /// Well-formedness: no duplicate keys.
    pub open spec fn wf(&self) -> bool {
        distinct_keys(self.entries_seq())
    }

    /// The map this store denotes.
    pub open spec fn as_map(&self) -> Map<AccountId, V> {
        seq_to_map(self.entries_seq())
    }

    /// An empty store.
    pub fn new() -> (r: Self)
        ensures
            r.wf(),
            r.entries_seq() == Seq::<(AccountId, V)>::empty(),
            r.as_map() == Map::<AccountId, V>::empty(),
    {
        let r = StorageMap { entries: Vec::new() };
        proof {
            assert(r.as_map() =~= Map::<AccountId, V>::empty());
        }
        r
    }

    /// How many entries the store holds.
    pub fn len(&self) -> (r: usize)
        ensures
            r == self.entries_seq().len(),
    {
        self.entries.len()
    }

    /// Whether `key` has an entry.
    pub fn contains_key(&self, key: AccountId) -> (r: bool)
        ensures
            r == self.as_map().dom().contains(key),
            r == has_key(self.entries_seq(), key),
    {
        let n = self.entries.len();
        let mut i: usize = 0;
        while i < n
            invariant
                n == self.entries_seq().len(),
                0 <= i <= n,
                forall|j: int| 0 <= j < i ==> (#[trigger] self.entries_seq()[j]).0 != key,
            decreases n - i,
        {
            if self.entries[i].0 == key {
                return true;
            }
            i += 1;
        }
        false
    }

    /// The entry at position `i`, in insertion order.
    pub fn entry_at(&self, i: usize) -> (r: (AccountId, V))
        where
            V: Copy,
        requires
            i < self.entries_seq().len(),
        ensures
            r == self.entries_seq()[i as int],
    {
        self.entries[i]
    }

    /// The value under `key`, if any.
    pub fn get(&self, key: AccountId) -> (r: Option<V>)
        where
            V: Copy,
        requires
            self.wf(),
        ensures
            r == (if self.as_map().dom().contains(key) {
                Some(self.as_map()[key])
            } else {
                None::<V>
            }),
    {
        let n = self.entries.len();
        let mut i: usize = 0;
        while i < n
            invariant
                self.wf(),
                n == self.entries_seq().len(),
                0 <= i <= n,
                forall|j: int| 0 <= j < i ==> (#[trigger] self.entries_seq()[j]).0 != key,
            decreases n - i,
        {
            if self.entries[i].0 == key {
                proof {
                    self.lemma_entry_in_map(i as int);
                }
                return Some(self.entries[i].1);
            }
            i += 1;
        }
        None
    }

    /// Under `wf`, entry `i` is visible in the denoted map.
    pub proof fn lemma_entry_in_map(&self, i: int)
        requires
            self.wf(),
            0 <= i < self.entries_seq().len(),
        ensures
            self.as_map().dom().contains(self.entries_seq()[i].0),
            self.as_map()[self.entries_seq()[i].0] == self.entries_seq()[i].1,
    {
        lemma_at_key_index(self.entries_seq(), i);
    }

    /// Sets `key` to `value`, overwriting an existing entry in place and
    /// otherwise appending a fresh one.
    pub fn insert(&mut self, key: AccountId, value: V)
        requires
            old(self).wf(),
        ensures
            final(self).wf(),
            final(self).as_map() == old(self).as_map().insert(key, value),
            (if has_key(old(self).entries_seq(), key) {
                final(self).entries_seq() == old(self).entries_seq().update(
                    key_index(old(self).entries_seq(), key),
                    (key, value),
                )
            } else {
                final(self).entries_seq() == old(self).entries_seq().push((key, value))
            }),
    {
        let n = self.entries.len();
        let mut i: usize = 0;
        while i < n
            invariant
                self == old(self),
                old(self).wf(),
                n == self.entries_seq().len(),
                0 <= i <= n,
                forall|j: int| 0 <= j < i ==> (#[trigger] self.entries_seq()[j]).0 != key,
            decreases n - i,
        {
            if self.entries[i].0 == key {
                proof {
                    lemma_at_key_index(old(self).entries_seq(), i as int);
                }
                self.entries[i] = (key, value);
                proof {
                    let s0 = old(self).entries_seq();
                    let s1 = self.entries_seq();
                    assert(s1 == s0.update(i as int, (key, value)));
                    assert forall|p: int, q: int| 0 <= p < q < s1.len() implies (
                        #[trigger] s1[p]).0 != (#[trigger] s1[q]).0 by {
                        assert(s0[p].0 != s0[q].0);
                    }
                    lemma_seq_to_map_update(s0, i as int, key, value);
                }
                return;
            }
            i += 1;
        }
        self.entries.push((key, value));
        proof {
            let s0 = old(self).entries_seq();
            let s1 = self.entries_seq();
            assert(!has_key(s0, key));
            assert(s1 == s0.push((key, value)));
            assert forall|p: int, q: int| 0 <= p < q < s1.len() implies (
                #[trigger] s1[p]).0 != (#[trigger] s1[q]).0 by {
                if q < s0.len() {
                    assert(s0[p].0 != s0[q].0);
                } else {
                    assert(s1[q].0 == key);
                    assert(s1[p] == s0[p]);
                    if s0[p].0 == key {
                        lemma_at_key_index(s0, p);
                    }
                }
            }
            lemma_seq_to_map_push(s0, key, value);
        }
    }
}

/// Updating the entry that carries `key` updates the denoted map at `key`.
proof fn lemma_seq_to_map_update<V>(s: Seq<(AccountId, V)>, i: int, key: AccountId, value: V)
    requires
        distinct_keys(s),
        0 <= i < s.len(),
        s[i].0 == key,
    ensures
        seq_to_map(s.update(i, (key, value))) == seq_to_map(s).insert(key, value),
{
    let s1 = s.update(i, (key, value));
    let m0 = seq_to_map(s);
    let m1 = seq_to_map(s1);
    assert(distinct_keys(s1)) by {
        assert forall|p: int, q: int| 0 <= p < q < s1.len() implies (#[trigger] s1[p]).0 != (
            #[trigger] s1[q]).0 by {
            assert(s[p].0 != s[q].0);
        }
    }
    assert forall|k: AccountId| has_key(s1, k) <==> has_key(s, k) by {
        if has_key(s1, k) {
            let w = choose|w: int| 0 <= w < s1.len() && (#[trigger] s1[w]).0 == k;
            assert(s[w].0 == k || s[i].0 == k);
            assert(has_key(s, k)) by {
                if s[w].0 == k {
                    assert(0 <= w < s.len() && s[w].0 == k);
                } else {
                    assert(0 <= i < s.len() && s[i].0 == k);
                }
            }
        }
        if has_key(s, k) {
            let w = choose|w: int| 0 <= w < s.len() && (#[trigger] s[w]).0 == k;
            assert(has_key(s1, k)) by {
                if w == i {
                    assert(0 <= i < s1.len() && s1[i].0 == k);
                } else {
                    assert(0 <= w < s1.len() && s1[w].0 == k);
                }
            }
        }
    }
    assert forall|k: AccountId| m1.dom().contains(k) implies m1[k] == m0.insert(key, value)[k] by {
        let w1 = key_index(s1, k);
        assert(0 <= w1 < s1.len() && s1[w1].0 == k);
        if k == key {
            lemma_at_key_index(s1, i);
            assert(s1[i].0 == key);
            assert(w1 == i);
            assert(m1[k] == value);
        } else {
            assert(w1 != i);
            assert(s[w1].0 == k);
            lemma_at_key_index(s, w1);
            assert(m1[k] == s1[w1].1);
            assert(m0[k] == s[w1].1);
        }
    }
    assert(m1 =~= m0.insert(key, value));
}

/// Appending an entry with a fresh key inserts that key into the denoted map.
proof fn lemma_seq_to_map_push<V>(s: Seq<(AccountId, V)>, key: AccountId, value: V)
    requires
        distinct_keys(s),
        !has_key(s, key),
    ensures
        seq_to_map(s.push((key, value))) == seq_to_map(s).insert(key, value),
{
    let s1 = s.push((key, value));
    let m0 = seq_to_map(s);
    let m1 = seq_to_map(s1);
    assert(distinct_keys(s1)) by {
        assert forall|p: int, q: int| 0 <= p < q < s1.len() implies (#[trigger] s1[p]).0 != (
            #[trigger] s1[q]).0 by {
            if q < s.len() {
                assert(s[p].0 != s[q].0);
            } else {
                assert(s1[q].0 == key);
                assert(s1[p] == s[p]);
                if s[p].0 == key {
                    assert(0 <= p < s.len() && s[p].0 == key);
                }
            }
        }
    }
    assert forall|k: AccountId| has_key(s1, k) <==> (has_key(s, k) || k == key) by {
        if has_key(s1, k) {
            let w = choose|w: int| 0 <= w < s1.len() && (#[trigger] s1[w]).0 == k;
            if w < s.len() {
                assert(0 <= w < s.len() && s[w].0 == k);
                assert(has_key(s, k));
            } else {
                assert(k == key);
            }
        }
        if has_key(s, k) {
            let w = choose|w: int| 0 <= w < s.len() && (#[trigger] s[w]).0 == k;
            assert(0 <= w < s1.len() && s1[w].0 == k);
            assert(has_key(s1, k));
        }
        if k == key {
            assert(s1[s.len() as int].0 == k);
            assert(has_key(s1, k));
        }
    }
    assert forall|k: AccountId| m1.dom().contains(k) implies m1[k] == m0.insert(key, value)[k] by {
        let w1 = key_index(s1, k);
        assert(0 <= w1 < s1.len() && s1[w1].0 == k);
        if k == key {
            if w1 < s.len() {
                assert(0 <= w1 < s.len() && s[w1].0 == key);
                assert(has_key(s, key));
            }
            assert(w1 == s.len());
            assert(m1[k] == value);
        } else {
            assert(w1 < s.len());
            assert(s[w1].0 == k);
            lemma_at_key_index(s, w1);
            assert(m1[k] == s1[w1].1);
            assert(m0[k] == s[w1].1);
        }
    }
    assert(m1 =~= m0.insert(key, value));
}

} // verus!
