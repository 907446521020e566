//! A hash map from `u64` keys that resolves collisions by chaining: each
//! bucket holds the entries whose keys hash to it.
use std::collections::hash_map::DefaultHasher;
use std::hash::Hasher;
use vstd::prelude::*;
use vstd::std_specs::hash::DefaultHasherAdditionalSpecFns;

verus! {

/// Number of buckets.
pub const BUCKETS: u64 = 97;

/// The bucket that `key` belongs to: its little-endian bytes run through
/// the default hasher, reduced modulo the bucket count.
pub open spec fn bucket_of(key: u64) -> int {
    (DefaultHasher::spec_finish(seq![vstd::bytes::spec_u64_to_le_bytes(key)]) % (BUCKETS as u64)) as int
}

/// The value stored for `key` in a bucket, searching from its end.
pub open spec fn lookup<V>(s: Seq<(u64, V)>, key: u64) -> Option<V>
    decreases s.len(),
{
    if s.len() == 0 {
        None
    } else if s.last().0 == key {
        Some(s.last().1)
    } else {
        lookup(s.drop_last(), key)
    }
}

/// No key occurs twice.
pub open spec fn keys_unique<V>(s: Seq<(u64, V)>) -> bool {
    forall|i: int, j: int| 0 <= i < j < s.len() ==> s[i].0 != s[j].0
}

/// In a bucket without repeated keys, the lookup finds exactly the entry
/// with that key.
pub proof fn lemma_lookup<V>(s: Seq<(u64, V)>, key: u64)
    requires
        keys_unique(s),
    ensures
        lookup(s, key) is None <==> forall|i: int| 0 <= i < s.len() ==> s[i].0 != key,
        forall|i: int| 0 <= i < s.len() && s[i].0 == key ==> lookup(s, key) == Some(s[i].1),
    decreases s.len(),
{
    if s.len() > 0 {
        lemma_lookup(s.drop_last(), key);
        assert forall|i: int| 0 <= i < s.len() && s[i].0 == key implies lookup(s, key) == Some(
            s[i].1,
        ) by {
            if i < s.len() - 1 {
                assert(s.drop_last()[i] == s[i]);
            }
        }
        if lookup(s, key) is None {
            assert forall|i: int| 0 <= i < s.len() implies s[i].0 != key by {
                if i < s.len() - 1 {
                    assert(s.drop_last()[i] == s[i]);
                }
            }
        }
    }
}

/// Each bucket of the map.
pub struct ChainHashMap<V> {
    base: Vec<Vec<(u64, V)>>,
}

impl<T> View for ChainHashMap<T> {
    type V = Map<u64, T>;

    closed spec fn view(&self) -> Map<u64, T> {
        Map::new(
            |k: u64| lookup(self.base@[bucket_of(k)]@, k) is Some,
            |k: u64| lookup(self.base@[bucket_of(k)]@, k)->0,
        )
    }
}

impl<V> ChainHashMap<V> {
    /// Every bucket exists, holds only keys that hash to it, and never
    /// holds a key twice.
    pub closed spec fn wf(&self) -> bool {
        &&& self.base@.len() == BUCKETS
        &&& forall|b: int|
            0 <= b < BUCKETS ==> {
                &&& keys_unique(#[trigger] self.base@[b]@)
                &&& forall|i: int|
                    0 <= i < self.base@[b]@.len() ==> bucket_of(#[trigger] self.base@[b]@[i].0) == b
            }
    }

    /// The bucket index for `key`.
    pub fn hash(key: u64) -> (r: usize)
        ensures
            r == bucket_of(key),
            r < BUCKETS,
    {
        let bytes = vstd::bytes::u64_to_le_bytes(key);
        let mut hasher = DefaultHasher::new();
        hasher.write(bytes.as_slice());
        let h = hasher.finish();
        proof {
            assert(hasher@ == seq![bytes@]);
        }
        (h % BUCKETS) as usize
    }

    /// An empty map with all buckets empty.
    pub fn new() -> (r: Self)
        ensures
            r.wf(),
            r@ == Map::<u64, V>::empty(),
    {
        let mut base: Vec<Vec<(u64, V)>> = Vec::new();
        let mut i: u64 = 0;
        while i < BUCKETS
            invariant
                i <= BUCKETS,
                base@.len() == i,
                forall|b: int| 0 <= b < i ==> (#[trigger] base@[b])@.len() == 0,
            decreases BUCKETS - i,
        {
            base.push(Vec::new());
            i = i + 1;
        }
        let r = ChainHashMap { base };
        proof {
            assert(r@ =~= Map::<u64, V>::empty()) by {
                assert forall|k: u64| !r@.dom().contains(k) by {
                    assert(r.base@[bucket_of(k)]@.len() == 0);
                }
            }
        }
        r
    }

    /// Index of the entry for `key` in a bucket, or the bucket's length.
    pub fn position(bucket: &Vec<(u64, V)>, key: u64) -> (r: usize)
        ensures
            r <= bucket@.len(),
            forall|j: int| 0 <= j < r ==> bucket@[j].0 != key,
            r < bucket@.len() ==> bucket@[r as int].0 == key,
    {
        let mut i: usize = 0;
        while i < bucket.len()
            invariant
                i <= bucket@.len(),
                forall|j: int| 0 <= j < i ==> bucket@[j].0 != key,
            decreases bucket@.len() - i,
        {
            if bucket[i].0 == key {
                return i;
            }
            i = i + 1;
        }
        i
    }

    /// The value stored for `key`, if any.
    pub fn get(&self, key: &u64) -> (r: Option<&V>)
        requires
            self.wf(),
        ensures
            r == (if self@.contains_key((*key)) {
                Some(&self@[(*key)])
            } else {
                None
            }),
    {
        let b = Self::hash((*key));
        let bucket = &self.base[b];
        let i = Self::position(bucket, (*key));
        proof {
            lemma_lookup(bucket@, (*key));
        }
        if i < bucket.len() {
            Some(&bucket[i].1)
        } else {
            None
        }
    }

    /// Whether an entry for `key` is stored.
    pub fn contains_key(&self, key: &u64) -> (r: bool)
        requires
            self.wf(),
        ensures
            r == self@.contains_key((*key)),
    {
        let b = Self::hash((*key));
        let i = Self::position(&self.base[b], (*key));
        proof {
            lemma_lookup(self.base@[b as int]@, (*key));
        }
        i < self.base[b].len()
    }

    /// Removes the entry for `key`; returns its value, or `None` when the
    /// key is absent.
    pub fn remove(&mut self, key: &u64) -> (r: Option<V>)
        requires
            old(self).wf(),
        ensures
            final(self).wf(),
            final(self)@ == old(self)@.remove((*key)),
            r == (if old(self)@.contains_key((*key)) {
                Some(old(self)@[(*key)])
            } else {
                None
            }),
    {
        let b = Self::hash((*key));
        let mut bucket: Vec<(u64, V)> = Vec::new();
        std::mem::swap(&mut bucket, &mut self.base[b]);
        let ghost s0 = bucket@;
        proof {
            assert(keys_unique(s0));
            lemma_lookup(s0, (*key));
        }
        let i = Self::position(&bucket, (*key));
        let removed = if i < bucket.len() {
            let (_, v) = bucket.remove(i);
            proof {
                assert(lookup(s0, (*key)) == Some(s0[i as int].1));
            }
            Some(v)
        } else {
            None
        };
        let ghost s1 = bucket@;
        proof {
            assert(keys_unique(s1)) by {
                if i < s0.len() {
                    assert forall|x: int, y: int| 0 <= x < y < s1.len() implies s1[x].0 != s1[y].0 by {
                        assert(s1[x] == s0[if x < i { x } else { x + 1 }]);
                        assert(s1[y] == s0[if y < i { y } else { y + 1 }]);
                    }
                }
            }
            assert forall|x: int| 0 <= x < s1.len() implies bucket_of(#[trigger] s1[x].0) == b by {
                if i < s0.len() {
                    assert(s1[x] == s0[if x < i { x } else { x + 1 }]);
                } else {
                    assert(s1[x] == s0[x]);
                }
            }
            lemma_lookup(s1, (*key));
            assert(lookup(s1, (*key)) is None) by {
                assert forall|x: int| 0 <= x < s1.len() implies s1[x].0 != (*key) by {
                    if i < s0.len() {
                        assert(s1[x] == s0[if x < i { x } else { x + 1 }]);
                    } else {
                        assert(s1[x] == s0[x]);
                    }
                }
            }
            assert forall|k: u64| k != (*key) && bucket_of(k) == b implies lookup(s1, k) == lookup(
                s0,
                k,
            ) by {
                lemma_lookup(s0, k);
                lemma_lookup(s1, k);
                if lookup(s0, k) is Some {
                    let j = choose|j: int| 0 <= j < s0.len() && s0[j].0 == k;
                    if i < s0.len() {
                        assert(j != i);
                        assert(s1[if j < i { j } else { j - 1 }] == s0[j]);
                    } else {
                        assert(s1[j] == s0[j]);
                    }
                } else if lookup(s1, k) is Some {
                    let j = choose|j: int| 0 <= j < s1.len() && s1[j].0 == k;
                    if i < s0.len() {
                        assert(s1[j] == s0[if j < i { j } else { j + 1 }]);
                    } else {
                        assert(s1[j] == s0[j]);
                    }
                }
            }
        }
        std::mem::swap(&mut bucket, &mut self.base[b]);
        proof {
            assert forall|k: u64| #[trigger] self@.dom().contains(k) == old(self)@.remove(
                (*key),
            ).dom().contains(k) && (self@.dom().contains(k) ==> self@[k] == old(self)@.remove(
                (*key),
            )[k]) by {
                if bucket_of(k) != b {
                    assert(self.base@[bucket_of(k)] == old(self).base@[bucket_of(k)]);
                }
            }
            assert(self@ =~= old(self)@.remove((*key)));
        }
        removed
    }

    /// Adds or overwrites the entry for `key`; returns the value it held
    /// before, if any.
    pub fn insert(&mut self, key: u64, val: V) -> (r: Option<V>)
        requires
            old(self).wf(),
        ensures
            final(self).wf(),
            final(self)@ == old(self)@.insert(key, val),
            r == (if old(self)@.contains_key(key) {
                Some(old(self)@[key])
            } else {
                None
            }),
    {
        let b = Self::hash(key);
        let mut bucket: Vec<(u64, V)> = Vec::new();
        std::mem::swap(&mut bucket, &mut self.base[b]);
        let ghost s0 = bucket@;
        proof {
            assert(keys_unique(s0));
            lemma_lookup(s0, key);
        }
        let i = Self::position(&bucket, key);
        let prev = if i < bucket.len() {
            let (k, old_val) = bucket.remove(i);
            bucket.insert(i, (k, val));
            proof {
                s0.remove_ensures(i as int);
                s0.remove(i as int).insert_ensures(i as int, (key, val));
                assert(bucket@ =~= s0.update(i as int, (key, val)));
            }
            Some(old_val)
        } else {
            bucket.push((key, val));
            None
        };
        let ghost s1 = bucket@;
        proof {
            if i < s0.len() {
                assert(s1 == s0.update(i as int, (key, val)));
                assert(lookup(s0, key) == Some(s0[i as int].1));
            } else {
                assert(s1 == s0.push((key, val)));
            }
            assert(keys_unique(s1)) by {
                if i < s0.len() {
                    assert forall|x: int, y: int| 0 <= x < y < s1.len() implies s1[x].0 != s1[y].0 by {
                        assert(s1[x].0 == s0[x].0 && s1[y].0 == s0[y].0);
                    }
                }
            }
            lemma_lookup(s1, key);
            assert forall|k: u64| k != key && bucket_of(k) == b implies lookup(s1, k) == lookup(
                s0,
                k,
            ) by {
                lemma_lookup(s0, k);
                lemma_lookup(s1, k);
                if lookup(s0, k) is Some {
                    let j = choose|j: int| 0 <= j < s0.len() && s0[j].0 == k;
                    assert(s1[j] == s0[j]);
                } else if lookup(s1, k) is Some {
                    let j = choose|j: int| 0 <= j < s1.len() && s1[j].0 == k;
                    assert(s1[j] == s0[j]);
                }
            }
        }
        std::mem::swap(&mut bucket, &mut self.base[b]);
        proof {
            assert(lookup(s1, key) == Some(val)) by {
                if i < s0.len() {
                    assert(s1[i as int].0 == key);
                } else {
                    assert(s1[s0.len() as int].0 == key);
                }
            }
            assert forall|k: u64| #[trigger] self@.dom().contains(k) == old(self)@.insert(
                key,
                val,
            ).dom().contains(k) && (self@.dom().contains(k) ==> self@[k] == old(self)@.insert(
                key,
                val,
            )[k]) by {
                if bucket_of(k) != b {
                    assert(self.base@[bucket_of(k)] == old(self).base@[bucket_of(k)]);
                }
            }
            assert(self@ =~= old(self)@.insert(key, val));
        }
        prev
    }
}

} // verus!
