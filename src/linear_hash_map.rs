//! A hash map from `u32` keys with open addressing: an entry sits in the
//! first free slot at or after its home slot, wrapping around.
use std::collections::hash_map::DefaultHasher;
use std::hash::Hasher;
use vstd::prelude::*;
use vstd::std_specs::hash::DefaultHasherAdditionalSpecFns;

verus! {

/// Number of slots a new map starts with.
pub const START_CAPACITY: u64 = 16;

/// The hash of `key`: its little-endian bytes through the default hasher.
pub open spec fn key_hash(key: u32) -> u64 {
    DefaultHasher::spec_finish(seq![vstd::bytes::spec_u32_to_le_bytes(key)])
}

/// The slot probed `d` steps after `h` in a table of `cap` slots.
pub open spec fn probe(h: int, d: int, cap: int) -> int {
    (h + d) % cap
}

/// The slot where probing for `key` starts.
pub open spec fn home(key: u32, cap: int) -> int {
    key_hash(key) as int % cap
}

/// The key in slot `p`.
pub open spec fn key_at<V>(s: Seq<Option<(u32, V)>>, p: int) -> u32 {
    match s[p] {
        Some(e) => e.0,
        None => 0,
    }
}

/// The value in slot `p`.
pub open spec fn value_at<V>(s: Seq<Option<(u32, V)>>, p: int) -> V {
    s[p].unwrap().1
}

/// The slots that hold an entry.
pub open spec fn filled<V>(s: Seq<Option<(u32, V)>>) -> Set<int> {
    Set::new(|p: int| 0 <= p < s.len() && s[p] is Some)
}

/// The entries in the slots before `upto`.
pub open spec fn entries_before<V>(s: Seq<Option<(u32, V)>>, upto: int) -> Map<u32, V> {
    Map::new(
        |k: u32| exists|p: int| 0 <= p < upto && p < s.len() && s[p] is Some && key_at(s, p) == k,
        |k: u32| value_at(s, choose|p: int| 0 <= p < upto && p < s.len() && s[p] is Some && key_at(s, p) == k),
    )
}

/// No key sits in two slots.
pub open spec fn keys_unique<V>(s: Seq<Option<(u32, V)>>) -> bool {
    forall|p: int, q: int|
        0 <= p < s.len() && 0 <= q < s.len() && s[p] is Some && s[q] is Some && key_at(s, p) == key_at(s, q)
            ==> p == q
}

/// Every entry is reached from its home slot through filled slots only.
pub open spec fn clustered<V>(s: Seq<Option<(u32, V)>>) -> bool {
    forall|p: int|
        0 <= p < s.len() && #[trigger] s[p] is Some ==> exists|d: int|
            0 <= d < s.len() && probe(home(key_at(s, p), s.len() as int), d, s.len() as int) == p
                && forall|e: int| 0 <= e < d ==> (#[trigger] s[probe(home(key_at(s, p), s.len() as int), e, s.len() as int)]) is Some
}

/// Only finitely many slots are filled.
proof fn lemma_filled_finite<V>(s: Seq<Option<(u32, V)>>)
    ensures
        filled(s).finite(),
        filled(s).len() <= s.len(),
{
    let r = vstd::set_lib::set_int_range(0, s.len() as int);
    vstd::set_lib::lemma_int_range(0, s.len() as int);
    assert(filled(s).subset_of(r));
    vstd::set_lib::lemma_len_subset(filled(s), r);
}

/// With distinct keys, the entries before `upto` give each key the value
/// of the one slot holding it.
proof fn lemma_entries_at<V>(s: Seq<Option<(u32, V)>>, upto: int, p: int)
    requires
        keys_unique(s),
        0 <= p < upto <= s.len(),
        s[p] is Some,
    ensures
        entries_before(s, upto).contains_key(key_at(s, p)),
        entries_before(s, upto)[key_at(s, p)] == value_at(s, p),
{
    let k = key_at(s, p);
    assert(entries_before(s, upto).dom().contains(k));
    let q = choose|q: int| 0 <= q < upto && q < s.len() && s[q] is Some && key_at(s, q) == k;
    assert(q == p);
}

/// Writing an entry for `k` into slot `r` (free, with `k` absent, or
/// already holding `k`) adds or overwrites `k` in the entries.
proof fn lemma_entries_update<V>(s: Seq<Option<(u32, V)>>, r: int, k: u32, v: V)
    requires
        keys_unique(s),
        0 <= r < s.len(),
        (s[r] is None && forall|p: int| 0 <= p < s.len() && s[p] is Some ==> key_at(s, p) != k) || (
        s[r] is Some && key_at(s, r) == k),
    ensures
        keys_unique(s.update(r, Some((k, v)))),
        entries_before(s.update(r, Some((k, v))), s.len() as int) == entries_before(s, s.len() as int).insert(
            k,
            v,
        ),
{
    let t = s.update(r, Some((k, v)));
    let n = s.len() as int;
    assert(key_at(t, r) == k);
    assert forall|p: int, q: int|
        0 <= p < t.len() && 0 <= q < t.len() && t[p] is Some && t[q] is Some && key_at(t, p) == key_at(t, q) implies p == q by {
        if p != r && q != r {
            assert(t[p] == s[p] && t[q] == s[q]);
            assert(key_at(s, p) == key_at(s, q));
        } else if p == r && q != r {
            assert(t[q] == s[q]);
            assert(s[q] is Some && key_at(s, q) == k);
            if s[r] is Some {
                assert(key_at(s, r) == key_at(s, q));
            }
        } else if p != r && q == r {
            assert(t[p] == s[p]);
            assert(s[p] is Some && key_at(s, p) == k);
            if s[r] is Some {
                assert(key_at(s, r) == key_at(s, p));
            }
        }
    }
    let (a, b) = (entries_before(t, n), entries_before(s, n).insert(k, v));
    assert forall|x: u32| #[trigger] a.dom().contains(x) == b.dom().contains(x) by {
        if x != k {
            if a.dom().contains(x) {
                let p = choose|p: int| 0 <= p < n && p < t.len() && t[p] is Some && key_at(t, p) == x;
                assert(p != r);
                assert(t[p] == s[p]);
                assert(s[p] is Some && key_at(s, p) == x);
                assert(entries_before(s, n).dom().contains(x));
            }
            if b.dom().contains(x) {
                let p = choose|p: int| 0 <= p < n && p < s.len() && s[p] is Some && key_at(s, p) == x;
                assert(p != r);
                assert(t[p] == s[p]);
                assert(t[p] is Some && key_at(t, p) == x);
                assert(a.dom().contains(x));
            }
        } else {
            assert(t[r] is Some);
            assert(a.dom().contains(k));
        }
    }
    assert forall|x: u32| a.dom().contains(x) implies #[trigger] a[x] == b[x] by {
        let p = choose|p: int| 0 <= p < n && p < t.len() && t[p] is Some && key_at(t, p) == x;
        lemma_entries_at(t, n, p);
        if x != k {
            assert(p != r);
            assert(t[p] == s[p]);
            lemma_entries_at(s, n, p);
        } else {
            assert(p == r);
        }
    }
    assert(a =~= b);
}

/// The filled slots before `upto`.
pub open spec fn filled_before<V>(s: Seq<Option<(u32, V)>>, upto: int) -> Set<int> {
    Set::new(|p: int| 0 <= p < upto && p < s.len() && s[p] is Some)
}

/// One more slot adds itself to the filled slots when it holds an entry.
proof fn lemma_filled_before_grow<V>(s: Seq<Option<(u32, V)>>, p: int)
    requires
        0 <= p < s.len(),
        filled_before(s, p).finite(),
    ensures
        filled_before(s, p + 1) == if s[p] is Some {
            filled_before(s, p).insert(p)
        } else {
            filled_before(s, p)
        },
        filled_before(s, p + 1).finite(),
        filled_before(s, p + 1).subset_of(filled(s)),
        filled_before(s, p).subset_of(filled(s)),
        s[p] is Some ==> !filled_before(s, p).contains(p),
{
    if s[p] is Some {
        assert(filled_before(s, p + 1) =~= filled_before(s, p).insert(p));
    } else {
        assert(filled_before(s, p + 1) =~= filled_before(s, p));
    }
}

/// One more slot adds its entry, whose key is new when keys are distinct.
proof fn lemma_entries_before_grow<V>(s: Seq<Option<(u32, V)>>, p: int)
    requires
        0 <= p < s.len(),
        keys_unique(s),
    ensures
        s[p] is Some ==> !entries_before(s, p).contains_key(key_at(s, p)),
        entries_before(s, p + 1) == if s[p] is Some {
            entries_before(s, p).insert(key_at(s, p), value_at(s, p))
        } else {
            entries_before(s, p)
        },
{
    let (a, b) = (entries_before(s, p + 1), entries_before(s, p));
    if s[p] is Some {
        let k = key_at(s, p);
        if b.contains_key(k) {
            let q = choose|q: int| 0 <= q < p && q < s.len() && s[q] is Some && key_at(s, q) == k;
            assert(q == p);
        }
        let c = b.insert(k, value_at(s, p));
        assert forall|x: u32| #[trigger] a.dom().contains(x) == c.dom().contains(x) by {
            if x != k && a.dom().contains(x) {
                let q = choose|q: int| 0 <= q < p + 1 && q < s.len() && s[q] is Some && key_at(s, q) == x;
                assert(q != p);
                assert(b.dom().contains(x));
            }
            if x == k {
                assert(a.dom().contains(k));
            }
        }
        assert forall|x: u32| a.dom().contains(x) implies #[trigger] a[x] == c[x] by {
            let q = choose|q: int| 0 <= q < p + 1 && q < s.len() && s[q] is Some && key_at(s, q) == x;
            lemma_entries_at(s, p + 1, q);
            if x != k {
                assert(q != p);
                lemma_entries_at(s, p, q);
            }
        }
        assert(a =~= c);
    } else {
        assert forall|x: u32| #[trigger] a.dom().contains(x) == b.dom().contains(x) by {
            if a.dom().contains(x) {
                let q = choose|q: int| 0 <= q < p + 1 && q < s.len() && s[q] is Some && key_at(s, q) == x;
                assert(q != p);
            }
        }
        assert forall|x: u32| a.dom().contains(x) implies #[trigger] a[x] == b[x] by {
            let q = choose|q: int| 0 <= q < p + 1 && q < s.len() && s[q] is Some && key_at(s, q) == x;
            lemma_entries_at(s, p + 1, q);
            lemma_entries_at(s, p, q);
        }
        assert(a =~= b);
    }
}

/// Distinct steps from one slot reach distinct slots.
proof fn lemma_probe_injective(h: int, d1: int, d2: int, cap: int)
    requires
        cap > 0,
        0 <= h,
        0 <= d1 < cap,
        0 <= d2 < cap,
        probe(h, d1, cap) == probe(h, d2, cap),
    ensures
        d1 == d2,
{
    vstd::arithmetic::div_mod::lemma_fundamental_div_mod(h + d1, cap);
    vstd::arithmetic::div_mod::lemma_fundamental_div_mod(h + d2, cap);
    let (q1, q2) = ((h + d1) / cap, (h + d2) / cap);
    if d1 != d2 {
        assert(d1 - d2 == cap * (q1 - q2)) by (nonlinear_arith)
            requires
                h + d1 == cap * q1 + probe(h, d1, cap),
                h + d2 == cap * q2 + probe(h, d2, cap),
                probe(h, d1, cap) == probe(h, d2, cap),
        ;
        if q1 == q2 {
            assert(cap * (q1 - q2) == 0) by (nonlinear_arith)
                requires
                    q1 == q2,
            ;
        } else if q1 > q2 {
            assert(cap * (q1 - q2) >= cap) by (nonlinear_arith)
                requires
                    q1 - q2 >= 1,
                    cap > 0,
            ;
        } else if q1 < q2 {
            assert(cap * (q1 - q2) <= -cap) by (nonlinear_arith)
                requires
                    q2 - q1 >= 1,
                    cap > 0,
            ;
        }
    }
}

/// A map from `u32` keys kept in one table with linear probing.
pub struct LinearHashMap<V> {
    base: Vec<Option<(u32, V)>>,
    len: usize,
    capacity: u64,
}

impl<T> View for LinearHashMap<T> {
    type V = Map<u32, T>;

    closed spec fn view(&self) -> Map<u32, T> {
        entries_before(self.base@, self.base@.len() as int)
    }
}

impl<V> LinearHashMap<V> {
    /// The table has `capacity` slots, at least one of them free, `len`
    /// of them filled, no key twice, and every entry reachable by probing.
    pub closed spec fn wf(&self) -> bool {
        &&& self.table_ok()
        &&& self.capacity <= START_CAPACITY || self.len > self.capacity / 8
    }

    /// The table part of [`Self::wf`], without the bound on the capacity.
    pub closed spec fn table_ok(&self) -> bool {
        &&& self.base@.len() == self.capacity
        &&& 4 <= self.capacity <= usize::MAX / 4
        &&& filled(self.base@).len() == self.len
        &&& self.len < self.capacity
        &&& keys_unique(self.base@)
        &&& clustered(self.base@)
    }

    /// The home slot of `key` in a table of `capacity` slots.
    fn hash(&self, key: u32) -> (r: usize)
        requires
            self.base@.len() == self.capacity,
            2 <= self.capacity,
        ensures
            r == home(key, self.capacity as int),
            r < self.capacity,
    {
        let cap = self.base.len();
        let bytes = vstd::bytes::u32_to_le_bytes(key);
        let mut hasher = DefaultHasher::new();
        hasher.write(bytes.as_slice());
        let h = hasher.finish();
        proof {
            assert(hasher@ == seq![bytes@]);
        }
        let slot = h % (cap as u64);
        proof {
            assert(slot < cap);
        }
        slot as usize
    }
    /// The slot holding `key`, or the free slot where probing for it stops;
    /// either way every slot probed before it is filled.
    fn find_slot(&self, key: u32) -> (r: usize)
        requires
            self.table_ok(),
        ensures
            r < self.capacity,
            self.base@[r as int] is None || key_at(self.base@, r as int) == key,
            self.base@[r as int] is None <==> !self@.contains_key(key),
            exists|d: int|
                0 <= d < self.capacity && probe(home(key, self.capacity as int), d, self.capacity as int)
                    == r && forall|e: int| 0 <= e < d ==> (#[trigger] self.base@[probe(home(key, self.capacity as int), e, self.capacity as int)]) is Some,
    {
        let cap = self.base.len();
        let h = self.hash(key);
        let ghost hc = h as int;
        let ghost c = cap as int;
        let mut d: usize = 0;
        let mut idx: usize = h;
        let ghost mut seen: Set<int> = Set::empty();
        proof {
            vstd::arithmetic::div_mod::lemma_small_mod(h as nat, cap as nat);
        }
        loop
            invariant
                self.table_ok(),
                cap == self.capacity,
                c == cap,
                hc == h,
                hc == home(key, c),
                d < cap,
                idx == probe(hc, d as int, c),
                forall|e: int| 0 <= e < d ==> (#[trigger] self.base@[probe(hc, e, c)]) is Some && key_at(self.base@, probe(hc, e, c)) != key,
                seen.finite(),
                seen.len() == d,
                seen.subset_of(filled(self.base@)),
                forall|e: int| 0 <= e < d ==> seen.contains(#[trigger] probe(hc, e, c)),
                forall|p: int| #[trigger] seen.contains(p) ==> exists|e: int| 0 <= e < d && p == probe(hc, e, c),
            decreases cap - d,
        {
            proof {
                vstd::arithmetic::div_mod::lemma_mod_pos_bound(hc + d, c);
            }
            let stop = match &self.base[idx] {
                None => true,
                Some(entry) => entry.0 == key,
            };
            if stop {
                proof {
                    if self.base@[idx as int] is None {
                        if self@.contains_key(key) {
                            let p = choose|p: int| 0 <= p < self.base@.len() && self.base@[p] is Some && key_at(self.base@, p) == key;
                            assert(self.base@[p] is Some);
                            let dp = choose|dp: int|
                                0 <= dp < self.base@.len() && probe(home(key_at(self.base@, p), c), dp, c) == p
                                    && forall|e: int| 0 <= e < dp ==> (#[trigger] self.base@[probe(home(key_at(self.base@, p), c), e, c)]) is Some;
                            if dp < d {
                                assert(key_at(self.base@, probe(hc, dp, c)) != key);
                            } else if dp == d {
                            } else {
                                assert(self.base@[probe(hc, d as int, c)] is Some);
                            }
                        }
                    } else {
                        assert(self.base@[idx as int] is Some && key_at(self.base@, idx as int) == key);
                    }
                }
                return idx;
            }
            proof {
                assert(!seen.contains(idx as int)) by {
                    if seen.contains(idx as int) {
                        let e = choose|e: int| 0 <= e < d && idx as int == probe(hc, e, c);
                        vstd::arithmetic::div_mod::lemma_mod_pos_bound(hc, c);
                        lemma_probe_injective(hc, e, d as int, c);
                    }
                }
                assert(filled(self.base@).contains(idx as int));
                let s2 = seen.insert(idx as int);
                assert(s2.len() == d + 1);
                assert(s2.subset_of(filled(self.base@)));
                lemma_filled_finite(self.base@);
                vstd::set_lib::lemma_len_subset(s2, filled(self.base@));
                seen = s2;
            }
            d = d + 1;
            idx = ((h as u64 + d as u64) % (cap as u64)) as usize;
            proof {
                assert forall|p: int| #[trigger] seen.contains(p) implies exists|e: int| 0 <= e < d && p == probe(hc, e, c) by {
                    if p != probe(hc, (d - 1) as int, c) {
                        let e = choose|e: int| 0 <= e < d - 1 && p == probe(hc, e, c);
                    }
                }
            }
        }
    }
    /// Adds or overwrites the entry for `key` without growing the table;
    /// returns the value it held before, if any.
    fn place(&mut self, key: u32, val: V) -> (r: Option<V>)
        requires
            old(self).table_ok(),
            old(self).len + 1 < old(self).capacity,
        ensures
            final(self).table_ok(),
            final(self).capacity == old(self).capacity,
            final(self)@ == old(self)@.insert(key, val),
            r == (if old(self)@.contains_key(key) {
                Some(old(self)@[key])
            } else {
                None
            }),
            final(self).len == old(self).len + if old(self)@.contains_key(key) {
                0int
            } else {
                1int
            },
    {
        let cap = self.base.len();
        let slot_index = self.find_slot(key);
        let ghost s0 = self.base@;
        let ghost c = self.capacity as int;
        proof {
            if s0[slot_index as int] is None {
                assert forall|p: int| 0 <= p < s0.len() && s0[p] is Some implies key_at(s0, p) != key by {
                    if key_at(s0, p) == key {
                        assert(entries_before(s0, s0.len() as int).dom().contains(key));
                    }
                }
            } else {
                lemma_entries_at(s0, s0.len() as int, slot_index as int);
            }
            lemma_entries_update(s0, slot_index as int, key, val);
            lemma_filled_finite(s0);
        }
        let mut slot: Option<(u32, V)> = Some((key, val));
        std::mem::swap(&mut self.base[slot_index], &mut slot);
        let ghost s1 = self.base@;
        proof {
            assert(s1 == s0.update(slot_index as int, Some((key, val))));
            if s0[slot_index as int] is None {
                assert(filled(s1) =~= filled(s0).insert(slot_index as int));
            } else {
                assert(filled(s1) =~= filled(s0));
            }
            assert forall|p: int|
                0 <= p < s1.len() && #[trigger] s1[p] is Some implies exists|d: int|
                    0 <= d < s1.len() && probe(home(key_at(s1, p), s1.len() as int), d, s1.len() as int) == p
                        && forall|e: int| 0 <= e < d ==> (#[trigger] s1[probe(home(key_at(s1, p), s1.len() as int), e, s1.len() as int)]) is Some by {
                assert(s1.len() == c);
                if p == slot_index {
                    assert(key_at(s1, p) == key);
                    let d = choose|d: int|
                        0 <= d < c && probe(home(key, c), d, c) == slot_index
                            && forall|e: int| 0 <= e < d ==> (#[trigger] s0[probe(home(key, c), e, c)]) is Some;
                    assert forall|e: int| 0 <= e < d implies (#[trigger] s1[probe(home(key, c), e, c)]) is Some by {
                        let q = probe(home(key, c), e, c);
                        vstd::arithmetic::div_mod::lemma_mod_pos_bound(home(key, c) + e, c);
                        assert(s0[q] is Some);
                        if q != slot_index {
                            assert(s1[q] == s0[q]);
                        }
                    }
                    assert(probe(home(key, c), d, c) == p);
                } else {
                    assert(s1[p] == s0[p]);
                    assert(s0[p] is Some);
                    assert(key_at(s1, p) == key_at(s0, p));
                    let hp = home(key_at(s0, p), c);
                    let d = choose|d: int|
                        0 <= d < c && probe(hp, d, c) == p
                            && forall|e: int| 0 <= e < d ==> (#[trigger] s0[probe(hp, e, c)]) is Some;
                    assert forall|e: int| 0 <= e < d implies (#[trigger] s1[probe(hp, e, c)]) is Some by {
                        let q = probe(hp, e, c);
                        vstd::arithmetic::div_mod::lemma_mod_pos_bound(hp + e, c);
                        assert(s0[q] is Some);
                        if q != slot_index {
                            assert(s1[q] == s0[q]);
                        }
                    }
                    assert(probe(hp, d, c) == p);
                }
            }
        }
        match slot {
            None => {
                self.len = self.len + 1;
                None
            },
            Some(entry) => Some(entry.1),
        }
    }

    /// Whether an entry for `key` is stored.
    pub fn contains_key(&self, key: &u32) -> (r: bool)
        requires
            self.wf(),
        ensures
            r == self@.contains_key(*key),
    {
        let i = self.find_slot(*key);
        self.base[i].is_some()
    }
    /// Number of entries.
    pub closed spec fn count(&self) -> nat {
        self.len as nat
    }

    /// Number of slots in the table.
    pub closed spec fn slots(&self) -> nat {
        self.capacity as nat
    }

    /// Number of entries.
    pub fn len(&self) -> (r: usize)
        requires
            self.wf(),
        ensures
            r == self.count(),
            r == self@.len(),
    {
        proof {
            lemma_count_is_len(*self);
        }
        self.len
    }

    /// A table of `cap` free slots.
    fn empty_table(cap: usize) -> (r: Vec<Option<(u32, V)>>)
        ensures
            r@.len() == cap,
            forall|p: int| 0 <= p < cap ==> (#[trigger] r@[p]) is None,
    {
        let mut t: Vec<Option<(u32, V)>> = Vec::new();
        let mut i: usize = 0;
        while i < cap
            invariant
                i <= cap,
                t@.len() == i,
                forall|p: int| 0 <= p < i ==> (#[trigger] t@[p]) is None,
            decreases cap - i,
        {
            t.push(None);
            i = i + 1;
        }
        t
    }

    /// Moves every entry into a fresh table of `cap` slots.
    fn rebuild(&mut self, cap: usize)
        requires
            keys_unique(old(self).base@),
            4 <= cap <= usize::MAX / 4,
            filled(old(self).base@).len() + 1 < cap,
            cap <= START_CAPACITY || filled(old(self).base@).len() > cap / 8,
        ensures
            final(self).wf(),
            final(self).capacity == cap,
            final(self)@ == entries_before(old(self).base@, old(self).base@.len() as int),
            final(self).len == filled(old(self).base@).len(),
    {
        let mut old_base = Self::empty_table(cap);
        std::mem::swap(&mut old_base, &mut self.base);
        let ghost ob = old_base@;
        self.capacity = cap as u64;
        self.len = 0;
        proof {
            lemma_filled_finite(ob);
            assert(filled(self.base@) =~= Set::<int>::empty());
            assert(self@ =~= Map::<u32, V>::empty());
            assert(entries_before(ob, 0) =~= Map::<u32, V>::empty());
            assert(filled_before(ob, 0) =~= Set::<int>::empty());
        }
        let mut p: usize = 0;
        while p < old_base.len()
            invariant
                self.table_ok(),
                self.capacity == cap,
                ob.len() == old_base@.len(),
                keys_unique(ob),
                filled(ob).len() + 1 < cap,
                cap <= START_CAPACITY || filled(ob).len() > cap / 8,
                p <= ob.len(),
                forall|i: int| p <= i < ob.len() ==> #[trigger] old_base@[i] == ob[i],
                self@ == entries_before(ob, p as int),
                self.len == filled_before(ob, p as int).len(),
                filled_before(ob, p as int).finite(),
            decreases ob.len() - p,
        {
            let mut slot: Option<(u32, V)> = None;
            std::mem::swap(&mut old_base[p], &mut slot);
            proof {
                lemma_filled_before_grow(ob, p as int);
                lemma_filled_finite(ob);
                vstd::set_lib::lemma_len_subset(filled_before(ob, p as int), filled(ob));
            }
            match slot {
                Some(entry) => {
                    proof {
                        assert(ob[p as int] == Some(entry));
                        lemma_entries_before_grow(ob, p as int);
                        assert(!entries_before(ob, p as int).contains_key(entry.0));
                        vstd::set_lib::lemma_len_subset(filled_before(ob, p + 1), filled(ob));
                    }
                    self.place(entry.0, entry.1);
                },
                None => {
                    proof {
                        lemma_entries_before_grow(ob, p as int);
                    }
                },
            }
            p = p + 1;
        }
        proof {
            assert(filled_before(ob, ob.len() as int) =~= filled(ob));
        }
    }
    /// An empty map of sixteen free slots.
    pub fn new() -> (r: Self)
        ensures
            r.wf(),
            r@ == Map::<u32, V>::empty(),
            r.count() == 0,
            r.slots() == START_CAPACITY,
    {
        let base = Self::empty_table(START_CAPACITY as usize);
        let r = LinearHashMap { base, len: 0, capacity: START_CAPACITY };
        proof {
            assert(filled(r.base@) =~= Set::<int>::empty());
            assert(r@ =~= Map::<u32, V>::empty());
        }
        r
    }

    /// Adds or overwrites the entry for `key`; returns the value it held
    /// before, if any. The table doubles first when it is half full.
    pub fn insert(&mut self, key: u32, val: V) -> (r: Option<V>)
        requires
            old(self).wf(),
            old(self).count() < usize::MAX / 64,
        ensures
            final(self).wf(),
            final(self)@ == old(self)@.insert(key, val),
            r == (if old(self)@.contains_key(key) {
                Some(old(self)@[key])
            } else {
                None
            }),
            final(self).count() <= final(self).slots() / 2,
            final(self).count() == old(self).count() + if old(self)@.contains_key(key) {
                0int
            } else {
                1int
            },
    {
        if self.len as u64 >= self.capacity / 2 {
            let cap = (self.capacity * 2) as usize;
            self.rebuild(cap);
        }
        self.place(key, val)
    }

    /// Removes the entry for `key`; returns its value, or `None` when the
    /// key is absent. The other entries are placed again, into a table of
    /// half the size once only an eighth of it would be filled.
    pub fn remove(&mut self, key: &u32) -> (r: Option<V>)
        requires
            old(self).wf(),
        ensures
            final(self).wf(),
            final(self)@ == old(self)@.remove(*key),
            r == (if old(self)@.contains_key(*key) {
                Some(old(self)@[*key])
            } else {
                None
            }),
            final(self).count() == old(self).count() - if old(self)@.contains_key(*key) {
                1int
            } else {
                0int
            },
    {
        let i = self.find_slot(*key);
        if self.base[i].is_none() {
            proof {
                assert(self@.remove(*key) =~= self@);
            }
            return None;
        }
        let ghost s0 = self.base@;
        let mut slot: Option<(u32, V)> = None;
        std::mem::swap(&mut self.base[i], &mut slot);
        let ghost s1 = self.base@;
        proof {
            lemma_filled_finite(s0);
            assert(filled(s0).contains(i as int));
            assert(filled(s0).remove(i as int).len() + 1 == filled(s0).len());
        }
        self.len = self.len - 1;
        proof {
            assert(filled(s1) =~= filled(s0).remove(i as int));
            lemma_entries_at(s0, s0.len() as int, i as int);
            assert(keys_unique(s1)) by {
                assert forall|p: int, q: int|
                    0 <= p < s1.len() && 0 <= q < s1.len() && s1[p] is Some && s1[q] is Some && key_at(s1, p) == key_at(s1, q) implies p == q by {
                    assert(s1[p] == s0[p] && s1[q] == s0[q]);
                    assert(key_at(s0, p) == key_at(s0, q));
                }
            }
            let (a, b) = (entries_before(s1, s1.len() as int), entries_before(s0, s0.len() as int).remove(*key));
            assert forall|x: u32| #[trigger] a.dom().contains(x) == b.dom().contains(x) by {
                if a.dom().contains(x) {
                    let q = choose|q: int| 0 <= q < s1.len() && s1[q] is Some && key_at(s1, q) == x;
                    assert(s1[q] == s0[q]);
                    assert(q != i);
                    assert(entries_before(s0, s0.len() as int).dom().contains(x));
                    if x == *key {
                        assert(key_at(s0, q) == key_at(s0, i as int));
                    }
                }
                if b.dom().contains(x) {
                    let q = choose|q: int| 0 <= q < s0.len() && s0[q] is Some && key_at(s0, q) == x;
                    assert(q != i);
                    assert(s1[q] == s0[q]);
                    assert(s1[q] is Some && key_at(s1, q) == x);
                }
            }
            assert forall|x: u32| a.dom().contains(x) implies #[trigger] a[x] == b[x] by {
                let q = choose|q: int| 0 <= q < s1.len() && s1[q] is Some && key_at(s1, q) == x;
                assert(s1[q] == s0[q]);
                lemma_entries_at(s1, s1.len() as int, q);
                lemma_entries_at(s0, s0.len() as int, q);
            }
            assert(a =~= b);
        }
        let cap: usize = if self.len > 0 && self.len as u64 == self.capacity / 8 {
            (self.capacity / 2) as usize
        } else {
            self.capacity as usize
        };
        self.rebuild(cap);
        match slot {
            Some(entry) => Some(entry.1),
            None => None,
        }
    }
}

/// The count of a well-formed map is its number of keys.
pub proof fn lemma_count_is_len<V>(map: LinearHashMap<V>)
    requires
        map.wf(),
    ensures
        map@.dom().finite(),
        map.count() == map@.len(),
{
    let s = map.base@;
    assert(entries_before(s, 0).dom() =~= Set::<u32>::empty());
    assert(filled_before(s, 0) =~= Set::<int>::empty());
    lemma_entries_count(s, s.len() as int);
    assert(filled_before(s, s.len() as int) =~= filled(s));
}

/// With distinct keys, the entries before `p` are as many as the filled
/// slots before `p`.
proof fn lemma_entries_count<V>(s: Seq<Option<(u32, V)>>, p: int)
    requires
        keys_unique(s),
        0 <= p <= s.len(),
    ensures
        entries_before(s, p).dom().finite(),
        filled_before(s, p).finite(),
        entries_before(s, p).dom().len() == filled_before(s, p).len(),
    decreases p,
{
    if p == 0 {
        assert(entries_before(s, 0).dom() =~= Set::<u32>::empty());
        assert(filled_before(s, 0) =~= Set::<int>::empty());
    } else {
        lemma_entries_count(s, p - 1);
        lemma_filled_before_grow(s, p - 1);
        lemma_entries_before_grow(s, p - 1);
    }
}

} // verus!
