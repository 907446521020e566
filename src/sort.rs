//! In-place comparison sorts on slices, and binary search.
//!
//! Elements are compared through [`SortKey`], which gives each value an
//! integer rank; every sort leaves the slice a permutation of what it held,
//! ordered by rank.
use vstd::multiset::Multiset;
use vstd::prelude::*;

verus! {

/// A value with a total order given by an integer rank.
pub trait SortKey: Copy {
    spec fn rank(self) -> int;

    /// `self` orders strictly before `other`.
    fn less(&self, other: &Self) -> (r: bool)
        ensures
            r == (self.rank() < other.rank()),
    ;
}

impl SortKey for i32 {
    open spec fn rank(self) -> int {
        self as int
    }

    fn less(&self, other: &Self) -> (r: bool) {
        *self < *other
    }
}

impl SortKey for i64 {
    open spec fn rank(self) -> int {
        self as int
    }

    fn less(&self, other: &Self) -> (r: bool) {
        *self < *other
    }
}

impl SortKey for u32 {
    open spec fn rank(self) -> int {
        self as int
    }

    fn less(&self, other: &Self) -> (r: bool) {
        *self < *other
    }
}

impl SortKey for u64 {
    open spec fn rank(self) -> int {
        self as int
    }

    fn less(&self, other: &Self) -> (r: bool) {
        *self < *other
    }
}

impl SortKey for char {
    open spec fn rank(self) -> int {
        (self as u32) as int
    }

    fn less(&self, other: &Self) -> (r: bool) {
        (*self as u32) < (*other as u32)
    }
}

/// Ranks do not decrease over the index range `lo..hi`.
pub open spec fn sorted_between<T: SortKey>(s: Seq<T>, lo: int, hi: int) -> bool {
    forall|i: int, j: int| lo <= i < j < hi ==> #[trigger] s[i].rank() <= #[trigger] s[j].rank()
}

/// Ranks do not decrease over the whole sequence.
pub open spec fn sorted<T: SortKey>(s: Seq<T>) -> bool {
    sorted_between(s, 0, s.len() as int)
}

/// Nothing before `mid` ranks above anything from `mid` on.
pub open spec fn split_at_rank<T: SortKey>(s: Seq<T>, mid: int) -> bool {
    forall|i: int, j: int| 0 <= i < mid <= j < s.len() ==> #[trigger] s[i].rank() <= #[trigger] s[j].rank()
}

/// Exchanges two elements.
pub fn swap<T: SortKey>(arr: &mut [T], i: usize, j: usize)
    requires
        i < old(arr)@.len(),
        j < old(arr)@.len(),
    ensures
        final(arr)@ == old(arr)@.update(i as int, old(arr)@[j as int]).update(
            j as int,
            old(arr)@[i as int],
        ),
        final(arr)@.to_multiset() == old(arr)@.to_multiset(),
{
    let ghost s = arr@;
    let a = arr[i];
    let b = arr[j];
    arr[i] = b;
    arr[j] = a;
    proof {
        broadcast use {vstd::seq_lib::to_multiset_update, vstd::seq_lib::group_to_multiset_ensures};

        let s1 = s.update(i as int, b);
        assert(s1.to_multiset() == s.to_multiset().insert(b).remove(a));
        assert(s1[j as int] == b);
        assert(arr@.to_multiset() == s1.to_multiset().insert(a).remove(b));
        assert(s.contains(a) && s.contains(b));
        assert(s.to_multiset().count(a) > 0);
        assert(s.to_multiset().count(b) > 0);
        assert(arr@.to_multiset() =~= s.to_multiset());
    }
}

/// Bubble sort: each pass carries the largest remaining element to the end
/// of the unsorted prefix.
pub fn bubble<T: SortKey>(arr: &mut [T])
    ensures
        sorted(final(arr)@),
        final(arr)@.to_multiset() == old(arr)@.to_multiset(),
{
    let len = arr.len();
    let mut out: usize = 1;
    while out < len
        invariant
            arr@.len() == len,
            1 <= out,
            out <= len || len == 0,
            arr@.to_multiset() == old(arr)@.to_multiset(),
            sorted_between(arr@, len - out + 1, len as int),
            split_at_rank(arr@, len - out + 1),
        decreases len - out,
    {
        let end = len - out;
        let mut n: usize = 0;
        while n < end
            invariant
                arr@.len() == len,
                end == len - out,
                1 <= out < len,
                n <= end,
                arr@.to_multiset() == old(arr)@.to_multiset(),
                sorted_between(arr@, len - out + 1, len as int),
                split_at_rank(arr@, len - out + 1),
                forall|k: int| 0 <= k <= n ==> #[trigger] arr@[k].rank() <= arr@[n as int].rank(),
            decreases end - n,
        {
            if arr[n + 1].less(&arr[n]) {
                swap(arr, n, n + 1);
            }
            n = n + 1;
        }
        out = out + 1;
    }
}

/// Insertion sort: each new element walks left past every larger one.
pub fn insertion<T: SortKey>(arr: &mut [T])
    ensures
        sorted(final(arr)@),
        final(arr)@.to_multiset() == old(arr)@.to_multiset(),
{
    let len = arr.len();
    let mut right: usize = 1;
    while right < len
        invariant
            arr@.len() == len,
            1 <= right,
            right <= len || len == 0,
            arr@.to_multiset() == old(arr)@.to_multiset(),
            sorted_between(arr@, 0, right as int),
        decreases len - right,
    {
        let mut left: usize = right;
        while left >= 1
            invariant
                arr@.len() == len,
                1 <= right < len,
                left <= right,
                arr@.to_multiset() == old(arr)@.to_multiset(),
                sorted_between(arr@, 0, left as int),
                sorted_between(arr@, left as int, right + 1),
                forall|i: int, j: int|
                    0 <= i < left < j <= right ==> #[trigger] arr@[i].rank() <= #[trigger] arr@[j].rank(),
            decreases left,
        {
            if arr[left].less(&arr[left - 1]) {
                swap(arr, left, left - 1);
            }
            left = left - 1;
        }
        right = right + 1;
    }
}

/// Selection sort: position by position, swaps in the smallest of what is
/// left.
pub fn selection<T: SortKey>(arr: &mut [T])
    ensures
        sorted(final(arr)@),
        final(arr)@.to_multiset() == old(arr)@.to_multiset(),
{
    let len = arr.len();
    let mut left: usize = 0;
    while left < len
        invariant
            arr@.len() == len,
            left <= len,
            arr@.to_multiset() == old(arr)@.to_multiset(),
            sorted_between(arr@, 0, left as int),
            split_at_rank(arr@, left as int),
        decreases len - left,
    {
        let mut min = left;
        let mut right = left + 1;
        while right < len
            invariant
                arr@.len() == len,
                left < len,
                left <= min < right <= len,
                forall|k: int| left <= k < right ==> arr@[min as int].rank() <= #[trigger] arr@[k].rank(),
            decreases len - right,
        {
            if arr[right].less(&arr[min]) {
                min = right;
            }
            right = right + 1;
        }
        swap(arr, left, min);
        left = left + 1;
    }
}

/// Max-heap order on the 1-based positions `lo..=size`, except at `skip`:
/// no node ranks below one of its children.
pub open spec fn heap_ok<T: SortKey>(s: Seq<T>, lo: int, size: int, skip: int) -> bool {
    &&& forall|i: int|
        #![trigger s[2 * i]]
        lo <= i <= size && i != skip && 2 * i <= size ==> s[i].rank() >= s[2 * i].rank()
    &&& forall|i: int|
        #![trigger s[2 * i + 1]]
        lo <= i <= size && i != skip && 2 * i + 1 <= size ==> s[i].rank() >= s[2 * i + 1].rank()
}

/// In a heap on `1..=size`, position 1 ranks highest.
pub proof fn lemma_heap_root_max<T: SortKey>(s: Seq<T>, size: int, k: int)
    requires
        heap_ok(s, 1, size, 0),
        1 <= k <= size,
        size < s.len(),
    ensures
        s[1].rank() >= s[k].rank(),
    decreases k,
{
    if k > 1 {
        let p = k / 2;
        lemma_heap_root_max(s, size, p);
        if k == 2 * p {
            assert(s[p].rank() >= s[2 * p].rank());
        } else {
            assert(k == 2 * p + 1);
            assert(s[p].rank() >= s[2 * p + 1].rank());
        }
    }
}

/// Moves the element at `idx` down until it ranks at least as high as its
/// children, restoring heap order below `idx` within `1..=size`.
#[verifier::rlimit(40)]
pub fn sink<T: SortKey>(arr: &mut [T], idx: usize, size: usize)
    requires
        1 <= idx <= size < old(arr)@.len(),
        heap_ok(old(arr)@, idx as int, size as int, idx as int),
    ensures
        final(arr)@.len() == old(arr)@.len(),
        heap_ok(final(arr)@, idx as int, size as int, 0),
        final(arr)@.to_multiset() == old(arr)@.to_multiset(),
        forall|k: int| 0 <= k < idx ==> final(arr)@[k] == old(arr)@[k],
        forall|k: int| size < k < old(arr)@.len() ==> final(arr)@[k] == old(arr)@[k],
        (forall|i: int, j: int|
            1 <= i <= size < j < old(arr)@.len() ==> #[trigger] old(arr)@[i].rank()
                <= #[trigger] old(arr)@[j].rank()) ==> (forall|i: int, j: int|
            1 <= i <= size < j < old(arr)@.len() ==> #[trigger] final(arr)@[i].rank()
                <= #[trigger] final(arr)@[j].rank()),
{
    let ghost a0 = arr@;
    let mut cur = idx;
    while cur <= size / 2
        invariant
            a0 == old(arr)@,
            arr@.len() == a0.len(),
            1 <= idx <= cur <= size < arr@.len(),
            heap_ok(arr@, idx as int, size as int, cur as int),
            cur != idx ==> {
                let p = cur as int / 2;
                &&& p >= idx
                &&& 2 * cur <= size ==> arr@[p].rank() >= arr@[2 * cur as int].rank()
                &&& 2 * cur + 1 <= size ==> arr@[p].rank() >= arr@[2 * cur + 1].rank()
            },
            arr@.to_multiset() == a0.to_multiset(),
            forall|k: int| 0 <= k < idx ==> arr@[k] == a0[k],
            forall|k: int| size < k < a0.len() ==> arr@[k] == a0[k],
            (forall|i: int, j: int|
                1 <= i <= size < j < a0.len() ==> #[trigger] a0[i].rank() <= #[trigger] a0[j].rank())
                ==> (forall|i: int, j: int|
                1 <= i <= size < j < a0.len() ==> #[trigger] arr@[i].rank()
                    <= #[trigger] arr@[j].rank()),
        decreases size - cur,
    {
        let mut child = 2 * cur;
        if child != size && arr[child].less(&arr[child + 1]) {
            child = child + 1;
        }
        if arr[cur].less(&arr[child]) {
            let ghost b = arr@;
            swap(arr, cur, child);
            proof {
                if forall|i: int, j: int|
                    1 <= i <= size < j < a0.len() ==> #[trigger] a0[i].rank()
                        <= #[trigger] a0[j].rank() {
                    assert forall|i: int, j: int| 1 <= i <= size < j < a0.len() implies #[trigger] arr@[i].rank()
                        <= #[trigger] arr@[j].rank() by {
                        if i == cur {
                            assert(b[child as int].rank() <= b[j].rank());
                        } else if i == child {
                            assert(b[cur as int].rank() <= b[j].rank());
                        } else {
                            assert(b[i].rank() <= b[j].rank());
                        }
                    }
                }
            }
            cur = child;
        } else {
            proof {
                assert(heap_ok(arr@, idx as int, size as int, 0));
            }
            return;
        }
    }
    proof {
        assert(heap_ok(arr@, idx as int, size as int, 0));
    }
}

/// Heap sort of positions `1..`; position 0 is a sentinel left in place.
pub fn heap<T: SortKey>(arr: &mut [T])
    requires
        old(arr)@.len() >= 1,
    ensures
        final(arr)@.len() == old(arr)@.len(),
        final(arr)@[0] == old(arr)@[0],
        sorted_between(final(arr)@, 1, final(arr)@.len() as int),
        final(arr)@.to_multiset() == old(arr)@.to_multiset(),
{
    let mut size = arr.len() - 1;
    let mut idx = size / 2;
    while idx >= 1
        invariant
            arr@.len() == old(arr)@.len(),
            size == arr@.len() - 1,
            idx <= size / 2,
            heap_ok(arr@, idx + 1, size as int, 0),
            arr@.to_multiset() == old(arr)@.to_multiset(),
            arr@[0] == old(arr)@[0],
        decreases idx,
    {
        sink(arr, idx, size);
        idx = idx - 1;
    }
    while size > 1
        invariant
            arr@.len() == old(arr)@.len(),
            1 <= size < arr@.len() || (size == 0 && arr@.len() == 1),
            heap_ok(arr@, 1, size as int, 0),
            sorted_between(arr@, size + 1, arr@.len() as int),
            forall|i: int, j: int|
                1 <= i <= size < j < arr@.len() ==> #[trigger] arr@[i].rank() <= #[trigger] arr@[j].rank(),
            arr@.to_multiset() == old(arr)@.to_multiset(),
            arr@[0] == old(arr)@[0],
        decreases size,
    {
        proof {
            assert forall|k: int| 1 <= k <= size implies arr@[1].rank() >= #[trigger] arr@[k].rank() by {
                lemma_heap_root_max(arr@, size as int, k);
            }
        }
        swap(arr, 1, size);
        size = size - 1;
        sink(arr, 1, size);
    }
}

/// Index of the first element ranked like `x` in a sorted slice, if any.
pub fn binary_search<T: SortKey>(seq: &[T], x: T) -> (r: Option<usize>)
    requires
        sorted(seq@),
    ensures
        r is Some ==> r->0 < seq@.len() && seq@[r->0 as int].rank() == x.rank() && forall|k: int|
            0 <= k < r->0 ==> #[trigger] seq@[k].rank() < x.rank(),
        r is None ==> forall|k: int| 0 <= k < seq@.len() ==> #[trigger] seq@[k].rank() != x.rank(),
{
    let mut low: usize = 0;
    let mut high: usize = seq.len();
    while low < high
        invariant
            sorted(seq@),
            low <= high <= seq@.len(),
            forall|k: int| 0 <= k < low ==> #[trigger] seq@[k].rank() < x.rank(),
            forall|k: int| high <= k < seq@.len() ==> #[trigger] seq@[k].rank() >= x.rank(),
        decreases high - low,
    {
        let mid: usize = low + (high - low) / 2;
        if seq[mid].less(&x) {
            low = mid + 1;
        } else {
            high = mid;
        }
    }
    if low < seq.len() && !x.less(&seq[low]) {
        Some(low)
    } else {
        None
    }
}

/// Which merge sort schedule to run.
pub enum Order {
    /// Recursive halving, then merging on the way back.
    TB,
    /// Passes that merge runs of 1, 2, 4, ... elements.
    BT,
}

/// A merge sort over a borrowed slice, with its auxiliary buffer.
pub struct MergeSort<'a, T: SortKey> {
    /// Scratch space for merging.
    pub aux: Vec<T>,
    /// The slice being sorted.
    pub arr: &'a mut [T],
}

/// The multiset of `s[lo..hi]`.
pub open spec fn range_items<T>(s: Seq<T>, lo: int, hi: int) -> Multiset<T> {
    s.subrange(lo, hi).to_multiset()
}

/// Splitting a sequence in three keeps its multiset.
pub proof fn lemma_three_parts<T>(s: Seq<T>, lo: int, hi: int)
    requires
        0 <= lo <= hi <= s.len(),
    ensures
        s.to_multiset() == range_items(s, 0, lo).add(range_items(s, lo, hi)).add(
            range_items(s, hi, s.len() as int),
        ),
{
    let (a, b, c) = (s.subrange(0, lo), s.subrange(lo, hi), s.subrange(hi, s.len() as int));
    vstd::seq_lib::lemma_multiset_commutative(a, b);
    vstd::seq_lib::lemma_multiset_commutative(a + b, c);
    assert(s =~= a + b + c);
}

/// A range's multiset loses its first element when the range starts one
/// later.
pub proof fn lemma_range_drop_first<T>(s: Seq<T>, lo: int, hi: int)
    requires
        0 <= lo < hi <= s.len(),
    ensures
        range_items(s, lo, hi) == range_items(s, lo + 1, hi).insert(s[lo]),
{
    broadcast use vstd::seq_lib::group_to_multiset_ensures;

    let r = s.subrange(lo, hi);
    assert(r.remove(0) =~= s.subrange(lo + 1, hi));
    assert(r.contains(s[lo])) by {
        assert(r[0] == s[lo]);
    }
    assert(r.to_multiset().remove(s[lo]).insert(s[lo]) =~= r.to_multiset());
}

/// A range's multiset gains an element when the range ends one later.
pub proof fn lemma_range_push<T>(s: Seq<T>, lo: int, hi: int)
    requires
        0 <= lo <= hi < s.len(),
    ensures
        range_items(s, lo, hi + 1) == range_items(s, lo, hi).insert(s[hi]),
{
    broadcast use vstd::seq_lib::group_to_multiset_ensures;

    assert(s.subrange(lo, hi + 1) =~= s.subrange(lo, hi).push(s[hi]));
}

/// Neighbours inside each run of width `w` (runs start at multiples of `w`)
/// are in order.
pub open spec fn runs_sorted<T: SortKey>(s: Seq<T>, w: int, from: int) -> bool {
    forall|t: int|
        from <= t && t + 1 < s.len() && (t + 1) % w != 0 ==> #[trigger] s[t].rank() <= s[t
            + 1].rank()
}

/// Runs of width `wide` are in order below `low`, runs of width `narrow`
/// from `low` on.
pub open spec fn runs_sorted_until<T: SortKey>(s: Seq<T>, wide: int, narrow: int, low: int) -> bool {
    forall|t: int|
        0 <= t && t + 1 < s.len() && ((t < low && (t + 1) % wide != 0) || (t >= low && (t + 1)
            % narrow != 0)) ==> #[trigger] s[t].rank() <= s[t + 1].rank()
}

/// Neighbours in order make the whole range ordered.
pub proof fn lemma_adjacent_sorted<T: SortKey>(s: Seq<T>, lo: int, hi: int)
    requires
        0 <= lo <= hi <= s.len(),
        forall|t: int| lo <= t < hi - 1 ==> #[trigger] s[t].rank() <= s[t + 1].rank(),
    ensures
        sorted_between(s, lo, hi),
    decreases hi - lo,
{
    if hi - lo > 1 {
        lemma_adjacent_sorted(s, lo + 1, hi);
        assert forall|i: int, j: int| lo <= i < j < hi implies #[trigger] s[i].rank()
            <= #[trigger] s[j].rank() by {
            if i == lo {
                assert(s[lo].rank() <= s[lo + 1].rank());
                if j > lo + 1 {
                    assert(s[lo + 1].rank() <= s[j].rank());
                }
            }
        }
    }
}

proof fn lemma_mod_step(low: int, size: int)
    requires
        size > 0,
        low >= 0,
        low % (2 * size) == 0,
    ensures
        low % size == 0,
        (low + size) % size == 0,
{
    assert(2 * size == size * 2);
    vstd::arithmetic::div_mod::lemma_mod_mod(low, size, 2);
    assert(0int % size == 0);
    vstd::arithmetic::div_mod::lemma_mod_add_multiples_vanish(low, size);
}

proof fn lemma_inside_run(start: int, size: int, t: int)
    requires
        size > 0,
        start >= 0,
        start % size == 0,
        start < t < start + size,
    ensures
        t % size != 0,
{
    vstd::arithmetic::div_mod::lemma_fundamental_div_mod(start, size);
    let q = start / size;
    let d = t - start;
    vstd::arithmetic::div_mod::lemma_mod_multiples_vanish(q, d, size);
    vstd::arithmetic::div_mod::lemma_small_mod(d as nat, size as nat);
    assert(t == size * q + d);
}

proof fn lemma_mod_add(a: int, m: int)
    requires
        m > 0,
    ensures
        (a + m) % m == a % m,
{
    vstd::arithmetic::div_mod::lemma_mod_add_multiples_vanish(a, m);
}

proof fn lemma_small_mod(t: int, m: int)
    requires
        0 < t < m,
    ensures
        t % m != 0,
{
    vstd::arithmetic::div_mod::lemma_small_mod(t as nat, m as nat);
}

/// The empty range holds nothing.
pub proof fn lemma_empty_range<T>(s: Seq<T>, x: int)
    requires
        0 <= x <= s.len(),
    ensures
        range_items(s, x, x) == Multiset::<T>::empty(),
{
    broadcast use vstd::seq_lib::group_to_multiset_ensures;

    let e = s.subrange(x, x);
    assert(e.len() == 0);
    assert(e.to_multiset().len() == 0);
    assert(e.to_multiset() =~= Multiset::<T>::empty()) by {
        assert forall|a: T| e.to_multiset().count(a) == 0 by {
            assert(!e.contains(a));
        }
    }
}

/// Before a merge at `low`, both runs to merge are ordered.
proof fn lemma_runs_before_merge<T: SortKey>(a0: Seq<T>, low: int, size: int, high: int)
    requires
        size >= 1,
        0 <= low,
        low + size <= high < a0.len(),
        high < low + 2 * size,
        low % (2 * size) == 0,
        runs_sorted_until(a0, 2 * size, size, low),
    ensures
        sorted_between(a0, low, low + size),
        sorted_between(a0, low + size, high + 1),
{
    lemma_mod_step(low, size);
    assert forall|t: int| low <= t < low + size - 1 implies #[trigger] a0[t].rank() <= a0[t
        + 1].rank() by {
        lemma_inside_run(low, size, t + 1);
    }
    assert forall|t: int| low + size <= t < high implies #[trigger] a0[t].rank() <= a0[t
        + 1].rank() by {
        lemma_inside_run(low + size, size, t + 1);
    }
    lemma_adjacent_sorted(a0, low, low + size);
    lemma_adjacent_sorted(a0, low + size, high + 1);
}

/// After merging the two runs `low..=high`, wide runs reach `next`.
proof fn lemma_runs_after_merge<T: SortKey>(
    a0: Seq<T>,
    s: Seq<T>,
    low: int,
    size: int,
    high: int,
    next: int,
)
    requires
        size >= 1,
        0 <= low <= high < s.len(),
        s.len() == a0.len(),
        low % (2 * size) == 0,
        runs_sorted_until(a0, 2 * size, size, low),
        sorted_between(s, low, high + 1),
        forall|k: int| 0 <= k < s.len() && !(low <= k <= high) ==> s[k] == a0[k],
        next == high + 1,
        next == s.len() || next == low + 2 * size,
    ensures
        runs_sorted_until(s, 2 * size, size, next),
        next == s.len() || next % (2 * size) == 0,
{
    if next != s.len() {
        lemma_mod_add(low, 2 * size);
    }
    assert forall|t: int|
        0 <= t && t + 1 < s.len() && ((t < next && (t + 1) % (2 * size) != 0) || (t >= next && (t
            + 1) % size != 0)) implies #[trigger] s[t].rank() <= s[t + 1].rank() by {
        if low <= t < high {
            assert(s[t].rank() <= s[t + 1].rank());
        } else if t == high {
        } else if t + 1 == low {
        } else {
            assert(a0[t].rank() <= a0[t + 1].rank());
        }
    }
}

impl<'a, T: SortKey> MergeSort<'a, T> {
    /// Prepares a sorter over `arr` with a scratch copy of it.
    pub fn new(arr: &'a mut [T]) -> (r: Self)
        ensures
            r.arr@ == old(arr)@,
            final(r.arr)@ == final(arr)@,
            r.aux@ == r.arr@,
    {
        let mut aux: Vec<T> = Vec::new();
        let mut i: usize = 0;
        while i < arr.len()
            invariant
                arr@ == old(arr)@,
                i <= arr@.len(),
                aux@ == arr@.subrange(0, i as int),
            decreases arr@.len() - i,
        {
            aux.push(arr[i]);
            i = i + 1;
            proof {
                assert(aux@ =~= arr@.subrange(0, i as int));
            }
        }
        proof {
            assert(aux@ =~= arr@);
        }
        MergeSort { aux, arr }
    }

    /// Sorts the borrowed slice with the chosen schedule.
    pub fn run(self, order: Order)
        requires
            self.aux@.len() == self.arr@.len(),
        ensures
            sorted(final(self.arr)@),
            final(self.arr)@.to_multiset() == old(self.arr)@.to_multiset(),
    {
        let MergeSort { mut aux, arr } = self;
        let len = arr.len();
        let ghost a0 = arr@;
        match order {
            Order::TB => {
                if len > 0 {
                    Self::sort_top_to_bottom(arr, &mut aux, 0, len - 1);
                    proof {
                        assert(arr@.subrange(0, len as int) =~= arr@);
                        assert(a0.subrange(0, len as int) =~= a0);
                    }
                }
            },
            Order::BT => Self::sort_bottom_to_top(arr, &mut aux),
        }
    }

    /// Merges the sorted runs `low..=mid` and `mid + 1..=high` into one.
    pub fn merge(arr: &mut [T], aux: &mut Vec<T>, low: usize, mid: usize, high: usize)
        requires
            low <= mid < high < old(arr)@.len(),
            old(aux)@.len() == old(arr)@.len(),
            sorted_between(old(arr)@, low as int, mid + 1),
            sorted_between(old(arr)@, mid + 1, high + 1),
        ensures
            final(arr)@.len() == old(arr)@.len(),
            final(aux)@.len() == old(aux)@.len(),
            sorted_between(final(arr)@, low as int, high + 1),
            range_items(final(arr)@, low as int, high + 1) == range_items(
                old(arr)@,
                low as int,
                high + 1,
            ),
            forall|k: int|
                0 <= k < final(arr)@.len() && !(low <= k <= high) ==> final(arr)@[k] == old(
                    arr,
                )@[k],
    {
        let ghost a0 = arr@;
        let mut k = low;
        while k <= high
            invariant
                arr@ == a0,
                low <= k <= high + 1,
                high < arr@.len(),
                aux@.len() == arr@.len(),
                forall|t: int| low <= t < k ==> aux@[t] == arr@[t],
            decreases high + 1 - k,
        {
            aux.set(k, arr[k]);
            k = k + 1;
        }
        proof {
            assert(aux@.subrange(low as int, high + 1) =~= a0.subrange(low as int, high + 1));
            let (x, y, z) = (low as int, mid + 1, high + 1);
            vstd::seq_lib::lemma_multiset_commutative(a0.subrange(x, y), a0.subrange(y, z));
            assert(a0.subrange(x, z) =~= a0.subrange(x, y) + a0.subrange(y, z));
            lemma_empty_range(arr@, x);
        }
        let mut left = low;
        let mut right = mid + 1;
        let mut i = low;
        while i <= high
            invariant
                low <= left <= mid + 1 <= right <= high + 1,
                high < arr@.len(),
                aux@.len() == arr@.len(),
                arr@.len() == a0.len(),
                i == low + (left - low) + (right - mid - 1),
                forall|t: int| low <= t <= high ==> aux@[t] == a0[t],
                sorted_between(a0, low as int, mid + 1),
                sorted_between(a0, mid + 1, high + 1),
                sorted_between(arr@, low as int, i as int),
                i > low ==> (left <= mid ==> arr@[i - 1].rank() <= a0[left as int].rank()),
                i > low ==> (right <= high ==> arr@[i - 1].rank() <= a0[right as int].rank()),
                range_items(arr@, low as int, i as int).add(range_items(a0, left as int, mid + 1)).add(
                    range_items(a0, right as int, high + 1),
                ) == range_items(a0, low as int, high + 1),
                forall|t: int| 0 <= t < arr@.len() && !(low <= t <= high) ==> arr@[t] == a0[t],
            decreases high + 1 - i,
        {
            let ghost before = arr@;
            let take_right = if left > mid {
                true
            } else if right > high {
                false
            } else {
                aux[right].less(&aux[left])
            };
            if take_right {
                arr[i] = aux[right];
                proof {
                    lemma_range_drop_first(a0, right as int, high + 1);
                    lemma_range_push(arr@, low as int, i as int);
                    assert(range_items(arr@, low as int, i as int) == range_items(
                        before,
                        low as int,
                        i as int,
                    )) by {
                        assert(arr@.subrange(low as int, i as int) =~= before.subrange(
                            low as int,
                            i as int,
                        ));
                    }
                }
                right = right + 1;
            } else {
                arr[i] = aux[left];
                proof {
                    lemma_range_drop_first(a0, left as int, mid + 1);
                    lemma_range_push(arr@, low as int, i as int);
                    assert(range_items(arr@, low as int, i as int) == range_items(
                        before,
                        low as int,
                        i as int,
                    )) by {
                        assert(arr@.subrange(low as int, i as int) =~= before.subrange(
                            low as int,
                            i as int,
                        ));
                    }
                }
                left = left + 1;
            }
            proof {
                assert(range_items(arr@, low as int, i + 1).add(
                    range_items(a0, left as int, mid + 1),
                ).add(range_items(a0, right as int, high + 1)) =~= range_items(
                    a0,
                    low as int,
                    high + 1,
                ));
            }
            i = i + 1;
        }
        proof {
            lemma_empty_range(a0, mid + 1);
            lemma_empty_range(a0, high + 1);
            assert(range_items(arr@, low as int, high + 1) =~= range_items(a0, low as int, high + 1));
        }
    }

    /// Sorts `low..=high` by sorting each half and merging them.
    pub fn sort_top_to_bottom(arr: &mut [T], aux: &mut Vec<T>, low: usize, high: usize)
        requires
            low <= high < old(arr)@.len(),
            old(aux)@.len() == old(arr)@.len(),
        ensures
            final(arr)@.len() == old(arr)@.len(),
            final(aux)@.len() == old(aux)@.len(),
            sorted_between(final(arr)@, low as int, high + 1),
            range_items(final(arr)@, low as int, high + 1) == range_items(
                old(arr)@,
                low as int,
                high + 1,
            ),
            forall|k: int|
                0 <= k < final(arr)@.len() && !(low <= k <= high) ==> final(arr)@[k] == old(
                    arr,
                )@[k],
        decreases high - low,
    {
        if low != high {
            let ghost a0 = arr@;
            let mid = low + (high - low) / 2;
            Self::sort_top_to_bottom(arr, aux, low, mid);
            let ghost a1 = arr@;
            Self::sort_top_to_bottom(arr, aux, mid + 1, high);
            let ghost a2 = arr@;
            proof {
                assert(a2.subrange(low as int, mid + 1) =~= a1.subrange(low as int, mid + 1));
                assert forall|i: int, j: int| low <= i < j < mid + 1 implies #[trigger] a2[i].rank()
                    <= #[trigger] a2[j].rank() by {
                    assert(a1[i].rank() <= a1[j].rank());
                }
            }
            Self::merge(arr, aux, low, mid, high);
            proof {
                assert(a1.subrange(mid + 1, high + 1) =~= a0.subrange(mid + 1, high + 1));
                assert(a2.subrange(low as int, mid + 1) =~= a1.subrange(low as int, mid + 1));
                let (x, y) = (low as int, mid + 1);
                vstd::seq_lib::lemma_multiset_commutative(
                    a0.subrange(x, y),
                    a0.subrange(y, high + 1),
                );
                vstd::seq_lib::lemma_multiset_commutative(
                    a1.subrange(x, y),
                    a1.subrange(y, high + 1),
                );
                vstd::seq_lib::lemma_multiset_commutative(
                    a2.subrange(x, y),
                    a2.subrange(y, high + 1),
                );
                assert(a0.subrange(x, high + 1) =~= a0.subrange(x, y) + a0.subrange(y, high + 1));
                assert(a1.subrange(x, high + 1) =~= a1.subrange(x, y) + a1.subrange(y, high + 1));
                assert(a2.subrange(x, high + 1) =~= a2.subrange(x, y) + a2.subrange(y, high + 1));
            }
        }
    }

    /// Sorts the whole slice by merging runs of 1, 2, 4, ... elements.
    pub fn sort_bottom_to_top(arr: &mut [T], aux: &mut Vec<T>)
        requires
            old(aux)@.len() == old(arr)@.len(),
        ensures
            sorted(final(arr)@),
            final(arr)@.to_multiset() == old(arr)@.to_multiset(),
    {
        let len = arr.len();
        let mut size: usize = 1;
        while size < len
            invariant
                arr@.len() == len,
                aux@.len() == len,
                1 <= size,
                runs_sorted(arr@, size as int, 0),
                arr@.to_multiset() == old(arr)@.to_multiset(),
            decreases len - size,
        {
            let mut low: usize = 0;
            while low < len - size
                invariant
                    arr@.len() == len,
                    aux@.len() == len,
                    1 <= size < len,
                    low == len || low as int % (2 * size as int) == 0,
                    low <= len,
                    runs_sorted_until(arr@, 2 * size as int, size as int, low as int),
                    arr@.to_multiset() == old(arr)@.to_multiset(),
                decreases len - low,
            {
                let rest = len - low - size;
                let high = if rest > size {
                    low + 2 * size - 1
                } else {
                    len - 1
                };
                let ghost a0 = arr@;
                proof {
                    lemma_runs_before_merge(a0, low as int, size as int, high as int);
                }
                Self::merge(arr, aux, low, low + size - 1, high);
                proof {
                    lemma_three_parts(a0, low as int, high + 1);
                    lemma_three_parts(arr@, low as int, high + 1);
                    assert(arr@.subrange(0, low as int) =~= a0.subrange(0, low as int));
                    assert(arr@.subrange(high + 1, len as int) =~= a0.subrange(
                        high + 1,
                        len as int,
                    ));
                    if rest > size {
                        lemma_runs_after_merge(a0, arr@, low as int, size as int, high as int, low + 2 * size);
                    } else {
                        lemma_runs_after_merge(a0, arr@, low as int, size as int, high as int, len as int);
                    }
                }
                if rest > size {
                    low = low + 2 * size;
                } else {
                    low = len;
                }
            }
            proof {
                let w = 2 * size as int;
                assert forall|t: int| 0 <= t && t + 1 < len && (t + 1) % w != 0 implies #[trigger] arr@[t].rank()
                    <= arr@[t + 1].rank() by {
                    if t >= low {
                        lemma_mod_step(low as int, size as int);
                        lemma_inside_run(low as int, size as int, t + 1);
                    }
                }
            }
            if len - size > size {
                size = 2 * size;
            } else {
                proof {
                    assert forall|t: int| 0 <= t && t + 1 < len && (t + 1) % (len as int) != 0 implies #[trigger] arr@[t].rank()
                        <= arr@[t + 1].rank() by {
                        lemma_small_mod(t + 1, 2 * size as int);
                    }
                }
                size = len;
            }
        }
        proof {
            assert forall|t: int| 0 <= t && t + 1 < len implies #[trigger] arr@[t].rank()
                <= arr@[t + 1].rank() by {
                lemma_small_mod(t + 1, size as int);
            }
            lemma_adjacent_sorted(arr@, 0, len as int);
        }
    }
}

} // verus!
