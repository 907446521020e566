//! Lexicographic successor of a permutation.
use crate::sort::{swap, SortKey};
use vstd::prelude::*;

verus! {

/// `k` is the last position whose element ranks below its right neighbour.
pub open spec fn is_pivot<T: SortKey>(s: Seq<T>, k: int) -> bool {
    &&& 0 <= k < s.len() - 1
    &&& s[k].rank() < s[k + 1].rank()
    &&& forall|j: int| k < j < s.len() - 1 ==> #[trigger] s[j].rank() >= s[j + 1].rank()
}

/// `l` is the last position after the pivot `k` ranking above `s[k]`.
pub open spec fn is_successor<T: SortKey>(s: Seq<T>, k: int, l: int) -> bool {
    &&& k < l < s.len()
    &&& s[l].rank() > s[k].rank()
    &&& forall|m: int| l < m < s.len() ==> #[trigger] s[m].rank() <= s[k].rank()
}

/// `s` with the part from `from` on reversed.
pub open spec fn reverse_from<T>(s: Seq<T>, from: int) -> Seq<T> {
    Seq::new(s.len(), |j: int| if j < from { s[j] } else { s[s.len() - 1 - (j - from)] })
}

/// The next arrangement in lexicographic order: at the pivot `k`, put the
/// last later element ranking above it, then the rest in reverse.
pub open spec fn successor_arrangement<T>(s: Seq<T>, k: int, l: int) -> Seq<T> {
    reverse_from(s.update(k, s[l]).update(l, s[k]), k + 1)
}

/// Reverses the part of `seq` from `from` on.
pub fn reverse_tail<T: SortKey>(seq: &mut [T], from: usize)
    requires
        from <= old(seq)@.len(),
    ensures
        final(seq)@ == reverse_from(old(seq)@, from as int),
        final(seq)@.to_multiset() == old(seq)@.to_multiset(),
{
    let n = seq.len();
    if n == 0 {
        proof {
            assert(seq@ =~= reverse_from(old(seq)@, from as int));
        }
        return;
    }
    let ghost s1 = seq@;
    let mut a = from;
    let mut b = n - 1;
    while a < b
        invariant
            n == seq@.len(),
            s1 == old(seq)@,
            s1.len() == n,
            from <= a,
            b < n,
            a + b + 1 == from + n,
            a <= b + 1,
            seq@.to_multiset() == s1.to_multiset(),
            forall|j: int| 0 <= j < from ==> seq@[j] == s1[j],
            forall|j: int| a <= j <= b ==> seq@[j] == s1[j],
            forall|j: int| from <= j < a ==> seq@[j] == s1[n - 1 - (j - from)],
            forall|j: int| b < j < n ==> seq@[j] == s1[n - 1 - (j - from)],
        decreases b + 1 - a,
    {
        swap(seq, a, b);
        a = a + 1;
        b = b - 1;
    }
    proof {
        assert(seq@ =~= reverse_from(s1, from as int));
    }
}

/// Rearranges `seq` into the next permutation in lexicographic order of
/// ranks and returns it; `None`, leaving `seq` as it is, when no position
/// ranks below its right neighbour (the last permutation, or fewer than two
/// elements).
pub fn next_permutation<T: SortKey>(seq: &mut [T]) -> (r: Option<&[T]>)
    ensures
        r is None <==> forall|j: int| 0 <= j < old(seq)@.len() - 1 ==> #[trigger] old(seq)@[j].rank()
            >= old(seq)@[j + 1].rank(),
        r is None ==> final(seq)@ == old(seq)@,
        r is Some ==> r->0@ == final(seq)@ && exists|k: int, l: int|
            is_pivot(old(seq)@, k) && is_successor(old(seq)@, k, l) && final(seq)@
                == successor_arrangement(old(seq)@, k, l),
        final(seq)@.to_multiset() == old(seq)@.to_multiset(),
{
    let n = seq.len();
    if n < 2 {
        return None;
    }
    let mut i = n - 1;
    while i > 0
        invariant
            seq@ == old(seq)@,
            n == seq@.len(),
            n >= 2,
            i <= n - 1,
            forall|j: int| i <= j < n - 1 ==> #[trigger] seq@[j].rank() >= seq@[j + 1].rank(),
        ensures
            seq@ == old(seq)@,
            i <= n - 1,
            forall|j: int| i <= j < n - 1 ==> #[trigger] seq@[j].rank() >= seq@[j + 1].rank(),
            i > 0 ==> seq@[i - 1].rank() < seq@[i as int].rank(),
        decreases i,
    {
        if seq[i - 1].less(&seq[i]) {
            break;
        }
        i = i - 1;
    }
    if i == 0 {
        return None;
    }
    let k = i - 1;
    proof {
        assert(is_pivot(seq@, k as int));
    }
    let mut l = n - 1;
    while !seq[k].less(&seq[l])
        invariant
            seq@ == old(seq)@,
            n == seq@.len(),
            is_pivot(seq@, k as int),
            k < l < n,
            forall|m: int| l < m < n ==> #[trigger] seq@[m].rank() <= seq@[k as int].rank(),
        decreases l,
    {
        l = l - 1;
    }
    let ghost s0 = seq@;
    proof {
        assert(is_successor(s0, k as int, l as int));
    }
    swap(seq, k, l);
    reverse_tail(seq, k + 1);
    Some(seq)
}

} // verus!
