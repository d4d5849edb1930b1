//! Sorting routines over vectors of integers. Every sort states the same
//! contract: the result is sorted and holds exactly the elements it was
//! given, counted with multiplicity.

use vstd::prelude::*;

use vstd::seq_lib::lemma_multiset_commutative;

verus! {

/// The sequence never decreases.
pub open spec fn sorted(s: Seq<i32>) -> bool {
    forall|i: int, j: int| 0 <= i <= j < s.len() ==> s[i] <= s[j]
}

/// Exchanging two positions permutes nothing: the multisets agree.
proof fn lemma_swap_mset(a: Seq<i32>, i: int, j: int)
    requires
        0 <= i < a.len(),
        0 <= j < a.len(),
    ensures
        a.update(i, a[j]).update(j, a[i]).to_multiset() == a.to_multiset(),
{
    let b = a.update(i, a[j]).update(j, a[i]);
    if i == j {
        assert(b =~= a);
    } else {
        let lo = if i < j {
            i
        } else {
            j
        };
        let hi = if i < j {
            j
        } else {
            i
        };
        let p1 = a.subrange(0, lo);
        let p2 = a.subrange(lo + 1, hi);
        let p3 = a.subrange(hi + 1, a.len() as int);
        assert(a =~= p1 + seq![a[lo]] + p2 + seq![a[hi]] + p3);
        assert(b =~= p1 + seq![a[hi]] + p2 + seq![a[lo]] + p3);
        lemma_multiset_commutative(p1 + seq![a[lo]] + p2 + seq![a[hi]], p3);
        lemma_multiset_commutative(p1 + seq![a[lo]] + p2, seq![a[hi]]);
        lemma_multiset_commutative(p1 + seq![a[lo]], p2);
        lemma_multiset_commutative(p1, seq![a[lo]]);
        lemma_multiset_commutative(p1 + seq![a[hi]] + p2 + seq![a[lo]], p3);
        lemma_multiset_commutative(p1 + seq![a[hi]] + p2, seq![a[lo]]);
        lemma_multiset_commutative(p1 + seq![a[hi]], p2);
        lemma_multiset_commutative(p1, seq![a[hi]]);
        assert(a.to_multiset() =~= b.to_multiset());
    }
}

/// Exchanges two elements of the vector.
fn swap_elems(v: &mut Vec<i32>, i: usize, j: usize)
    requires
        i < old(v)@.len(),
        j < old(v)@.len(),
    ensures
        final(v)@ == old(v)@.update(i as int, old(v)@[j as int]).update(
            j as int,
            old(v)@[i as int],
        ),
        final(v)@.len() == old(v)@.len(),
        final(v)@.to_multiset() == old(v)@.to_multiset(),
{
    proof {
        lemma_swap_mset(v@, i as int, j as int);
    }
    let a = v[i];
    let b = v[j];
    v.set(i, b);
    v.set(j, a);
}

/// Bubble sort: repeatedly floats the largest remaining element to the end.
pub fn bubblesort(v: &mut Vec<i32>)
    ensures
        sorted(final(v)@),
        final(v)@.to_multiset() == old(v)@.to_multiset(),
        final(v)@.len() == old(v)@.len(),
{
    let len = v.len();
    let mut i: usize = 0;
    while i < len
        invariant
            i <= len,
            v@.len() == len,
            v@.to_multiset() == old(v)@.to_multiset(),
            forall|a: int, b: int| len - i <= a <= b < len ==> v@[a] <= v@[b],
            forall|a: int, b: int| 0 <= a < len - i <= b < len ==> v@[a] <= v@[b],
        decreases len - i,
    {
        let mut j: usize = 0;
        while j + 1 < len - i
            invariant
                i < len,
                j + 1 <= len - i,
                v@.len() == len,
                v@.to_multiset() == old(v)@.to_multiset(),
                forall|a: int, b: int| len - i <= a <= b < len ==> v@[a] <= v@[b],
                forall|a: int, b: int| 0 <= a < len - i <= b < len ==> v@[a] <= v@[b],
                forall|a: int| 0 <= a < j ==> v@[a] <= v@[j as int],
            decreases len - i - j,
        {
            if v[j] > v[j + 1] {
                swap_elems(v, j, j + 1);
            }
            j = j + 1;
        }
        i = i + 1;
    }
}

/// Selection sort: repeatedly moves the smallest remaining element into the
/// next position of the sorted prefix.
pub fn selectionsort(v: &mut Vec<i32>)
    ensures
        sorted(final(v)@),
        final(v)@.to_multiset() == old(v)@.to_multiset(),
        final(v)@.len() == old(v)@.len(),
{
    let len = v.len();
    let mut i: usize = 0;
    while i < len
        invariant
            i <= len,
            v@.len() == len,
            v@.to_multiset() == old(v)@.to_multiset(),
            forall|a: int, b: int| 0 <= a <= b < i ==> v@[a] <= v@[b],
            forall|a: int, b: int| 0 <= a < i <= b < len ==> v@[a] <= v@[b],
        decreases len - i,
    {
        let mut min: usize = i;
        let mut j: usize = i + 1;
        while j < len
            invariant
                i <= min < j <= len,
                v@.len() == len,
                forall|k: int| i <= k < j ==> v@[min as int] <= v@[k],
            decreases len - j,
        {
            if v[j] < v[min] {
                min = j;
            }
            j = j + 1;
        }
        if min != i {
            swap_elems(v, i, min);
        }
        i = i + 1;
    }
}

/// Insertion sort: grows a sorted prefix by sinking each next element into
/// its place.
pub fn insertionsort(v: &mut Vec<i32>)
    ensures
        sorted(final(v)@),
        final(v)@.to_multiset() == old(v)@.to_multiset(),
        final(v)@.len() == old(v)@.len(),
{
    let len = v.len();
    if len == 0 {
        return ;
    }
    let mut i: usize = 1;
    while i < len
        invariant
            1 <= i <= len,
            v@.len() == len,
            v@.to_multiset() == old(v)@.to_multiset(),
            forall|a: int, b: int| 0 <= a <= b < i ==> v@[a] <= v@[b],
        decreases len - i,
    {
        let mut j: usize = i;
        while j > 0 && v[j - 1] > v[j]
            invariant
                0 <= j <= i < len,
                v@.len() == len,
                v@.to_multiset() == old(v)@.to_multiset(),
                forall|a: int, b: int| 0 <= a <= b <= i && b != j ==> v@[a] <= v@[b],
                forall|a: int| j < a <= i ==> v@[j as int] <= v@[a],
            decreases j,
        {
            swap_elems(v, j - 1, j);
            j = j - 1;
        }
        i = i + 1;
    }
}

/// Sequences that agree as multisets share every upper bound.
proof fn lemma_mset_le_bound(a: Seq<i32>, b: Seq<i32>, x: i32)
    requires
        a.to_multiset() == b.to_multiset(),
        forall|k: int| 0 <= k < a.len() ==> a[k] <= x,
    ensures
        forall|k: int| 0 <= k < b.len() ==> b[k] <= x,
{
    a.to_multiset_ensures();
    b.to_multiset_ensures();
    assert forall|k: int| 0 <= k < b.len() implies b[k] <= x by {
        assert(b.contains(b[k]));
        assert(b.to_multiset().count(b[k]) > 0);
        assert(a.contains(b[k]));
        let i = choose|i: int| 0 <= i < a.len() && a[i] == b[k];
        assert(a[i] <= x);
    }
}

/// Sequences that agree as multisets share every lower bound.
proof fn lemma_mset_ge_bound(a: Seq<i32>, b: Seq<i32>, x: i32)
    requires
        a.to_multiset() == b.to_multiset(),
        forall|k: int| 0 <= k < a.len() ==> x <= a[k],
    ensures
        forall|k: int| 0 <= k < b.len() ==> x <= b[k],
{
    a.to_multiset_ensures();
    b.to_multiset_ensures();
    assert forall|k: int| 0 <= k < b.len() implies x <= b[k] by {
        assert(b.contains(b[k]));
        assert(b.to_multiset().count(b[k]) > 0);
        assert(a.contains(b[k]));
        let i = choose|i: int| 0 <= i < a.len() && a[i] == b[k];
        assert(x <= a[i]);
    }
}

/// A permutation that leaves everything outside a window unchanged permutes
/// the window itself.
proof fn lemma_frame_mset(a: Seq<i32>, b: Seq<i32>, lo: int, hi: int)
    requires
        a.len() == b.len(),
        0 <= lo <= hi <= a.len(),
        a.to_multiset() == b.to_multiset(),
        forall|k: int| 0 <= k < lo || hi <= k < a.len() ==> a[k] == b[k],
    ensures
        a.subrange(lo, hi).to_multiset() == b.subrange(lo, hi).to_multiset(),
{
    broadcast use vstd::multiset::group_multiset_axioms;

    let n = a.len() as int;
    assert(a =~= a.subrange(0, lo) + a.subrange(lo, hi) + a.subrange(hi, n));
    assert(b =~= b.subrange(0, lo) + b.subrange(lo, hi) + b.subrange(hi, n));
    assert(a.subrange(0, lo) =~= b.subrange(0, lo));
    assert(a.subrange(hi, n) =~= b.subrange(hi, n));
    lemma_multiset_commutative(a.subrange(0, lo) + a.subrange(lo, hi), a.subrange(hi, n));
    lemma_multiset_commutative(a.subrange(0, lo), a.subrange(lo, hi));
    lemma_multiset_commutative(b.subrange(0, lo) + b.subrange(lo, hi), b.subrange(hi, n));
    lemma_multiset_commutative(b.subrange(0, lo), b.subrange(lo, hi));
    assert forall|e: i32|
        a.subrange(lo, hi).to_multiset().count(e) == b.subrange(lo, hi).to_multiset().count(
            e,
        ) by {
        assert(a.to_multiset().count(e) == a.subrange(0, lo).to_multiset().count(e)
            + a.subrange(lo, hi).to_multiset().count(e) + a.subrange(hi, n).to_multiset().count(
            e,
        ));
        assert(b.to_multiset().count(e) == b.subrange(0, lo).to_multiset().count(e)
            + b.subrange(lo, hi).to_multiset().count(e) + b.subrange(hi, n).to_multiset().count(
            e,
        ));
    }
    assert(a.subrange(lo, hi).to_multiset() =~= b.subrange(lo, hi).to_multiset());
}

/// Partitions the window `[lo, hi]` around its last element: afterwards the
/// pivot sits at the returned index, nothing smaller is right of it and
/// nothing larger is left of it.
fn partition(v: &mut Vec<i32>, lo: usize, hi: usize) -> (p: usize)
    requires
        lo <= hi < old(v)@.len(),
    ensures
        lo <= p <= hi,
        final(v)@.len() == old(v)@.len(),
        final(v)@.to_multiset() == old(v)@.to_multiset(),
        forall|k: int| lo <= k <= p ==> final(v)@[k] <= final(v)@[p as int],
        forall|k: int| p < k <= hi ==> final(v)@[p as int] <= final(v)@[k],
        forall|k: int| 0 <= k < lo || hi < k < old(v)@.len() ==> final(v)@[k] == old(v)@[k],
    decreases hi - lo,
{
    let ghost len = v@.len();
    let pivot = v[hi];
    let mut i: usize = lo;
    let mut j: usize = lo;
    while j < hi
        invariant
            lo <= i <= j <= hi < len,
            v@.len() == len,
            v@.to_multiset() == old(v)@.to_multiset(),
            v@[hi as int] == pivot,
            forall|k: int| lo <= k < i ==> v@[k] <= pivot,
            forall|k: int| i <= k < j ==> v@[k] >= pivot,
            forall|k: int| 0 <= k < lo || hi < k < len ==> v@[k] == old(v)@[k],
        decreases hi - j,
    {
        if v[j] <= pivot {
            swap_elems(v, i, j);
            i = i + 1;
        }
        j = j + 1;
    }
    swap_elems(v, i, hi);
    i
}

/// Recursive quicksort of the window `[lo, hi)`: partition, then sort both
/// sides of the pivot.
fn quicksort_in(v: &mut Vec<i32>, lo: usize, hi: usize)
    requires
        lo <= hi <= old(v)@.len(),
    ensures
        final(v)@.len() == old(v)@.len(),
        final(v)@.to_multiset() == old(v)@.to_multiset(),
        sorted(final(v)@.subrange(lo as int, hi as int)),
        forall|k: int| 0 <= k < lo || hi <= k < old(v)@.len() ==> final(v)@[k] == old(v)@[k],
    decreases hi - lo,
{
    if hi - lo >= 2 {
        let ghost v0 = v@;
        let p = partition(v, lo, hi - 1);
        let ghost v1 = v@;
        quicksort_in(v, lo, p);
        let ghost v2 = v@;
        proof {
            lemma_frame_mset(v2, v1, lo as int, p as int);
            lemma_mset_le_bound(
                v1.subrange(lo as int, p as int),
                v2.subrange(lo as int, p as int),
                v1[p as int],
            );
        }
        quicksort_in(v, p + 1, hi);
        let ghost v3 = v@;
        proof {
            lemma_frame_mset(v3, v2, p + 1, hi as int);
            lemma_mset_ge_bound(
                v2.subrange(p + 1, hi as int),
                v3.subrange(p + 1, hi as int),
                v1[p as int],
            );
            assert(v3[p as int] == v1[p as int]);
            let s = v3.subrange(lo as int, hi as int);
            assert forall|a: int, b: int| 0 <= a <= b < s.len() implies s[a] <= s[b] by {
                let ga = lo + a;
                let gb = lo + b;
                if gb < p {
                    assert(v3[ga] == v2[ga] && v3[gb] == v2[gb]);
                    assert(v2.subrange(lo as int, p as int)[ga - lo] == v2[ga]);
                    assert(v2.subrange(lo as int, p as int)[gb - lo] == v2[gb]);
                } else if ga < p && gb == p {
                    assert(v3[ga] == v2[ga]);
                    assert(v2.subrange(lo as int, p as int)[ga - lo] == v2[ga]);
                } else if ga < p && gb > p {
                    assert(v3[ga] == v2[ga]);
                    assert(v2.subrange(lo as int, p as int)[ga - lo] == v2[ga]);
                    assert(v3.subrange(p + 1, hi as int)[gb - p - 1] == v3[gb]);
                } else if ga == p && gb == p {
                } else if ga == p && gb > p {
                    assert(v3.subrange(p + 1, hi as int)[gb - p - 1] == v3[gb]);
                } else {
                    assert(v3.subrange(p + 1, hi as int)[ga - p - 1] == v3[ga]);
                    assert(v3.subrange(p + 1, hi as int)[gb - p - 1] == v3[gb]);
                }
            }
        }
    } else {
        proof {
            let s = v@.subrange(lo as int, hi as int);
            assert(s.len() <= 1);
        }
    }
}

/// Quicksort: partition around a pivot and sort each side recursively.
pub fn quicksort(v: &mut Vec<i32>)
    ensures
        sorted(final(v)@),
        final(v)@.to_multiset() == old(v)@.to_multiset(),
        final(v)@.len() == old(v)@.len(),
{
    let n = v.len();
    quicksort_in(v, 0, n);
    proof {
        assert(v@.subrange(0, n as int) =~= v@);
    }
}

/// The max-heap shape over the first `n` positions, roots at `from` and
/// deeper: every such parent is at least its children.
pub open spec fn heap_from(s: Seq<i32>, n: int, from: int) -> bool {
    forall|j: int| 1 <= j < n && (j - 1) / 2 >= from ==> s[(j - 1) / 2] >= #[trigger] s[j]
}

/// In a max heap the root is the largest element.
proof fn lemma_heap_root_max(s: Seq<i32>, n: int, j: int)
    requires
        0 <= j < n <= s.len(),
        heap_from(s, n, 0),
    ensures
        s[0] >= s[j],
    decreases j,
{
    if j > 0 {
        assert(s[(j - 1) / 2] >= s[j]);
        lemma_heap_root_max(s, n, (j - 1) / 2);
    }
}

/// Sinks the element at `i` down the heap of the first `n` positions until
/// both children are at most it, restoring the heap shape from `i` on.
fn sift_down(v: &mut Vec<i32>, n: usize, i: usize)
    requires
        i < n <= old(v)@.len(),
        heap_from(old(v)@, n as int, i + 1),
    ensures
        final(v)@.len() == old(v)@.len(),
        final(v)@.to_multiset() == old(v)@.to_multiset(),
        forall|k: int| n <= k < old(v)@.len() ==> final(v)@[k] == old(v)@[k],
        heap_from(final(v)@, n as int, i as int),
{
    let ghost len = v@.len();
    let mut cur = i;
    while cur < n / 2
        invariant
            i <= cur < n <= len,
            len == old(v)@.len(),
            v@.len() == len,
            v@.to_multiset() == old(v)@.to_multiset(),
            forall|k: int| n <= k < len ==> v@[k] == old(v)@[k],
            forall|j: int|
                1 <= j < n && (j - 1) / 2 >= i && (j - 1) / 2 != cur ==> v@[(j - 1) / 2]
                    >= #[trigger] v@[j],
            cur > i ==> (cur - 1) / 2 >= i && v@[((cur - 1) / 2) as int] >= v@[cur as int],
            forall|j: int|
                1 <= j < n && (j - 1) / 2 == cur && cur > i ==> v@[((cur - 1) / 2) as int]
                    >= #[trigger] v@[j],
        decreases n - cur,
    {
        let l = 2 * cur + 1;
        let r = 2 * cur + 2;
        let largest = if r < n && v[r] > v[l] {
            r
        } else {
            l
        };
        if v[largest] > v[cur] {
            swap_elems(v, cur, largest);
            cur = largest;
        } else {
            proof {
                assert forall|j: int|
                    1 <= j < n && (j - 1) / 2 >= i implies v@[(j - 1) / 2]
                    >= #[trigger] v@[j] by {
                    if (j - 1) / 2 == cur {
                        assert(j == 2 * (cur as int) + 1 || j == 2 * (cur as int) + 2);
                    }
                }
            }
            return ;
        }
    }
    proof {
        assert forall|j: int|
            1 <= j < n && (j - 1) / 2 >= i implies v@[(j - 1) / 2] >= #[trigger] v@[j] by {
            if (j - 1) / 2 == cur {
                assert(j >= 2 * (cur as int) + 1);
                assert(2 * (cur as int) + 1 >= n);
            }
        }
    }
}

/// Heap sort: builds a max heap in place, then repeatedly swaps the root
/// behind the shrinking heap and restores the heap shape.
#[verifier::rlimit(60)]
pub fn heapsort(v: &mut Vec<i32>)
    ensures
        sorted(final(v)@),
        final(v)@.to_multiset() == old(v)@.to_multiset(),
        final(v)@.len() == old(v)@.len(),
{
    let len = v.len();
    if len < 2 {
        return ;
    }
    let mut i: usize = len / 2;
    while i > 0
        invariant
            i <= len / 2,
            v@.len() == len,
            v@.to_multiset() == old(v)@.to_multiset(),
            heap_from(v@, len as int, i as int),
        decreases i,
    {
        i = i - 1;
        sift_down(v, len, i);
    }
    let mut k: usize = len;
    while k > 1
        invariant
            1 <= k <= len,
            v@.len() == len,
            v@.to_multiset() == old(v)@.to_multiset(),
            heap_from(v@, k as int, 0),
            forall|a: int, b: int| k <= a <= b < len ==> #[trigger] v@[a] <= #[trigger] v@[b],
            forall|a: int, b: int| 0 <= a < k <= b < len ==> #[trigger] v@[a] <= #[trigger] v@[b],
        decreases k,
    {
        k = k - 1;
        proof {
            assert forall|j: int| 0 <= j < k + 1 implies v@[0] >= #[trigger] v@[j] by {
                lemma_heap_root_max(v@, k + 1, j);
            }
        }
        let ghost v_pre = v@;
        swap_elems(v, 0, k);
        let ghost v_mid = v@;
        sift_down(v, k, 0);
        proof {
            lemma_frame_mset(v@, v_mid, 0, k as int);
            assert forall|a: int, b: int| 0 <= a < k <= b < len implies #[trigger] v@[a]
                <= #[trigger] v@[b] by {
                lemma_mset_le_bound(
                    v_mid.subrange(0, k as int),
                    v@.subrange(0, k as int),
                    v@[b],
                );
                assert(v@.subrange(0, k as int)[a] == v@[a]);
            }
        }
    }
}

/// Merges two sorted vectors into one sorted vector holding both contents.
fn merge(left: &Vec<i32>, right: &Vec<i32>) -> (out: Vec<i32>)
    requires
        sorted(left@),
        sorted(right@),
    ensures
        sorted(out@),
        out@.to_multiset() == left@.to_multiset().add(right@.to_multiset()),
        out@.len() == left@.len() + right@.len(),
{
    let mut out: Vec<i32> = Vec::new();
    let mut i: usize = 0;
    let mut j: usize = 0;
    proof {
        assert(left@.take(0) =~= Seq::<i32>::empty());
        assert(right@.take(0) =~= Seq::<i32>::empty());
        Seq::<i32>::empty().to_multiset_ensures();
        assert(out@.to_multiset() =~= left@.take(0).to_multiset().add(
            right@.take(0).to_multiset(),
        ));
    }
    while i < left.len() || j < right.len()
        invariant
            i <= left@.len(),
            j <= right@.len(),
            sorted(left@),
            sorted(right@),
            out@.len() == i + j,
            sorted(out@),
            out@.to_multiset() == left@.take(i as int).to_multiset().add(
                right@.take(j as int).to_multiset(),
            ),
            forall|a: int, k: int| 0 <= a < out@.len() && i <= k < left@.len() ==> out@[a]
                <= left@[k],
            forall|a: int, k: int| 0 <= a < out@.len() && j <= k < right@.len() ==> out@[a]
                <= right@[k],
        decreases left@.len() - i + right@.len() - j,
    {
        let ghost out0 = out@;
        let take_left = if i < left.len() && j < right.len() {
            left[i] < right[j]
        } else {
            i < left.len()
        };
        if take_left {
            out.push(left[i]);
            i = i + 1;
            proof {
                out0.to_multiset_ensures();
                assert(out@ == out0.push(left@[i - 1]));
                left@.take(i - 1).to_multiset_ensures();
                assert(left@.take(i as int) =~= left@.take(i - 1).push(left@[i - 1]));
                assert(out@.to_multiset() =~= left@.take(i as int).to_multiset().add(
                    right@.take(j as int).to_multiset(),
                ));
            }
        } else {
            out.push(right[j]);
            j = j + 1;
            proof {
                out0.to_multiset_ensures();
                assert(out@ == out0.push(right@[j - 1]));
                right@.take(j - 1).to_multiset_ensures();
                assert(right@.take(j as int) =~= right@.take(j - 1).push(right@[j - 1]));
                assert(out@.to_multiset() =~= left@.take(i as int).to_multiset().add(
                    right@.take(j as int).to_multiset(),
                ));
            }
        }
    }
    proof {
        assert(left@.take(left@.len() as int) =~= left@);
        assert(right@.take(right@.len() as int) =~= right@);
        left@.to_multiset_ensures();
        right@.to_multiset_ensures();
    }
    out
}

/// Merge sort: splits the vector in half, sorts each half and merges them.
pub fn mergesort(v: &mut Vec<i32>)
    ensures
        sorted(final(v)@),
        final(v)@.to_multiset() == old(v)@.to_multiset(),
        final(v)@.len() == old(v)@.len(),
    decreases old(v)@.len(),
{
    let len = v.len();
    if len > 1 {
        let mid = len / 2;
        let mut left: Vec<i32> = Vec::new();
        let mut k: usize = 0;
        while k < mid
            invariant
                k <= mid <= len,
                v@.len() == len,
                left@ == v@.take(k as int),
            decreases mid - k,
        {
            left.push(v[k]);
            k = k + 1;
            proof {
                assert(left@ =~= v@.take(k as int));
            }
        }
        let mut right: Vec<i32> = Vec::new();
        let mut k2: usize = mid;
        while k2 < len
            invariant
                mid <= k2 <= len,
                v@.len() == len,
                right@ == v@.subrange(mid as int, k2 as int),
            decreases len - k2,
        {
            right.push(v[k2]);
            k2 = k2 + 1;
            proof {
                assert(right@ =~= v@.subrange(mid as int, k2 as int));
            }
        }
        proof {
            assert(v@ =~= left@ + right@);
            lemma_multiset_commutative(left@, right@);
        }
        mergesort(&mut left);
        mergesort(&mut right);
        let out = merge(&left, &right);
        *v = out;
    }
}

} // verus!
