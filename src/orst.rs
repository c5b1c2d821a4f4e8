//! In-place sorting algorithms behind one interface.
use vstd::prelude::*;
use vstd::seq_lib::group_to_multiset_ensures;

verus! {

broadcast use vstd::std_specs::vec::group_vec_axioms, vstd::seq::group_seq_axioms, group_to_multiset_ensures;

pub open spec fn sorted(s: Seq<i32>) -> bool {
    forall|i: int, j: int| 0 <= i < j < s.len() ==> s[i] <= s[j]
}

pub open spec fn sorted_between(s: Seq<i32>, lo: int, hi: int) -> bool {
    forall|i: int, j: int| lo <= i < j < hi ==> s[i] <= s[j]
}

/// A sorting algorithm: it leaves the same items, in ascending order.
pub trait Sorter {
    fn sort(&self, slice: &mut Vec<i32>)
        ensures
            sorted(final(slice)@),
            final(slice)@.to_multiset() == old(slice)@.to_multiset(),
    ;
}

proof fn lemma_swap_multiset(s: Seq<i32>, i: int, j: int)
    requires
        0 <= i < s.len(),
        0 <= j < s.len(),
    ensures
        s.update(i, s[j]).update(j, s[i]).to_multiset() == s.to_multiset(),
{
    broadcast use vstd::multiset::group_multiset_properties, vstd::multiset::group_multiset_axioms;
    broadcast use vstd::seq_lib::to_multiset_update;

    let t = s.update(i, s[j]);
    assert(t[j] == s[j]);
    assert(s.to_multiset().insert(s[j]).remove(s[i]).insert(s[i]).remove(s[j]) =~= s.to_multiset());
}

fn swap(v: &mut Vec<i32>, i: usize, j: usize)
    requires
        i < old(v)@.len(),
        j < old(v)@.len(),
    ensures
        final(v)@ == old(v)@.update(i as int, old(v)@[j as int]).update(j as int, old(v)@[i as int]),
        final(v)@.to_multiset() == old(v)@.to_multiset(),
{
    let a = v[i];
    let b = v[j];
    v.set(i, b);
    v.set(j, a);
    proof {
        lemma_swap_multiset(old(v)@, i as int, j as int);
    }
}

/// Bubble sort: passes that swap out-of-order neighbours until one pass swaps nothing.
#[derive(Default)]
pub struct BubbleSorter;

impl Sorter for BubbleSorter {
    fn sort(&self, slice: &mut Vec<i32>) {
        let n = slice.len();
        if n < 2 {
            return;
        }
        let mut end: usize = n - 1;
        while end > 0
            invariant
                slice@.len() == n,
                0 <= end < n,
                slice@.to_multiset() == old(slice)@.to_multiset(),
                sorted_between(slice@, end as int, n as int),
                forall|a: int, b: int| 0 <= a <= end < b < n ==> slice@[a] <= slice@[b],
            decreases end,
        {
            let mut swapped = false;
            let mut i: usize = 1;
            while i <= end
                invariant
                    slice@.len() == n,
                    0 < end < n,
                    1 <= i <= end + 1,
                    slice@.to_multiset() == old(slice)@.to_multiset(),
                    sorted_between(slice@, end as int + 1, n as int),
                    forall|a: int, b: int| 0 <= a <= end < b < n ==> slice@[a] <= slice@[b],
                    forall|k: int| 0 <= k < i ==> #[trigger] slice@[k] <= slice@[i - 1],
                    !swapped ==> sorted_between(slice@, 0, i as int),
                decreases end + 1 - i,
            {
                if slice[i - 1] > slice[i] {
                    swap(slice, i - 1, i);
                    swapped = true;
                }
                i = i + 1;
            }
            if !swapped {
                return;
            }
            end = end - 1;
        }
    }
}

/// Insertion sort: grows a sorted prefix one item at a time. The smart
/// variant finds the place by binary search and shifts the block once.
pub struct InsertionSorter {
    pub smart: bool,
}

/// The first position in the sorted prefix `v[..hi]` whose item exceeds `x`.
fn upper_bound(v: &Vec<i32>, hi: usize, x: i32) -> (r: usize)
    requires
        hi <= v@.len(),
        sorted_between(v@, 0, hi as int),
    ensures
        r <= hi,
        forall|k: int| 0 <= k < r ==> v@[k] <= x,
        forall|k: int| r <= k < hi ==> v@[k] > x,
{
    let mut lo: usize = 0;
    let mut top: usize = hi;
    while lo < top
        invariant
            0 <= lo <= top <= hi <= v@.len(),
            sorted_between(v@, 0, hi as int),
            forall|k: int| 0 <= k < lo ==> v@[k] <= x,
            forall|k: int| top <= k < hi ==> v@[k] > x,
        decreases top - lo,
    {
        let mid = lo + (top - lo) / 2;
        if v[mid] <= x {
            lo = mid + 1;
        } else {
            top = mid;
        }
    }
    lo
}

impl Sorter for InsertionSorter {
    fn sort(&self, slice: &mut Vec<i32>) {
        let n = slice.len();
        let mut unsorted: usize = 1;
        if n < 2 {
            return;
        }
        while unsorted < n
            invariant
                slice@.len() == n,
                1 <= unsorted <= n,
                slice@.to_multiset() == old(slice)@.to_multiset(),
                sorted_between(slice@, 0, unsorted as int),
            decreases n - unsorted,
        {
            let x = slice[unsorted];
            let stop = if self.smart { upper_bound(slice, unsorted, x) } else { 0 };
            let mut i = unsorted;
            while i > stop && slice[i - 1] > slice[i]
                invariant
                    slice@.len() == n,
                    stop <= i <= unsorted < n,
                    slice@.to_multiset() == old(slice)@.to_multiset(),
                    sorted_between(slice@, 0, i as int),
                    sorted_between(slice@, i as int + 1, unsorted as int + 1),
                    slice@[i as int] == x,
                    forall|a: int, b: int| 0 <= a < i && i < b <= unsorted ==> slice@[a] <= slice@[b],
                    forall|b: int| i < b <= unsorted ==> x <= slice@[b],
                    self.smart ==> forall|k: int| stop <= k < i ==> slice@[k] > x,
                    self.smart ==> forall|k: int| 0 <= k < stop ==> slice@[k] <= x,
                decreases i,
            {
                swap(slice, i - 1, i);
                i = i - 1;
            }
            unsorted = unsorted + 1;
        }
    }
}

/// Selection sort: moves the smallest remaining item to the front of the unsorted part.
pub struct SelectionSorter;

impl Sorter for SelectionSorter {
    fn sort(&self, slice: &mut Vec<i32>) {
        let n = slice.len();
        let mut unsorted: usize = 0;
        while unsorted < n
            invariant
                slice@.len() == n,
                0 <= unsorted <= n,
                slice@.to_multiset() == old(slice)@.to_multiset(),
                sorted_between(slice@, 0, unsorted as int),
                forall|a: int, b: int| 0 <= a < unsorted <= b < n ==> slice@[a] <= slice@[b],
            decreases n - unsorted,
        {
            let mut smallest = unsorted;
            let mut i = unsorted + 1;
            while i < n
                invariant
                    slice@.len() == n,
                    unsorted <= smallest < n,
                    unsorted < i <= n,
                    forall|k: int| unsorted <= k < i ==> slice@[smallest as int] <= slice@[k],
                decreases n - i,
            {
                if slice[i] < slice[smallest] {
                    smallest = i;
                }
                i = i + 1;
            }
            if unsorted != smallest {
                swap(slice, unsorted, smallest);
            }
            unsorted = unsorted + 1;
        }
    }
}


/// Quicksort with a randomly chosen pivot.
pub struct QuickSorter;

proof fn lemma_swap_range(s: Seq<i32>, lo: int, hi: int, i: int, j: int)
    requires
        0 <= lo <= i < hi <= s.len(),
        lo <= j < hi,
    ensures
        s.update(i, s[j]).update(j, s[i]).subrange(lo, hi).to_multiset() == s.subrange(lo, hi).to_multiset(),
{
    let t = s.subrange(lo, hi);
    lemma_swap_multiset(t, i - lo, j - lo);
    assert(s.update(i, s[j]).update(j, s[i]).subrange(lo, hi) =~= t.update(i - lo, t[j - lo]).update(j - lo, t[i - lo]));
}

proof fn lemma_bound_kept(a: Seq<i32>, b: Seq<i32>, p: i32, below: bool)
    requires
        a.to_multiset() == b.to_multiset(),
        forall|k: int| 0 <= k < a.len() ==> if below { a[k] <= p } else { a[k] >= p },
    ensures
        forall|k: int| 0 <= k < b.len() ==> if below { b[k] <= p } else { b[k] >= p },
{
    broadcast use vstd::seq_lib::to_multiset_contains;

    assert forall|k: int| 0 <= k < b.len() implies if below { b[k] <= p } else { b[k] >= p } by {
        assert(b.contains(b[k]));
        assert(b.to_multiset().count(b[k]) > 0);
        assert(a.contains(b[k]));
        let j = choose|j: int| 0 <= j < a.len() && a[j] == b[k];
        assert(a[j] == b[k]);
    }
}

proof fn lemma_join_multiset(old_s: Seq<i32>, new_s: Seq<i32>, lo: int, mid: int, hi: int)
    requires
        0 <= lo <= mid <= hi <= old_s.len(),
        old_s.len() == new_s.len(),
        new_s.subrange(lo, mid).to_multiset() == old_s.subrange(lo, mid).to_multiset(),
        new_s.subrange(mid, hi).to_multiset() == old_s.subrange(mid, hi).to_multiset(),
    ensures
        new_s.subrange(lo, hi).to_multiset() == old_s.subrange(lo, hi).to_multiset(),
{
    broadcast use vstd::seq_lib::lemma_multiset_commutative;

    assert(new_s.subrange(lo, hi) =~= new_s.subrange(lo, mid) + new_s.subrange(mid, hi));
    assert(old_s.subrange(lo, hi) =~= old_s.subrange(lo, mid) + old_s.subrange(mid, hi));
    vstd::seq_lib::lemma_multiset_commutative(new_s.subrange(lo, mid), new_s.subrange(mid, hi));
    vstd::seq_lib::lemma_multiset_commutative(old_s.subrange(lo, mid), old_s.subrange(mid, hi));
}

fn quicksort_range(v: &mut Vec<i32>, lo: usize, hi: usize)
    requires
        lo <= hi <= old(v)@.len(),
    ensures
        final(v)@.len() == old(v)@.len(),
        sorted_between(final(v)@, lo as int, hi as int),
        final(v)@.subrange(lo as int, hi as int).to_multiset() == old(v)@.subrange(lo as int, hi as int).to_multiset(),
        forall|k: int| 0 <= k < old(v)@.len() && !(lo <= k < hi) ==> final(v)@[k] == old(v)@[k],
    decreases hi - lo,
{
    if hi - lo <= 1 {
        return;
    }
    let r: usize = rand::random();
    let pivot_index = lo + r % (hi - lo);
    let ghost s0 = v@;
    swap(v, lo, pivot_index);
    proof {
        lemma_swap_range(s0, lo as int, hi as int, lo as int, pivot_index as int);
    }
    let p = v[lo];
    let mut store = lo + 1;
    let mut i = lo + 1;
    while i < hi
        invariant
            lo < store <= i <= hi <= v@.len(),
            v@.len() == s0.len(),
            v@[lo as int] == p,
            v@.subrange(lo as int, hi as int).to_multiset() == s0.subrange(lo as int, hi as int).to_multiset(),
            forall|k: int| 0 <= k < s0.len() && !(lo <= k < hi) ==> v@[k] == s0[k],
            forall|k: int| lo < k < store ==> v@[k] <= p,
            forall|k: int| store <= k < i ==> v@[k] > p,
        decreases hi - i,
    {
        if v[i] <= p {
            let ghost s1 = v@;
            swap(v, i, store);
            proof {
                lemma_swap_range(s1, lo as int, hi as int, i as int, store as int);
            }
            store = store + 1;
        }
        i = i + 1;
    }
    let mid = store - 1;
    let ghost s2 = v@;
    swap(v, lo, mid);
    proof {
        lemma_swap_range(s2, lo as int, hi as int, lo as int, mid as int);
    }
    let ghost s3 = v@;
    assert(forall|k: int| lo <= k < mid ==> s3[k] <= p);
    assert(forall|k: int| mid < k < hi ==> s3[k] > p);
    quicksort_range(v, lo, mid);
    let ghost s4 = v@;
    quicksort_range(v, mid + 1, hi);
    let ghost s5 = v@;
    proof {
        assert(s3.subrange(lo as int, mid as int).len() == s4.subrange(lo as int, mid as int).len());
        assert forall|k: int| 0 <= k < s3.subrange(lo as int, mid as int).len() implies #[trigger] s3.subrange(lo as int, mid as int)[k] <= p by {
            assert(s3.subrange(lo as int, mid as int)[k] == s3[lo + k]);
        }
        lemma_bound_kept(s3.subrange(lo as int, mid as int), s4.subrange(lo as int, mid as int), p, true);
        assert forall|k: int| 0 <= k < s4.subrange(mid + 1, hi as int).len() implies #[trigger] s4.subrange(mid + 1, hi as int)[k] >= p by {
            assert(s4.subrange(mid + 1, hi as int)[k] == s4[mid + 1 + k]);
            assert(s4[mid + 1 + k] == s3[mid + 1 + k]);
        }
        lemma_bound_kept(s4.subrange(mid + 1, hi as int), s5.subrange(mid + 1, hi as int), p, false);
        assert forall|k: int| lo <= k < mid implies s5[k] <= p by {
            assert(s5[k] == s4[k]);
            assert(s4.subrange(lo as int, mid as int)[k - lo] == s4[k]);
        }
        assert forall|k: int| mid < k < hi implies s5[k] >= p by {
            assert(s5.subrange(mid + 1, hi as int)[k - mid - 1] == s5[k]);
        }
        assert(s5[mid as int] == p);
        // the left part and the pivot, then the right part
        assert(s4.subrange(mid as int, mid + 1) =~= s3.subrange(mid as int, mid + 1));
        lemma_join_multiset(s3, s4, lo as int, mid as int, mid + 1);
        assert(s4.subrange(mid + 1, hi as int) =~= s3.subrange(mid + 1, hi as int));
        lemma_join_multiset(s3, s4, lo as int, mid + 1, hi as int);
        assert(s5.subrange(lo as int, mid + 1) =~= s4.subrange(lo as int, mid + 1));
        lemma_join_multiset(s4, s5, lo as int, mid + 1, hi as int);
    }
}

impl Sorter for QuickSorter {
    fn sort(&self, slice: &mut Vec<i32>) {
        let n = slice.len();
        quicksort_range(slice, 0, n);
        proof {
            assert(slice@.subrange(0, n as int) =~= slice@);
            assert(old(slice)@.subrange(0, n as int) =~= old(slice)@);
        }
    }
}

} // verus!
