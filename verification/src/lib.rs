//! An in-memory sorting library: quicksort, selection sort, insertion sort
//! and merge sort over any element type that provides a single strict
//! ordering predicate. Every algorithm is verified to terminate and to
//! permute its input for an arbitrary predicate, and to order it whenever
//! the predicate is consistent.

use vstd::prelude::*;

pub mod natural;
pub mod sorting;

verus! {

/// The capability an element type must provide to be sorted: a single strict
/// ordering predicate. `compare(a, b)` answers "should `a` be placed before
/// `b`?". The spec-level `precedes` is the mathematical meaning of that
/// predicate; `compare` is its executable form and must agree with it.
pub trait Sortable: Sized {
    spec fn precedes(&self, other: &Self) -> bool;

    fn compare(&self, other: &Self) -> (r: bool)
        ensures
            r == self.precedes(other),
    ;
}

/// A predicate is consistent when it is irreflexive and transitive, i.e. a
/// strict order. The sorting algorithms terminate and permute their input for
/// any predicate; they promise an ordered result only for a consistent one.
pub open spec fn consistent<T: Sortable>() -> bool {
    &&& forall|a: T| !(#[trigger] a.precedes(&a))
    &&& forall|a: T, b: T, c: T|
        #[trigger] a.precedes(&b) && #[trigger] b.precedes(&c) ==> a.precedes(&c)
}

/// No element precedes its immediate predecessor: the order produced by
/// quicksort, selection sort and merge sort.
pub open spec fn adjacent_ordered<T: Sortable>(s: Seq<T>) -> bool {
    forall|k: int| 0 <= k && k + 1 < s.len() ==> !(#[trigger] s[k + 1].precedes(&s[k]))
}

/// No element precedes its immediate successor: the order produced by
/// insertion sort, whose inner loop swaps while the left neighbour precedes
/// the right one and therefore ends with the predicate false left-to-right.
pub open spec fn adjacent_ordered_rev<T: Sortable>(s: Seq<T>) -> bool {
    forall|k: int| 0 <= k && k + 1 < s.len() ==> !(#[trigger] s[k].precedes(&s[k + 1]))
}

/// Every earlier element strictly precedes every later one.
pub open spec fn strictly_ordered<T: Sortable>(s: Seq<T>) -> bool {
    forall|i: int, j: int| 0 <= i < j < s.len() ==> #[trigger] s[i].precedes(&s[j])
}

/// No later element precedes an earlier one, over all pairs of positions.
pub open spec fn fully_ordered<T: Sortable>(s: Seq<T>) -> bool {
    forall|i: int, j: int| 0 <= i < j < s.len() ==> !(#[trigger] s[j].precedes(&s[i]))
}

/// Two elements are tied when neither precedes the other.
pub open spec fn tied<T: Sortable>(a: T, b: T) -> bool {
    !a.precedes(&b) && !b.precedes(&a)
}

/// `m` maps each position of `out` to the position of `orig` its element came
/// from: a permutation witness.
pub open spec fn reorders<T>(m: Seq<int>, out: Seq<T>, orig: Seq<T>) -> bool {
    &&& m.len() == orig.len()
    &&& out.len() == orig.len()
    &&& forall|k: int| 0 <= k < m.len() ==> 0 <= #[trigger] m[k] < orig.len()
    &&& forall|k1: int, k2: int| 0 <= k1 < k2 < m.len() ==> #[trigger] m[k1] != #[trigger] m[k2]
    &&& forall|k: int| 0 <= k < m.len() ==> out[k] == orig[#[trigger] m[k]]
}

/// A permutation witness is stable when tied elements keep their original
/// relative order.
pub open spec fn keeps_tied_order<T: Sortable>(m: Seq<int>, orig: Seq<T>) -> bool {
    forall|k1: int, k2: int|
        0 <= k1 < k2 < m.len() && tied(orig[#[trigger] m[k1]], orig[#[trigger] m[k2]])
            ==> m[k1] < m[k2]
}

/// A consistent predicate never holds in both directions at once.
pub proof fn lemma_consistent_asymmetric<T: Sortable>(a: T, b: T)
    requires
        consistent::<T>(),
        a.precedes(&b),
    ensures
        !b.precedes(&a),
{
    if b.precedes(&a) {
        assert(a.precedes(&a));
    }
}

} // verus!
