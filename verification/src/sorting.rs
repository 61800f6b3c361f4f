use vstd::prelude::*;
use crate::Sortable;
use crate::adjacent_ordered;
use crate::adjacent_ordered_rev;
use crate::consistent;
use crate::fully_ordered;
use crate::keeps_tied_order;
use crate::lemma_consistent_asymmetric;
use crate::reorders;
use crate::strictly_ordered;
use crate::tied;

verus! {

/// Exchanging two elements of a sequence leaves its multiset unchanged.
pub proof fn lemma_swap_preserves_multiset<T>(s: Seq<T>, i: int, j: int)
    requires
        0 <= i < s.len(),
        0 <= j < s.len(),
    ensures
        s.update(i, s[j]).update(j, s[i]).to_multiset() == s.to_multiset(),
{
    broadcast use vstd::seq_lib::lemma_multiset_commutative;
    broadcast use vstd::seq_lib::group_to_multiset_ensures;
    broadcast use vstd::multiset::group_multiset_axioms;

    if i == j {
        assert(s.update(i, s[j]).update(j, s[i]) =~= s);
    } else {
        let a = if i < j { i } else { j };
        let b = if i < j { j } else { i };
        let t = s.update(i, s[j]).update(j, s[i]);
        let p1 = s.subrange(0, a);
        let p2 = s.subrange(a + 1, b);
        let p3 = s.subrange(b + 1, s.len() as int);
        assert(s =~= p1 + seq![s[a]] + p2 + seq![s[b]] + p3);
        assert(t =~= p1 + seq![s[b]] + p2 + seq![s[a]] + p3);
        assert(s.to_multiset() =~= t.to_multiset());
    }
}

/// Exchanging two elements inside a range leaves the range's multiset
/// unchanged.
pub proof fn lemma_swap_in_range_preserves_multiset<T>(s: Seq<T>, lo: int, hi: int, i: int, j: int)
    requires
        0 <= lo <= i < hi <= s.len(),
        lo <= j < hi,
    ensures
        s.update(i, s[j]).update(j, s[i]).subrange(lo, hi).to_multiset() == s.subrange(
            lo,
            hi,
        ).to_multiset(),
{
    let sub = s.subrange(lo, hi);
    assert(s.update(i, s[j]).update(j, s[i]).subrange(lo, hi) =~= sub.update(
        i - lo,
        sub[j - lo],
    ).update(j - lo, sub[i - lo]));
    lemma_swap_preserves_multiset(sub, i - lo, j - lo);
}

/// Sequences with equal multisets hold the same elements.
pub proof fn lemma_same_multiset_same_members<T>(a: Seq<T>, b: Seq<T>)
    requires
        a.to_multiset() == b.to_multiset(),
    ensures
        forall|x: T| #![trigger a.contains(x)] #![trigger b.contains(x)]
            (a.contains(x) <==> b.contains(x)),
{
    a.to_multiset_ensures();
    b.to_multiset_ensures();
    assert forall|x: T| a.contains(x) implies b.contains(x) by {
        assert(a.to_multiset().count(x) > 0);
        assert(b.to_multiset().count(x) > 0);
    }
    assert forall|x: T| b.contains(x) implies a.contains(x) by {
        assert(b.to_multiset().count(x) > 0);
        assert(a.to_multiset().count(x) > 0);
    }
}

/// A range's multiset is preserved by a step that preserves the multiset of a
/// left part and leaves the right part's values alone.
proof fn lemma_split_multiset<T>(a: Seq<T>, b: Seq<T>, lo: int, mid: int, hi: int)
    requires
        0 <= lo <= mid <= hi <= a.len(),
        a.len() == b.len(),
        a.subrange(lo, mid).to_multiset() == b.subrange(lo, mid).to_multiset(),
        a.subrange(mid, hi).to_multiset() == b.subrange(mid, hi).to_multiset(),
    ensures
        a.subrange(lo, hi).to_multiset() == b.subrange(lo, hi).to_multiset(),
{
    broadcast use vstd::seq_lib::lemma_multiset_commutative;

    assert(a.subrange(lo, hi) =~= a.subrange(lo, mid) + a.subrange(mid, hi));
    assert(b.subrange(lo, hi) =~= b.subrange(lo, mid) + b.subrange(mid, hi));
    assert(a.subrange(lo, hi).to_multiset() =~= b.subrange(lo, hi).to_multiset());
}

/// Exchanges the elements at positions `i` and `j`.
fn swap<T>(v: &mut Vec<T>, i: usize, j: usize)
    requires
        i < old(v).len(),
        j < old(v).len(),
    ensures
        final(v)@ == old(v)@.update(i as int, old(v)@[j as int]).update(
            j as int,
            old(v)@[i as int],
        ),
{
    if i == j {
        proof {
            assert(v@.update(i as int, v@[j as int]).update(j as int, v@[i as int]) =~= v@);
        }
        return;
    }
    let lo: usize = if i < j { i } else { j };
    let hi: usize = if i < j { j } else { i };
    let mut x = v.remove(hi);
    vstd::pervasive::VecAdditionalExecFns::set_and_swap(v, lo, &mut x);
    v.insert(hi, x);
    proof {
        assert(v@ =~= old(v)@.update(i as int, old(v)@[j as int]).update(
            j as int,
            old(v)@[i as int],
        ));
    }
}

/// Rearranges `v[lo..hi]` around the last element as pivot: elements that
/// precede the pivot end up left of it, the rest right of it. Returns the
/// pivot's final position.
fn partition<T: Sortable>(v: &mut Vec<T>, lo: usize, hi: usize) -> (p: usize)
    requires
        lo < hi,
        hi <= old(v).len(),
    ensures
        lo <= p < hi,
        final(v).len() == old(v).len(),
        final(v)@.subrange(lo as int, hi as int).to_multiset() == old(v)@.subrange(
            lo as int,
            hi as int,
        ).to_multiset(),
        forall|k: int| 0 <= k < final(v).len() && !(lo <= k < hi) ==> final(v)@[k] == old(v)@[k],
        forall|k: int| lo <= k < p ==> #[trigger] final(v)@[k].precedes(&final(v)@[p as int]),
        forall|k: int| p < k < hi ==> !(#[trigger] final(v)@[k].precedes(&final(v)@[p as int])),
        strictly_ordered(old(v)@.subrange(lo as int, hi as int)) ==> final(v)@ == old(v)@ && p
            == hi - 1,
{
    let pivot_index = hi - 1;
    let mut i = lo;
    let mut j = lo;
    while j < pivot_index
        invariant
            lo <= i <= j <= pivot_index,
            pivot_index == hi - 1,
            lo < hi,
            hi <= v.len(),
            v.len() == old(v).len(),
            v@.subrange(lo as int, hi as int).to_multiset() == old(v)@.subrange(
                lo as int,
                hi as int,
            ).to_multiset(),
            forall|k: int| 0 <= k < v.len() && !(lo <= k < hi) ==> v@[k] == old(v)@[k],
            forall|k: int| lo <= k < i ==> #[trigger] v@[k].precedes(&v@[pivot_index as int]),
            forall|k: int| i <= k < j ==> !(#[trigger] v@[k].precedes(&v@[pivot_index as int])),
            strictly_ordered(old(v)@.subrange(lo as int, hi as int)) ==> v@ == old(v)@ && i == j,
        decreases pivot_index - j,
    {
        let ghost pre = v@;
        let c = v[j].compare(&v[pivot_index]);
        if c {
            swap(v, i, j);
            proof {
                lemma_swap_in_range_preserves_multiset(
                    pre,
                    lo as int,
                    hi as int,
                    i as int,
                    j as int,
                );
                if strictly_ordered(old(v)@.subrange(lo as int, hi as int)) {
                    assert(v@ =~= old(v)@);
                }
            }
            i += 1;
        } else {
            proof {
                if strictly_ordered(old(v)@.subrange(lo as int, hi as int)) {
                    assert(old(v)@.subrange(lo as int, hi as int)[j - lo].precedes(
                        &old(v)@.subrange(lo as int, hi as int)[pivot_index - lo],
                    ));
                    assert(false);
                }
            }
        }
        j += 1;
    }
    let ghost pre = v@;
    swap(v, i, pivot_index);
    proof {
        lemma_swap_in_range_preserves_multiset(
            pre,
            lo as int,
            hi as int,
            i as int,
            pivot_index as int,
        );
        if strictly_ordered(old(v)@.subrange(lo as int, hi as int)) {
            assert(v@ =~= old(v)@);
        }
    }
    i
}

/// Quicksort over `v[lo..hi]`: the range is permuted; for a consistent
/// predicate it comes out ordered; a strictly ordered range is left exactly
/// as it was. Positions outside the range are untouched.
fn quick_sort_range<T: Sortable>(v: &mut Vec<T>, lo: usize, hi: usize)
    requires
        lo <= hi,
        hi <= old(v).len(),
    ensures
        final(v).len() == old(v).len(),
        final(v)@.subrange(lo as int, hi as int).to_multiset() == old(v)@.subrange(
            lo as int,
            hi as int,
        ).to_multiset(),
        forall|k: int| 0 <= k < final(v).len() && !(lo <= k < hi) ==> final(v)@[k] == old(v)@[k],
        consistent::<T>() ==> adjacent_ordered(final(v)@.subrange(lo as int, hi as int)),
        strictly_ordered(old(v)@.subrange(lo as int, hi as int)) ==> final(v)@ == old(v)@,
    decreases hi - lo,
{
    if hi - lo <= 1 {
        return ;
    }
    let ghost s0 = v@;
    let p = partition(v, lo, hi);
    let ghost s1 = v@;
    quick_sort_range(v, lo, p);
    let ghost s2 = v@;
    quick_sort_range(v, p + 1, hi);
    proof {
        let l = lo as int;
        let h = hi as int;
        let pi = p as int;
        // The left recursion left [p, hi) alone, the right one [lo, p + 1).
        assert(s2.subrange(pi, h) =~= s1.subrange(pi, h));
        assert(s2.subrange(l, pi).to_multiset() == s1.subrange(l, pi).to_multiset());
        assert(v@.subrange(l, pi + 1) =~= s2.subrange(l, pi + 1));
        lemma_split_multiset(s2, s1, l, pi, h);
        lemma_split_multiset(v@, s2, l, pi + 1, h);
        assert(v@.subrange(l, h).to_multiset() == s0.subrange(l, h).to_multiset());
        // Elements left of the pivot still precede it, those right of it
        // still do not: membership carries through the permutations.
        assert(v@[pi] == s1[pi]);
        assert(v@.subrange(l, pi) =~= s2.subrange(l, pi));
        lemma_same_multiset_same_members(v@.subrange(l, pi), s1.subrange(l, pi));
        lemma_same_multiset_same_members(v@.subrange(pi + 1, h), s2.subrange(pi + 1, h));
        assert(v@.subrange(pi + 1, h).to_multiset() == s1.subrange(pi + 1, h).to_multiset()) by {
            assert(s2.subrange(pi + 1, h) =~= s1.subrange(pi + 1, h));
        }
        lemma_same_multiset_same_members(v@.subrange(pi + 1, h), s1.subrange(pi + 1, h));
        assert forall|k: int| l <= k < pi implies #[trigger] v@[k].precedes(&v@[pi]) by {
            assert(v@.subrange(l, pi).contains(v@.subrange(l, pi)[k - l]));
            let m = choose|m: int|
                0 <= m < pi - l && #[trigger] s1.subrange(l, pi)[m] == v@.subrange(l, pi)[k - l];
            assert(s1[l + m].precedes(&s1[pi]));
        }
        assert forall|k: int| pi < k < h implies !(#[trigger] v@[k].precedes(&v@[pi])) by {
            assert(v@.subrange(pi + 1, h).contains(v@.subrange(pi + 1, h)[k - pi - 1]));
            let m = choose|m: int|
                0 <= m < h - pi - 1 && #[trigger] s1.subrange(pi + 1, h)[m] == v@.subrange(
                    pi + 1,
                    h,
                )[k - pi - 1];
            assert(!s1[pi + 1 + m].precedes(&s1[pi]));
        }
        if consistent::<T>() {
            let sub = v@.subrange(l, h);
            assert forall|k: int| 0 <= k && k + 1 < sub.len() implies !(#[trigger] sub[k
                + 1].precedes(&sub[k])) by {
                if k + 1 < pi - l {
                    assert(v@.subrange(l, pi)[k + 1] == sub[k + 1]);
                    assert(!v@.subrange(l, pi)[k + 1].precedes(&v@.subrange(l, pi)[k]));
                } else if k + 1 == pi - l {
                    lemma_consistent_asymmetric(v@[l + k], v@[pi]);
                } else if k == pi - l {
                    assert(!v@[pi + 1].precedes(&v@[pi]));
                } else {
                    let r = v@.subrange(pi + 1, h);
                    let m = k - (pi - l) - 1;
                    assert(!r[m + 1].precedes(&r[m]));
                    assert(r[m] == sub[k] && r[m + 1] == sub[k + 1]);
                }
            }
        }
        if strictly_ordered(s0.subrange(l, h)) {
            assert(s1 == s0 && pi == h - 1);
            assert(strictly_ordered(s1.subrange(l, pi))) by {
                assert forall|a: int, b: int| 0 <= a < b < pi - l implies #[trigger] s1.subrange(
                    l,
                    pi,
                )[a].precedes(&s1.subrange(l, pi)[b]) by {
                    assert(s0.subrange(l, h)[a].precedes(&s0.subrange(l, h)[b]));
                }
            }
            assert(s2 == s1);
            assert(strictly_ordered(s2.subrange(pi + 1, h)));
            assert(v@ == s2);
        }
    }
}

/// Sorts the whole sequence in place with quicksort. The result is a
/// permutation of the input; for a consistent predicate no element precedes
/// its predecessor; a strictly ordered input is returned unchanged.
pub fn quick_sort<T: Sortable>(input: &mut Vec<T>)
    ensures
        final(input).len() == old(input).len(),
        final(input)@.to_multiset() == old(input)@.to_multiset(),
        consistent::<T>() ==> adjacent_ordered(final(input)@),
        strictly_ordered(old(input)@) ==> final(input)@ == old(input)@,
        old(input)@.len() <= 1 ==> final(input)@ == old(input)@,
{
    let n = input.len();
    if n <= 1 {
        return ;
    }
    quick_sort_range(input, 0, n);
    proof {
        assert(old(input)@.subrange(0, n as int) =~= old(input)@);
        assert(input@.subrange(0, n as int) =~= input@);
    }
}

/// Sorts the whole sequence in place with selection sort: each round finds
/// the remaining element that precedes all others and swaps it into place.
/// The result is a permutation of the input; for a consistent predicate no
/// later element precedes an earlier one, at any distance; an input already
/// in that order is returned unchanged.
pub fn selection_sort<T: Sortable>(input: &mut Vec<T>)
    ensures
        final(input).len() == old(input).len(),
        final(input)@.to_multiset() == old(input)@.to_multiset(),
        consistent::<T>() ==> adjacent_ordered(final(input)@),
        consistent::<T>() ==> fully_ordered(final(input)@),
        fully_ordered(old(input)@) ==> final(input)@ == old(input)@,
        old(input)@.len() <= 1 ==> final(input)@ == old(input)@,
{
    if input.len() < 2 {
        return ;
    }
    let n = input.len();
    let mut i: usize = 0;
    while i < n
        invariant
            0 <= i <= n,
            n == input.len(),
            input.len() == old(input).len(),
            input@.to_multiset() == old(input)@.to_multiset(),
            consistent::<T>() ==> forall|k1: int, k2: int|
                0 <= k1 < k2 < n && k1 < i ==> !(#[trigger] input@[k2].precedes(&input@[k1])),
            fully_ordered(old(input)@) ==> input@ == old(input)@,
        decreases n - i,
    {
        let mut index_min: usize = i;
        let mut j: usize = i + 1;
        while j < n
            invariant
                0 <= i < n,
                i <= index_min < j <= n,
                n == input.len(),
                input.len() == old(input).len(),
                input@.to_multiset() == old(input)@.to_multiset(),
                consistent::<T>() ==> forall|k1: int, k2: int|
                    0 <= k1 < k2 < n && k1 < i ==> !(#[trigger] input@[k2].precedes(&input@[k1])),
                consistent::<T>() ==> forall|k: int|
                    i <= k < j ==> !(#[trigger] input@[k].precedes(&input@[index_min as int])),
                fully_ordered(old(input)@) ==> input@ == old(input)@ && index_min == i,
            decreases n - j,
        {
            if input[j].compare(&input[index_min]) {
                proof {
                    if consistent::<T>() {
                        assert forall|k: int| i <= k < j + 1 implies !(#[trigger] input@[
                        k].precedes(&input@[j as int])) by {
                            if k < j {
                                if input@[k].precedes(&input@[j as int]) {
                                    assert(input@[k].precedes(&input@[index_min as int]));
                                }
                            } else {
                                assert(!input@[j as int].precedes(&input@[j as int]));
                            }
                        }
                    }
                    if fully_ordered(old(input)@) {
                        assert(!input@[j as int].precedes(&input@[index_min as int]));
                        assert(false);
                    }
                }
                index_min = j;
            }
            j += 1;
        }
        let ghost pre = input@;
        if i != index_min {
            swap(input, i, index_min);
            proof {
                lemma_swap_preserves_multiset(pre, i as int, index_min as int);
            }
        }
        proof {
            if consistent::<T>() {
                assert forall|k1: int, k2: int|
                    0 <= k1 < k2 < n && k1 < i + 1 implies !(#[trigger] input@[k2].precedes(
                    &input@[k1],
                )) by {
                    if k1 < i {
                        if k2 == i {
                            assert(!pre[index_min as int].precedes(&pre[k1]));
                        } else if k2 == index_min {
                            assert(!pre[i as int].precedes(&pre[k1]));
                        } else {
                            assert(!pre[k2].precedes(&pre[k1]));
                        }
                    } else {
                        // k1 == i holds the chosen minimum; every element now
                        // right of it came from the scanned range.
                        if k2 == index_min {
                            assert(!pre[i as int].precedes(&pre[index_min as int]));
                        } else {
                            assert(!pre[k2].precedes(&pre[index_min as int]));
                        }
                    }
                }
            }
        }
        i += 1;
    }
    proof {
        if consistent::<T>() {
            assert forall|k: int| 0 <= k && k + 1 < input@.len() implies !(#[trigger] input@[k
                + 1].precedes(&input@[k])) by {
                assert(!input@[k + 1].precedes(&input@[k]));
            }
        }
    }
}

/// Sorts the whole sequence in place with insertion sort. Its inner loop
/// swaps while the left neighbour precedes the right one, so for a
/// consistent predicate the result has no element preceding its successor
/// (the reverse of the other algorithms' direction). Tied elements are never
/// swapped, so the algorithm is stable: a permutation witness keeps the
/// original relative order of tied elements, for any predicate. An input
/// already in that order is returned unchanged.
pub fn insert_sort<T: Sortable>(input: &mut Vec<T>)
    ensures
        final(input).len() == old(input).len(),
        final(input)@.to_multiset() == old(input)@.to_multiset(),
        consistent::<T>() ==> adjacent_ordered_rev(final(input)@),
        adjacent_ordered_rev(old(input)@) ==> final(input)@ == old(input)@,
        old(input)@.len() <= 1 ==> final(input)@ == old(input)@,
        exists|m: Seq<int>|
            #[trigger] reorders(m, final(input)@, old(input)@) && keeps_tied_order(
                m,
                old(input)@,
            ),
{
    let ghost mut m: Seq<int> = Seq::new(input@.len(), |k: int| k);
    proof {
        assert(reorders(m, input@, old(input)@));
    }
    if input.len() < 2 {
        return ;
    }
    let n = input.len();
    let mut i: usize = 1;
    while i < n
        invariant
            1 <= i <= n,
            n == input.len(),
            input.len() == old(input).len(),
            input@.to_multiset() == old(input)@.to_multiset(),
            reorders(m, input@, old(input)@),
            keeps_tied_order(m, old(input)@),
            consistent::<T>() ==> forall|k: int|
                0 <= k && k + 1 < i ==> !(#[trigger] input@[k].precedes(&input@[k + 1])),
            adjacent_ordered_rev(old(input)@) ==> input@ == old(input)@,
        decreases n - i,
    {
        let mut j: usize = i;
        while j > 0 && input[j - 1].compare(&input[j])
            invariant
                0 <= j <= i < n,
                n == input.len(),
                input.len() == old(input).len(),
                input@.to_multiset() == old(input)@.to_multiset(),
                reorders(m, input@, old(input)@),
                keeps_tied_order(m, old(input)@),
                consistent::<T>() ==> forall|k: int|
                    0 <= k && k + 1 <= i && k != j - 1 ==> !(#[trigger] input@[k].precedes(
                        &input@[k + 1],
                    )),
                consistent::<T>() ==> (0 < j < i ==> !input@[j - 1].precedes(&input@[j + 1])),
                adjacent_ordered_rev(old(input)@) ==> input@ == old(input)@ && j == i,
            decreases j,
        {
            let ghost pre = input@;
            let ghost mold = m;
            swap(input, j - 1, j);
            proof {
                m = mold.update(j - 1, mold[j as int]).update(j as int, mold[j - 1]);
                lemma_swap_preserves_multiset(pre, j - 1, j as int);
                assert forall|k1: int, k2: int|
                    0 <= k1 < k2 < m.len() && tied(
                        old(input)@[#[trigger] m[k1]],
                        old(input)@[#[trigger] m[k2]],
                    ) implies m[k1] < m[k2] by {
                    if k1 == j - 1 && k2 == j {
                        // The swapped pair is not tied: the left element
                        // strictly preceded the right one.
                        assert(tied(pre[j as int], pre[j - 1]));
                        assert(false);
                    }
                }
                if consistent::<T>() {
                    lemma_consistent_asymmetric(pre[j - 1], pre[j as int]);
                    if j >= 2 {
                        let k = j - 2;
                        assert(!pre[k].precedes(&pre[k + 1]));
                    }
                }
                if adjacent_ordered_rev(old(input)@) {
                    let k = j - 1;
                    assert(!old(input)@[k].precedes(&old(input)@[k + 1]));
                    assert(false);
                }
            }
            j -= 1;
        }
        proof {
            if consistent::<T>() {
                assert forall|k: int| 0 <= k && k + 1 <= i implies !(#[trigger] input@[k].precedes(
                    &input@[k + 1],
                )) by {
                    if k == j - 1 {
                        assert(!(j > 0 && input@[j - 1].precedes(&input@[j as int])));
                    }
                }
            }
        }
        i += 1;
    }
}

/// Merge sort over `v[lo..hi]`: each half is sorted recursively, then the two
/// are merged through a scratch buffer; on ties the right element is taken
/// first. Positions outside the range are untouched; a strictly ordered range
/// is left exactly as it was.
fn merge_sort_range<T: Sortable + Copy>(v: &mut Vec<T>, lo: usize, hi: usize)
    requires
        lo <= hi,
        hi <= old(v).len(),
    ensures
        final(v).len() == old(v).len(),
        final(v)@.subrange(lo as int, hi as int).to_multiset() == old(v)@.subrange(
            lo as int,
            hi as int,
        ).to_multiset(),
        forall|k: int| 0 <= k < final(v).len() && !(lo <= k < hi) ==> final(v)@[k] == old(v)@[k],
        consistent::<T>() ==> adjacent_ordered(final(v)@.subrange(lo as int, hi as int)),
        strictly_ordered(old(v)@.subrange(lo as int, hi as int)) ==> final(v)@ == old(v)@,
    decreases hi - lo,
{
    broadcast use vstd::seq_lib::lemma_multiset_commutative;
    broadcast use vstd::seq_lib::group_to_multiset_ensures;
    broadcast use vstd::multiset::group_multiset_axioms;

    if hi - lo < 2 {
        return ;
    }
    let l = lo;
    let h = hi;
    let mid = lo + (hi - lo) / 2;
    let ghost s0 = v@;
    proof {
        if strictly_ordered(s0.subrange(l as int, h as int)) {
            assert forall|a: int, b: int| 0 <= a < b < mid - lo implies #[trigger] s0.subrange(
                l as int,
                mid as int,
            )[a].precedes(&s0.subrange(l as int, mid as int)[b]) by {
                assert(s0.subrange(l as int, h as int)[a].precedes(
                    &s0.subrange(l as int, h as int)[b],
                ));
            }
        }
    }
    merge_sort_range(v, lo, mid);
    let ghost s1 = v@;
    proof {
        if strictly_ordered(s0.subrange(l as int, h as int)) {
            assert(s1 == s0);
            assert forall|a: int, b: int| 0 <= a < b < hi - mid implies #[trigger] s1.subrange(
                mid as int,
                h as int,
            )[a].precedes(&s1.subrange(mid as int, h as int)[b]) by {
                assert(s0.subrange(l as int, h as int)[a + (mid - lo)].precedes(
                    &s0.subrange(l as int, h as int)[b + (mid - lo)],
                ));
            }
        }
    }
    merge_sort_range(v, mid, hi);
    let ghost s = v@;
    proof {
        assert(s.subrange(l as int, mid as int) =~= s1.subrange(l as int, mid as int));
        assert(s1.subrange(mid as int, h as int) =~= s0.subrange(mid as int, h as int));
        lemma_split_multiset(s, s0, l as int, mid as int, h as int);
        if strictly_ordered(s0.subrange(l as int, h as int)) {
            assert(s == s0);
        }
    }
    let mut tmp: Vec<T> = Vec::new();
    let mut i = lo;
    let mut j = mid;
    while i < mid && j < hi
        invariant
            lo <= i <= mid <= j <= hi <= v.len(),
            lo < mid < hi,
            v@ == s,
            s.len() == old(v).len(),
            tmp@.len() == (i - lo) + (j - mid),
            tmp@.to_multiset() == (s.subrange(lo as int, i as int) + s.subrange(
                mid as int,
                j as int,
            )).to_multiset(),
            consistent::<T>() ==> adjacent_ordered(s.subrange(lo as int, mid as int)),
            consistent::<T>() ==> adjacent_ordered(s.subrange(mid as int, hi as int)),
            consistent::<T>() ==> adjacent_ordered(tmp@),
            consistent::<T>() ==> (tmp@.len() > 0 && i < mid ==> !s[i as int].precedes(
                &tmp@[tmp@.len() - 1],
            )),
            consistent::<T>() ==> (tmp@.len() > 0 && j < hi ==> !s[j as int].precedes(
                &tmp@[tmp@.len() - 1],
            )),
            strictly_ordered(old(v)@.subrange(lo as int, hi as int)) ==> (s == old(v)@ && j == mid
                && tmp@ =~= s.subrange(lo as int, i as int)),
        decreases (mid - i) + (hi - j),
    {
        let c = v[i].compare(&v[j]);
        let ghost t_pre = tmp@;
        if c {
            tmp.push(v[i]);
            proof {
                let x = s[i as int];
                let ta = s.subrange(lo as int, i as int);
                let tb = s.subrange(mid as int, j as int);
                vstd::seq_lib::to_multiset_build(t_pre, x);
                vstd::seq_lib::to_multiset_build(ta, x);
                vstd::seq_lib::lemma_multiset_commutative(ta, tb);
                vstd::seq_lib::lemma_multiset_commutative(ta.push(x), tb);
                assert(s.subrange(lo as int, i + 1) =~= ta.push(x));
                assert(tmp@.to_multiset() =~= (s.subrange(lo as int, i + 1) + tb).to_multiset());
                if consistent::<T>() {
                    lemma_consistent_asymmetric(s[i as int], s[j as int]);
                    if i + 1 < mid {
                        let k = i - lo;
                        assert(!s.subrange(lo as int, mid as int)[k + 1].precedes(
                            &s.subrange(lo as int, mid as int)[k],
                        ));
                    }
                    assert forall|k: int| 0 <= k && k + 1 < tmp@.len() implies !(
                    #[trigger] tmp@[k + 1].precedes(&tmp@[k])) by {
                        if k + 1 < t_pre.len() {
                            assert(!t_pre[k + 1].precedes(&t_pre[k]));
                        }
                    }
                }
                if strictly_ordered(old(v)@.subrange(lo as int, hi as int)) {
                    assert(tmp@ =~= s.subrange(lo as int, i + 1));
                }
            }
            i += 1;
        } else {
            tmp.push(v[j]);
            proof {
                let x = s[j as int];
                let ta = s.subrange(lo as int, i as int);
                let tb = s.subrange(mid as int, j as int);
                vstd::seq_lib::to_multiset_build(t_pre, x);
                vstd::seq_lib::to_multiset_build(tb, x);
                vstd::seq_lib::lemma_multiset_commutative(ta, tb);
                vstd::seq_lib::lemma_multiset_commutative(ta, tb.push(x));
                assert(s.subrange(mid as int, j + 1) =~= tb.push(x));
                assert(tmp@.to_multiset() =~= (ta + s.subrange(mid as int, j + 1)).to_multiset());
                if consistent::<T>() {
                    if j + 1 < hi {
                        let k = j - mid;
                        assert(!s.subrange(mid as int, hi as int)[k + 1].precedes(
                            &s.subrange(mid as int, hi as int)[k],
                        ));
                    }
                    assert forall|k: int| 0 <= k && k + 1 < tmp@.len() implies !(
                    #[trigger] tmp@[k + 1].precedes(&tmp@[k])) by {
                        if k + 1 < t_pre.len() {
                            assert(!t_pre[k + 1].precedes(&t_pre[k]));
                        }
                    }
                }
                if strictly_ordered(old(v)@.subrange(lo as int, hi as int)) {
                    let a = i - lo;
                    let b = j - lo;
                    assert(old(v)@.subrange(lo as int, hi as int)[a].precedes(
                        &old(v)@.subrange(lo as int, hi as int)[b],
                    ));
                    assert(false);
                }
            }
            j += 1;
        }
    }
    if i < mid {
        while i < mid
            invariant
                lo <= i <= mid <= j <= hi <= v.len(),
                lo < mid < hi,
                j == hi,
                v@ == s,
                s.len() == old(v).len(),
                tmp@.len() == (i - lo) + (hi - mid),
                tmp@.to_multiset() == (s.subrange(lo as int, i as int) + s.subrange(
                    mid as int,
                    hi as int,
                )).to_multiset(),
                consistent::<T>() ==> adjacent_ordered(s.subrange(lo as int, mid as int)),
                consistent::<T>() ==> adjacent_ordered(tmp@),
                consistent::<T>() ==> (tmp@.len() > 0 && i < mid ==> !s[i as int].precedes(
                    &tmp@[tmp@.len() - 1],
                )),
                strictly_ordered(old(v)@.subrange(lo as int, hi as int)) ==> false,
            decreases mid - i,
        {
            let ghost t_pre = tmp@;
            tmp.push(v[i]);
            proof {
                let x = s[i as int];
                let ta = s.subrange(lo as int, i as int);
                let tb = s.subrange(mid as int, hi as int);
                vstd::seq_lib::to_multiset_build(t_pre, x);
                vstd::seq_lib::to_multiset_build(ta, x);
                vstd::seq_lib::lemma_multiset_commutative(ta, tb);
                vstd::seq_lib::lemma_multiset_commutative(ta.push(x), tb);
                assert(s.subrange(lo as int, i + 1) =~= ta.push(x));
                assert(tmp@.to_multiset() =~= (s.subrange(lo as int, i + 1) + tb).to_multiset());
                if consistent::<T>() {
                    if i + 1 < mid {
                        let k = i - lo;
                        assert(!s.subrange(lo as int, mid as int)[k + 1].precedes(
                            &s.subrange(lo as int, mid as int)[k],
                        ));
                    }
                    assert forall|k: int| 0 <= k && k + 1 < tmp@.len() implies !(
                    #[trigger] tmp@[k + 1].precedes(&tmp@[k])) by {
                        if k + 1 < t_pre.len() {
                            assert(!t_pre[k + 1].precedes(&t_pre[k]));
                        }
                    }
                }
            }
            i += 1;
        }
    } else if j < hi {
        while j < hi
            invariant
                lo <= i <= mid <= j <= hi <= v.len(),
                lo < mid < hi,
                i == mid,
                v@ == s,
                s.len() == old(v).len(),
                tmp@.len() == (mid - lo) + (j - mid),
                tmp@.to_multiset() == (s.subrange(lo as int, mid as int) + s.subrange(
                    mid as int,
                    j as int,
                )).to_multiset(),
                consistent::<T>() ==> adjacent_ordered(s.subrange(mid as int, hi as int)),
                consistent::<T>() ==> adjacent_ordered(tmp@),
                consistent::<T>() ==> (tmp@.len() > 0 && j < hi ==> !s[j as int].precedes(
                    &tmp@[tmp@.len() - 1],
                )),
                strictly_ordered(old(v)@.subrange(lo as int, hi as int)) ==> (s == old(v)@ && tmp@
                    =~= s.subrange(lo as int, j as int)),
            decreases hi - j,
        {
            let ghost t_pre = tmp@;
            tmp.push(v[j]);
            proof {
                let x = s[j as int];
                let ta = s.subrange(lo as int, mid as int);
                let tb = s.subrange(mid as int, j as int);
                vstd::seq_lib::to_multiset_build(t_pre, x);
                vstd::seq_lib::to_multiset_build(tb, x);
                vstd::seq_lib::lemma_multiset_commutative(ta, tb);
                vstd::seq_lib::lemma_multiset_commutative(ta, tb.push(x));
                assert(s.subrange(mid as int, j + 1) =~= tb.push(x));
                assert(tmp@.to_multiset() =~= (ta + s.subrange(mid as int, j + 1)).to_multiset());
                if consistent::<T>() {
                    if j + 1 < hi {
                        let k = j - mid;
                        assert(!s.subrange(mid as int, hi as int)[k + 1].precedes(
                            &s.subrange(mid as int, hi as int)[k],
                        ));
                    }
                    assert forall|k: int| 0 <= k && k + 1 < tmp@.len() implies !(
                    #[trigger] tmp@[k + 1].precedes(&tmp@[k])) by {
                        if k + 1 < t_pre.len() {
                            assert(!t_pre[k + 1].precedes(&t_pre[k]));
                        }
                    }
                }
                if strictly_ordered(old(v)@.subrange(lo as int, hi as int)) {
                    assert(tmp@ =~= s.subrange(lo as int, j + 1));
                }
            }
            j += 1;
        }
    }
    proof {
        assert(s.subrange(lo as int, i as int) + s.subrange(mid as int, j as int) =~= s.subrange(
            lo as int,
            mid as int,
        ) + s.subrange(mid as int, hi as int));
        assert(s.subrange(lo as int, mid as int) + s.subrange(mid as int, hi as int) =~= s.subrange(
            lo as int,
            hi as int,
        ));
    }
    let mut k: usize = 0;
    while k < hi - lo
        invariant
            0 <= k <= hi - lo,
            lo < mid < hi,
            hi <= v@.len(),
            tmp@.len() == hi - lo,
            v@.len() == s.len(),
            s.len() == old(v).len(),
            forall|t: int| 0 <= t < k ==> #[trigger] v@[lo + t] == tmp@[t],
            forall|t: int| 0 <= t < v@.len() && !(lo <= t < lo + k) ==> #[trigger] v@[t] == s[t],
        decreases hi - lo - k,
    {
        let x = tmp[k];
        vstd::pervasive::VecAdditionalExecFns::set(v, lo + k, x);
        k += 1;
    }
    proof {
        assert forall|t: int| 0 <= t < hi - lo implies v@.subrange(lo as int, hi as int)[t]
            == tmp@[t] by {
            assert(v@[lo + t] == tmp@[t]);
        }
        assert(v@.subrange(lo as int, hi as int) =~= tmp@);
        assert forall|t: int| 0 <= t < v@.len() && !(lo <= t < hi) implies v@[t] == old(v)@[t] by {
            assert(v@[t] == s[t]);
        }
        if consistent::<T>() {
            assert(adjacent_ordered(v@.subrange(lo as int, hi as int)));
        }
        if strictly_ordered(old(v)@.subrange(lo as int, hi as int)) {
            assert(tmp@ =~= s.subrange(lo as int, hi as int));
            assert forall|t: int| 0 <= t < v@.len() implies v@[t] == old(v)@[t] by {
                if lo <= t < hi {
                    let u = t - lo;
                    assert(v@[lo + u] == tmp@[u]);
                    assert(tmp@[u] == s.subrange(lo as int, hi as int)[u]);
                } else {
                    assert(v@[t] == s[t]);
                }
            }
            assert(v@ =~= old(v)@);
        }
    }
}

/// Sorts the whole sequence in place with merge sort. The result is a
/// permutation of the input; for a consistent predicate no element precedes
/// its predecessor; a strictly ordered input is returned unchanged.
pub fn merge_sort<T: Sortable + Copy>(input: &mut Vec<T>)
    ensures
        final(input).len() == old(input).len(),
        final(input)@.to_multiset() == old(input)@.to_multiset(),
        consistent::<T>() ==> adjacent_ordered(final(input)@),
        strictly_ordered(old(input)@) ==> final(input)@ == old(input)@,
        old(input)@.len() <= 1 ==> final(input)@ == old(input)@,
{
    if input.len() < 2 {
        return ;
    }
    let n = input.len();
    merge_sort_range(input, 0, n);
    proof {
        assert(old(input)@.subrange(0, n as int) =~= old(input)@);
        assert(input@.subrange(0, n as int) =~= input@);
    }
}

} // verus!
