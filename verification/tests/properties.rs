use sortlib::Sortable;
use sortlib::sorting;

/// An element whose predicate never holds: the pathological case every
/// algorithm must survive, returning some permutation of its input.
#[derive(Clone, Copy, Debug, PartialEq, Eq, PartialOrd, Ord)]
struct Opaque(u32);

impl Sortable for Opaque {
    fn precedes(&self, _other: &Self) -> bool {
        false
    }

    fn compare(&self, _other: &Self) -> bool {
        false
    }
}

/// A tagged element ranked by `key` alone; `tag` tells duplicates apart.
#[derive(Clone, Copy, Debug, PartialEq)]
struct Tagged {
    key: u32,
    tag: char,
}

impl Sortable for Tagged {
    fn precedes(&self, other: &Self) -> bool {
        self.key < other.key
    }

    fn compare(&self, other: &Self) -> bool {
        self.key < other.key
    }
}

fn is_permutation(a: &[Opaque], b: &[Opaque]) -> bool {
    let mut x = a.to_vec();
    let mut y = b.to_vec();
    x.sort();
    y.sort();
    x == y
}

#[test]
fn sorts_numbers_into_order() {
    let mut v: Vec<u64> = vec![9, 4, 7, 4, 1, 8, 0];
    sorting::quick_sort(&mut v);
    assert_eq!(v, vec![0, 1, 4, 4, 7, 8, 9]);

    let mut v: Vec<u64> = vec![9, 4, 7, 4, 1, 8, 0];
    sorting::selection_sort(&mut v);
    assert_eq!(v, vec![0, 1, 4, 4, 7, 8, 9]);

    let mut v: Vec<u64> = vec![9, 4, 7, 4, 1, 8, 0];
    sorting::merge_sort(&mut v);
    assert_eq!(v, vec![0, 1, 4, 4, 7, 8, 9]);
}

#[test]
fn insert_sort_orders_against_the_predicate() {
    // The insertion sort swaps while the left neighbour precedes the right
    // one, so with the natural ascending predicate it produces descending
    // output.
    let mut v: Vec<u64> = vec![3, 1, 2];
    sorting::insert_sort(&mut v);
    assert_eq!(v, vec![3, 2, 1]);
}

#[test]
fn sorting_a_sorted_sequence_changes_nothing() {
    let sorted: Vec<i64> = vec![-3, 0, 2, 5, 9];
    let mut v = sorted.clone();
    sorting::quick_sort(&mut v);
    assert_eq!(v, sorted);

    let mut v = sorted.clone();
    sorting::selection_sort(&mut v);
    assert_eq!(v, sorted);

    let mut v = sorted.clone();
    sorting::merge_sort(&mut v);
    assert_eq!(v, sorted);

    // Insertion sort's own output order is descending.
    let rev: Vec<i64> = vec![9, 5, 2, 0, -3];
    let mut v = rev.clone();
    sorting::insert_sort(&mut v);
    assert_eq!(v, rev);
}

#[test]
fn sorting_twice_equals_sorting_once() {
    let mut v: Vec<u32> = vec![6, 2, 6, 1];
    sorting::quick_sort(&mut v);
    let once = v.clone();
    sorting::quick_sort(&mut v);
    assert_eq!(v, once);

    let mut v: Vec<u32> = vec![6, 2, 6, 1];
    sorting::insert_sort(&mut v);
    let once = v.clone();
    sorting::insert_sort(&mut v);
    assert_eq!(v, once);
}

#[test]
fn empty_and_single_sequences_are_unchanged() {
    let mut e: Vec<i32> = vec![];
    sorting::quick_sort(&mut e);
    assert_eq!(e, vec![]);
    sorting::selection_sort(&mut e);
    assert_eq!(e, vec![]);
    sorting::insert_sort(&mut e);
    assert_eq!(e, vec![]);
    sorting::merge_sort(&mut e);
    assert_eq!(e, vec![]);

    let mut s: Vec<i32> = vec![42];
    sorting::quick_sort(&mut s);
    assert_eq!(s, vec![42]);
    sorting::selection_sort(&mut s);
    assert_eq!(s, vec![42]);
    sorting::insert_sort(&mut s);
    assert_eq!(s, vec![42]);
    sorting::merge_sort(&mut s);
    assert_eq!(s, vec![42]);
}

#[test]
fn insert_sort_keeps_tied_elements_in_order() {
    // Duplicate keys with distinguishable tags: insertion sort never swaps a
    // tied pair, so tags of equal keys keep their input order.
    let input = vec![
        Tagged { key: 2, tag: 'a' },
        Tagged { key: 1, tag: 'b' },
        Tagged { key: 2, tag: 'c' },
        Tagged { key: 1, tag: 'd' },
    ];
    let mut v = input.clone();
    sorting::insert_sort(&mut v);
    assert_eq!(
        v,
        vec![
            Tagged { key: 2, tag: 'a' },
            Tagged { key: 2, tag: 'c' },
            Tagged { key: 1, tag: 'b' },
            Tagged { key: 1, tag: 'd' },
        ]
    );
}

#[test]
fn merge_sort_routes_ties_to_the_right() {
    // The merge step takes the right element whenever the left one does not
    // strictly precede it, so a tied pair comes out with the right half's
    // element first: the documented tie-break rule, not stability.
    let mut v = vec![Tagged { key: 1, tag: 'a' }, Tagged { key: 1, tag: 'b' }];
    sorting::merge_sort(&mut v);
    assert_eq!(
        v,
        vec![Tagged { key: 1, tag: 'b' }, Tagged { key: 1, tag: 'a' }]
    );
}

#[test]
fn a_predicate_that_never_holds_still_permutes() {
    let input = vec![Opaque(3), Opaque(1), Opaque(4), Opaque(1), Opaque(5)];

    let mut v = input.clone();
    sorting::quick_sort(&mut v);
    assert!(is_permutation(&v, &input));

    let mut v = input.clone();
    sorting::selection_sort(&mut v);
    assert!(is_permutation(&v, &input));

    let mut v = input.clone();
    sorting::insert_sort(&mut v);
    assert!(is_permutation(&v, &input));

    let mut v = input.clone();
    sorting::merge_sort(&mut v);
    assert!(is_permutation(&v, &input));
}

#[test]
fn strings_compare_by_bytes_with_prefix_first() {
    let mut v = vec!["ba", "b", "", "a"];
    sorting::selection_sort(&mut v);
    assert_eq!(v, vec!["", "a", "b", "ba"]);
}
