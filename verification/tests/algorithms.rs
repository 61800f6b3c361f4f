use sortlib::Sortable;
use sortlib::sorting;

#[derive(Debug, PartialEq)]
struct Person {
    name: String,
    age: u32,
}

impl Sortable for Person {
    fn precedes(&self, other: &Self) -> bool {
        self.age > other.age
    }

    fn compare(&self, other: &Self) -> bool {
        self.age > other.age
    }
}

#[derive(Clone, Copy, Debug, PartialEq)]
struct Reading(f64);

impl Sortable for Reading {
    fn precedes(&self, other: &Self) -> bool {
        self.0 < other.0
    }

    fn compare(&self, other: &Self) -> bool {
        self.0 < other.0
    }
}

#[test]
fn test_quick_sort() {
    let mut numbers = vec![5, 2, 9, 1, 5, 6];
    sorting::quick_sort(&mut numbers);
    assert_eq!(numbers, vec![1, 2, 5, 5, 6, 9]);
}

#[test]
fn test_selection_sort() {
    let mut words = vec!["banana", "apple", "pear", "orange"];
    sorting::selection_sort(&mut words);
    assert_eq!(words, vec!["apple", "banana", "orange", "pear"]);
}

#[test]
fn test_insert_sort() {
    let mut person = vec![
        Person { name: "Alice".to_string(), age: 25 },
        Person { name: "Bob".to_string(), age: 30 },
        Person { name: "Charlie".to_string(), age: 20 },
    ];
    sorting::insert_sort(&mut person);
    assert_eq!(
        person,
        vec![
            Person { name: "Charlie".to_string(), age: 20 },
            Person { name: "Alice".to_string(), age: 25 },
            Person { name: "Bob".to_string(), age: 30 },
        ]
    );
}

#[test]
fn test_merge_sort() {
    let mut floats = vec![
        Reading(3.5),
        Reading(1.2),
        Reading(2.8),
        Reading(0.5),
        Reading(5.9),
    ];
    sorting::merge_sort(&mut floats);
    assert_eq!(
        floats,
        vec![
            Reading(0.5),
            Reading(1.2),
            Reading(2.8),
            Reading(3.5),
            Reading(5.9),
        ]
    );
}
