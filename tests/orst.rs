use zung::orst::{BubbleSorter, InsertionSorter, QuickSorter, SelectionSorter, Sorter};

#[test]
fn bubble_sorter_arbitrary_array() {
    let mut slice = vec![1, 5, 4, 2, 3];
    BubbleSorter.sort(&mut slice);
    assert_eq!(slice, [1, 2, 3, 4, 5]);
}

#[test]
fn bubble_sorter_sorted_array() {
    let mut slice = (1..10).collect::<Vec<_>>();
    BubbleSorter.sort(&mut slice);
    assert_eq!(slice, (1..10).collect::<Vec<_>>());
}

#[test]
fn bubble_sorter_very_unsorted() {
    let mut slice = (1..1000).rev().collect::<Vec<_>>();
    BubbleSorter.sort(&mut slice);
    assert_eq!(slice, (1..1000).collect::<Vec<_>>());
}

#[test]
fn bubble_sorter_simple_edge_cases() {
    let mut one = vec![1];
    BubbleSorter.sort(&mut one);
    assert_eq!(one, vec![1]);

    let mut two = vec![1, 2];
    BubbleSorter.sort(&mut two);
    assert_eq!(two, vec![1, 2]);

    let mut two = vec![2, 1];
    BubbleSorter.sort(&mut two);
    assert_eq!(two, vec![1, 2]);

    let mut three = vec![3, 1, 2];
    BubbleSorter.sort(&mut three);
    assert_eq!(three, vec![1, 2, 3]);
}

#[test]
fn insertion_sorter_arbitrary_array_smart() {
    let mut slice = vec![1, 5, 4, 2, 3];
    InsertionSorter { smart: true }.sort(&mut slice);
    assert_eq!(slice, [1, 2, 3, 4, 5]);
}

#[test]
fn insertion_sorter_arbitrary_array_lame() {
    let mut slice = vec![1, 5, 4, 2, 3];
    InsertionSorter { smart: false }.sort(&mut slice);
    assert_eq!(slice, [1, 2, 3, 4, 5]);
}

#[test]
fn insertion_sorter_sorted_array_smart() {
    let mut slice = (1..10).collect::<Vec<_>>();
    InsertionSorter { smart: true }.sort(&mut slice);
    assert_eq!(slice, (1..10).collect::<Vec<_>>());
}

#[test]
fn insertion_sorter_sorted_array_lame() {
    let mut slice = (1..10).collect::<Vec<_>>();
    InsertionSorter { smart: false }.sort(&mut slice);
    assert_eq!(slice, (1..10).collect::<Vec<_>>());
}

#[test]
fn insertion_sorter_very_unsorted_smart() {
    let mut slice = (1..1000).rev().collect::<Vec<_>>();
    InsertionSorter { smart: true }.sort(&mut slice);
    assert_eq!(slice, (1..1000).collect::<Vec<_>>());
}

#[test]
fn insertion_sorter_very_unsorted_lame() {
    let mut slice = (1..1000).rev().collect::<Vec<_>>();
    InsertionSorter { smart: false }.sort(&mut slice);
    assert_eq!(slice, (1..1000).collect::<Vec<_>>());
}

#[test]
fn insertion_sorter_simple_edge_cases_smart() {
    let mut one = vec![1];
    InsertionSorter { smart: true }.sort(&mut one);
    assert_eq!(one, vec![1]);

    let mut two = vec![1, 2];
    InsertionSorter { smart: true }.sort(&mut two);
    assert_eq!(two, vec![1, 2]);

    let mut two = vec![2, 1];
    InsertionSorter { smart: true }.sort(&mut two);
    assert_eq!(two, vec![1, 2]);

    let mut three = vec![3, 1, 2];
    InsertionSorter { smart: true }.sort(&mut three);
    assert_eq!(three, vec![1, 2, 3]);
}

#[test]
fn insertion_sorter_simple_edge_cases_lame() {
    let mut one = vec![1];
    InsertionSorter { smart: false }.sort(&mut one);
    assert_eq!(one, vec![1]);

    let mut two = vec![1, 2];
    InsertionSorter { smart: false }.sort(&mut two);
    assert_eq!(two, vec![1, 2]);

    let mut two = vec![2, 1];
    InsertionSorter { smart: false }.sort(&mut two);
    assert_eq!(two, vec![1, 2]);

    let mut three = vec![3, 1, 2];
    InsertionSorter { smart: false }.sort(&mut three);
    assert_eq!(three, vec![1, 2, 3]);
}

#[test]
fn quick_sorter_arbitrary_array() {
    let mut slice = vec![1, 5, 4, 2, 3];
    QuickSorter.sort(&mut slice);
    assert_eq!(slice, [1, 2, 3, 4, 5]);
}

#[test]
fn quick_sorter_sorted_array() {
    let mut slice = (1..10).collect::<Vec<_>>();
    QuickSorter.sort(&mut slice);
    assert_eq!(slice, (1..10).collect::<Vec<_>>());
}

#[test]
fn quick_sorter_very_unsorted() {
    let mut slice = (1..1000).rev().collect::<Vec<_>>();
    QuickSorter.sort(&mut slice);
    assert_eq!(slice, (1..1000).collect::<Vec<_>>());
}

#[test]
fn quick_sorter_simple_edge_cases() {
    let mut one = vec![1];
    QuickSorter.sort(&mut one);
    assert_eq!(one, vec![1]);

    let mut two = vec![1, 2];
    QuickSorter.sort(&mut two);
    assert_eq!(two, vec![1, 2]);

    let mut two = vec![2, 1];
    QuickSorter.sort(&mut two);
    assert_eq!(two, vec![1, 2]);

    let mut three = vec![3, 1, 2];
    QuickSorter.sort(&mut three);
    assert_eq!(three, vec![1, 2, 3]);
}

#[test]
fn selection_sorter_arbitrary_array_smart() {
    let mut slice = vec![1, 5, 4, 2, 3];
    SelectionSorter.sort(&mut slice);
    assert_eq!(slice, [1, 2, 3, 4, 5]);
}

#[test]
fn selection_sorter_arbitrary_array_lame() {
    let mut slice = vec![1, 5, 4, 2, 3];
    SelectionSorter.sort(&mut slice);
    assert_eq!(slice, [1, 2, 3, 4, 5]);
}

#[test]
fn selection_sorter_sorted_array_smart() {
    let mut slice = (1..10).collect::<Vec<_>>();
    SelectionSorter.sort(&mut slice);
    assert_eq!(slice, (1..10).collect::<Vec<_>>());
}

#[test]
fn selection_sorter_sorted_array_lame() {
    let mut slice = (1..10).collect::<Vec<_>>();
    SelectionSorter.sort(&mut slice);
    assert_eq!(slice, (1..10).collect::<Vec<_>>());
}

#[test]
fn selection_sorter_very_unsorted_smart() {
    let mut slice = (1..1000).rev().collect::<Vec<_>>();
    SelectionSorter.sort(&mut slice);
    assert_eq!(slice, (1..1000).collect::<Vec<_>>());
}

#[test]
fn selection_sorter_very_unsorted_lame() {
    let mut slice = (1..1000).rev().collect::<Vec<_>>();
    SelectionSorter.sort(&mut slice);
    assert_eq!(slice, (1..1000).collect::<Vec<_>>());
}

#[test]
fn selection_sorter_simple_edge_cases_smart() {
    let mut one = vec![1];
    SelectionSorter.sort(&mut one);
    assert_eq!(one, vec![1]);

    let mut two = vec![1, 2];
    SelectionSorter.sort(&mut two);
    assert_eq!(two, vec![1, 2]);

    let mut two = vec![2, 1];
    SelectionSorter.sort(&mut two);
    assert_eq!(two, vec![1, 2]);

    let mut three = vec![3, 1, 2];
    SelectionSorter.sort(&mut three);
    assert_eq!(three, vec![1, 2, 3]);
}

#[test]
fn selection_sorter_simple_edge_cases_lame() {
    let mut one = vec![1];
    SelectionSorter.sort(&mut one);
    assert_eq!(one, vec![1]);

    let mut two = vec![1, 2];
    SelectionSorter.sort(&mut two);
    assert_eq!(two, vec![1, 2]);

    let mut two = vec![2, 1];
    SelectionSorter.sort(&mut two);
    assert_eq!(two, vec![1, 2]);

    let mut three = vec![3, 1, 2];
    SelectionSorter.sort(&mut three);
    assert_eq!(three, vec![1, 2, 3]);
}

#[test]
fn works() {
    let mut things = vec![4, 2, 3, 5, 1];
    SelectionSorter.sort(&mut things);
    assert_eq!(things, &[1, 2, 3, 4, 5])
}

#[test]
fn quick_sorter_keeps_duplicates() {
    let mut v = vec![3, -1, 3, 0, -1, 7, 3];
    QuickSorter.sort(&mut v);
    assert_eq!(v, vec![-1, -1, 0, 3, 3, 3, 7]);
}

#[test]
fn sorters_handle_empty_input() {
    let mut v: Vec<i32> = Vec::new();
    BubbleSorter.sort(&mut v);
    InsertionSorter { smart: true }.sort(&mut v);
    InsertionSorter { smart: false }.sort(&mut v);
    SelectionSorter.sort(&mut v);
    QuickSorter.sort(&mut v);
    assert!(v.is_empty());
}
