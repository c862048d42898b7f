use rbtree::sorting::bubble_sort;
use rbtree::sorting::bubble_sort::BubbleSort;
use rbtree::sorting::heap_sort;
use rbtree::sorting::heap_sort::HeapSort;
use rbtree::sorting::insertion_sort;
use rbtree::sorting::insertion_sort::InsertionSort;
use rbtree::sorting::merge_sort;
use rbtree::sorting::merge_sort::MergeSort;
use rbtree::sorting::quick_sort;
use rbtree::sorting::quick_sort::QuickSort;
use rbtree::sorting::selection_sort;
use rbtree::sorting::selection_sort::SelectionSort;
use rbtree::sorting::Sorter;

#[test]
fn test_all() {
    let list: Vec<u64> = vec![8, 4, 2, 17, 5, 3, 1, 13, 9, 6, 7, 12];
    let expected: Vec<u64> = vec![1, 2, 3, 4, 5, 6, 7, 8, 9, 12, 13, 17];
    let run = |sorter: &dyn Sorter| {
        let mut work = list.clone();
        sorter.sort(&mut work);
        work
    };
    assert_eq!(run(&BubbleSort), expected);
    assert_eq!(run(&HeapSort), expected);
    assert_eq!(run(&QuickSort {}), expected);
    assert_eq!(run(&InsertionSort), expected);
    assert_eq!(run(&SelectionSort), expected);
}

#[test]
fn merge_sorter_matches_the_others() {
    let list: Vec<u64> = vec![8, 4, 2, 17, 5, 3, 1, 13, 9, 6, 7, 12];
    let expected: Vec<u64> = vec![1, 2, 3, 4, 5, 6, 7, 8, 9, 12, 13, 17];
    let mut work = list.clone();
    MergeSort {}.sort(&mut work);
    assert_eq!(work, expected);
}

fn each_free_sort(input: &[u64], expected: &[u64]) {
    let sorts: [fn(&mut Vec<u64>); 6] = [
        bubble_sort::sort,
        heap_sort::sort,
        insertion_sort::sort,
        merge_sort::sort,
        quick_sort::sort,
        selection_sort::sort,
    ];
    for f in sorts {
        let mut work: Vec<u64> = input.to_vec();
        f(&mut work);
        assert_eq!(work, expected);
    }
}

#[test]
fn sorts_empty_and_single() {
    each_free_sort(&[], &[]);
    each_free_sort(&[7], &[7]);
}

#[test]
fn sorts_duplicates_and_reversed() {
    each_free_sort(&[5, 5, 5, 5], &[5, 5, 5, 5]);
    each_free_sort(&[9, 8, 7, 6, 5, 4, 3, 2, 1], &[1, 2, 3, 4, 5, 6, 7, 8, 9]);
    each_free_sort(&[2, 1, 2, 1, 2], &[1, 1, 2, 2, 2]);
}

#[test]
fn sorts_already_sorted() {
    each_free_sort(&[1, 2, 3, 4], &[1, 2, 3, 4]);
    each_free_sort(&[0, u64::MAX], &[0, u64::MAX]);
}
