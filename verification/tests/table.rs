use cave_validator::{calculate_sums, find_dangerous_number, get_indexes};

#[test]
fn indexes() {
    let indexes = get_indexes(5, 1);
    assert_eq!(indexes, vec![4, 5, 6, 7, 8, 9, 10, 12, 13, 16]);
}

#[test]
fn sums() {
    let input = vec![
        35, 20, 15, 25, 47, 40, 62, 55, 65, 95, 102, 117, 150, 182, 127, 219, 299, 277, 309,
        576, 0, 0, 0, 0,
    ];
    let expected_sums = vec![
        55, 50, 60, 82, 35, 45, 67, 60, 40, 62, 55, 77, 72, 65, 87, 80, 87, 109, 102, 112, 102,
        95, 105, 135, 117, 127, 157, 164, 120, 150, 157, 172, 160, 167, 182, 215, 197, 212,
        245, 277, 219, 252, 284, 229, 267, 299, 244, 336, 332, 277, 369, 449, 309, 401, 481,
        459, 346, 426, 404, 436, 518, 496, 528, 795, 576, 608, 875, 299, 586, 853, 277, 277,
        885, 309, 309, 309, 576, 576, 576, 576,
    ];
    assert_eq!(
        calculate_sums(&input, 5).into_iter().collect::<Vec<u128>>(),
        expected_sums
    );
}

#[test]
fn sums_of_a_single_window() {
    let input: Vec<u128> = vec![1, 10, 100];
    assert_eq!(calculate_sums(&input, 3), vec![11, 101]);
}

#[test]
fn sums_row_by_row() {
    let input: Vec<u128> = vec![1, 2, 4, 8];
    assert_eq!(calculate_sums(&input, 2), vec![3, 6, 12]);
    assert_eq!(calculate_sums(&input, 3), vec![3, 5, 6, 10]);
    assert_eq!(calculate_sums(&input, 4), vec![3, 5, 9]);
}

#[test]
fn sums_are_empty_without_a_full_window() {
    let input: Vec<u128> = vec![1, 2, 3];
    assert_eq!(calculate_sums(&input, 4), Vec::<u128>::new());
    let empty: Vec<u128> = Vec::new();
    assert_eq!(calculate_sums(&empty, 1), Vec::<u128>::new());
}

#[test]
fn sums_are_empty_for_windows_of_one() {
    let input: Vec<u128> = vec![1, 2, 3];
    assert_eq!(calculate_sums(&input, 1), Vec::<u128>::new());
}

#[test]
fn sums_reach_the_largest_number() {
    let input: Vec<u128> = vec![u128::MAX - 7, 7, 0];
    assert_eq!(calculate_sums(&input, 2), vec![u128::MAX, 7]);
}

#[test]
fn indexes_of_the_first_window() {
    assert_eq!(get_indexes(5, 0), vec![0, 1, 2, 3, 4, 5, 6, 8, 9, 12]);
    assert_eq!(get_indexes(3, 0), vec![0, 1, 2]);
}

#[test]
fn indexes_of_small_windows() {
    assert_eq!(get_indexes(1, 7), Vec::<usize>::new());
    assert_eq!(get_indexes(2, 0), vec![0]);
    assert_eq!(get_indexes(2, 3), vec![3]);
    assert_eq!(get_indexes(3, 2), vec![4, 5, 6]);
}

#[test]
fn indexes_count_every_pair_once() {
    for size in 1..9usize {
        let indexes = get_indexes(size, 3);
        assert_eq!(indexes.len(), size * (size - 1) / 2);
        let mut sorted = indexes.clone();
        sorted.sort();
        sorted.dedup();
        assert_eq!(sorted.len(), indexes.len());
    }
}

#[test]
fn indexes_point_at_the_sums_of_the_window() {
    let input: Vec<u128> = vec![1, 10, 100, 1000, 10000, 100000, 0, 0];
    let sums = calculate_sums(&input, 3);
    let found: Vec<u128> = get_indexes(3, 2).into_iter().map(|i| sums[i]).collect();
    assert_eq!(found, vec![1100, 10100, 11000]);
}

#[test]
fn table_lookup_agrees_with_the_scan() {
    let cave: Vec<u128> = vec![
        35, 20, 15, 25, 47, 40, 62, 55, 65, 95, 102, 117, 150, 182, 127, 219, 299, 277, 309, 576,
    ];
    let size = 5;
    let mut data = cave.clone();
    data.extend(vec![0u128; size - 1]);
    let sums = calculate_sums(&data, size);
    let mut first_unsafe = None;
    for n in 0..cave.len() - size {
        let value = cave[n + size];
        let safe = get_indexes(size, n).into_iter().any(|i| sums[i] == value);
        if !safe && first_unsafe.is_none() {
            first_unsafe = Some((n + size, value));
        }
    }
    assert_eq!(first_unsafe, Some((14, 127)));
    assert_eq!(first_unsafe, find_dangerous_number(&cave, size));
}
