use tak_core::movegen::partition_number;
#[test]
fn test_partition_number_basic() {
    // partition 5 into 2 parts: should be [[1,4], [2,3], [3,2], [4,1]]
    let mut result = partition_number(5, 2);
    result.sort();
    let mut expected = vec![vec![1, 4], vec![2, 3], vec![3, 2], vec![4, 1]];
    expected.sort();
    assert_eq!(result, expected);
}

#[test]
fn test_partition_number_three_parts() {
    // partition 6 into 3 parts: should be [[1,1,4], [1,2,3], [1,3,2], [1,4,1], [2,1,3], [2,2,2], [2,3,1], [3,1,2], [3,2,1], [4,1,1]]
    let mut result = partition_number(6, 3);
    result.sort();
    let mut expected = vec![
        vec![1, 1, 4],
        vec![1, 2, 3],
        vec![1, 3, 2],
        vec![1, 4, 1],
        vec![2, 1, 3],
        vec![2, 2, 2],
        vec![2, 3, 1],
        vec![3, 1, 2],
        vec![3, 2, 1],
        vec![4, 1, 1],
    ];
    expected.sort();
    assert_eq!(result, expected);
}

#[test]
fn test_partition_number_single_part() {
    // partition 7 into 1 part: should be [[7]]
    let result = partition_number(7, 1);
    assert_eq!(result, vec![vec![7]]);
}

#[test]
fn test_partition_number_no_parts() {
    // partition 0 into 0 parts: should be []
    let result = partition_number(0, 0);
    assert_eq!(result, Vec::<Vec<usize>>::new());
}

#[test]
fn test_partition_number_invalid() {
    // partition 3 into 5 parts: not possible, should be []
    let result = partition_number(3, 5);
    assert_eq!(result, Vec::<Vec<usize>>::new());
}
