use calckit::intervals::merge_intervals;
use calckit::sorting::sort;

#[test]
fn test_merge_intervals_1() {
    let intervals = vec![vec![1, 3], vec![2, 6], vec![8, 10], vec![15, 18]];
    let result = merge_intervals(intervals);
    println!("Merged intervals: {:?}", result);
    assert_eq!(result, vec![vec![1, 6], vec![8, 10], vec![15, 18]]);
}

#[test]
fn test_merge_intervals_2() {
    let intervals = vec![vec![1, 4], vec![4, 5]];
    let result = merge_intervals(intervals);
    println!("Merged intervals: {:?}", result);
    assert_eq!(result, vec![vec![1, 5]]);
}

#[test]
fn test_merge_intervals_3() {
    let intervals = vec![vec![1, 4], vec![0, 4]];
    let result = merge_intervals(intervals);
    println!("Merged intervals: {:?}", result);
    assert_eq!(result, vec![vec![0, 4]]);
}

#[test]
fn test_merge_intervals_4() {
    let intervals = vec![vec![1, 10], vec![2, 6], vec![8, 10]];
    let result = merge_intervals(intervals);
    println!("Merged intervals: {:?}", result);
    assert_eq!(result, vec![vec![1, 10]]);
}

#[test]
fn test_merge_intervals_5() {
    let intervals = vec![vec![1, 2], vec![3, 5], vec![4, 7], vec![8, 10]];
    let result = merge_intervals(intervals);
    println!("Merged intervals: {:?}", result);
    assert_eq!(result, vec![vec![1, 2], vec![3, 7], vec![8, 10]]);
}

#[test]
fn test_merge_intervals_empty() {
    let result = merge_intervals(Vec::new());
    assert_eq!(result, Vec::<Vec<i32>>::new());
}

#[test]
fn test_sort_1() {
    let mut vec = vec![37, 73, 57, 75, 91, 19, 46, 64];
    sort(&mut vec);
    assert_eq!(vec, vec![19, 37, 46, 57, 64, 73, 75, 91]);
}

#[test]
fn test_sort_2() {
    let mut vec = vec![1];
    sort(&mut vec);
    assert_eq!(vec, vec![1]);
}

#[test]
fn test_sort_3() {
    let mut vec = vec![99, 88, 77, 66, 55, 44, 33, 22, 11];
    sort(&mut vec);
    assert_eq!(vec, vec![11, 22, 33, 44, 55, 66, 77, 88, 99]);
}

#[test]
fn test_sort_duplicates_and_negatives() {
    let mut vec = vec![5, -3, 5, 0, -3, 2];
    sort(&mut vec);
    assert_eq!(vec, vec![-3, -3, 0, 2, 5, 5]);
}
