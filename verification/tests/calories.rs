use advent2022::calories::{largest_totals, CaloriesError, FixedCapacityOrderedVec};

#[test]
fn construct() {
    let _ = FixedCapacityOrderedVec::new(5, |_: i32, _| true);
}

#[test]
fn insert_1() {
    let p = |lhs, rhs| lhs < rhs;
    let mut v = FixedCapacityOrderedVec::new(5, p);
    v.insert(1);

    let vec = v.vec();
    assert_eq!(vec, &vec![1]);
}

#[test]
fn insert_many() {
    let p = |lhs, rhs| lhs < rhs;
    let mut v = FixedCapacityOrderedVec::new(5, p);
    v.insert(1);
    v.insert(5);
    v.insert(4);
    v.insert(2);
    v.insert(3);

    let vec = v.vec();
    assert_eq!(vec, &vec![1, 2, 3, 4, 5]);
}

#[test]
fn insert_many_truncated() {
    let p = |lhs, rhs| lhs < rhs;
    let mut v = FixedCapacityOrderedVec::new(3, p);
    v.insert(1);
    v.insert(5);
    v.insert(4);
    v.insert(2);
    v.insert(3);

    let vec = v.vec();
    assert_eq!(vec, &vec![1, 2, 3]);
}

#[test]
fn largest_first_keeps_the_largest() {
    let mut v = FixedCapacityOrderedVec::new(3, |lhs: i32, rhs: i32| lhs > rhs);
    for total in [6000, 4000, 11000, 24000, 10000] {
        v.insert(total);
    }
    assert_eq!(v.vec(), &vec![24000, 11000, 10000]);
    assert_eq!(v.vec().iter().sum::<i32>(), 45000);
}

#[test]
fn equal_values_go_after_those_before_them() {
    let mut v = FixedCapacityOrderedVec::new(4, |lhs: (i32, char), rhs: (i32, char)| lhs.0 <= rhs.0);
    v.insert((1, 'a'));
    v.insert((1, 'b'));
    v.insert((0, 'c'));
    assert_eq!(v.vec(), &vec![(0, 'c'), (1, 'a'), (1, 'b')]);
}

#[test]
fn nothing_is_kept_without_room() {
    let mut v = FixedCapacityOrderedVec::new(0, |lhs: i32, rhs: i32| lhs < rhs);
    v.insert(1);
    assert!(v.vec().is_empty());
}

#[test]
fn largest_totals_of_the_sample() {
    let lines = [
        "1000", "2000", "3000", "", "4000", "", "5000", "6000", "", "7000", "8000", "9000", "",
        "10000",
    ];
    assert_eq!(largest_totals(&lines, 3), Ok(vec![24000, 11000, 10000]));
    assert_eq!(largest_totals(&lines, 1), Ok(vec![24000]));
}

#[test]
fn a_small_total_is_not_kept_while_there_is_room() {
    assert_eq!(largest_totals(&["10", "", "5", "", "7"], 3), Ok(vec![10]));
    assert_eq!(largest_totals(&["10", "", "5", "", "17"], 3), Ok(vec![17, 10]));
    assert_eq!(largest_totals(&["5", "", "10", "", "7"], 3), Ok(vec![10, 7, 5]));
    assert_eq!(largest_totals(&["10", "", "5", "", "3"], 3), Ok(vec![10]));
}

#[test]
fn totals_errors() {
    assert_eq!(largest_totals(&["10", "x"], 3), Err(CaloriesError::BadNumber));
    assert_eq!(largest_totals(&["2147483647", "1"], 3), Err(CaloriesError::TooMany));
    assert_eq!(largest_totals(&["10", "20"], 3), Err(CaloriesError::NoGroup));
    assert_eq!(largest_totals(&[], 3), Err(CaloriesError::NoGroup));
    assert_eq!(largest_totals(&["1", "", "2"], 0), Err(CaloriesError::NoGroup));
}
