use advent2022::trees::HeightMap;

const TEST_DATA: &str = "30373
25512
65332
33549
35390";

#[test]
fn test() {
    let hm = HeightMap::from(TEST_DATA);
    assert_eq!(hm.count_visible(), 21);
}

#[test]
fn test2() {
    let hm = HeightMap::from(TEST_DATA);
    assert_eq!(hm.scenic_score(2, 1), 4);
    assert_eq!(hm.scenic_score(2, 3), 8);
    assert_eq!(hm.scenic_score(2, 0), 0);
}

#[test]
fn height_map_from_text() {
    let hm = HeightMap::from("12\n34\n");
    assert_eq!(hm.w, 2);
    assert_eq!(hm.h, 2);
    assert_eq!(hm.m, vec![1, 2, 3, 4]);
    assert_eq!(hm.height(1, 1), 4);
    assert_eq!(hm.height(0, 1), 3);
}

#[test]
fn inner_tree_hidden_on_all_sides() {
    let hm = HeightMap::from("999\n919\n999");
    assert!(!hm.visible(1, 1));
    assert!(hm.visible(0, 1));
    assert_eq!(hm.count_visible(), 8);
}

#[test]
fn tallest_tree_is_the_last_of_equals() {
    let hm = HeightMap::from("353\n000\n000");
    assert_eq!(hm.max_height_in_range(&vec![(0, 0), (1, 0), (2, 0)]), (1, 0, 5));
    assert_eq!(hm.max_height_in_range(&vec![(0, 0), (2, 0)]), (2, 0, 3));
}

#[test]
fn best_scenic_score_of_the_sample() {
    let hm = HeightMap::from(TEST_DATA);
    assert_eq!(hm.best_scenic_score(), 12);
    assert_eq!(hm.scenic_score(2, 2), 2);
    assert_eq!(HeightMap::from("5").best_scenic_score(), 0);
}
