use advent2022::rucksack::{
    check_rucksack, find_common_in_group, score, set_from_string, split_rucksack,
    total_priorities,
};

#[test]
fn check_line() {
    assert_eq!(check_rucksack("vJrwpWtwJgWrhcsFMMfFFhFp"), Some('p'));
}

#[test]
fn check_split_rucksack() {
    assert_eq!(split_rucksack("rucksack"), ("ruck", "sack"));
}

#[test]
fn check_score() {
    let test_cases = [('a', 1), ('z', 26), ('A', 27), ('Z', 52)];
    for (c, s) in test_cases {
        assert_eq!(score(&c), s, "{} => {}", c, s);
    }
}

#[test]
fn check_test_data() {
    let test_data = vec![
        "vJrwpWtwJgWrhcsFMMfFFhFp",
        "jqHRNqRjqzjGDLGLrsFMfFZSrLrFZsSL",
        "PmmdzqPrVvPwwTWBwg",
        "wMqvLMZHhHMvwLHjbvcjnnSBnvTQFn",
        "ttgJtRGJQctTZtZT",
        "CrZsJsPPZsGzwwsLwLmpwMDw",
    ];

    let mut total_score = 0;
    for line in test_data {
        if let Some(duplicate) = check_rucksack(&line) {
            total_score += score(&duplicate);
        }
    }

    assert_eq!(total_score, 157);
}

#[test]
fn check_find_common_in_group() {
    let group: Vec<String> = vec![
        "vJrwpWtwJgWrhcsFMMfFFhFp".to_string(),
        "jqHRNqRjqzjGDLGLrsFMfFZSrLrFZsSL".to_string(),
        "PmmdzqPrVvPwwTWBwg".to_string(),
    ];

    let common = find_common_in_group(&group);

    assert_eq!(common, 'r');
}

#[test]
fn second_group_of_the_sample() {
    let group: Vec<String> = vec![
        "wMqvLMZHhHMvwLHjbvcjnnSBnvTQFn".to_string(),
        "ttgJtRGJQctTZtZT".to_string(),
        "CrZsJsPPZsGzwwsLwLmpwMDw".to_string(),
    ];
    assert_eq!(find_common_in_group(&group), 'Z');
    assert_eq!(score(&'Z') + score(&'r'), 70);
}

#[test]
fn items_are_listed_once() {
    assert_eq!(set_from_string("abcabca"), vec!['a', 'b', 'c']);
    assert_eq!(set_from_string(""), Vec::<char>::new());
}

#[test]
fn nothing_in_common() {
    assert_eq!(check_rucksack("abcdef"), None);
    assert_eq!(check_rucksack(""), None);
    assert_eq!(split_rucksack("\u{e9}\u{e9}"), ("\u{e9}", "\u{e9}"));
}

#[test]
fn totals_of_the_sample() {
    let lines: Vec<String> = [
        "vJrwpWtwJgWrhcsFMMfFFhFp",
        "jqHRNqRjqzjGDLGLrsFMfFZSrLrFZsSL",
        "PmmdzqPrVvPwwTWBwg",
        "wMqvLMZHhHMvwLHjbvcjnnSBnvTQFn",
        "ttgJtRGJQctTZtZT",
        "CrZsJsPPZsGzwwsLwLmpwMDw",
    ]
    .iter()
    .map(|l| l.to_string())
    .collect();
    assert_eq!(total_priorities(&lines), (157, 70));
    assert_eq!(total_priorities(&lines[0..5]), (16 + 38 + 42 + 22 + 20, 18));
    assert_eq!(total_priorities(&[]), (0, 0));
}
