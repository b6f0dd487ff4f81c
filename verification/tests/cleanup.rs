use advent2022::cleanup::{
    count_lines, count_pairs, either_contains, outer_contains_inner, overlaps_at_all, parse_line, parse_range,
};

#[test]
fn check_outer_containers_inner() {
    let test_data = vec![
        ((2, 4), (6, 8), false),
        ((2, 3), (4, 5), false),
        ((5, 7), (7, 9), false),
        ((2, 8), (3, 7), true),
        ((6, 6), (4, 6), false),
        ((2, 6), (4, 8), false),
    ];

    for (elf1, elf2, contained) in test_data {
        assert_eq!(
            outer_contains_inner(elf1, elf2),
            contained,
            "{:?} {:?} {}",
            elf1,
            elf2,
            contained
        );
    }
}

#[test]
fn check_is_contained() {
    let test_data = vec![
        ((2, 4), (6, 8), false),
        ((2, 3), (4, 5), false),
        ((5, 7), (7, 9), false),
        ((2, 8), (3, 7), true),
        ((6, 6), (4, 6), true),
        ((2, 6), (4, 8), false),
    ];

    for (elf1, elf2, contained) in test_data {
        assert_eq!(either_contains(elf1, elf2), contained);
    }
}

#[test]
fn check_overlap_at_all() {
    let test_data = vec![
        ((2, 4), (6, 8), false),
        ((2, 3), (4, 5), false),
        ((5, 7), (7, 9), true),
        ((2, 8), (3, 7), true),
        ((6, 6), (4, 6), true),
        ((2, 6), (4, 8), true),
    ];

    for (elf1, elf2, overlaps) in test_data {
        assert_eq!(overlaps_at_all(elf1, elf2), overlaps, "{:?} {:?}", elf1, elf2);
    }
}

#[test]
fn ranges_of_a_line() {
    let test_data = vec![("2-4,6-8", ((2, 4), (6, 8)))];

    for (line, ranges) in test_data {
        assert_eq!(parse_line(line).unwrap(), ranges);
    }
}

#[test]
fn range_errors_say_what_is_wrong() {
    assert_eq!(parse_range("2-4").unwrap(), (2, 4));
    assert_eq!(
        parse_range("2-4-6").unwrap_err().message(),
        "Expected two values separated by '-' in 2-4-6"
    );
    assert_eq!(
        parse_range("24").unwrap_err().message(),
        "Expected two values separated by '-' in 24"
    );
    assert_eq!(
        parse_range("2-x").unwrap_err().message(),
        "Could not parse 2-x as two numbers"
    );
    assert_eq!(
        parse_range("-4").unwrap_err().message(),
        "Could not parse -4 as two numbers"
    );
    assert_eq!(
        parse_line("2-4").unwrap_err().message(),
        "Expected two ranges in 2-4"
    );
    assert_eq!(
        parse_line("2-4,5").unwrap_err().message(),
        "Expected two values separated by '-' in 5"
    );
    assert_eq!(
        parse_line("2-4,5-4294967296").unwrap_err().message(),
        "Could not parse 5-4294967296 as two numbers"
    );
}

#[test]
fn counts_of_the_sample() {
    let lines = ["2-4,6-8", "2-3,4-5", "5-7,7-9", "2-8,3-7", "6-6,4-6", "2-6,4-8"];
    let pairs = lines.iter().map(|l| parse_line(l).unwrap()).collect::<Vec<_>>();
    assert_eq!(count_pairs(&pairs), (2, 4));
}

#[test]
fn counts_from_the_lines() {
    let lines = ["2-4,6-8", "2-3,4-5", "5-7,7-9", "2-8,3-7", "6-6,4-6", "2-6,4-8"];
    assert_eq!(count_lines(&lines).unwrap(), (2, 4));
    assert_eq!(
        count_lines(&["2-4,6-8", "2-4;6-8", "x"]).unwrap_err().message(),
        "Expected two ranges in 2-4;6-8"
    );
    assert_eq!(count_lines(&[]).unwrap(), (0, 0));
}
