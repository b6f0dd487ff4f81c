use advent2022::tuning::Detector;

#[test]
fn detector_test() {
    let test_data = vec![
        ("bvwbjplbgvbhsrlpgdmjqwftvncz", Some(5)),
        ("nppdvjthqldpwncqszvftbrmjlhg", Some(6)),
        ("nznrnfrfntjfmvfwmzdfjlvtqnbhcprsg", Some(10)),
        ("zcfzfwzzqfrljwzlrfnpqdbhtmscgvjw", Some(11)),
        ("abcd", Some(4)),
        ("abc", None),
    ];
    for (input, expected) in test_data {
        let mut detector = Detector::new(4);
        assert_eq!(detector.detect(input), expected, "{}", input);
    }
}

#[test]
fn message_markers() {
    let test_data = vec![
        ("mjqjpqmgbljsphdztnvjfqwrcgsmlb", Some(19)),
        ("bvwbjplbgvbhsrlpgdmjqwftvncz", Some(23)),
        ("nznrnfrfntjfmvfwmzdfjlvtqnbhcprsg", Some(29)),
    ];
    for (input, expected) in test_data {
        let mut detector = Detector::new(14);
        assert_eq!(detector.detect(input), expected, "{}", input);
    }
}

#[test]
fn push_and_check_keeps_a_window() {
    let mut d = Detector::new(3);
    assert!(!d.push_and_check('a'));
    assert!(!d.push_and_check('a'));
    assert!(!d.push_and_check('b'));
    assert!(d.push_and_check('c'));
    assert!(!d.push_and_check('b'));
    assert!(d.push_and_check('a'));
}

#[test]
fn a_detector_goes_on_where_it_stopped() {
    let mut d = Detector::new(3);
    assert_eq!(d.detect("aab"), None);
    assert_eq!(d.detect("cxy"), Some(1));
}

#[test]
fn no_run_of_length_zero() {
    let mut d = Detector::new(0);
    assert_eq!(d.detect("abc"), None);
}
