use advent2022::error::Error;

#[test]
fn skeleton_test() {
    assert!(true);
}

#[test]
fn error_keeps_its_message() {
    let e = Error::new("Expected two ranges in 1-2".to_string());
    assert_eq!(e.message(), "Expected two ranges in 1-2");
}
