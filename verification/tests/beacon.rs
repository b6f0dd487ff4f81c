use advent2022::beacon::{
    get_cell, invalid_spaces_in_line, lr_boundaries, merge, parse, parse_line, project_onto,
    sensor_from, BeaconError, Cell, Sensor,
};
use advent2022::vec2::Vec2;

const TEST_DATA: &str = "Sensor at x=2, y=18: closest beacon is at x=-2, y=15
Sensor at x=9, y=16: closest beacon is at x=10, y=16
Sensor at x=13, y=2: closest beacon is at x=15, y=3
Sensor at x=12, y=14: closest beacon is at x=10, y=16
Sensor at x=10, y=20: closest beacon is at x=10, y=16
Sensor at x=14, y=17: closest beacon is at x=10, y=16
Sensor at x=8, y=7: closest beacon is at x=2, y=10
Sensor at x=2, y=0: closest beacon is at x=2, y=10
Sensor at x=0, y=11: closest beacon is at x=2, y=10
Sensor at x=20, y=14: closest beacon is at x=25, y=17
Sensor at x=17, y=20: closest beacon is at x=21, y=22
Sensor at x=16, y=7: closest beacon is at x=15, y=3
Sensor at x=14, y=3: closest beacon is at x=15, y=3
Sensor at x=20, y=1: closest beacon is at x=15, y=3";

fn sample() -> Vec<Sensor> {
    parse(&TEST_DATA.lines().collect::<Vec<_>>()).unwrap()
}

#[test]
fn first_sensor_of_the_sample() {
    let lines = TEST_DATA.lines().collect::<Vec<_>>();
    let parsed = parse_line(lines[0]).unwrap();
    let expected = Sensor::new(Vec2::new(2, 18), Vec2::new(-2, 15));
    assert_eq!(parsed, expected);
}

#[test]
fn test_empty() {
    let sensors = sample();
    assert_eq!(get_cell(Vec2::new(-3, 10), &sensors), Cell::Empty);
    assert_eq!(get_cell(Vec2::new(-2, 10), &sensors), Cell::InRange);
    assert_eq!(get_cell(Vec2::new(24, 10), &sensors), Cell::InRange);
    assert_eq!(get_cell(Vec2::new(25, 10), &sensors), Cell::Empty);

    assert_eq!(get_cell(Vec2::new(13, 11), &sensors), Cell::InRange);
    assert_eq!(get_cell(Vec2::new(14, 11), &sensors), Cell::Empty);
    assert_eq!(get_cell(Vec2::new(15, 11), &sensors), Cell::InRange);
}

#[test]
fn test_boundaries() {
    let sensors = sample();
    let (l, r) = lr_boundaries(&sensors);
    assert_eq!(l, -8);
    assert_eq!(r, 28);
}

#[test]
fn test_count() {
    let sensors = sample();
    assert_eq!(invalid_spaces_in_line(10, &sensors).unwrap(), 26);
}

#[test]
fn test_project() {
    let test = Sensor::new(Vec2::new(0, 11), Vec2::new(2, 10));

    let r = project_onto(10, &vec![test]).unwrap();
    assert_eq!(r, vec![(-2, 2)]);
}

#[test]
fn test_merge() {
    assert_eq!(merge((0, 5), (3, 10)), Some((0, 10)));
    assert_eq!(merge((3, 10), (0, 5)), Some((0, 10)));
    assert_eq!(merge((0, 5), (7, 10)), None);
    assert_eq!(merge((0, 5), (3, 4)), Some((0, 5)));
    assert_eq!(merge((3, 4), (0, 5)), Some((0, 5)));
    assert_eq!(merge((0, 5), (5, 6)), Some((0, 6)));
}

#[test]
fn merge_puts_ends_in_order() {
    assert_eq!(merge((5, 0), (10, 3)), Some((0, 10)));
    assert_eq!(merge((10, 7), (5, 0)), None);
    assert_eq!(merge((0, 5), (6, 7)), None);
    assert_eq!(merge((2, 2), (2, 2)), Some((2, 2)));
}

#[test]
fn sensor_and_beacon_places() {
    let sensors = sample();
    assert_eq!(get_cell(Vec2::new(2, 18), &sensors), Cell::Sensor);
    assert_eq!(get_cell(Vec2::new(2, 10), &sensors), Cell::Beacon);
    assert_eq!(sensors[0].distance(), 7);
    assert_eq!(sensors.len(), 14);
}

#[test]
fn projections_skip_sensors_out_of_reach() {
    let near = Sensor::new(Vec2::new(8, 7), Vec2::new(2, 10));
    let far = Sensor::new(Vec2::new(0, 100), Vec2::new(1, 100));
    let touching = Sensor::new(Vec2::new(3, 12), Vec2::new(3, 10));
    assert_eq!(
        project_onto(10, &vec![near, far, touching]).unwrap(),
        vec![(2, 14), (3, 3)]
    );
}

#[test]
fn report_errors() {
    assert_eq!(parse_line("Sensor at x=2, y=18"), Err(BeaconError::ExpectedTwo));
    assert_eq!(parse_line(""), Err(BeaconError::ExpectedTwo));
    assert_eq!(
        parse_line("x=1, y=2 x=3, y=4 x=5, y=6"),
        Err(BeaconError::ExpectedTwo)
    );
    assert_eq!(
        parse_line("x=1, y=99999999999999999999 and x=3, y=4"),
        Err(BeaconError::BadNumber)
    );
    assert_eq!(
        parse_line("x=\u{0661}, y=2 and x=3, y=4"),
        Err(BeaconError::BadNumber)
    );
    assert_eq!(
        parse(&["x=1, y=2 and x=3, y=4", "nothing"]),
        Err(BeaconError::ExpectedTwo)
    );
}

#[test]
fn sensors_from_what_was_found() {
    let found = vec![
        vec![Some("x=1, y=-2".to_string()), Some("1".to_string()), Some("-2".to_string())],
        vec![Some("x=30, y=4".to_string()), Some("30".to_string()), Some("4".to_string())],
    ];
    assert_eq!(sensor_from(&found), Ok(Sensor::new(Vec2::new(1, -2), Vec2::new(30, 4))));
    let short = vec![vec![Some("x=1".to_string()), Some("1".to_string())], found[1].clone()];
    assert_eq!(sensor_from(&short), Err(BeaconError::BadCapture));
    let silent = vec![found[0].clone(), vec![Some("x".to_string()), None, Some("4".to_string())]];
    assert_eq!(sensor_from(&silent), Err(BeaconError::BadCapture));
    assert_eq!(sensor_from(&found[0..1].to_vec()), Err(BeaconError::ExpectedTwo));
}
