use advent2022::cave::{
    bounds, drop_sand, parse_line, parse_lines, pour_until_full, pour_until_lost, CaveError,
    DropResult, PourError,
};
use advent2022::field::{Cell, Field, FieldError};
use advent2022::vec2::Vec2;

const TEST_DATA: &str = "498,4 -> 498,6 -> 496,6
503,4 -> 502,4 -> 502,9 -> 494,9";

fn sample() -> Vec<&'static str> {
    TEST_DATA.lines().collect()
}

#[test]
fn first_path_of_the_sample() {
    let mut l = TEST_DATA.lines();
    let first = l.next().unwrap();
    assert_eq!(
        parse_line(first).unwrap(),
        vec![Vec2::new(498, 4), Vec2::new(498, 6), Vec2::new(496, 6)]
    );
}

#[test]
fn test_draw_lines() {
    let l = "498,4 -> 498,6 -> 496,6";
    let points = parse_line(l).unwrap();
    let (top_left, bottom_right) = bounds(&points).unwrap();
    let mut f = Field::new(top_left, bottom_right);

    f.draw_lines(&parse_line(l).unwrap()).unwrap();
    assert_eq!(f.get(Vec2::new(498, 4)).unwrap(), Cell::Rock);
    assert_eq!(f.get(Vec2::new(498, 5)).unwrap(), Cell::Rock);
    assert_eq!(f.get(Vec2::new(498, 6)).unwrap(), Cell::Rock);
    assert_eq!(f.get(Vec2::new(497, 6)).unwrap(), Cell::Rock);
    assert_eq!(f.get(Vec2::new(496, 6)).unwrap(), Cell::Rock);
}

#[test]
fn test_drop() {
    let mut field = parse_lines(&sample(), false).unwrap();

    drop_sand(&mut field, Vec2::new(500, 0)).unwrap();
    drop_sand(&mut field, Vec2::new(500, 0)).unwrap();
    drop_sand(&mut field, Vec2::new(500, 0)).unwrap();
    drop_sand(&mut field, Vec2::new(500, 0)).unwrap();
    drop_sand(&mut field, Vec2::new(500, 0)).unwrap();

    assert_eq!(field.get(Vec2::new(500, 8)).unwrap(), Cell::Sand);
    assert_eq!(field.get(Vec2::new(499, 8)).unwrap(), Cell::Sand);
    assert_eq!(field.get(Vec2::new(501, 8)).unwrap(), Cell::Sand);
    assert_eq!(field.get(Vec2::new(500, 7)).unwrap(), Cell::Sand);
    assert_eq!(field.get(Vec2::new(498, 8)).unwrap(), Cell::Sand);
}

#[test]
fn test_drop_lots() {
    let mut field = parse_lines(&sample(), true).unwrap();
    for i in 0..100 {
        let r = drop_sand(&mut field, Vec2::new(500, 0)).unwrap();
        match r {
            DropResult::Okay => assert!(i < 93),
            DropResult::OutOfBounds => assert!(false),
            DropResult::Full => assert!(i >= 93),
        }
    }
}

#[test]
fn sand_that_rests_before_the_abyss() {
    let mut field = parse_lines(&sample(), false).unwrap();
    let mut rested = 0;
    loop {
        match drop_sand(&mut field, Vec2::new(500, 0)).unwrap() {
            DropResult::Okay => rested += 1,
            DropResult::OutOfBounds => break,
            DropResult::Full => panic!("the source cannot fill up"),
        }
    }
    assert_eq!(rested, 24);
}

#[test]
fn frame_of_the_scan() {
    let field = parse_lines(&sample(), false).unwrap();
    assert!(field.in_bounds(Vec2::new(494, 0)));
    assert!(field.in_bounds(Vec2::new(503, 9)));
    assert!(!field.in_bounds(Vec2::new(493, 0)));
    assert!(!field.in_bounds(Vec2::new(494, -1)));
    assert!(!field.in_bounds(Vec2::new(504, 9)));
    assert!(!field.in_bounds(Vec2::new(503, 10)));
    assert_eq!(field.get(Vec2::new(502, 9)), Ok(Cell::Rock));
    assert_eq!(field.get(Vec2::new(503, 9)), Ok(Cell::Empty));
    let floored = parse_lines(&sample(), true).unwrap();
    assert!(floored.in_bounds(Vec2::new(294, 0)));
    assert!(floored.in_bounds(Vec2::new(703, 11)));
    assert!(!floored.in_bounds(Vec2::new(293, 0)));
    assert!(!floored.in_bounds(Vec2::new(703, 12)));
    assert_eq!(floored.get(Vec2::new(294, 11)), Ok(Cell::Rock));
    assert_eq!(floored.get(Vec2::new(703, 11)), Ok(Cell::Rock));
    assert_eq!(floored.get(Vec2::new(500, 10)), Ok(Cell::Empty));
}

#[test]
fn scan_errors() {
    assert_eq!(parse_line("498,4 -> 498").err(), Some(CaveError::BadPoint));
    assert_eq!(parse_line("").err(), Some(CaveError::BadPoint));
    assert_eq!(parse_lines(&["1,1 -> x,2"], false).err(), Some(CaveError::BadPoint));
    assert_eq!(parse_lines(&[], false).err(), Some(CaveError::NoPoints));
    assert_eq!(parse_lines(&["1,1 -> 3,2"], false).err(), Some(CaveError::Crooked));
    assert_eq!(
        parse_lines(&["0,0 -> 0,9223372036854775806"], true).err(),
        Some(CaveError::TooLarge)
    );
    assert_eq!(bounds(&[]).err(), Some(CaveError::NoPoints));
}

#[test]
fn bounds_are_the_smallest_rectangle() {
    let points = vec![Vec2::new(3, -2), Vec2::new(-1, 5), Vec2::new(0, 0)];
    assert_eq!(bounds(&points), Ok((Vec2::new(-1, -2), Vec2::new(3, 5))));
}

#[test]
fn drop_results() {
    let mut field = parse_lines(&["0,2 -> 2,2"], false).unwrap();
    assert_eq!(drop_sand(&mut field, Vec2::new(5, 5)), Err(FieldError::OutOfBounds));
    assert_eq!(drop_sand(&mut field, Vec2::new(1, 0)), Ok(DropResult::Okay));
    assert_eq!(field.get(Vec2::new(1, 1)), Ok(Cell::Sand));
    assert_eq!(drop_sand(&mut field, Vec2::new(1, 0)), Ok(DropResult::OutOfBounds));
    assert_eq!(drop_sand(&mut field, Vec2::new(1, 1)), Ok(DropResult::Full));
    assert_eq!(drop_sand(&mut field, Vec2::new(1, 2)), Ok(DropResult::Full));
    assert_eq!(field.get(Vec2::new(1, 0)), Ok(Cell::Empty));
}

#[test]
fn pouring_into_the_sample() {
    let mut open = parse_lines(&sample(), false).unwrap();
    assert_eq!(pour_until_lost(&mut open, Vec2::new(500, 0)), Ok(24));
    assert_eq!(open.get(Vec2::new(500, 2)), Ok(Cell::Sand));
    assert_eq!(open.get(Vec2::new(500, 1)), Ok(Cell::Empty));
    assert_eq!(pour_until_lost(&mut open, Vec2::new(500, 0)), Ok(0));
    let mut floored = parse_lines(&sample(), true).unwrap();
    assert_eq!(pour_until_full(&mut floored, Vec2::new(500, 0)), Ok(93));
    assert_eq!(floored.get(Vec2::new(500, 0)), Ok(Cell::Sand));
    assert_eq!(pour_until_full(&mut floored, Vec2::new(500, 0)), Ok(0));
    assert_eq!(pour_until_lost(&mut floored, Vec2::new(500, 0)), Err(PourError::Blocked));
    assert_eq!(pour_until_lost(&mut floored, Vec2::new(0, 0)), Err(PourError::OffField));
    let mut leaky = parse_lines(&sample(), false).unwrap();
    assert_eq!(pour_until_full(&mut leaky, Vec2::new(500, 0)), Err(PourError::Lost));
}
