use advent2022::field::{Cell, Field, FieldError};
use advent2022::vec2::Vec2;

#[test]
fn new_field_is_empty() {
    let f = Field::new(Vec2::new(494, 0), Vec2::new(503, 9));
    assert!(f.in_bounds(Vec2::new(494, 0)));
    assert!(f.in_bounds(Vec2::new(503, 9)));
    assert!(!f.in_bounds(Vec2::new(493, 0)));
    assert!(!f.in_bounds(Vec2::new(503, 10)));
    assert_eq!(f.get(Vec2::new(500, 5)), Ok(Cell::Empty));
    assert_eq!(f.get(Vec2::new(504, 5)), Err(FieldError::OutOfBounds));
    assert_eq!(f.cell_offset(Vec2::new(494, 0)), Ok(0));
    assert_eq!(f.cell_offset(Vec2::new(495, 1)), Ok(11));
    assert_eq!(f.cell_offset(Vec2::new(0, 0)), Err(FieldError::OutOfBounds));
}

#[test]
fn put_changes_one_cell() {
    let mut f = Field::new(Vec2::new(-1, -1), Vec2::new(1, 1));
    assert_eq!(f.put(Vec2::new(0, 0), Cell::Sand), Ok(()));
    assert_eq!(f.get(Vec2::new(0, 0)), Ok(Cell::Sand));
    assert_eq!(f.get(Vec2::new(1, 0)), Ok(Cell::Empty));
    assert_eq!(f.get(Vec2::new(0, 1)), Ok(Cell::Empty));
    assert_eq!(f.put(Vec2::new(2, 0), Cell::Sand), Err(FieldError::OutOfBounds));
}

#[test]
fn lines_are_drawn_between_points() {
    let mut f = Field::new(Vec2::new(0, 0), Vec2::new(4, 4));
    let path = vec![Vec2::new(0, 0), Vec2::new(3, 0), Vec2::new(3, 3), Vec2::new(1, 1)];
    assert_eq!(f.draw_lines(&path), Ok(()));
    for (x, y) in [(0, 0), (1, 0), (2, 0), (3, 0), (3, 1), (3, 2), (3, 3), (2, 2), (1, 1)] {
        assert_eq!(f.get(Vec2::new(x, y)), Ok(Cell::Rock), "{},{}", x, y);
    }
    for (x, y) in [(4, 0), (0, 1), (2, 1), (1, 2), (0, 4), (4, 4)] {
        assert_eq!(f.get(Vec2::new(x, y)), Ok(Cell::Empty), "{},{}", x, y);
    }
}

#[test]
fn a_single_point_draws_nothing() {
    let mut f = Field::new(Vec2::new(0, 0), Vec2::new(2, 2));
    assert_eq!(f.draw_lines(&vec![Vec2::new(1, 1)]), Ok(()));
    assert_eq!(f.get(Vec2::new(1, 1)), Ok(Cell::Empty));
    assert_eq!(f.draw_lines(&vec![]), Ok(()));
    assert_eq!(f.draw_lines(&vec![Vec2::new(1, 1), Vec2::new(1, 1)]), Ok(()));
    assert_eq!(f.get(Vec2::new(1, 1)), Ok(Cell::Rock));
}

#[test]
fn lines_that_leave_the_field_fail() {
    let mut f = Field::new(Vec2::new(0, 0), Vec2::new(2, 2));
    assert_eq!(
        f.draw_lines(&vec![Vec2::new(0, 0), Vec2::new(5, 0)]),
        Err(FieldError::OutOfBounds)
    );
    assert_eq!(f.get(Vec2::new(2, 0)), Ok(Cell::Rock));
    let mut g = Field::new(Vec2::new(0, 0), Vec2::new(4, 4));
    assert_eq!(
        g.draw_lines(&vec![Vec2::new(0, 0), Vec2::new(2, 1)]),
        Err(FieldError::OutOfBounds)
    );
    assert_eq!(g.draw_segment(Vec2::new(7, 7), Vec2::new(0, 0)), Err(FieldError::OutOfBounds));
}

#[test]
fn points_as_text() {
    assert_eq!(Vec2::from_text("498,4"), Some(Vec2::new(498, 4)));
    assert_eq!(Vec2::from_text("-3,+7"), Some(Vec2::new(-3, 7)));
    assert_eq!(Vec2::from_text("498"), None);
    assert_eq!(Vec2::from_text("498, 4"), None);
    assert_eq!(Vec2::from_text("a,4"), None);
}

#[test]
fn vec2_arithmetic() {
    let a = Vec2::new(2, 18);
    let b = Vec2::new(-2, 15);
    assert_eq!(a.manhattan(&b), 7);
    assert_eq!(a.direction_to(&b), Vec2::new(-1, -1));
    assert_eq!(a.add(&b), Vec2::new(0, 33));
    assert_eq!(a.sub(&b), Vec2::new(4, 3));
    assert_eq!(b.abs(), Vec2::new(2, 15));
    assert_eq!(Vec2::origin(), Vec2::from_pair((0, 0)));
    assert_eq!(a.to_pair(), (2, 18));
    assert_eq!(
        Vec2::new(isize::MIN, 0).direction_to(&Vec2::new(isize::MAX, 0)),
        Vec2::new(1, 0)
    );
}

#[test]
fn a_field_as_text() {
    let mut f = Field::new(Vec2::new(10, -1), Vec2::new(12, 0));
    f.put(Vec2::new(10, -1), Cell::Rock).unwrap();
    f.put(Vec2::new(12, 0), Cell::Sand).unwrap();
    assert_eq!(f.render(), "#..\n..o\n");
    let chars = "3,-4".chars().collect::<Vec<_>>();
    assert_eq!(Vec2::from_chars(&chars), Some(Vec2::new(3, -4)));
}
