use advent2022::hill::vec2::Vec2;
use advent2022::rope::{count_tail_visits, move_rope, parse_line, tail_pos, RopeError};

const MOVES: &str = "R 4
U 4
L 3
D 1
R 4
D 1
L 5
R 2";

#[test]
fn tail_follows_head() {
    let test_data = vec![
        ((0, 0), (0, 0), (0, 0)),
        ((0, 1), (0, 0), (0, 0)),
        ((0, 2), (0, 0), (0, 1)),
        ((1, 2), (1, 0), (1, 1)),
        ((2, 2), (2, 0), (2, 1)),
        ((3, 2), (2, 0), (3, 1)),
    ];

    for (head, tail, expected) in test_data {
        let hv = Vec2::from(head);
        let tv = Vec2::from(tail);
        let ev = Vec2::from(expected);
        let r = tail_pos(&hv, &tv).unwrap();
        assert_eq!(r, ev, "{:?} {:?} expected {:?}, got {:?}", hv, tv, ev, r);
    }
}

#[test]
fn motions_as_text() {
    let test_data = vec![
        ("U 1", (1, (0, 1))),
        ("R 2", (2, (1, 0))),
        ("D 3", (3, (0, -1))),
        ("L 4", (4, (-1, 0))),
    ];

    for (input, (dir, v)) in test_data {
        let ev = Vec2::from(v);
        assert_eq!(parse_line(input).unwrap(), (dir, ev));
    }
}

#[test]
fn test_visit() {
    let head = Vec2::new(0, 0);
    let visits = count_tail_visits(&head, 2, &MOVES.lines().collect::<Vec<_>>()).unwrap();
    assert_eq!(visits, 13);
}

#[test]
fn test_visit_10() {
    let head = Vec2::new(0, 0);
    let visits = count_tail_visits(&head, 10, &MOVES.lines().collect::<Vec<_>>()).unwrap();
    assert_eq!(visits, 1);
}

#[test]
fn test_visit_10_2() {
    let test_data = "R 5
U 8
L 8
D 3
R 17
D 10
L 25
U 20";
    let head = Vec2::new(0, 0);
    let visits = count_tail_visits(&head, 10, &test_data.lines().collect::<Vec<_>>()).unwrap();
    assert_eq!(visits, 36);
}

#[test]
fn rope_errors() {
    let origin = Vec2::new(0, 0);
    assert_eq!(tail_pos(&Vec2::new(3, 2), &origin), Err(RopeError::Invalid));
    assert_eq!(tail_pos(&Vec2::new(5, 0), &origin), Ok(origin));
    assert_eq!(
        tail_pos(&Vec2::new(isize::MAX, 0), &Vec2::new(-1, 0)),
        Err(RopeError::TooFar)
    );
    assert_eq!(parse_line("U1"), Err(RopeError::ParseFailed));
    assert_eq!(parse_line("U x"), Err(RopeError::BadNumber));
    assert_eq!(parse_line("X 1"), Err(RopeError::BadDirection));
    assert_eq!(parse_line("X x"), Err(RopeError::BadNumber));
    assert_eq!(count_tail_visits(&origin, 0, &["U 1"]), Err(RopeError::NoKnots));
    assert_eq!(count_tail_visits(&origin, 0, &[]), Ok(0));
    assert_eq!(count_tail_visits(&origin, 0, &["U 0"]), Ok(0));
    assert_eq!(
        count_tail_visits(&Vec2::new(isize::MAX, 0), 2, &["R 1"]),
        Err(RopeError::TooFar)
    );
}

#[test]
fn one_step_of_a_rope() {
    let mut rope = vec![Vec2::new(2, 0), Vec2::new(1, 0), Vec2::new(0, 0)];
    assert_eq!(move_rope(&mut rope, &Vec2::new(1, 0)), Ok(()));
    assert_eq!(rope, vec![Vec2::new(3, 0), Vec2::new(2, 0), Vec2::new(1, 0)]);
    assert_eq!(move_rope(&mut rope, &Vec2::new(0, 1)), Ok(()));
    assert_eq!(rope, vec![Vec2::new(3, 1), Vec2::new(2, 0), Vec2::new(1, 0)]);
    assert_eq!(move_rope(&mut rope, &Vec2::new(0, 1)), Ok(()));
    assert_eq!(rope, vec![Vec2::new(3, 2), Vec2::new(3, 1), Vec2::new(2, 1)]);
}
