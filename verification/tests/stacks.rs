use advent2022::stacks::{
    parse_board, parse_move, play_move, play_move_2, rearrange, Board, Move, StackError,
};

const INPUT: &str = "    [D]    
[N] [C]    
[Z] [M] [P]
 1   2   3 

move 1 from 2 to 1
move 3 from 1 to 3
move 2 from 2 to 1
move 1 from 1 to 2";

#[test]
fn one_crate_at_a_time() {
    let mut lines = INPUT.lines();

    let board_lines = lines.by_ref().take_while(|l| !l.is_empty()).collect::<Vec<_>>();
    let mut board = parse_board(board_lines).unwrap();
    assert_eq!(board.columns.len(), 3);
    assert_eq!(board.columns[&1], vec!['Z', 'N']);
    assert_eq!(board.columns[&2], vec!['M', 'C', 'D']);
    assert_eq!(board.columns[&3], vec!['P']);

    for line in lines {
        let m = parse_move(line).unwrap();
        play_move(&mut board, &m).unwrap();
    }
    assert_eq!(board.columns[&1], vec!['C']);
    assert_eq!(board.columns[&2], vec!['M']);
    assert_eq!(board.columns[&3], vec!['P', 'D', 'N', 'Z']);
}

#[test]
fn main_test2() {
    let mut lines = INPUT.lines();

    let board_lines = lines.by_ref().take_while(|l| !l.is_empty()).collect::<Vec<_>>();
    let mut board = parse_board(board_lines).unwrap();
    assert_eq!(board.columns.len(), 3);
    assert_eq!(board.columns[&1], vec!['Z', 'N']);
    assert_eq!(board.columns[&2], vec!['M', 'C', 'D']);
    assert_eq!(board.columns[&3], vec!['P']);

    for line in lines {
        let m = parse_move(line).unwrap();
        play_move_2(&mut board, &m).unwrap();
    }
    assert_eq!(board.columns[&1], vec!['M']);
    assert_eq!(board.columns[&2], vec!['C']);
    assert_eq!(board.columns[&3], vec!['P', 'Z', 'N', 'D']);
}

#[test]
fn moves_as_text() {
    assert_eq!(parse_move("move 1 from 2 to 1"), Ok(Move::new(1, 2, 1)));
    assert_eq!(parse_move("3 4 5"), Ok(Move { how_many: 3, from: 4, to: 5 }));
    assert_eq!(parse_move("move 1 from 2"), Err(StackError::NoMove));
    assert_eq!(parse_move("move 1 from 2 to 3 to 4"), Err(StackError::NoMove));
    assert_eq!(parse_move("move -1 from 2 to 3"), Err(StackError::NoMove));
}

#[test]
fn board_errors() {
    assert_eq!(parse_board(vec![]).err(), Some(StackError::NoLabels));
    assert_eq!(parse_board(vec!["[A]", " 1   2 "]).err(), Some(StackError::ShortLine));
    assert_eq!(parse_board(vec![" \u{0f20} "]).err(), Some(StackError::BadLabel));
    let arabic = parse_board(vec!["[A]", " \u{0661} "]).unwrap();
    assert_eq!(arabic.columns[&49], vec!['A']);
    let empty = parse_board(vec![" 1   2 "]).unwrap();
    assert!(empty.columns.is_empty());
    assert!(Board::new().columns.is_empty());
}

#[test]
fn move_errors_leave_the_board() {
    let mut board = parse_board(vec!["[A] [B]", " 1   2 "]).unwrap();
    assert_eq!(play_move(&mut board, &Move::new(1, 3, 1)), Err(StackError::InvalidColumn));
    assert_eq!(play_move(&mut board, &Move::new(2, 1, 2)), Err(StackError::InvalidMove));
    assert_eq!(play_move_2(&mut board, &Move::new(1, 1, 3)), Err(StackError::InvalidColumn));
    assert_eq!(play_move(&mut board, &Move::new(0, 1, 3)), Ok(()));
    assert_eq!(play_move_2(&mut board, &Move::new(1, 1, 1)), Ok(()));
    assert_eq!(board.columns[&1], vec!['A']);
    assert_eq!(board.columns[&2], vec!['B']);
    assert_eq!(play_move(&mut board, &Move::new(1, 1, 2)), Ok(()));
    assert_eq!(board.columns[&1], Vec::<char>::new());
    assert_eq!(board.columns[&2], vec!['B', 'A']);
}

#[test]
fn rearranging_the_sample() {
    let lines = INPUT.lines().collect::<Vec<_>>();
    let board = rearrange(&lines).unwrap();
    assert_eq!(board.columns[&1], vec!['M']);
    assert_eq!(board.columns[&2], vec!['C']);
    assert_eq!(board.columns[&3], vec!['P', 'Z', 'N', 'D']);
    let drawing_only = rearrange(&lines[0..4]).unwrap();
    assert_eq!(drawing_only.columns[&2], vec!['M', 'C', 'D']);
    assert_eq!(rearrange(&lines[4..]).err(), Some(StackError::NoLabels));
    assert_eq!(
        rearrange(&["[A]", " 1 ", "", "move 1 from 1 to 2"]).err(),
        Some(StackError::InvalidColumn)
    );
    assert_eq!(rearrange(&["[A]", " 1 ", "", "lift it"]).err(), Some(StackError::NoMove));
}
