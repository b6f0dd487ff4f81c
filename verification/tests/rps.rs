use advent2022::rps::{
    move_and_result_for_line, move_to_play, moves_for_line, score_for_game, total_scores, winner,
    Move, Player,
};

#[test]
fn check_rules() {
    assert_eq!(winner(&Move::Rock, &Move::Scissors), Player::Player(1));
    assert_eq!(winner(&Move::Scissors, &Move::Scissors), Player::Nobody);
    assert_eq!(winner(&Move::Scissors, &Move::Rock), Player::Player(2));
    assert_eq!(winner(&Move::Scissors, &Move::Paper), Player::Player(1));
    assert_eq!(winner(&Move::Paper, &Move::Rock), Player::Player(1));
}

#[test]
fn check_moves_for_line() {
    assert_eq!(moves_for_line("A X"), (Move::Rock, Move::Rock));
    assert_eq!(moves_for_line("B Y"), (Move::Paper, Move::Paper));
    assert_eq!(moves_for_line("C Z"), (Move::Scissors, Move::Scissors));
}

#[test]
fn check_scores_for_game1() {
    assert_eq!(score_for_game(&Move::Rock, &Move::Scissors), 3);
    assert_eq!(score_for_game(&Move::Rock, &Move::Paper), 8);
    assert_eq!(score_for_game(&Move::Rock, &Move::Rock), 4);
}

#[test]
fn check_test_data_rule1() {
    let test_data = vec![("A Y", 8), ("B X", 1), ("C Z", 6)];

    for (line, score) in test_data {
        let (them, me) = moves_for_line(line);
        assert_eq!(score_for_game(&them, &me), score);
    }
}

#[test]
fn check_move_and_result_for_line() {
    assert_eq!(move_and_result_for_line("A X"), (Move::Rock, Player::Player(1)));
    assert_eq!(move_and_result_for_line("B Y"), (Move::Paper, Player::Nobody));
    assert_eq!(move_and_result_for_line("C Z"), (Move::Scissors, Player::Player(2)));
}

#[test]
fn check_move_to_play() {
    assert_eq!(move_to_play(&Move::Rock, &Player::Player(1)), Move::Scissors);
    assert_eq!(move_to_play(&Move::Rock, &Player::Player(2)), Move::Paper);
    assert_eq!(move_to_play(&Move::Rock, &Player::Nobody), Move::Rock);
}

#[test]
fn check_test_data_rule2() {
    let test_data = vec![("A Y", 4), ("B X", 1), ("C Z", 7), ("B Z", 9)];

    for (line, score) in test_data {
        let (them, winner) = move_and_result_for_line(line);
        assert_eq!(score_for_game(&them, &move_to_play(&them, &winner)), score);
    }
}

#[test]
fn every_move_beats_one_and_loses_to_one() {
    for m in [Move::Rock, Move::Paper, Move::Scissors] {
        assert!(m.will_beat(&m.beats()));
        assert!(m.beaten_by().will_beat(&m));
        assert_eq!(m.beats().beaten_by(), m);
        assert!(!m.will_beat(&m));
    }
}

#[test]
fn totals_of_the_sample_guide() {
    assert_eq!(total_scores(&["A Y", "B X", "C Z"]), (15, 12));
    assert_eq!(total_scores(&[]), (0, 0));
}
