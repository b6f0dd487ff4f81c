//! Rock, paper, scissors: who wins a game, what a line of the strategy
//! guide says, and what a game scores.
use crate::text::{chars_of, is_str, split, split_on, views};
use vstd::prelude::*;

verus! {

#[derive(PartialEq, Eq, Debug, Copy, Clone, Structural)]
pub enum Move {
    Rock,
    Paper,
    Scissors,
}

#[derive(Debug, PartialEq, Eq, Copy, Clone, Structural)]
pub enum Player {
    Player(u32),
    Nobody,
}

/// The move that `m` beats.
pub open spec fn beaten(m: Move) -> Move {
    match m {
        Move::Rock => Move::Scissors,
        Move::Paper => Move::Rock,
        Move::Scissors => Move::Paper,
    }
}

/// The move that beats `m`.
pub open spec fn beater(m: Move) -> Move {
    match m {
        Move::Rock => Move::Paper,
        Move::Paper => Move::Scissors,
        Move::Scissors => Move::Rock,
    }
}

/// The player who wins where the first plays `a` and the second `b`.
pub open spec fn winner_of(a: Move, b: Move) -> Player {
    if beaten(a) == b {
        Player::Player(1)
    } else if beaten(b) == a {
        Player::Player(2)
    } else {
        Player::Nobody
    }
}

/// The opponent's move that the first column names.
pub open spec fn their_move(word: Seq<char>) -> Option<Move> {
    if word == "A"@ {
        Some(Move::Rock)
    } else if word == "B"@ {
        Some(Move::Paper)
    } else if word == "C"@ {
        Some(Move::Scissors)
    } else {
        None
    }
}

/// The move that the second column names, read as a move.
pub open spec fn my_move(word: Seq<char>) -> Option<Move> {
    if word == "X"@ {
        Some(Move::Rock)
    } else if word == "Y"@ {
        Some(Move::Paper)
    } else if word == "Z"@ {
        Some(Move::Scissors)
    } else {
        None
    }
}

/// The winner that the second column names, read as a result.
pub open spec fn wanted_result(word: Seq<char>) -> Option<Player> {
    if word == "X"@ {
        Some(Player::Player(1))
    } else if word == "Y"@ {
        Some(Player::Nobody)
    } else if word == "Z"@ {
        Some(Player::Player(2))
    } else {
        None
    }
}

/// What the second player scores for the result of a game.
pub open spec fn result_score(w: Player) -> int {
    match w {
        Player::Player(1) => 0,
        Player::Player(2) => 6,
        _ => 3,
    }
}

/// What a player scores for the shape played.
pub open spec fn shape_score(m: Move) -> int {
    match m {
        Move::Rock => 1,
        Move::Paper => 2,
        Move::Scissors => 3,
    }
}

/// The second player's move that brings about the result `w`.
pub open spec fn move_for(a: Move, w: Player) -> Move {
    match w {
        Player::Player(1) => beaten(a),
        Player::Player(2) => beater(a),
        _ => a,
    }
}

impl Move {
    pub fn will_beat(&self, other: &Self) -> (r: bool)
        ensures
            r == (beaten(*self) == *other),
    {
        self.beats() == *other
    }

    pub fn beats(&self) -> (r: Self)
        ensures
            r == beaten(*self),
    {
        match self {
            Move::Rock => Move::Scissors,
            Move::Paper => Move::Rock,
            Move::Scissors => Move::Paper,
        }
    }

    pub fn beaten_by(&self) -> (r: Self)
        ensures
            r == beater(*self),
    {
        match self {
            Move::Rock => Move::Paper,
            Move::Paper => Move::Scissors,
            Move::Scissors => Move::Rock,
        }
    }
}

pub fn winner(player_1: &Move, player_2: &Move) -> (r: Player)
    ensures
        r == winner_of(*player_1, *player_2),
{
    if player_1.will_beat(player_2) {
        Player::Player(1)
    } else if player_2.will_beat(player_1) {
        Player::Player(2)
    } else {
        Player::Nobody
    }
}

fn first_column(word: &Vec<char>) -> (r: Move)
    requires
        their_move(word@) is Some,
    ensures
        Some(r) == their_move(word@),
{
    if is_str(word, "A") {
        Move::Rock
    } else if is_str(word, "B") {
        Move::Paper
    } else {
        Move::Scissors
    }
}

/// The two columns of a line: what stands before its first space, and what
/// stands between that and the next.
pub open spec fn columns(line: Seq<char>) -> Seq<Seq<char>> {
    split(line, " "@)
}

/// The moves of both players that a line names.
pub fn moves_for_line(line: &str) -> (r: (Move, Move))
    requires
        columns(line@).len() >= 2,
        their_move(columns(line@)[0]) is Some,
        my_move(columns(line@)[1]) is Some,
    ensures
        Some(r.0) == their_move(columns(line@)[0]),
        Some(r.1) == my_move(columns(line@)[1]),
{
    proof {
        reveal_strlit(" ");
    }
    let cs = chars_of(line);
    let s = split_on(&cs, " ");
    assert(views(s@)[0] == s@[0]@ && views(s@)[1] == s@[1]@);
    let player_1_move = first_column(&s[0]);
    let player_2_move = if is_str(&s[1], "X") {
        Move::Rock
    } else if is_str(&s[1], "Y") {
        Move::Paper
    } else {
        Move::Scissors
    };
    (player_1_move, player_2_move)
}

/// The opponent's move and the wanted result that a line names.
pub fn move_and_result_for_line(line: &str) -> (r: (Move, Player))
    requires
        columns(line@).len() >= 2,
        their_move(columns(line@)[0]) is Some,
        wanted_result(columns(line@)[1]) is Some,
    ensures
        Some(r.0) == their_move(columns(line@)[0]),
        Some(r.1) == wanted_result(columns(line@)[1]),
{
    proof {
        reveal_strlit(" ");
    }
    let cs = chars_of(line);
    let s = split_on(&cs, " ");
    assert(views(s@)[0] == s@[0]@ && views(s@)[1] == s@[1]@);
    let player_1_move = first_column(&s[0]);
    let result = if is_str(&s[1], "X") {
        Player::Player(1)
    } else if is_str(&s[1], "Y") {
        Player::Nobody
    } else {
        Player::Player(2)
    };
    (player_1_move, result)
}

/// The move by which the second player brings about the result `winner`.
pub fn move_to_play(player_1_move: &Move, winner: &Player) -> (r: Move)
    requires
        *winner == Player::Player(1) || *winner == Player::Player(2) || *winner == Player::Nobody,
    ensures
        r == move_for(*player_1_move, *winner),
        winner_of(*player_1_move, r) == *winner,
{
    match winner {
        Player::Player(n) => if *n == 1 {
            player_1_move.beats()
        } else {
            player_1_move.beaten_by()
        },
        Player::Nobody => *player_1_move,
    }
}

/// What the second player scores in a game.
pub fn score_for_game(them: &Move, me: &Move) -> (r: u32)
    ensures
        r == result_score(winner_of(*them, *me)) + shape_score(*me),
{
    let winner = winner(them, me);
    let mut score: u32 = match winner {
        Player::Player(n) => if n == 1 {
            0
        } else {
            6
        },
        Player::Nobody => 3,
    };
    score += match me {
        Move::Rock => 1,
        Move::Paper => 2,
        Move::Scissors => 3,
    };
    score
}

/// The scores of a whole guide read in the two ways: the second column as a
/// move, and the second column as the wanted result.
pub open spec fn guide_scores(lines: Seq<Seq<char>>, n: int) -> (int, int)
    decreases n,
{
    if n <= 0 || n > lines.len() {
        (0, 0)
    } else {
        let (first, second) = guide_scores(lines, n - 1);
        let c = columns(lines[n - 1]);
        let them = their_move(c[0]).unwrap();
        let me = my_move(c[1]).unwrap();
        let wanted = wanted_result(c[1]).unwrap();
        (
            first + result_score(winner_of(them, me)) + shape_score(me),
            second + result_score(winner_of(them, move_for(them, wanted))) + shape_score(
                move_for(them, wanted),
            ),
        )
    }
}

/// Whether every line of a guide names an opponent's move and an answer.
pub open spec fn guide_valid(lines: Seq<Seq<char>>) -> bool {
    forall|i: int|
        0 <= i < lines.len() ==> {
            let c = columns(#[trigger] lines[i]);
            &&& c.len() >= 2
            &&& their_move(c[0]) is Some
            &&& my_move(c[1]) is Some
        }
}

pub proof fn lemma_answer_is_result(word: Seq<char>)
    ensures
        my_move(word) is Some <==> wanted_result(word) is Some,
{
}

/// Adds up the scores of all lines of a guide, in both readings.
pub fn total_scores(lines: &[&str]) -> (r: (u32, u32))
    requires
        guide_valid(crate::text::str_views(lines@)),
        lines@.len() * 9 <= u32::MAX,
    ensures
        (r.0 as int, r.1 as int) == guide_scores(
            crate::text::str_views(lines@),
            lines@.len() as int,
        ),
{
    let ghost text = crate::text::str_views(lines@);
    let mut score_1: u32 = 0;
    let mut score_2: u32 = 0;
    let mut i: usize = 0;
    while i < lines.len()
        invariant
            i <= lines@.len(),
            text == crate::text::str_views(lines@),
            guide_valid(text),
            lines@.len() * 9 <= u32::MAX,
            score_1 <= 9 * i,
            score_2 <= 9 * i,
            (score_1 as int, score_2 as int) == guide_scores(text, i as int),
        decreases lines@.len() - i,
    {
        let line_str = lines[i];
        assert(line_str@ == text[i as int]);
        let (them, me) = moves_for_line(line_str);
        score_1 += score_for_game(&them, &me);
        let (them, result) = move_and_result_for_line(line_str);
        score_2 += score_for_game(&them, &move_to_play(&them, &result));
        i += 1;
    }
    (score_1, score_2)
}

} // verus!
