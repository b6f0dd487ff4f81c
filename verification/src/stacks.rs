//! Stacks of crates: the drawing of the stacks, the moves of the crane, and
//! what the stacks are after a move.
use crate::number::{parse_usize, usize_of};
use crate::text::{
    byte_digit, byte_digit_of, chars_of, is_numeric_char, is_space, is_space_char, numeric,
    split_words, str_views, views, words,
};
use std::collections::BTreeMap;
use vstd::prelude::*;

verus! {

broadcast use {vstd::std_specs::btree::group_btree_axioms, vstd::laws_cmp::group_laws_cmp};

pub type Column = Vec<char>;

#[derive(Debug)]
pub struct Board {
    pub columns: BTreeMap<usize, Column>,
}

#[derive(Debug, Clone, Copy, PartialEq, Eq, Structural)]
pub struct Move {
    pub how_many: usize,
    pub from: usize,
    pub to: usize,
}

#[derive(Debug, Clone, Copy, PartialEq, Eq, Structural)]
pub enum StackError {
    /// The line does not hold exactly three numbers.
    NoMove,
    /// There is no line of column labels.
    NoLabels,
    /// A label's character has a code below that of `0`.
    BadLabel,
    /// A line of the drawing ends before the place of a label.
    ShortLine,
    /// The column to take from holds too few crates.
    InvalidMove,
    /// A column of the move is not on the board.
    InvalidColumn,
}

/// The stacks of a board, each from the bottom up.
pub open spec fn stacks(columns: Map<usize, Column>) -> Map<usize, Seq<char>> {
    Map::new(|k: usize| columns.contains_key(k), |k: usize| columns[k]@)
}

impl Board {
    pub fn new() -> (r: Self)
        ensures
            stacks(r.columns@) == Map::<usize, Seq<char>>::empty(),
    {
        let r = Board { columns: BTreeMap::new() };
        assert(stacks(r.columns@) =~= Map::<usize, Seq<char>>::empty());
        r
    }
}

impl Move {
    pub fn new(how_many: usize, from: usize, to: usize) -> (r: Self)
        ensures
            r == (Move { how_many, from, to }),
    {
        Move { how_many, from, to }
    }
}

/// The numbers among `words`, in order.
pub open spec fn numbers_in(words: Seq<Seq<char>>) -> Seq<usize>
    decreases words.len(),
{
    if words.len() == 0 {
        seq![]
    } else {
        match usize_of(words.last()) {
            Some(n) => numbers_in(words.drop_last()).push(n),
            None => numbers_in(words.drop_last()),
        }
    }
}

/// The move that a line names by its three numbers: how many, from, to.
pub open spec fn move_of(line: Seq<char>) -> Result<Move, StackError> {
    let ns = numbers_in(words(line));
    if ns.len() != 3 {
        Err(StackError::NoMove)
    } else {
        Ok(Move { how_many: ns[0], from: ns[1], to: ns[2] })
    }
}

pub fn parse_move(line: &str) -> (r: Result<Move, StackError>)
    ensures
        r == move_of(line@),
{
    let cs = chars_of(line);
    let ws = split_words(&cs);
    let ghost all = views(ws@);
    let mut split: Vec<usize> = Vec::new();
    let mut i: usize = 0;
    assert(all.take(0) =~= Seq::<Seq<char>>::empty());
    while i < ws.len()
        invariant
            i <= ws.len(),
            all == views(ws@),
            split@ == numbers_in(all.take(i as int)),
        decreases ws.len() - i,
    {
        assert(all.take(i + 1).drop_last() =~= all.take(i as int));
        assert(all.take(i + 1).last() == ws@[i as int]@);
        match parse_usize(&ws[i]) {
            Some(n) => {
                split.push(n);
            },
            None => {},
        }
        i += 1;
    }
    assert(all.take(i as int) =~= all);
    if split.len() != 3 {
        Err(StackError::NoMove)
    } else {
        Ok(Move::new(split[0], split[1], split[2]))
    }
}

/// The stacks with `c` put on top of the stack `name`, which is begun
/// where it was not there.
pub open spec fn with_crate(board: Map<usize, Seq<char>>, name: usize, c: char) -> Map<
    usize,
    Seq<char>,
> {
    if board.contains_key(name) {
        board.insert(name, board[name].push(c))
    } else {
        board.insert(name, seq![c])
    }
}

/// The labels of the first `n` characters of the last line: for each number
/// character its place and the digit it writes.
pub open spec fn labels_in(line: Seq<char>, n: int) -> Result<Seq<(usize, usize)>, StackError>
    decreases n,
{
    if n <= 0 || n > line.len() {
        Ok(seq![])
    } else {
        match labels_in(line, n - 1) {
            Err(e) => Err(e),
            Ok(before) => if numeric(line[n - 1]) {
                match byte_digit(line[n - 1]) {
                    Some(d) => Ok(before.push(((n - 1) as usize, d))),
                    None => Err(StackError::BadLabel),
                }
            } else {
                Ok(before)
            },
        }
    }
}

/// The stacks after the crates of `line` at the first `k` labels were put
/// on: at each label's place stands a crate, or white space.
pub open spec fn with_line(
    board: Map<usize, Seq<char>>,
    line: Seq<char>,
    labels: Seq<(usize, usize)>,
    k: int,
) -> Result<Map<usize, Seq<char>>, StackError>
    decreases k,
{
    if k <= 0 || k > labels.len() {
        Ok(board)
    } else {
        match with_line(board, line, labels, k - 1) {
            Err(e) => Err(e),
            Ok(before) => {
                let (idx, name) = labels[k - 1];
                if idx >= line.len() {
                    Err(StackError::ShortLine)
                } else if is_space(line[idx as int]) {
                    Ok(before)
                } else {
                    Ok(with_crate(before, name, line[idx as int]))
                }
            },
        }
    }
}

/// The stacks after the lowest `n` lines of the drawing, read from the
/// bottom up, were put on.
pub open spec fn with_lines(drawing: Seq<Seq<char>>, labels: Seq<(usize, usize)>, n: int) -> Result<
    Map<usize, Seq<char>>,
    StackError,
>
    decreases n,
{
    if n <= 0 || n > drawing.len() {
        Ok(Map::empty())
    } else {
        match with_lines(drawing, labels, n - 1) {
            Err(e) => Err(e),
            Ok(before) => with_line(before, drawing[drawing.len() - n], labels, labels.len() as int),
        }
    }
}

/// The stacks that a drawing shows: its last line labels the columns, and
/// the lines above it hold the crates.
pub open spec fn board_of(lines: Seq<Seq<char>>) -> Result<Map<usize, Seq<char>>, StackError> {
    if lines.len() == 0 {
        Err(StackError::NoLabels)
    } else {
        match labels_in(lines.last(), lines.last().len() as int) {
            Err(e) => Err(e),
            Ok(labels) => with_lines(lines.drop_last(), labels, lines.len() - 1),
        }
    }
}

fn push_crate(columns: &mut BTreeMap<usize, Column>, name: usize, c: char)
    ensures
        stacks(final(columns)@) == with_crate(stacks(old(columns)@), name, c),
{
    let mut column: Column = match columns.remove(&name) {
        Some(column) => column,
        None => Vec::new(),
    };
    column.push(c);
    columns.insert(name, column);
    assert(stacks(columns@) =~= with_crate(stacks(old(columns)@), name, c));
}

proof fn lemma_with_lines_fails(drawing: Seq<Seq<char>>, labels: Seq<(usize, usize)>, k: int, n: int)
    requires
        0 <= k <= n <= drawing.len(),
        with_lines(drawing, labels, k) is Err,
    ensures
        with_lines(drawing, labels, n) == with_lines(drawing, labels, k),
    decreases n - k,
{
    if k < n {
        lemma_with_lines_fails(drawing, labels, k, n - 1);
    }
}

proof fn lemma_with_line_fails(
    board: Map<usize, Seq<char>>,
    line: Seq<char>,
    labels: Seq<(usize, usize)>,
    k: int,
    n: int,
)
    requires
        0 <= k <= n <= labels.len(),
        with_line(board, line, labels, k) is Err,
    ensures
        with_line(board, line, labels, n) == with_line(board, line, labels, k),
    decreases n - k,
{
    if k < n {
        lemma_with_line_fails(board, line, labels, k, n - 1);
    }
}

proof fn lemma_labels_fail(line: Seq<char>, k: int, n: int)
    requires
        0 <= k <= n <= line.len(),
        labels_in(line, k) is Err,
    ensures
        labels_in(line, n) == labels_in(line, k),
    decreases n - k,
{
    if k < n {
        lemma_labels_fail(line, k, n - 1);
    }
}

pub fn parse_board(lines: Vec<&str>) -> (r: Result<Board, StackError>)
    ensures
        match r {
            Ok(board) => board_of(str_views(lines@)) == Ok::<Map<usize, Seq<char>>, StackError>(
                stacks(board.columns@),
            ),
            Err(e) => board_of(str_views(lines@)) == Err::<Map<usize, Seq<char>>, StackError>(e),
        },
{
    let ghost text = str_views(lines@);
    if lines.len() == 0 {
        return Err(StackError::NoLabels);
    }
    let count = lines.len() - 1;
    let column_labels_line = chars_of(lines[count]);
    assert(column_labels_line@ == text.last());
    let mut column_labels: Vec<(usize, usize)> = Vec::new();
    let mut e: usize = 0;
    while e < column_labels_line.len()
        invariant
            e <= column_labels_line.len(),
            text == str_views(lines@),
            text.len() > 0,
            column_labels_line@ == text.last(),
            labels_in(column_labels_line@, e as int) == Ok::<Seq<(usize, usize)>, StackError>(
                column_labels@,
            ),
        decreases column_labels_line.len() - e,
    {
        let c = column_labels_line[e];
        if is_numeric_char(c) {
            match byte_digit_of(c) {
                Some(d) => {
                    column_labels.push((e, d));
                },
                None => {
                    proof {
                        lemma_labels_fail(
                            column_labels_line@,
                            e + 1,
                            column_labels_line@.len() as int,
                        );
                    }
                    return Err(StackError::BadLabel);
                },
            }
        }
        e += 1;
    }
    let ghost drawing = text.drop_last();
    let ghost labels = column_labels@;
    let mut board = Board::new();
    let mut n: usize = 0;
    while n < count
        invariant
            n <= count,
            count == lines@.len() - 1,
            text == str_views(lines@),
            drawing == text.drop_last(),
            labels == column_labels@,
            board_of(text) == with_lines(drawing, labels, drawing.len() as int),
            with_lines(drawing, labels, n as int) == Ok::<Map<usize, Seq<char>>, StackError>(
                stacks(board.columns@),
            ),
        decreases count - n,
    {
        let chars = chars_of(lines[count - 1 - n]);
        assert(chars@ == drawing[drawing.len() - (n + 1)]);
        let ghost before = stacks(board.columns@);
        let mut k: usize = 0;
        while k < column_labels.len()
            invariant
                k <= column_labels.len(),
                n < count,
                count == drawing.len(),
                labels == column_labels@,
                text == str_views(lines@),
                board_of(text) == with_lines(drawing, labels, drawing.len() as int),
                chars@ == drawing[drawing.len() - (n + 1)],
                with_lines(drawing, labels, n as int) == Ok::<Map<usize, Seq<char>>, StackError>(
                    before,
                ),
                with_line(before, chars@, labels, k as int) == Ok::<
                    Map<usize, Seq<char>>,
                    StackError,
                >(stacks(board.columns@)),
            decreases column_labels.len() - k,
        {
            let (idx, name) = column_labels[k];
            if idx >= chars.len() {
                proof {
                    lemma_with_line_fails(before, chars@, labels, k + 1, labels.len() as int);
                    lemma_with_lines_fails(drawing, labels, n + 1, drawing.len() as int);
                }
                return Err(StackError::ShortLine);
            }
            if !is_space_char(chars[idx]) {
                push_crate(&mut board.columns, name, chars[idx]);
            }
            k += 1;
        }
        n += 1;
    }
    Ok(board)
}

/// The stacks after a move of the crane. The crates come to lie on the
/// other stack in the order in which they lay, or in the reverse of it.
pub open spec fn played(board: Map<usize, Seq<char>>, m: Move, keep_order: bool) -> Result<
    Map<usize, Seq<char>>,
    StackError,
> {
    if !board.contains_key(m.from) {
        Err(StackError::InvalidColumn)
    } else if board[m.from].len() < m.how_many {
        Err(StackError::InvalidMove)
    } else if m.how_many == 0 || m.from == m.to {
        Ok(board)
    } else if !board.contains_key(m.to) {
        Err(StackError::InvalidColumn)
    } else {
        let source = board[m.from];
        let kept = source.take(source.len() - m.how_many);
        let lifted = source.skip(source.len() - m.how_many);
        Ok(
            board.insert(m.from, kept).insert(
                m.to,
                board[m.to] + if keep_order {
                    lifted
                } else {
                    lifted.reverse()
                },
            ),
        )
    }
}

fn play(board: &mut Board, played_move: &Move, keep_order: bool) -> (r: Result<(), StackError>)
    ensures
        match r {
            Ok(_) => played(stacks(old(board).columns@), *played_move, keep_order) == Ok::<
                Map<usize, Seq<char>>,
                StackError,
            >(stacks(final(board).columns@)),
            Err(e) => played(stacks(old(board).columns@), *played_move, keep_order) == Err::<
                Map<usize, Seq<char>>,
                StackError,
            >(e) && final(board).columns@ == old(board).columns@,
        },
{
    let ghost start = stacks(board.columns@);
    let from = played_move.from;
    let to = played_move.to;
    let how_many = played_move.how_many;
    match board.columns.get(&from) {
        Some(from_column) => {
            if from_column.len() < how_many {
                return Err(StackError::InvalidMove);
            }
        },
        None => {
            return Err(StackError::InvalidColumn);
        },
    }
    if how_many == 0 || from == to {
        return Ok(());
    }
    if !board.columns.contains_key(&to) {
        return Err(StackError::InvalidColumn);
    }
    let mut source: Column = match board.columns.remove(&from) {
        Some(c) => c,
        None => Vec::new(),
    };
    let mut target: Column = match board.columns.remove(&to) {
        Some(c) => c,
        None => Vec::new(),
    };
    let ghost source_before = source@;
    let ghost target_before = target@;
    let ghost kept = source_before.take(source_before.len() - how_many);
    let ghost lifted = source_before.skip(source_before.len() - how_many);
    let mut temp: Vec<char> = Vec::new();
    let mut i: usize = 0;
    while i < how_many
        invariant
            i <= how_many <= source_before.len(),
            source@ == source_before.take(source_before.len() - i),
            temp@ == source_before.skip(source_before.len() - i).reverse(),
        decreases how_many - i,
    {
        let popped = source.pop();
        assert(popped is Some);
        match popped {
            Some(c) => {
                temp.push(c);
            },
            None => {},
        }
        assert(source@ =~= source_before.take(source_before.len() - (i + 1)));
        assert(temp@ =~= source_before.skip(source_before.len() - (i + 1)).reverse());
        i += 1;
    }
    assert(source@ == kept);
    assert(temp@ == lifted.reverse());
    if keep_order {
        let mut i: usize = 0;
        assert(lifted.take(0) =~= Seq::<char>::empty());
        assert(target_before + Seq::<char>::empty() =~= target_before);
        while i < how_many
            invariant
                i <= how_many,
                how_many == lifted.len(),
                temp@ == lifted.reverse().take(how_many - i),
                target@ == target_before + lifted.take(i as int),
            decreases how_many - i,
        {
            let popped = temp.pop();
            assert(popped is Some);
            match popped {
                Some(c) => {
                    assert(c == lifted[i as int]);
                    target.push(c);
                },
                None => {},
            }
            assert(temp@ =~= lifted.reverse().take(how_many - (i + 1)));
            assert(target@ =~= target_before + lifted.take(i + 1));
            i += 1;
        }
        assert(lifted.take(how_many as int) =~= lifted);
    } else {
        let mut i: usize = 0;
        assert(temp@.take(0) =~= Seq::<char>::empty());
        assert(target_before + Seq::<char>::empty() =~= target_before);
        while i < how_many
            invariant
                i <= how_many,
                how_many == temp@.len(),
                target@ == target_before + temp@.take(i as int),
            decreases how_many - i,
        {
            target.push(temp[i]);
            assert(target@ =~= target_before + temp@.take(i + 1));
            i += 1;
        }
        assert(temp@.take(how_many as int) =~= temp@);
    }
    board.columns.insert(from, source);
    board.columns.insert(to, target);
    assert(stacks(board.columns@) =~= start.insert(from, kept).insert(
        to,
        start[to] + if keep_order {
            lifted
        } else {
            lifted.reverse()
        },
    ));
    Ok(())
}

/// Moves crates one at a time: they come to lie in reverse order.
pub fn play_move(board: &mut Board, played_move: &Move) -> (r: Result<(), StackError>)
    ensures
        match r {
            Ok(_) => played(stacks(old(board).columns@), *played_move, false) == Ok::<
                Map<usize, Seq<char>>,
                StackError,
            >(stacks(final(board).columns@)),
            Err(e) => played(stacks(old(board).columns@), *played_move, false) == Err::<
                Map<usize, Seq<char>>,
                StackError,
            >(e) && final(board).columns@ == old(board).columns@,
        },
{
    play(board, played_move, false)
}

/// Moves crates all at once: they keep their order.
pub fn play_move_2(board: &mut Board, played_move: &Move) -> (r: Result<(), StackError>)
    ensures
        match r {
            Ok(_) => played(stacks(old(board).columns@), *played_move, true) == Ok::<
                Map<usize, Seq<char>>,
                StackError,
            >(stacks(final(board).columns@)),
            Err(e) => played(stacks(old(board).columns@), *played_move, true) == Err::<
                Map<usize, Seq<char>>,
                StackError,
            >(e) && final(board).columns@ == old(board).columns@,
        },
{
    play(board, played_move, true)
}

/// The index at or after `i` of the first empty line, or the number of
/// lines where none is empty.
pub open spec fn first_blank(lines: Seq<Seq<char>>, i: int) -> int
    decreases lines.len() - i,
{
    if i < 0 || i >= lines.len() {
        lines.len() as int
    } else if lines[i].len() == 0 {
        i
    } else {
        first_blank(lines, i + 1)
    }
}

/// The stacks after the crane has made the moves of the lines from `from`
/// up to, but without, `to`, all crates of a move at once.
pub open spec fn craned(board: Map<usize, Seq<char>>, lines: Seq<Seq<char>>, from: int, to: int) -> Result<
    Map<usize, Seq<char>>,
    StackError,
>
    decreases to - from,
{
    if to <= from || to > lines.len() || from < 0 {
        Ok(board)
    } else {
        match craned(board, lines, from, to - 1) {
            Err(e) => Err(e),
            Ok(before) => match move_of(lines[to - 1]) {
                Err(e) => Err(e),
                Ok(m) => played(before, m, true),
            },
        }
    }
}

/// The stacks that a drawing and a list of moves below it lead to: the
/// drawing ends at the first empty line, and the moves follow that line.
pub open spec fn rearranged(lines: Seq<Seq<char>>) -> Result<Map<usize, Seq<char>>, StackError> {
    let blank = first_blank(lines, 0);
    match board_of(lines.take(blank)) {
        Err(e) => Err(e),
        Ok(board) => craned(board, lines, blank + 1, lines.len() as int),
    }
}

proof fn lemma_first_blank(lines: Seq<Seq<char>>, i: int)
    requires
        0 <= i <= lines.len(),
    ensures
        i <= first_blank(lines, i) <= lines.len(),
    decreases lines.len() - i,
{
    if i < lines.len() && lines[i].len() != 0 {
        lemma_first_blank(lines, i + 1);
    }
}

proof fn lemma_craned_fails(
    board: Map<usize, Seq<char>>,
    lines: Seq<Seq<char>>,
    from: int,
    k: int,
    n: int,
)
    requires
        0 <= from <= k <= n <= lines.len(),
        craned(board, lines, from, k) is Err,
    ensures
        craned(board, lines, from, n) == craned(board, lines, from, k),
    decreases n - k,
{
    if k < n {
        lemma_craned_fails(board, lines, from, k, n - 1);
    }
}

/// Reads the drawing of the stacks and makes the moves that follow it, all
/// crates of a move at once.
pub fn rearrange(lines: &[&str]) -> (r: Result<Board, StackError>)
    ensures
        match r {
            Ok(board) => rearranged(str_views(lines@)) == Ok::<Map<usize, Seq<char>>, StackError>(
                stacks(board.columns@),
            ),
            Err(e) => rearranged(str_views(lines@)) == Err::<Map<usize, Seq<char>>, StackError>(e),
        },
{
    let ghost text = str_views(lines@);
    let mut board_lines: Vec<&str> = Vec::new();
    let mut k: usize = 0;
    while k < lines.len() && !lines[k].is_empty()
        invariant
            k <= lines@.len(),
            text == str_views(lines@),
            first_blank(text, 0) == first_blank(text, k as int),
            text.len() == lines@.len(),
            board_lines@.len() == k,
            str_views(board_lines@) == text.take(k as int),
        decreases lines@.len() - k,
    {
        assert(text[k as int] == lines@[k as int]@);
        let ghost held = board_lines@;
        board_lines.push(lines[k]);
        assert(str_views(board_lines@) =~= text.take(k + 1)) by {
            assert forall|j: int| 0 <= j < k + 1 implies str_views(board_lines@)[j] == text.take(
                k + 1,
            )[j] by {
                if j < k {
                    assert(str_views(held)[j] == text.take(k as int)[j]);
                }
            }
        }
        k += 1;
    }
    assert(first_blank(text, 0) == k) by {
        if k < lines@.len() {
            assert(text[k as int] == lines@[k as int]@);
        }
    }
    let mut board = match parse_board(board_lines) {
        Ok(board) => board,
        Err(e) => {
            return Err(e);
        },
    };
    let ghost drawn = stacks(board.columns@);
    if k >= lines.len() {
        return Ok(board);
    }
    let first = k + 1;
    let mut i: usize = first;
    while i < lines.len()
        invariant
            first <= i <= lines@.len(),
            first == first_blank(text, 0) + 1,
            text == str_views(lines@),
            board_of(text.take(first - 1)) == Ok::<Map<usize, Seq<char>>, StackError>(drawn),
            craned(drawn, text, first as int, i as int) == Ok::<Map<usize, Seq<char>>, StackError>(
                stacks(board.columns@),
            ),
        decreases lines@.len() - i,
    {
        assert(text[i as int] == lines@[i as int]@);
        let m = match parse_move(lines[i]) {
            Ok(m) => m,
            Err(e) => {
                proof {
                    lemma_craned_fails(drawn, text, first as int, i + 1, text.len() as int);
                }
                return Err(e);
            },
        };
        match play_move_2(&mut board, &m) {
            Ok(_) => {},
            Err(e) => {
                proof {
                    lemma_craned_fails(drawn, text, first as int, i + 1, text.len() as int);
                }
                return Err(e);
            },
        }
        i += 1;
    }
    Ok(board)
}

} // verus!
