//! Monkeys as their notes describe them: what each does to an item, how it
//! tests the result, and to whom it throws.
use crate::number::{i64_of, parse_i64, parse_usize, usize_of};
use crate::text::{
    begins_with, chars_of, contains, cut, has, is_str, split, split_on, split_once, split_words,
    starts_with, str_views, strip_suffix, trim, trimmed, views, without_suffix, words,
};
use vstd::prelude::*;

verus! {

#[derive(Debug, Clone, Copy, PartialEq, Eq, Structural)]
pub enum Operation {
    Add(i64),
    Mul(i64),
    Sqr,
}

#[derive(Debug, Clone, Copy, PartialEq, Eq, Structural)]
pub struct Test {
    pub divisible_by: i64,
    pub pass_true: usize,
    pub pass_false: usize,
}

#[derive(Debug, Clone, PartialEq, Eq)]
pub struct Monkey {
    pub id: i64,
    pub items: Vec<i64>,
    pub operation: Operation,
    pub test: Test,
}

/// A monkey as a mathematical value.
pub struct MonkeyData {
    pub id: i64,
    pub items: Seq<i64>,
    pub operation: Operation,
    pub test: Test,
}

impl View for Monkey {
    type V = MonkeyData;

    open spec fn view(&self) -> MonkeyData {
        MonkeyData { id: self.id, items: self.items@, operation: self.operation, test: self.test }
    }
}

#[derive(Debug, Clone, Copy, PartialEq, Eq, Structural)]
pub enum ParseError {
    /// A line lacks the separator that its kind of line has.
    Malformed,
    /// What stands before ` = ` does not begin with `Operation:`.
    NotAnOperation,
    /// The formula does not begin with `old`.
    NotInTermsOfOld,
    /// The operator is neither `+` nor `*`.
    UnknownOperator,
    /// A number cannot be read.
    BadNumber,
    /// A line or a word that the notes must have is missing.
    Incomplete,
    /// A test is not made of three lines.
    WrongLineCount,
    /// The first line does not begin with `Monkey`.
    NoMonkey,
    /// The second line does not begin with `Starting items`.
    NoItems,
}

/// The operand of `+`: `old` stands for 2, anything else is a number.
pub open spec fn addend_of(word: Seq<char>) -> Result<Operation, ParseError> {
    if word == "old"@ {
        Ok(Operation::Add(2))
    } else {
        match i64_of(word) {
            Some(n) => Ok(Operation::Add(n)),
            None => Err(ParseError::BadNumber),
        }
    }
}

/// The operand of `*`: `old` squares, anything else is a number.
pub open spec fn factor_of(word: Seq<char>) -> Result<Operation, ParseError> {
    if word == "old"@ {
        Ok(Operation::Sqr)
    } else {
        match i64_of(word) {
            Some(n) => Ok(Operation::Mul(n)),
            None => Err(ParseError::BadNumber),
        }
    }
}

/// The operation that the words of a formula describe: `old`, an operator,
/// an operand.
pub open spec fn formula_of(w: Seq<Seq<char>>) -> Result<Operation, ParseError> {
    if w.len() < 1 {
        Err(ParseError::Incomplete)
    } else if w[0] != "old"@ {
        Err(ParseError::NotInTermsOfOld)
    } else if w.len() < 2 {
        Err(ParseError::Incomplete)
    } else if w[1] == "+"@ {
        if w.len() < 3 {
            Err(ParseError::Incomplete)
        } else {
            addend_of(w[2])
        }
    } else if w[1] == "*"@ {
        if w.len() < 3 {
            Err(ParseError::Incomplete)
        } else {
            factor_of(w[2])
        }
    } else {
        Err(ParseError::UnknownOperator)
    }
}

/// The operation that a line `Operation: new = old <op> <operand>` describes.
pub open spec fn operation_of(line: Seq<char>) -> Result<Operation, ParseError> {
    match split_once(line, " = "@) {
        Some((head, formula)) => if !starts_with(trim(head), "Operation:"@) {
            Err(ParseError::NotAnOperation)
        } else {
            formula_of(words(formula))
        },
        None => Err(ParseError::Malformed),
    }
}

/// The divisor that a line `Test: divisible by <n>` names.
pub open spec fn divisor_of(line: Seq<char>) -> Result<i64, ParseError> {
    match split_once(line, " by "@) {
        Some((_, n)) => match i64_of(n) {
            Some(v) => Ok(v),
            None => Err(ParseError::BadNumber),
        },
        None => Err(ParseError::Malformed),
    }
}

/// The monkey that a line `If <branch> throw to monkey <n>` names.
pub open spec fn target_of(line: Seq<char>, branch: Seq<char>) -> Result<usize, ParseError> {
    match split_once(line, " monkey "@) {
        Some((cond, n)) => if contains(cond, branch) {
            match usize_of(n) {
                Some(v) => Ok(v),
                None => Err(ParseError::BadNumber),
            }
        } else {
            Err(ParseError::Malformed)
        },
        None => Err(ParseError::Malformed),
    }
}

/// The test that three lines describe: the divisor, then the monkey to throw
/// to where the test holds, then the one where it does not.
pub open spec fn test_of(lines: Seq<Seq<char>>) -> Result<Test, ParseError> {
    if lines.len() != 3 {
        Err(ParseError::WrongLineCount)
    } else {
        match divisor_of(lines[0]) {
            Err(e) => Err(e),
            Ok(divisible_by) => match target_of(lines[1], "true:"@) {
                Err(e) => Err(e),
                Ok(pass_true) => match target_of(lines[2], "false:"@) {
                    Err(e) => Err(e),
                    Ok(pass_false) => Ok(Test { divisible_by, pass_true, pass_false }),
                },
            },
        }
    }
}

/// The number in a line `Monkey <n>:`.
pub open spec fn id_of(line: Seq<char>) -> Result<i64, ParseError> {
    if !starts_with(trim(line), "Monkey"@) {
        Err(ParseError::NoMonkey)
    } else {
        match split_once(line, " "@) {
            Some((_, id)) => match strip_suffix(id, ":"@) {
                Some(n) => match i64_of(n) {
                    Some(v) => Ok(v),
                    None => Err(ParseError::BadNumber),
                },
                None => Err(ParseError::Malformed),
            },
            None => Err(ParseError::Malformed),
        }
    }
}

/// Whether each piece, trimmed, is a number.
pub open spec fn all_numbers(pieces: Seq<Seq<char>>) -> bool {
    forall|i: int| 0 <= i < pieces.len() ==> i64_of(trim(#[trigger] pieces[i])) is Some
}

/// The numbers that the pieces, trimmed, stand for.
pub open spec fn numbers_of(pieces: Seq<Seq<char>>) -> Seq<i64> {
    Seq::new(pieces.len(), |i: int| i64_of(trim(pieces[i])).unwrap())
}

/// The items in a line `Starting items: <n>, <n>, ...`.
pub open spec fn items_of(line: Seq<char>) -> Result<Seq<i64>, ParseError> {
    if !starts_with(trim(line), "Starting items"@) {
        Err(ParseError::NoItems)
    } else {
        match split_once(line, ":"@) {
            Some((_, list)) => if all_numbers(split(list, ","@)) {
                Ok(numbers_of(split(list, ","@)))
            } else {
                Err(ParseError::BadNumber)
            },
            None => Err(ParseError::Malformed),
        }
    }
}

/// The monkey that six lines of notes describe: its number, its items, its
/// operation and the three lines of its test.
pub open spec fn monkey_of(lines: Seq<Seq<char>>) -> Result<MonkeyData, ParseError> {
    if lines.len() < 1 {
        Err(ParseError::Incomplete)
    } else {
        match id_of(lines[0]) {
            Err(e) => Err(e),
            Ok(id) => if lines.len() < 2 {
                Err(ParseError::Incomplete)
            } else {
                match items_of(lines[1]) {
                    Err(e) => Err(e),
                    Ok(items) => if lines.len() < 3 {
                        Err(ParseError::Incomplete)
                    } else {
                        match operation_of(lines[2]) {
                            Err(e) => Err(e),
                            Ok(operation) => if lines.len() < 6 {
                                Err(ParseError::Incomplete)
                            } else {
                                match test_of(lines.subrange(3, 6)) {
                                    Err(e) => Err(e),
                                    Ok(test) => Ok(MonkeyData { id, items, operation, test }),
                                }
                            },
                        }
                    },
                }
            },
        }
    }
}

fn parse_operand(word: &Vec<char>, squares: bool) -> (r: Result<Operation, ParseError>)
    ensures
        r == if squares {
            factor_of(word@)
        } else {
            addend_of(word@)
        },
{
    if is_str(word, "old") {
        if squares {
            Ok(Operation::Sqr)
        } else {
            Ok(Operation::Add(2))
        }
    } else {
        match parse_i64(word) {
            Some(n) => if squares {
                Ok(Operation::Mul(n))
            } else {
                Ok(Operation::Add(n))
            },
            None => Err(ParseError::BadNumber),
        }
    }
}

fn parse_divisor(line: &str) -> (r: Result<i64, ParseError>)
    ensures
        r == divisor_of(line@),
{
    let cs = chars_of(line);
    match cut(&cs, " by ") {
        Some((_, n)) => match parse_i64(&n) {
            Some(v) => Ok(v),
            None => Err(ParseError::BadNumber),
        },
        None => Err(ParseError::Malformed),
    }
}

fn parse_target(line: &str, branch: &str) -> (r: Result<usize, ParseError>)
    ensures
        r == target_of(line@, branch@),
{
    let cs = chars_of(line);
    match cut(&cs, " monkey ") {
        Some((cond, n)) => if has(&cond, branch) {
            match parse_usize(&n) {
                Some(v) => Ok(v),
                None => Err(ParseError::BadNumber),
            }
        } else {
            Err(ParseError::Malformed)
        },
        None => Err(ParseError::Malformed),
    }
}

fn parse_test_lines(first: &str, second: &str, third: &str) -> (r: Result<Test, ParseError>)
    ensures
        r == test_of(seq![first@, second@, third@]),
{
    let divisible_by = match parse_divisor(first) {
        Ok(v) => v,
        Err(e) => {
            return Err(e);
        },
    };
    let pass_true = match parse_target(second, "true:") {
        Ok(v) => v,
        Err(e) => {
            return Err(e);
        },
    };
    let pass_false = match parse_target(third, "false:") {
        Ok(v) => v,
        Err(e) => {
            return Err(e);
        },
    };
    Ok(Test { divisible_by, pass_true, pass_false })
}

fn parse_id(line: &str) -> (r: Result<i64, ParseError>)
    ensures
        r == id_of(line@),
{
    let cs = chars_of(line);
    if !begins_with(&trimmed(&cs), "Monkey") {
        return Err(ParseError::NoMonkey);
    }
    match cut(&cs, " ") {
        Some((_, id)) => match without_suffix(&id, ":") {
            Some(n) => match parse_i64(&n) {
                Some(v) => Ok(v),
                None => Err(ParseError::BadNumber),
            },
            None => Err(ParseError::Malformed),
        },
        None => Err(ParseError::Malformed),
    }
}

fn parse_items(line: &str) -> (r: Result<Vec<i64>, ParseError>)
    ensures
        match r {
            Ok(items) => items_of(line@) == Ok::<Seq<i64>, ParseError>(items@),
            Err(e) => items_of(line@) == Err::<Seq<i64>, ParseError>(e),
        },
{
    let cs = chars_of(line);
    if !begins_with(&trimmed(&cs), "Starting items") {
        return Err(ParseError::NoItems);
    }
    match cut(&cs, ":") {
        Some((_, list)) => {
            proof {
                reveal_strlit(",");
            }
            let pieces = split_on(&list, ",");
            let ghost text = views(pieces@);
            let mut items: Vec<i64> = Vec::new();
            let mut i: usize = 0;
            while i < pieces.len()
                invariant
                    i <= pieces.len(),
                    text == views(pieces@),
                    items_of(line@) == if all_numbers(text) {
                        Ok::<Seq<i64>, ParseError>(numbers_of(text))
                    } else {
                        Err::<Seq<i64>, ParseError>(ParseError::BadNumber)
                    },
                    items@.len() == i,
                    forall|j: int| 0 <= j < i ==> i64_of(trim(#[trigger] text[j])) == Some(items@[j]),
                decreases pieces.len() - i,
            {
                let piece = trimmed(&pieces[i]);
                assert(pieces@[i as int]@ == text[i as int]);
                match parse_i64(&piece) {
                    Some(v) => {
                        items.push(v);
                    },
                    None => {
                        assert(i64_of(trim(text[i as int])) is None);
                        return Err(ParseError::BadNumber);
                    },
                }
                i += 1;
            }
            assert(items@ =~= numbers_of(text));
            Ok(items)
        },
        None => Err(ParseError::Malformed),
    }
}

impl Operation {
    pub fn parse(line: &str) -> (r: Result<Self, ParseError>)
        ensures
            r == operation_of(line@),
    {
        let cs = chars_of(line);
        match cut(&cs, " = ") {
            Some((head, formula)) => {
                if !begins_with(&trimmed(&head), "Operation:") {
                    return Err(ParseError::NotAnOperation);
                }
                let w = split_words(&formula);
                let ghost ws = words(formula@);
                assert(views(w@) == ws);
                if w.len() < 1 {
                    return Err(ParseError::Incomplete);
                }
                assert(w@[0]@ == ws[0]);
                if !is_str(&w[0], "old") {
                    return Err(ParseError::NotInTermsOfOld);
                }
                if w.len() < 2 {
                    return Err(ParseError::Incomplete);
                }
                assert(w@[1]@ == ws[1]);
                if is_str(&w[1], "+") {
                    if w.len() < 3 {
                        return Err(ParseError::Incomplete);
                    }
                    assert(w@[2]@ == ws[2]);
                    parse_operand(&w[2], false)
                } else if is_str(&w[1], "*") {
                    if w.len() < 3 {
                        return Err(ParseError::Incomplete);
                    }
                    assert(w@[2]@ == ws[2]);
                    parse_operand(&w[2], true)
                } else {
                    Err(ParseError::UnknownOperator)
                }
            },
            None => Err(ParseError::Malformed),
        }
    }
}

impl Test {
    pub fn parse(lines: &[&str]) -> (r: Result<Self, ParseError>)
        ensures
            r == test_of(str_views(lines@)),
    {
        if lines.len() != 3 {
            return Err(ParseError::WrongLineCount);
        }
        assert(str_views(lines@) =~= seq![lines@[0]@, lines@[1]@, lines@[2]@]);
        parse_test_lines(lines[0], lines[1], lines[2])
    }
}

impl Monkey {
    pub fn parse(lines: &[&str]) -> (r: Result<Monkey, ParseError>)
        ensures
            match r {
                Ok(m) => monkey_of(str_views(lines@)) == Ok::<MonkeyData, ParseError>(m@),
                Err(e) => monkey_of(str_views(lines@)) == Err::<MonkeyData, ParseError>(e),
            },
    {
        let ghost text = str_views(lines@);
        if lines.len() < 1 {
            return Err(ParseError::Incomplete);
        }
        assert(lines@[0]@ == text[0]);
        let id = match parse_id(lines[0]) {
            Ok(v) => v,
            Err(e) => {
                return Err(e);
            },
        };
        if lines.len() < 2 {
            return Err(ParseError::Incomplete);
        }
        assert(lines@[1]@ == text[1]);
        let items = match parse_items(lines[1]) {
            Ok(v) => v,
            Err(e) => {
                return Err(e);
            },
        };
        if lines.len() < 3 {
            return Err(ParseError::Incomplete);
        }
        assert(lines@[2]@ == text[2]);
        let operation = match Operation::parse(lines[2]) {
            Ok(v) => v,
            Err(e) => {
                return Err(e);
            },
        };
        if lines.len() < 6 {
            return Err(ParseError::Incomplete);
        }
        assert(text.subrange(3, 6) =~= seq![lines@[3]@, lines@[4]@, lines@[5]@]);
        let test = match parse_test_lines(lines[3], lines[4], lines[5]) {
            Ok(v) => v,
            Err(e) => {
                return Err(e);
            },
        };
        Ok(Monkey { id, items, operation, test })
    }
}

} // verus!
