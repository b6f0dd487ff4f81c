//! Pairs of section ranges: whether one holds the other, whether they
//! overlap, and how they are read from text.
use crate::error::Error;
use crate::number::{parse_u32, u32_of};
use crate::text::{chars_of, split, split_on, str_views, string_from, views};
use vstd::prelude::*;
use vstd::string::StringExecFns;

verus! {

/// The first and the last section that an elf cleans.
pub type Elf = (u32, u32);

/// Whether the elf cleans section `s`.
pub open spec fn cleans(e: Elf, s: int) -> bool {
    e.0 <= s <= e.1
}

pub open spec fn holds(outer: Elf, inner: Elf) -> bool {
    inner.0 >= outer.0 && inner.1 <= outer.1
}

/// Whether an end of one range lies within the other range.
pub open spec fn touches(range1: Elf, range2: Elf) -> bool {
    ||| range1.0 <= range2.0 <= range1.1
    ||| range1.0 <= range2.1 <= range1.1
    ||| range2.0 <= range1.0 <= range2.1
    ||| range2.0 <= range1.1 <= range2.1
}

pub fn outer_contains_inner(outer: Elf, inner: Elf) -> (r: bool)
    ensures
        r == holds(outer, inner),
{
    let (outer_lower, outer_upper) = outer;
    let (inner_lower, inner_upper) = inner;
    inner_lower >= outer_lower && inner_upper <= outer_upper
}

pub fn either_contains(range1: Elf, range2: Elf) -> (r: bool)
    ensures
        r == (holds(range1, range2) || holds(range2, range1)),
{
    outer_contains_inner(range1, range2) || outer_contains_inner(range2, range1)
}

pub fn overlaps_at_all(range1: Elf, range2: Elf) -> (r: bool)
    ensures
        r == touches(range1, range2),
{
    let (range1_lower, range1_upper) = range1;
    let (range2_lower, range2_upper) = range2;
    let r = (range1_lower <= range2_lower && range2_lower <= range1_upper) || (range1_lower
        <= range2_upper && range2_upper <= range1_upper) || (range2_lower <= range1_lower
        && range1_lower <= range2_upper) || (range2_lower <= range1_upper && range1_upper
        <= range2_upper);
    r
}

/// Two ranges that run from a lower to an upper end touch exactly when some
/// section is cleaned by both elves.
pub proof fn lemma_touching_ranges_share_a_section(range1: Elf, range2: Elf)
    requires
        range1.0 <= range1.1,
        range2.0 <= range2.1,
    ensures
        touches(range1, range2) <==> exists|s: int|
            #[trigger] cleans(range1, s) && cleans(range2, s),
{
    if touches(range1, range2) {
        let s: int = if range1.0 >= range2.0 {
            range1.0 as int
        } else {
            range2.0 as int
        };
        assert(cleans(range1, s) && cleans(range2, s));
    }
}

/// A range that holds another touches it, where the other is not empty.
pub proof fn lemma_holding_ranges_touch(outer: Elf, inner: Elf)
    requires
        inner.0 <= inner.1,
        holds(outer, inner),
    ensures
        touches(outer, inner),
{
}

/// The range that `lower-upper` names, or the message that says what is
/// wrong with the text.
pub open spec fn range_of(range: Seq<char>) -> Result<Elf, Seq<char>> {
    let pieces = split(range, "-"@);
    if pieces.len() != 2 {
        Err("Expected two values separated by '-' in "@ + range)
    } else {
        match (u32_of(pieces[0]), u32_of(pieces[1])) {
            (Some(lower), Some(upper)) => Ok((lower, upper)),
            _ => Err("Could not parse "@ + range + " as two numbers"@),
        }
    }
}

/// The two ranges that `range,range` names, or the message that says what is
/// wrong with the text.
pub open spec fn pair_of(line: Seq<char>) -> Result<(Elf, Elf), Seq<char>> {
    let pieces = split(line, ","@);
    if pieces.len() != 2 {
        Err("Expected two ranges in "@ + line)
    } else {
        match range_of(pieces[0]) {
            Err(e) => Err(e),
            Ok(first) => match range_of(pieces[1]) {
                Err(e) => Err(e),
                Ok(second) => Ok((first, second)),
            },
        }
    }
}

fn range_from(range: &Vec<char>) -> (r: Result<Elf, Error>)
    ensures
        match r {
            Ok(v) => range_of(range@) == Ok::<Elf, Seq<char>>(v),
            Err(e) => range_of(range@) == Err::<Elf, Seq<char>>(e.text()),
        },
{
    proof {
        reveal_strlit("-");
    }
    let split = split_on(range, "-");
    if split.len() != 2 {
        let mut m = String::from_str("Expected two values separated by '-' in ");
        m.append(string_from(range).as_str());
        Err(Error::new(m))
    } else {
        assert(views(split@)[0] == split@[0]@ && views(split@)[1] == split@[1]@);
        let lower = parse_u32(&split[0]);
        let upper = parse_u32(&split[1]);
        match (lower, upper) {
            (Some(r1), Some(r2)) => Ok((r1, r2)),
            _ => {
                let mut m = String::from_str("Could not parse ");
                m.append(string_from(range).as_str());
                m.append(" as two numbers");
                Err(Error::new(m))
            },
        }
    }
}

pub fn parse_range(range: &str) -> (r: Result<Elf, Error>)
    ensures
        match r {
            Ok(v) => range_of(range@) == Ok::<Elf, Seq<char>>(v),
            Err(e) => range_of(range@) == Err::<Elf, Seq<char>>(e.text()),
        },
{
    let cs = chars_of(range);
    range_from(&cs)
}

pub fn parse_line(line: &str) -> (r: Result<(Elf, Elf), Error>)
    ensures
        match r {
            Ok(v) => pair_of(line@) == Ok::<(Elf, Elf), Seq<char>>(v),
            Err(e) => pair_of(line@) == Err::<(Elf, Elf), Seq<char>>(e.text()),
        },
{
    proof {
        reveal_strlit(",");
    }
    let cs = chars_of(line);
    let split = split_on(&cs, ",");
    if split.len() != 2 {
        let mut m = String::from_str("Expected two ranges in ");
        m.append(line);
        Err(Error::new(m))
    } else {
        assert(views(split@)[0] == split@[0]@ && views(split@)[1] == split@[1]@);
        let first = match range_from(&split[0]) {
            Ok(v) => v,
            Err(e) => {
                return Err(e);
            },
        };
        let second = match range_from(&split[1]) {
            Ok(v) => v,
            Err(e) => {
                return Err(e);
            },
        };
        Ok((first, second))
    }
}

/// How many of the first `n` pairs have one range that holds the other, and
/// how many have ranges that touch.
pub open spec fn counts(pairs: Seq<(Elf, Elf)>, n: int) -> (int, int)
    decreases n,
{
    if n <= 0 || n > pairs.len() {
        (0, 0)
    } else {
        let (containing, overlapping) = counts(pairs, n - 1);
        let (a, b) = pairs[n - 1];
        (
            containing + if holds(a, b) || holds(b, a) {
                1int
            } else {
                0int
            },
            overlapping + if touches(a, b) {
                1int
            } else {
                0int
            },
        )
    }
}

/// Counts the pairs in which one range holds the other, and those whose
/// ranges touch.
pub fn count_pairs(pairs: &Vec<(Elf, Elf)>) -> (r: (usize, usize))
    ensures
        (r.0 as int, r.1 as int) == counts(pairs@, pairs@.len() as int),
{
    let mut total_score: usize = 0;
    let mut total_score_2: usize = 0;
    let mut i: usize = 0;
    while i < pairs.len()
        invariant
            i <= pairs@.len(),
            total_score <= i,
            total_score_2 <= i,
            (total_score as int, total_score_2 as int) == counts(pairs@, i as int),
        decreases pairs@.len() - i,
    {
        let (elf1, elf2) = pairs[i];
        if either_contains(elf1, elf2) {
            total_score += 1;
        }
        if overlaps_at_all(elf1, elf2) {
            total_score_2 += 1;
        }
        i += 1;
    }
    (total_score, total_score_2)
}

/// The pairs that the first `n` lines name, or the message for the first
/// line that names none.
pub open spec fn pairs_in(lines: Seq<Seq<char>>, n: int) -> Result<Seq<(Elf, Elf)>, Seq<char>>
    decreases n,
{
    if n <= 0 || n > lines.len() {
        Ok(seq![])
    } else {
        match pairs_in(lines, n - 1) {
            Err(e) => Err(e),
            Ok(before) => match pair_of(lines[n - 1]) {
                Err(e) => Err(e),
                Ok(pair) => Ok(before.push(pair)),
            },
        }
    }
}

proof fn lemma_pairs_fail(lines: Seq<Seq<char>>, k: int, n: int)
    requires
        0 <= k <= n <= lines.len(),
        pairs_in(lines, k) is Err,
    ensures
        pairs_in(lines, n) == pairs_in(lines, k),
    decreases n - k,
{
    if k < n {
        lemma_pairs_fail(lines, k, n - 1);
    }
}

/// Reads a pair of ranges from each line and counts the pairs in which one
/// range holds the other, and those whose ranges touch.
pub fn count_lines(lines: &[&str]) -> (r: Result<(usize, usize), Error>)
    ensures
        match r {
            Ok(c) => pairs_in(str_views(lines@), lines@.len() as int) matches Ok(pairs) && (
            c.0 as int,
            c.1 as int,
            ) == counts(pairs, pairs.len() as int),
            Err(e) => pairs_in(str_views(lines@), lines@.len() as int) == Err::<
                Seq<(Elf, Elf)>,
                Seq<char>,
            >(e.text()),
        },
{
    let ghost text = str_views(lines@);
    let mut pairs: Vec<(Elf, Elf)> = Vec::new();
    let mut i: usize = 0;
    while i < lines.len()
        invariant
            i <= lines@.len(),
            text == str_views(lines@),
            pairs_in(text, i as int) == Ok::<Seq<(Elf, Elf)>, Seq<char>>(pairs@),
            pairs@.len() == i,
        decreases lines@.len() - i,
    {
        assert(text[i as int] == lines@[i as int]@);
        match parse_line(lines[i]) {
            Ok(pair) => {
                pairs.push(pair);
            },
            Err(e) => {
                proof {
                    lemma_pairs_fail(text, i + 1, text.len() as int);
                }
                return Err(e);
            },
        }
        i += 1;
    }
    Ok(count_pairs(&pairs))
}

} // verus!
