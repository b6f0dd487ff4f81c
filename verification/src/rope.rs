//! A rope of knots: the head is moved step by step, and each knot follows
//! the one before it.
use crate::hill::vec2::{magnitude, sign, step_named, Vec2};
use crate::number::{parse_usize, usize_of};
use crate::text::{chars_of, cut, split_once, str_views};
use vstd::prelude::*;

verus! {

#[derive(Clone, Copy, Debug, PartialEq, Eq, Structural)]
pub enum RopeError {
    /// A knot is two or more steps away from its leader along both axes,
    /// and more than two along one.
    Invalid,
    /// A line has no space between direction and distance.
    ParseFailed,
    /// The distance cannot be read.
    BadNumber,
    /// The direction is none of `U`, `R`, `D`, `L`.
    BadDirection,
    /// A coordinate would leave the range of the machine's integers.
    TooFar,
    /// The rope has no knot that could be moved.
    NoKnots,
}

pub open spec fn fits(v: int) -> bool {
    isize::MIN <= v <= isize::MAX
}

/// Where the knot at `tail` goes when the knot before it is at `head`: one
/// step toward it where it is two away along an axis and at most two along
/// the other, and nowhere where it is nearer.
pub open spec fn follow(head: Vec2, tail: Vec2) -> Result<Vec2, RopeError> {
    let dx = head.x - tail.x;
    let dy = head.y - tail.y;
    if !fits(dx) || !fits(dy) || !fits(-dx) || !fits(-dy) {
        Err(RopeError::TooFar)
    } else if (magnitude(dx) <= 2 && magnitude(dy) == 2) || (magnitude(dy) <= 2 && magnitude(dx)
        == 2) {
        Ok(Vec2 { x: (tail.x + sign(dx)) as isize, y: (tail.y + sign(dy)) as isize })
    } else if magnitude(dx) >= 2 && magnitude(dy) >= 2 {
        Err(RopeError::Invalid)
    } else {
        Ok(tail)
    }
}

/// Whether two knots touch: they lie on the same point or on neighbouring
/// ones, diagonals included.
pub open spec fn touching(a: Vec2, b: Vec2) -> bool {
    magnitude(a.x - b.x) <= 1 && magnitude(a.y - b.y) <= 1
}

/// A knot that is at most two steps from its leader along each axis touches
/// the leader after it has followed.
pub proof fn lemma_follow_closes_up(head: Vec2, tail: Vec2)
    requires
        magnitude(head.x - tail.x) <= 2,
        magnitude(head.y - tail.y) <= 2,
    ensures
        follow(head, tail) matches Ok(t) && touching(head, t),
{
}

pub fn tail_pos(head: &Vec2, tail: &Vec2) -> (r: Result<Vec2, RopeError>)
    ensures
        r == follow(*head, *tail),
{
    let dx = match head.x.checked_sub(tail.x) {
        Some(v) => v,
        None => {
            return Err(RopeError::TooFar);
        },
    };
    let dy = match head.y.checked_sub(tail.y) {
        Some(v) => v,
        None => {
            return Err(RopeError::TooFar);
        },
    };
    if dx == isize::MIN || dy == isize::MIN {
        return Err(RopeError::TooFar);
    }
    let dir = Vec2::direction(head, tail);
    let diff = head.sub(tail).abs();

    if (diff.x <= 2 && diff.y == 2) || (diff.y <= 2 && diff.x == 2) {
        Ok(tail.add(&dir))
    } else if diff.x >= 2 && diff.y >= 2 {
        Err(RopeError::Invalid)
    } else {
        Ok(*tail)
    }
}

/// The number of steps and the step that a line `<direction> <distance>`
/// names.
pub open spec fn motion_of(line: Seq<char>) -> Result<(usize, Vec2), RopeError> {
    match split_once(line, " "@) {
        Some((dir, dist)) => match usize_of(dist) {
            None => Err(RopeError::BadNumber),
            Some(n) => match step_named(dir) {
                None => Err(RopeError::BadDirection),
                Some((x, y)) => Ok((n, Vec2 { x: x as isize, y: y as isize })),
            },
        },
        None => Err(RopeError::ParseFailed),
    }
}

pub fn parse_line(line: &str) -> (r: Result<(usize, Vec2), RopeError>)
    ensures
        r == motion_of(line@),
{
    let cs = chars_of(line);
    match cut(&cs, " ") {
        Some((dir, dist)) => {
            let n = match parse_usize(&dist) {
                Some(n) => n,
                None => {
                    return Err(RopeError::BadNumber);
                },
            };
            match Vec2::from_chars(&dir) {
                Some(step) => Ok((n, step)),
                None => Err(RopeError::BadDirection),
            }
        },
        None => Err(RopeError::ParseFailed),
    }
}

/// The rope after the knots from `knot` on have followed, each the knot
/// before it.
pub open spec fn dragged(rope: Seq<Vec2>, knot: int) -> Result<Seq<Vec2>, RopeError>
    decreases rope.len() - knot,
{
    if knot < 1 || knot >= rope.len() {
        Ok(rope)
    } else {
        match follow(rope[knot - 1], rope[knot]) {
            Err(e) => Err(e),
            Ok(p) => dragged(rope.update(knot, p), knot + 1),
        }
    }
}

/// The rope after its head has made the step `dir` and the other knots have
/// followed.
pub open spec fn moved(rope: Seq<Vec2>, dir: Vec2) -> Result<Seq<Vec2>, RopeError> {
    if rope.len() == 0 {
        Err(RopeError::NoKnots)
    } else if !fits(rope[0].x + dir.x) || !fits(rope[0].y + dir.y) {
        Err(RopeError::TooFar)
    } else {
        dragged(
            rope.update(0, Vec2 { x: (rope[0].x + dir.x) as isize, y: (rope[0].y + dir.y) as isize }),
            1,
        )
    }
}

/// A rope and the places where its last knot has been, in the order of its
/// visits.
pub struct Walk {
    pub rope: Seq<Vec2>,
    pub visits: Seq<Vec2>,
}

/// The walk after `n` more steps `dir`.
pub open spec fn stepped(w: Walk, dir: Vec2, n: nat) -> Result<Walk, RopeError>
    decreases n,
{
    if n == 0 {
        Ok(w)
    } else {
        match stepped(w, dir, (n - 1) as nat) {
            Err(e) => Err(e),
            Ok(before) => match moved(before.rope, dir) {
                Err(e) => Err(e),
                Ok(rope) => Ok(Walk { rope, visits: before.visits.push(rope.last()) }),
            },
        }
    }
}

/// The walk after the motions of the first `n` lines.
pub open spec fn walked(w: Walk, lines: Seq<Seq<char>>, n: int) -> Result<Walk, RopeError>
    decreases n,
{
    if n <= 0 || n > lines.len() {
        Ok(w)
    } else {
        match walked(w, lines, n - 1) {
            Err(e) => Err(e),
            Ok(before) => match motion_of(lines[n - 1]) {
                Err(e) => Err(e),
                Ok((distance, dir)) => stepped(before, dir, distance as nat),
            },
        }
    }
}

/// A rope of `length` knots that all lie at `start`.
pub open spec fn coiled(start: Vec2, length: usize) -> Walk {
    Walk { rope: Seq::new(length as nat, |i: int| start), visits: seq![] }
}

fn seen_before(seen: &Vec<Vec2>, p: Vec2) -> (r: bool)
    ensures
        r == seen@.contains(p),
{
    let mut i: usize = 0;
    while i < seen.len()
        invariant
            i <= seen.len(),
            forall|j: int| 0 <= j < i ==> seen@[j] != p,
        decreases seen.len() - i,
    {
        if seen[i] == p {
            return true;
        }
        i += 1;
    }
    false
}

/// Makes one step with the head and lets the other knots follow.
pub fn move_rope(rope: &mut Vec<Vec2>, direction: &Vec2) -> (r: Result<(), RopeError>)
    ensures
        match r {
            Ok(_) => moved(old(rope)@, *direction) == Ok::<Seq<Vec2>, RopeError>(final(rope)@),
            Err(e) => moved(old(rope)@, *direction) == Err::<Seq<Vec2>, RopeError>(e),
        },
        final(rope)@.len() == old(rope)@.len(),
{
    let length = rope.len();
    if length == 0 {
        return Err(RopeError::NoKnots);
    }
    let head = rope[0];
    let x = match head.x.checked_add(direction.x) {
        Some(v) => v,
        None => {
            return Err(RopeError::TooFar);
        },
    };
    let y = match head.y.checked_add(direction.y) {
        Some(v) => v,
        None => {
            return Err(RopeError::TooFar);
        },
    };
    rope[0] = Vec2::new(x, y);
    let ghost lifted = rope@;
    let mut knot: usize = 1;
    while knot < length
        invariant
            1 <= knot <= length,
            length == rope@.len(),
            length == old(rope)@.len(),
            moved(old(rope)@, *direction) == dragged(lifted, 1),
            dragged(lifted, 1) == dragged(rope@, knot as int),
        decreases length - knot,
    {
        let p = match tail_pos(&rope[knot - 1], &rope[knot]) {
            Ok(p) => p,
            Err(e) => {
                return Err(e);
            },
        };
        rope[knot] = p;
        knot += 1;
    }
    Ok(())
}

/// Counts the places that the last knot of a rope of `length` knots visits
/// while the head makes the motions of `lines`, all knots starting at
/// `start`.
pub fn count_tail_visits(start: &Vec2, length: usize, lines: &[&str]) -> (r: Result<
    usize,
    RopeError,
>)
    ensures
        match r {
            Ok(n) => walked(coiled(*start, length), str_views(lines@), lines@.len() as int)
                matches Ok(w) && n == w.visits.to_set().len(),
            Err(e) => walked(coiled(*start, length), str_views(lines@), lines@.len() as int)
                matches Err(f) && e == f,
        },
{
    let ghost text = str_views(lines@);
    let mut visits: Vec<Vec2> = Vec::new();
    let mut rope: Vec<Vec2> = Vec::new();
    while rope.len() < length
        invariant
            rope@.len() <= length,
            forall|i: int| 0 <= i < rope@.len() ==> rope@[i] == *start,
        decreases length - rope@.len(),
    {
        rope.push(*start);
    }
    assert(rope@ =~= coiled(*start, length).rope);
    let ghost mut walk = coiled(*start, length);
    let mut i: usize = 0;
    while i < lines.len()
        invariant
            i <= lines@.len(),
            text == str_views(lines@),
            walked(coiled(*start, length), text, i as int) == Ok::<Walk, RopeError>(walk),
            walk.rope == rope@,
            visits@.no_duplicates(),
            visits@.to_set() == walk.visits.to_set(),
        decreases lines@.len() - i,
    {
        assert(text[i as int] == lines@[i as int]@);
        let (distance, direction) = match parse_line(lines[i]) {
            Ok(m) => m,
            Err(e) => {
                proof {
                    lemma_walked_fails(coiled(*start, length), text, i + 1, text.len() as int);
                }
                return Err(e);
            },
        };
        let ghost before = walk;
        let mut n: usize = 0;
        while n < distance
            invariant
                n <= distance,
                i < lines@.len(),
                text == str_views(lines@),
                walked(coiled(*start, length), text, i as int) == Ok::<Walk, RopeError>(before),
                motion_of(text[i as int]) == Ok::<(usize, Vec2), RopeError>((distance, direction)),
                stepped(before, direction, n as nat) == Ok::<Walk, RopeError>(walk),
                walk.rope == rope@,
                visits@.no_duplicates(),
                visits@.to_set() == walk.visits.to_set(),
            decreases distance - n,
        {
            match move_rope(&mut rope, &direction) {
                Ok(_) => {},
                Err(e) => {
                    proof {
                        lemma_stepped_fails(before, direction, (n + 1) as nat, distance as nat);
                        lemma_walked_fails(coiled(*start, length), text, i + 1, text.len() as int);
                    }
                    return Err(e);
                },
            }
            let last = rope[rope.len() - 1];
            let ghost seen = visits@;
            let ghost walked_so_far = walk.visits;
            if !seen_before(&visits, last) {
                visits.push(last);
            }
            proof {
                walk = Walk { rope: rope@, visits: walked_so_far.push(last) };
                vstd::seq_lib::seq_to_set_is_finite(seen);
                assert(walked_so_far.push(last).to_set() =~= walked_so_far.to_set().insert(last)) by {
                    assert forall|p: Vec2| walked_so_far.push(last).to_set().contains(p)
                        <==> walked_so_far.to_set().insert(last).contains(p) by {
                        if walked_so_far.push(last).contains(p) {
                            let j = choose|j: int|
                                0 <= j < walked_so_far.push(last).len() && walked_so_far.push(
                                    last,
                                )[j] == p;
                            if j < walked_so_far.len() {
                                assert(walked_so_far[j] == p);
                            }
                        }
                        if walked_so_far.contains(p) {
                            let j = choose|j: int|
                                0 <= j < walked_so_far.len() && walked_so_far[j] == p;
                            assert(walked_so_far.push(last)[j] == p);
                        }
                        assert(walked_so_far.push(last)[walked_so_far.len() as int] == last);
                    }
                }
                if seen.contains(last) {
                    assert(seen.to_set().insert(last) =~= seen.to_set());
                } else {
                    assert(visits@ == seen.push(last));
                    assert(visits@.to_set() =~= seen.to_set().insert(last)) by {
                        assert forall|p: Vec2| seen.push(last).to_set().contains(p)
                            <==> seen.to_set().insert(last).contains(p) by {
                            if seen.push(last).contains(p) {
                                let j = choose|j: int|
                                    0 <= j < seen.push(last).len() && seen.push(last)[j] == p;
                                if j < seen.len() {
                                    assert(seen[j] == p);
                                }
                            }
                            if seen.contains(p) {
                                let j = choose|j: int| 0 <= j < seen.len() && seen[j] == p;
                                assert(seen.push(last)[j] == p);
                            }
                            assert(seen.push(last)[seen.len() as int] == last);
                        }
                    }
                }
            }
            n += 1;
        }
        i += 1;
    }
    proof {
        visits@.unique_seq_to_set();
    }
    Ok(visits.len())
}

/// Once a line has failed, the further lines fail in the same way.
proof fn lemma_walked_fails(w: Walk, lines: Seq<Seq<char>>, k: int, n: int)
    requires
        0 <= k <= n <= lines.len(),
        walked(w, lines, k) is Err,
    ensures
        walked(w, lines, n) == walked(w, lines, k),
    decreases n - k,
{
    if k < n {
        lemma_walked_fails(w, lines, k, n - 1);
    }
}

/// Once a step has failed, the further steps fail in the same way.
proof fn lemma_stepped_fails(w: Walk, dir: Vec2, k: nat, n: nat)
    requires
        k <= n,
        stepped(w, dir, k) is Err,
    ensures
        stepped(w, dir, n) == stepped(w, dir, k),
    decreases n - k,
{
    if k < n {
        lemma_stepped_fails(w, dir, k, (n - 1) as nat);
    }
}

} // verus!
