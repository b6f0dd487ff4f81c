//! Points on the integer plane, written `x,y`.
use crate::number::{isize_of, parse_isize};
use crate::text::{chars_of, cut, split_once};
use vstd::prelude::*;

verus! {

#[derive(Copy, Clone, Debug, PartialEq, Eq, Hash, Structural)]
pub struct Vec2 {
    pub x: isize,
    pub y: isize,
}

/// The sign of `v`: -1, 0 or 1.
pub open spec fn sign(v: int) -> int {
    if v > 0 {
        1
    } else if v < 0 {
        -1
    } else {
        0
    }
}

/// The distance of `v` from zero.
pub open spec fn magnitude(v: int) -> int {
    if v < 0 {
        -v
    } else {
        v
    }
}

/// The point that the text `x,y` names.
pub open spec fn point_of(s: Seq<char>) -> Option<Vec2> {
    match split_once(s, ","@) {
        Some((x, y)) => match (isize_of(x), isize_of(y)) {
            (Some(x), Some(y)) => Some(Vec2 { x, y }),
            _ => None,
        },
        None => None,
    }
}

/// The distance between two points when only steps along the axes count.
pub open spec fn distance(a: Vec2, b: Vec2) -> int {
    magnitude(a.x - b.x) + magnitude(a.y - b.y)
}

pub fn signum(v: isize) -> (r: isize)
    ensures
        r == sign(v as int),
{
    if v > 0 {
        1
    } else if v < 0 {
        -1
    } else {
        0
    }
}

/// The sign of `to - from`, found without subtracting.
pub fn toward(from: isize, to: isize) -> (r: isize)
    ensures
        r == sign(to - from),
{
    if to > from {
        1
    } else if to < from {
        -1
    } else {
        0
    }
}

impl Vec2 {
    pub fn new(x: isize, y: isize) -> (v: Self)
        ensures
            v.x == x,
            v.y == y,
    {
        Vec2 { x, y }
    }

    pub fn origin() -> (v: Self)
        ensures
            v.x == 0,
            v.y == 0,
    {
        Vec2 { x: 0, y: 0 }
    }

    /// The point that a pair of coordinates names.
    pub fn from_pair(item: (isize, isize)) -> (v: Self)
        ensures
            v.x == item.0,
            v.y == item.1,
    {
        Vec2 { x: item.0, y: item.1 }
    }

    /// The coordinates of this point as a pair.
    pub fn to_pair(self) -> (p: (isize, isize))
        ensures
            p.0 == self.x,
            p.1 == self.y,
    {
        (self.x, self.y)
    }

    /// Reads a point written as `x,y`.
    pub fn from_text(s: &str) -> (r: Option<Vec2>)
        ensures
            r == point_of(s@),
    {
        Vec2::from_chars(&chars_of(s))
    }

    /// Reads a point written as `x,y` from its characters.
    pub fn from_chars(cs: &Vec<char>) -> (r: Option<Vec2>)
        ensures
            r == point_of(cs@),
    {
        match cut(cs, ",") {
            Some((x, y)) => match (parse_isize(&x), parse_isize(&y)) {
                (Some(x), Some(y)) => Some(Vec2 { x, y }),
                _ => None,
            },
            None => None,
        }
    }

    /// The signs of the two coordinates of `v - self`.
    pub fn direction_to(&self, v: &Vec2) -> (d: Vec2)
        ensures
            d.x == sign(v.x - self.x),
            d.y == sign(v.y - self.y),
    {
        Vec2::new(toward(self.x, v.x), toward(self.y, v.y))
    }

    pub fn add(&self, v: &Vec2) -> (r: Vec2)
        requires
            isize::MIN <= self.x + v.x <= isize::MAX,
            isize::MIN <= self.y + v.y <= isize::MAX,
        ensures
            r.x == self.x + v.x,
            r.y == self.y + v.y,
    {
        Vec2::new(self.x + v.x, self.y + v.y)
    }

    pub fn sub(&self, v: &Vec2) -> (r: Vec2)
        requires
            isize::MIN <= self.x - v.x <= isize::MAX,
            isize::MIN <= self.y - v.y <= isize::MAX,
        ensures
            r.x == self.x - v.x,
            r.y == self.y - v.y,
    {
        Vec2::new(self.x - v.x, self.y - v.y)
    }

    pub fn abs(&self) -> (r: Vec2)
        requires
            self.x > isize::MIN,
            self.y > isize::MIN,
        ensures
            r.x == magnitude(self.x as int),
            r.y == magnitude(self.y as int),
    {
        Vec2::new(
            if self.x < 0 {
                -self.x
            } else {
                self.x
            },
            if self.y < 0 {
                -self.y
            } else {
                self.y
            },
        )
    }

    pub fn manhattan(&self, v: &Vec2) -> (r: usize)
        requires
            isize::MIN < self.x - v.x <= isize::MAX,
            isize::MIN < self.y - v.y <= isize::MAX,
            distance(*self, *v) <= isize::MAX,
        ensures
            r == distance(*self, *v),
    {
        let delta = self.sub(v).abs();
        (delta.x + delta.y) as usize
    }
}

} // verus!
