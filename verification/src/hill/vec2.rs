//! Points and steps on the integer plane.
use vstd::prelude::*;

verus! {

#[derive(Copy, Clone, Debug, PartialEq, Eq, Hash, Structural)]
pub struct Vec2 {
    pub x: isize,
    pub y: isize,
}

/// The sign of `v`: -1, 0 or 1.
pub open spec fn sign(v: int) -> int {
    if v > 0 {
        1
    } else if v < 0 {
        -1
    } else {
        0
    }
}

/// The distance of `v` from zero.
pub open spec fn magnitude(v: int) -> int {
    if v < 0 {
        -v
    } else {
        v
    }
}

/// The step that a direction's letter names: `U`, `R`, `D` or `L`.
pub open spec fn step_named(name: Seq<char>) -> Option<(int, int)> {
    if name == seq!['U'] {
        Some((0, 1))
    } else if name == seq!['R'] {
        Some((1, 0))
    } else if name == seq!['D'] {
        Some((0, -1))
    } else if name == seq!['L'] {
        Some((-1, 0))
    } else {
        None
    }
}

pub fn signum(v: isize) -> (r: isize)
    ensures
        r == sign(v as int),
{
    if v > 0 {
        1
    } else if v < 0 {
        -1
    } else {
        0
    }
}

impl Vec2 {
    pub fn new(x: isize, y: isize) -> (v: Self)
        ensures
            v.x == x,
            v.y == y,
    {
        Vec2 { x, y }
    }

    pub fn origin() -> (v: Self)
        ensures
            v.x == 0,
            v.y == 0,
    {
        Vec2 { x: 0, y: 0 }
    }

    /// The point that a pair of coordinates names.
    pub fn from(item: (isize, isize)) -> (v: Self)
        ensures
            v.x == item.0,
            v.y == item.1,
    {
        Vec2 { x: item.0, y: item.1 }
    }

    /// The coordinates of this point as a pair.
    pub fn to_pair(self) -> (p: (isize, isize))
        ensures
            p.0 == self.x,
            p.1 == self.y,
    {
        (self.x, self.y)
    }

    /// The unit step that the characters of a direction's name stand for,
    /// where they are such a name.
    pub fn from_chars(name: &Vec<char>) -> (r: Option<Self>)
        ensures
            match r {
                Some(v) => step_named(name@) == Some((v.x as int, v.y as int)),
                None => step_named(name@) is None,
            },
    {
        if name.len() != 1 {
            return None;
        }
        assert(name@ =~= seq![name@[0]]);
        let c = name[0];
        if c == 'U' {
            Some(Vec2 { x: 0, y: 1 })
        } else if c == 'R' {
            Some(Vec2 { x: 1, y: 0 })
        } else if c == 'D' {
            Some(Vec2 { x: 0, y: -1 })
        } else if c == 'L' {
            Some(Vec2 { x: -1, y: 0 })
        } else {
            None
        }
    }

    /// The unit step that the letter `name` stands for.
    pub fn from_dir(name: &str) -> (v: Self)
        requires
            step_named(name@) is Some,
        ensures
            step_named(name@) == Some((v.x as int, v.y as int)),
    {
        let c = name.get_char(0);
        if c == 'U' {
            Vec2 { x: 0, y: 1 }
        } else if c == 'R' {
            Vec2 { x: 1, y: 0 }
        } else if c == 'D' {
            Vec2 { x: 0, y: -1 }
        } else {
            Vec2 { x: -1, y: 0 }
        }
    }

    /// The signs of the two coordinates of `v1 - v2`.
    pub fn direction(v1: &Vec2, v2: &Vec2) -> (d: Vec2)
        requires
            isize::MIN <= v1.x - v2.x <= isize::MAX,
            isize::MIN <= v1.y - v2.y <= isize::MAX,
        ensures
            d.x == sign(v1.x - v2.x),
            d.y == sign(v1.y - v2.y),
    {
        Vec2::new(signum(v1.x - v2.x), signum(v1.y - v2.y))
    }

    pub fn add(&self, v: &Vec2) -> (r: Vec2)
        requires
            isize::MIN <= self.x + v.x <= isize::MAX,
            isize::MIN <= self.y + v.y <= isize::MAX,
        ensures
            r.x == self.x + v.x,
            r.y == self.y + v.y,
    {
        Vec2::new(self.x + v.x, self.y + v.y)
    }

    pub fn sub(&self, v: &Vec2) -> (r: Vec2)
        requires
            isize::MIN <= self.x - v.x <= isize::MAX,
            isize::MIN <= self.y - v.y <= isize::MAX,
        ensures
            r.x == self.x - v.x,
            r.y == self.y - v.y,
    {
        Vec2::new(self.x - v.x, self.y - v.y)
    }

    pub fn abs(&self) -> (r: Vec2)
        requires
            self.x > isize::MIN,
            self.y > isize::MIN,
        ensures
            r.x == magnitude(self.x as int),
            r.y == magnitude(self.y as int),
    {
        Vec2::new(
            if self.x < 0 {
                -self.x
            } else {
                self.x
            },
            if self.y < 0 {
                -self.y
            } else {
                self.y
            },
        )
    }
}

} // verus!
