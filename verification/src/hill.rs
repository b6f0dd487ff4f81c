//! A height map read from text, and the search for a shortest climb on it.
pub mod search;
pub mod vec2;

use crate::hill::vec2::Vec2;
use crate::text::{chars_of, str_views};
use std::collections::VecDeque;
use vstd::prelude::*;

verus! {

#[derive(Clone, Copy, Debug, PartialEq, Eq, Structural)]
pub enum NodeType {
    Start,
    End,
    Step(usize),
}

#[derive(Clone, Copy, Debug, PartialEq, Eq, Structural)]
pub enum HillError {
    /// A character of the map is neither `S`, `E` nor a lower-case letter.
    InvalidNode(char),
    /// The search came to a point that is not on the map.
    OffMap,
    /// The search ran out of points before it came to an end node.
    NoRoute,
    /// An end node was found, but the search never came to the marked end.
    EndNotReached,
}

pub struct Terrain {
    pub nodes: Vec<NodeType>,
    pub size: Vec2,
    pub start: Vec2,
    pub end: Vec2,
}

/// The node that a character of the map stands for.
pub open spec fn node_of(c: char) -> Option<NodeType> {
    if c == 'S' {
        Some(NodeType::Start)
    } else if c == 'E' {
        Some(NodeType::End)
    } else if 'a' <= c && c <= 'z' {
        Some(NodeType::Step((c as int - 97) as usize))
    } else {
        None
    }
}

pub open spec fn valid_line(line: Seq<char>) -> bool {
    forall|i: int| 0 <= i < line.len() ==> node_of(#[trigger] line[i]) is Some
}

/// The nodes of one line, from left to right.
pub open spec fn line_nodes(line: Seq<char>) -> Seq<NodeType> {
    Seq::new(line.len(), |i: int| node_of(line[i]).unwrap())
}

/// The nodes of all lines, line after line.
pub open spec fn nodes_of(lines: Seq<Seq<char>>) -> Seq<NodeType>
    decreases lines.len(),
{
    if lines.len() == 0 {
        seq![]
    } else {
        nodes_of(lines.drop_last()) + line_nodes(lines.last())
    }
}

/// The index of the last `c` in `line`.
pub open spec fn last_in_line(line: Seq<char>, c: char) -> Option<int>
    decreases line.len(),
{
    if line.len() == 0 {
        None
    } else if line.last() == c {
        Some(line.len() - 1)
    } else {
        last_in_line(line.drop_last(), c)
    }
}

/// Column and line of the last `c` in reading order, or the origin where
/// there is none.
pub open spec fn last_mark(lines: Seq<Seq<char>>, c: char) -> (int, int)
    decreases lines.len(),
{
    if lines.len() == 0 {
        (0, 0)
    } else {
        match last_in_line(lines.last(), c) {
            Some(x) => (x, lines.len() - 1),
            None => last_mark(lines.drop_last(), c),
        }
    }
}

/// The first character in reading order that stands for no node is at
/// column `x` of line `y`.
pub open spec fn first_invalid_at(lines: Seq<Seq<char>>, y: int, x: int) -> bool {
    &&& 0 <= y < lines.len()
    &&& 0 <= x < lines[y].len()
    &&& node_of(lines[y][x]) is None
    &&& forall|j: int| 0 <= j < y ==> valid_line(#[trigger] lines[j])
    &&& forall|i: int| 0 <= i < x ==> node_of(#[trigger] lines[y][i]) is Some
}

pub open spec fn same_width(lines: Seq<Seq<char>>, w: int) -> bool {
    forall|j: int| 0 <= j < lines.len() ==> (#[trigger] lines[j]).len() == w
}

proof fn lemma_nodes_len(lines: Seq<Seq<char>>, w: int)
    requires
        same_width(lines, w),
    ensures
        nodes_of(lines).len() == lines.len() * w,
    decreases lines.len(),
{
    if lines.len() > 0 {
        lemma_nodes_len(lines.drop_last(), w);
        assert(lines.last().len() == w);
        assert((lines.len() - 1) * w + w == lines.len() * w) by (nonlinear_arith);
    }
}

pub fn node_for(c: char) -> (r: Option<NodeType>)
    ensures
        r == node_of(c),
{
    if c == 'S' {
        Some(NodeType::Start)
    } else if c == 'E' {
        Some(NodeType::End)
    } else if 'a' <= c && c <= 'z' {
        Some(NodeType::Step((c as usize) - 97))
    } else {
        None
    }
}

/// Whether `b` is one step right, down, up or left of `a`.
pub open spec fn adjacent(a: Vec2, b: Vec2) -> bool {
    ||| b.x == a.x + 1 && b.y == a.y
    ||| b.x == a.x && b.y == a.y - 1
    ||| b.x == a.x && b.y == a.y + 1
    ||| b.x == a.x - 1 && b.y == a.y
}

/// The height from which one leaves a node; there is no leaving an end node.
pub open spec fn leaving_height(n: NodeType) -> Option<int> {
    match n {
        NodeType::Start => Some(0),
        NodeType::End => None,
        NodeType::Step(h) => Some(h as int),
    }
}

/// Whether a node may be entered from height `from`: a step at most one
/// higher, or the end from height 24 or more; never the start.
pub open spec fn admits(n: NodeType, from: int) -> bool {
    match n {
        NodeType::Start => false,
        NodeType::End => from >= 24,
        NodeType::Step(h) => h <= from + 1,
    }
}

impl Terrain {
    /// The node list holds one node for each point of the rectangle `size`.
    pub open spec fn well_formed(&self) -> bool {
        &&& self.size.x >= 0
        &&& self.size.y >= 0
        &&& self.nodes.len() == self.size.x * self.size.y
    }

    pub open spec fn inside(&self, p: Vec2) -> bool {
        0 <= p.x < self.size.x && 0 <= p.y < self.size.y
    }

    pub open spec fn index_of(&self, p: Vec2) -> int {
        p.x + p.y * self.size.x
    }

    pub open spec fn node_at(&self, p: Vec2) -> Option<NodeType> {
        if self.inside(p) {
            Some(self.nodes[self.index_of(p)])
        } else {
            None
        }
    }

    /// Whether the search may go from `a` to `b` in one step.
    pub open spec fn can_step(&self, a: Vec2, b: Vec2) -> bool {
        &&& adjacent(a, b)
        &&& self.inside(a)
        &&& self.inside(b)
        &&& leaving_height(self.nodes[self.index_of(a)]) is Some
        &&& admits(
            self.nodes[self.index_of(b)],
            leaving_height(self.nodes[self.index_of(a)]).unwrap(),
        )
    }

    /// `path` leads back from the marked end to a point one step after
    /// `src`: read from its last point to its first, it is a walk from `src`
    /// to the end. An empty path says that `src` is the end itself.
    pub open spec fn is_route(&self, src: Vec2, path: Seq<Vec2>) -> bool {
        &&& path.len() == 0 ==> src == self.end
        &&& path.len() > 0 ==> path[0] == self.end && self.can_step(src, path.last())
        &&& forall|i: int| 0 <= i < path.len() - 1 ==> self.can_step(#[trigger] path[i + 1], path[i])
    }

    pub proof fn lemma_index(&self, p: Vec2, q: Vec2)
        requires
            self.well_formed(),
            self.inside(p),
            self.inside(q),
        ensures
            0 <= self.index_of(p) < self.nodes.len(),
            self.index_of(p) == self.index_of(q) ==> p == q,
    {
        let w = self.size.x as int;
        let h = self.size.y as int;
        let (px, py, qx, qy) = (p.x as int, p.y as int, q.x as int, q.y as int);
        assert(0 <= px + py * w < w * h) by (nonlinear_arith)
            requires
                0 <= px < w,
                0 <= py < h,
        ;
        assert(px + py * w == qx + qy * w ==> py == qy) by (nonlinear_arith)
            requires
                0 <= px < w,
                0 <= qx < w,
        ;
    }

    /// Reads a map, one line of text for each of its rows.
    pub fn parse(lines: &[&str]) -> (r: Result<Terrain, HillError>)
        requires
            lines@.len() <= isize::MAX,
            forall|j: int| 0 <= j < lines@.len() ==> (#[trigger] lines@[j])@.len() <= isize::MAX,
        ensures
            match r {
                Ok(t) => {
                    let text = str_views(lines@);
                    &&& forall|j: int| 0 <= j < text.len() ==> valid_line(#[trigger] text[j])
                    &&& t.nodes@ == nodes_of(text)
                    &&& t.size.y == text.len()
                    &&& t.size.x == if text.len() == 0 {
                        0
                    } else {
                        text.last().len() as int
                    }
                    &&& (t.start.x as int, t.start.y as int) == last_mark(text, 'S')
                    &&& (t.end.x as int, t.end.y as int) == last_mark(text, 'E')
                    &&& same_width(text, t.size.x as int) ==> t.well_formed()
                },
                Err(e) => exists|y: int, x: int|
                    first_invalid_at(str_views(lines@), y, x) && e == HillError::InvalidNode(
                        str_views(lines@)[y][x],
                    ),
            },
    {
        let ghost text = str_views(lines@);
        let mut nodes: Vec<NodeType> = Vec::new();
        let mut size = Vec2::origin();
        let mut start = Vec2::origin();
        let mut end = Vec2::origin();
        let mut y: usize = 0;
        assert(text.take(0) =~= Seq::<Seq<char>>::empty());
        while y < lines.len()
            invariant
                y <= lines@.len() <= isize::MAX,
                text == str_views(lines@),
                forall|j: int| 0 <= j < text.len() ==> (#[trigger] text[j]).len() <= isize::MAX,
                forall|j: int| 0 <= j < y ==> valid_line(#[trigger] text[j]),
                nodes@ == nodes_of(text.take(y as int)),
                size.y == y,
                size.x == if y == 0 {
                    0
                } else {
                    text[y - 1].len() as int
                },
                (start.x as int, start.y as int) == last_mark(text.take(y as int), 'S'),
                (end.x as int, end.y as int) == last_mark(text.take(y as int), 'E'),
            decreases lines@.len() - y,
        {
            let line = chars_of(lines[y]);
            assert(line@ == text[y as int]);
            assert(text.take(y + 1).drop_last() =~= text.take(y as int));
            assert(text.take(y + 1).last() == line@);
            let ghost before = nodes@;
            let ghost start_before = start;
            let ghost end_before = end;
            let mut x: usize = 0;
            assert(line@.take(0) =~= Seq::<char>::empty());
            while x < line.len()
                invariant
                    x <= line.len() <= isize::MAX,
                    y < isize::MAX,
                    text == str_views(lines@),
                    line@ == text[y as int],
                    forall|i: int| 0 <= i < x ==> node_of(#[trigger] line@[i]) is Some,
                    forall|j: int| 0 <= j < y ==> valid_line(#[trigger] text[j]),
                    0 <= y < text.len(),
                    nodes@ == before + line_nodes(line@.take(x as int)),
                    (start.x as int, start.y as int) == match last_in_line(
                        line@.take(x as int),
                        'S',
                    ) {
                        Some(i) => (i, y as int),
                        None => (start_before.x as int, start_before.y as int),
                    },
                    (end.x as int, end.y as int) == match last_in_line(line@.take(x as int), 'E') {
                        Some(i) => (i, y as int),
                        None => (end_before.x as int, end_before.y as int),
                    },
                decreases line.len() - x,
            {
                let c = line[x];
                assert(line@.take(x + 1).drop_last() =~= line@.take(x as int));
                assert(line@.take(x + 1).last() == c);
                match node_for(c) {
                    Some(n) => {
                        if c == 'S' {
                            start = Vec2::new(x as isize, y as isize);
                        }
                        if c == 'E' {
                            end = Vec2::new(x as isize, y as isize);
                        }
                        nodes.push(n);
                        assert(line_nodes(line@.take(x + 1)) =~= line_nodes(
                            line@.take(x as int),
                        ).push(n));
                        assert(nodes@ =~= before + line_nodes(line@.take(x + 1)));
                    },
                    None => {
                        assert(first_invalid_at(text, y as int, x as int));
                        return Err(HillError::InvalidNode(c));
                    },
                }
                x += 1;
            }
            assert(line@.take(x as int) =~= line@);
            assert(valid_line(text[y as int]));
            size = Vec2::new(line.len() as isize, (y + 1) as isize);
            y += 1;
        }
        assert(text.take(y as int) =~= text);
        proof {
            if same_width(text, size.x as int) {
                lemma_nodes_len(text, size.x as int);
                assert(text.len() * size.x == size.x * size.y) by (nonlinear_arith)
                    requires
                        size.y == text.len(),
                ;
            }
        }
        Ok(Terrain { nodes, size, start, end })
    }

    /// The place of `p` in the node list, where `p` is on the map.
    pub fn offset(&self, p: Vec2) -> (r: Option<usize>)
        requires
            self.well_formed(),
        ensures
            match r {
                Some(k) => self.inside(p) && k == self.index_of(p) && k < self.nodes.len(),
                None => !self.inside(p),
            },
    {
        if p.x >= 0 && p.x < self.size.x && p.y >= 0 && p.y < self.size.y {
            proof {
                self.lemma_index(p, p);
            }
            let w: usize = self.size.x as usize;
            assert(p.y * w <= self.index_of(p)) by (nonlinear_arith)
                requires
                    self.index_of(p) == p.x + p.y * w,
                    p.x >= 0,
            ;
            Some((p.x as usize) + (p.y as usize) * w)
        } else {
            None
        }
    }

    pub fn get(&self, p: Vec2) -> (r: Option<NodeType>)
        requires
            self.well_formed(),
        ensures
            r == self.node_at(p),
    {
        match self.offset(p) {
            Some(k) => Some(self.nodes[k]),
            None => None,
        }
    }

    /// The points from which a climb may begin: the start, and after it the
    /// points of height 1, column by column from left to right and from the
    /// top of each column down.
    pub fn starting_points(&self) -> (r: Vec<Vec2>)
        requires
            self.well_formed(),
        ensures
            r@.len() >= 1,
            r@[0] == self.start,
            forall|i: int|
                1 <= i < r@.len() ==> self.node_at(#[trigger] r@[i]) == Some(NodeType::Step(1)),
            forall|p: Vec2|
                #[trigger] self.node_at(p) == Some(NodeType::Step(1)) ==> exists|i: int|
                    1 <= i < r@.len() && r@[i] == p,
            forall|i: int, j: int|
                1 <= i < j < r@.len() ==> (#[trigger] r@[i]).x < (#[trigger] r@[j]).x || (r@[i].x
                    == r@[j].x && r@[i].y < r@[j].y),
    {
        let mut initial_set: Vec<Vec2> = Vec::new();
        initial_set.push(self.start);
        let mut x: isize = 0;
        while x < self.size.x
            invariant
                0 <= x <= self.size.x,
                self.well_formed(),
                initial_set@.len() >= 1,
                initial_set@[0] == self.start,
                forall|i: int|
                    1 <= i < initial_set@.len() ==> self.node_at(#[trigger] initial_set@[i]) == Some(
                        NodeType::Step(1),
                    ) && initial_set@[i].x < x,
                forall|p: Vec2|
                    #[trigger] self.node_at(p) == Some(NodeType::Step(1)) && p.x < x ==> exists|
                        i: int,
                    |
                        1 <= i < initial_set@.len() && initial_set@[i] == p,
                forall|i: int, j: int|
                    1 <= i < j < initial_set@.len() ==> (#[trigger] initial_set@[i]).x < (
                    #[trigger] initial_set@[j]).x || (initial_set@[i].x == initial_set@[j].x
                        && initial_set@[i].y < initial_set@[j].y),
            decreases self.size.x - x,
        {
            let mut y: isize = 0;
            while y < self.size.y
                invariant
                    0 <= y <= self.size.y,
                    0 <= x < self.size.x,
                    self.well_formed(),
                    initial_set@.len() >= 1,
                    initial_set@[0] == self.start,
                    forall|i: int|
                        1 <= i < initial_set@.len() ==> self.node_at(#[trigger] initial_set@[i])
                            == Some(NodeType::Step(1)) && (initial_set@[i].x < x || (
                        initial_set@[i].x == x && initial_set@[i].y < y)),
                    forall|p: Vec2|
                        #[trigger] self.node_at(p) == Some(NodeType::Step(1)) && (p.x < x || (p.x
                            == x && p.y < y)) ==> exists|i: int|
                            1 <= i < initial_set@.len() && initial_set@[i] == p,
                    forall|i: int, j: int|
                        1 <= i < j < initial_set@.len() ==> (#[trigger] initial_set@[i]).x < (
                        #[trigger] initial_set@[j]).x || (initial_set@[i].x == initial_set@[j].x
                            && initial_set@[i].y < initial_set@[j].y),
                decreases self.size.y - y,
            {
                let p = Vec2::new(x, y);
                let ghost held = initial_set@;
                match self.get(p) {
                    Some(NodeType::Step(h)) => {
                        if h == 1 {
                            initial_set.push(p);
                        }
                    },
                    _ => {},
                }
                proof {
                    assert forall|q: Vec2|
                        #[trigger] self.node_at(q) == Some(NodeType::Step(1)) && (q.x < x || (q.x
                            == x && q.y < y + 1)) implies exists|i: int|
                        1 <= i < initial_set@.len() && initial_set@[i] == q by {
                        if q == p {
                            assert(initial_set@[held.len() as int] == q);
                        } else {
                            let i = choose|i: int| 1 <= i < held.len() && held[i] == q;
                            assert(initial_set@[i] == q);
                        }
                    }
                }
                y += 1;
            }
            proof {
                assert forall|q: Vec2|
                    #[trigger] self.node_at(q) == Some(NodeType::Step(1)) && q.x < x + 1 implies exists|
                    i: int,
                |
                    1 <= i < initial_set@.len() && initial_set@[i] == q by {
                    assert(self.inside(q));
                }
            }
            x += 1;
        }
        initial_set
    }
}

} // verus!
