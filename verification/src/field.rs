//! A rectangle of cells on the integer plane, on which lines of rock are
//! drawn.
use crate::text::string_from;
use crate::vec2::{magnitude, sign, Vec2};
use itertools::Itertools;
use vstd::prelude::*;

verus! {

#[derive(Clone, Copy, Eq, PartialEq, Debug, Structural)]
pub enum Cell {
    Empty,
    Rock,
    Sand,
}

#[derive(Clone, Copy, Eq, PartialEq, Debug, Structural)]
pub enum FieldError {
    /// A point is not on the field.
    OutOfBounds,
}

pub struct Field {
    origin: Vec2,
    size: Vec2,
    cells: Vec<Cell>,
}

/// The coordinate reached from `a` after `k` steps of direction `d`.
pub open spec fn along(a: int, d: int, k: int) -> int {
    if d > 0 {
        a + k
    } else if d < 0 {
        a - k
    } else {
        a
    }
}

pub open spec fn between(a: int, b: int, v: int) -> bool {
    (a <= v <= b) || (b <= v <= a)
}

/// Whether steps from `a` in the direction of `b` come to `b`: the two lie
/// on one line along an axis or on a diagonal.
pub open spec fn reaches(a: Vec2, b: Vec2) -> bool {
    a.x == b.x || a.y == b.y || magnitude(b.x - a.x) == magnitude(b.y - a.y)
}

/// Whether `p` is where `k` steps from `a` in the direction of `b` lead.
pub open spec fn at_step(a: Vec2, b: Vec2, k: int, p: Vec2) -> bool {
    &&& p.x == along(a.x as int, sign(b.x - a.x), k)
    &&& p.y == along(a.y as int, sign(b.y - a.y), k)
}

/// Whether `p` is one of the points met on the way from `a` to `b`.
pub open spec fn on_segment(a: Vec2, b: Vec2, p: Vec2) -> bool {
    &&& between(a.x as int, b.x as int, p.x as int)
    &&& between(a.y as int, b.y as int, p.y as int)
    &&& exists|k: int| 0 <= k && #[trigger] at_step(a, b, k, p)
}

/// The number of steps from `a` to `b`, where steps from `a` come to `b`.
pub open spec fn span(a: Vec2, b: Vec2) -> int {
    if magnitude(b.x - a.x) > magnitude(b.y - a.y) {
        magnitude(b.x - a.x)
    } else {
        magnitude(b.y - a.y)
    }
}

/// Whether `p` lies on one of the first `n` segments of the path through
/// `points`.
pub open spec fn on_path(points: Seq<Vec2>, n: int, p: Vec2) -> bool {
    exists|i: int|
        0 <= i < n && i + 1 < points.len() && #[trigger] on_segment(points[i], points[i + 1], p)
}

/// Each point beside its successor.
pub open spec fn windows(points: Seq<Vec2>) -> Seq<(Vec2, Vec2)> {
    Seq::new(
        if points.len() > 0 {
            (points.len() - 1) as nat
        } else {
            0
        },
        |i: int| (points[i], points[i + 1]),
    )
}

/// Pairs each point with its successor, by `Itertools::tuple_windows`. That
/// it yields exactly these pairs, in order, and none for fewer than two
/// points, is taken on trust.
#[verifier::external_body]
fn pairs_of(points: &Vec<Vec2>) -> (out: Vec<(Vec2, Vec2)>)
    ensures
        out@ == windows(points@),
{
    points.iter().tuple_windows().map(|(a, b)| (*a, *b)).collect()
}

/// A field as a mathematical value.
pub struct FieldData {
    pub origin: Vec2,
    pub size: Vec2,
    pub cells: Seq<Cell>,
}

/// How many of the cells are empty.
pub open spec fn empty_among(cells: Seq<Cell>) -> nat
    decreases cells.len(),
{
    if cells.len() == 0 {
        0
    } else {
        empty_among(cells.drop_last()) + if cells.last() == Cell::Empty {
            1nat
        } else {
            0nat
        }
    }
}

/// Filling an empty cell leaves one empty cell fewer.
pub proof fn lemma_fill_one(cells: Seq<Cell>, k: int, c: Cell)
    requires
        0 <= k < cells.len(),
        cells[k] == Cell::Empty,
        c != Cell::Empty,
    ensures
        empty_among(cells.update(k, c)) + 1 == empty_among(cells),
    decreases cells.len(),
{
    if k == cells.len() - 1 {
        assert(cells.update(k, c).drop_last() =~= cells.drop_last());
    } else {
        lemma_fill_one(cells.drop_last(), k, c);
        assert(cells.update(k, c).drop_last() =~= cells.drop_last().update(k, c));
    }
}

/// The character that shows a cell.
pub open spec fn glyph(c: Cell) -> char {
    match c {
        Cell::Empty => '.',
        Cell::Rock => '#',
        Cell::Sand => 'o',
    }
}

impl FieldData {
    /// The characters that show row `y`, counted from the top.
    pub open spec fn row_text(self, y: int) -> Seq<char> {
        Seq::new(self.size.x as nat, |x: int| glyph(self.cells[x + y * self.size.x]))
    }

    /// The characters that show the first `n` rows, each followed by a line
    /// feed.
    pub open spec fn rows_text(self, n: int) -> Seq<char>
        decreases n,
    {
        if n <= 0 {
            seq![]
        } else {
            self.rows_text(n - 1) + self.row_text(n - 1).push('\n')
        }
    }

    /// The field has a cell for each point of its rectangle, and the
    /// rectangle lies within the coordinates of the machine.
    pub open spec fn well_formed(self) -> bool {
        &&& self.size.x > 0
        &&& self.size.y > 0
        &&& self.origin.x > isize::MIN
        &&& self.origin.y > isize::MIN
        &&& self.origin.x + self.size.x <= isize::MAX
        &&& self.origin.y + self.size.y <= isize::MAX
        &&& self.cells.len() == self.size.x * self.size.y
        &&& self.cells.len() <= usize::MAX
    }

    pub open spec fn inside(self, p: Vec2) -> bool {
        &&& self.origin.x <= p.x < self.origin.x + self.size.x
        &&& self.origin.y <= p.y < self.origin.y + self.size.y
    }

    /// The place of the cell at `p` among the cells.
    pub open spec fn index_of(self, p: Vec2) -> int {
        (p.x - self.origin.x) + (p.y - self.origin.y) * self.size.x
    }

    pub open spec fn cell_at(self, p: Vec2) -> Cell {
        self.cells[self.index_of(p)]
    }

    /// The field with the cell at `p` set to `c`.
    pub open spec fn with_cell(self, p: Vec2, c: Cell) -> FieldData {
        FieldData { origin: self.origin, size: self.size, cells: self.cells.update(self.index_of(p), c) }
    }
}

impl Field {
    /// The field as a mathematical value.
    pub closed spec fn data(&self) -> FieldData {
        FieldData { origin: self.origin, size: self.size, cells: self.cells@ }
    }

    /// The top left corner of the field.
    pub open spec fn origin(&self) -> Vec2 {
        self.data().origin
    }

    /// The width and the height of the field.
    pub open spec fn size(&self) -> Vec2 {
        self.data().size
    }

    /// The cells of the field, row after row.
    pub open spec fn cells(&self) -> Seq<Cell> {
        self.data().cells
    }

    /// The field has a cell for each point of its rectangle, and the
    /// rectangle lies within the coordinates of the machine.
    pub open spec fn well_formed(&self) -> bool {
        self.data().well_formed()
    }

    pub open spec fn inside(&self, p: Vec2) -> bool {
        self.data().inside(p)
    }

    /// The place of the cell at `p` among the cells.
    pub open spec fn index_of(&self, p: Vec2) -> int {
        self.data().index_of(p)
    }

    pub open spec fn cell_at(&self, p: Vec2) -> Cell {
        self.data().cell_at(p)
    }

    /// The path through `points` can be drawn: each point is on the field
    /// and steps from it come to the next.
    pub open spec fn drawable(&self, points: Seq<Vec2>) -> bool {
        forall|i: int|
            0 <= i && i + 1 < points.len() ==> self.inside(#[trigger] points[i]) && self.inside(
                points[i + 1],
            ) && reaches(points[i], points[i + 1])
    }

    pub proof fn lemma_index(&self, p: Vec2, q: Vec2)
        requires
            self.well_formed(),
            self.inside(p),
            self.inside(q),
        ensures
            0 <= self.index_of(p) < self.cells().len(),
            self.index_of(p) == self.index_of(q) ==> p == q,
    {
        let w = self.size().x as int;
        let h = self.size().y as int;
        let (px, py, qx, qy) = (
            p.x - self.origin().x,
            p.y - self.origin().y,
            q.x - self.origin().x,
            q.y - self.origin().y,
        );
        assert(0 <= px + py * w < w * h) by (nonlinear_arith)
            requires
                0 <= px < w,
                0 <= py < h,
        ;
        assert(px + py * w == qx + qy * w ==> py == qy) by (nonlinear_arith)
            requires
                0 <= px < w,
                0 <= qx < w,
        ;
    }

    /// An empty field from `top_left` to `bottom_right`, both included.
    pub fn new(top_left: Vec2, bottom_right: Vec2) -> (f: Self)
        requires
            isize::MIN < top_left.x <= bottom_right.x < isize::MAX,
            isize::MIN < top_left.y <= bottom_right.y < isize::MAX,
            bottom_right.x - top_left.x < isize::MAX,
            bottom_right.y - top_left.y < isize::MAX,
            (bottom_right.x - top_left.x + 1) * (bottom_right.y - top_left.y + 1) <= isize::MAX,
        ensures
            f.well_formed(),
            f.origin() == top_left,
            f.size().x == bottom_right.x - top_left.x + 1,
            f.size().y == bottom_right.y - top_left.y + 1,
            forall|p: Vec2| f.inside(p) ==> f.cell_at(p) == Cell::Empty,
    {
        let size = bottom_right.sub(&top_left).add(&Vec2::new(1, 1));
        let count: usize = (size.x * size.y) as usize;
        let mut cells: Vec<Cell> = Vec::new();
        while cells.len() < count
            invariant
                cells@.len() <= count,
                forall|i: int| 0 <= i < cells@.len() ==> cells@[i] == Cell::Empty,
            decreases count - cells@.len(),
        {
            cells.push(Cell::Empty);
        }
        let f = Field { origin: top_left, size, cells };
        assert forall|p: Vec2| f.inside(p) implies f.cell_at(p) == Cell::Empty by {
            f.lemma_index(p, p);
        }
        f
    }

    pub fn cell_offset(&self, p: Vec2) -> (r: Result<usize, FieldError>)
        requires
            self.well_formed(),
        ensures
            match r {
                Ok(k) => self.inside(p) && k == self.index_of(p) && k < self.cells().len(),
                Err(e) => !self.inside(p) && e == FieldError::OutOfBounds,
            },
    {
        if self.in_bounds(p) {
            proof {
                self.lemma_index(p, p);
            }
            let n = self.cells.len();
            assert(self.index_of(p) < n);
            let vx: usize = (p.x - self.origin.x) as usize;
            let vy: usize = (p.y - self.origin.y) as usize;
            let w: usize = self.size.x as usize;
            assert(vy * w <= self.index_of(p)) by (nonlinear_arith)
                requires
                    self.index_of(p) == vx + vy * w,
                    vx >= 0,
            ;
            Ok(vx + vy * w)
        } else {
            Err(FieldError::OutOfBounds)
        }
    }

    pub fn in_bounds(&self, p: Vec2) -> (r: bool)
        requires
            self.well_formed(),
        ensures
            r == self.inside(p),
    {
        p.x >= self.origin.x && p.x < self.origin.x + self.size.x && p.y >= self.origin.y && p.y
            < self.origin.y + self.size.y
    }

    pub fn get(&self, p: Vec2) -> (r: Result<Cell, FieldError>)
        requires
            self.well_formed(),
        ensures
            match r {
                Ok(c) => self.inside(p) && c == self.cell_at(p),
                Err(e) => !self.inside(p) && e == FieldError::OutOfBounds,
            },
    {
        match self.cell_offset(p) {
            Ok(k) => Ok(self.cells[k]),
            Err(e) => Err(e),
        }
    }

    pub fn put(&mut self, p: Vec2, c: Cell) -> (r: Result<(), FieldError>)
        requires
            old(self).well_formed(),
        ensures
            final(self).well_formed(),
            final(self).origin() == old(self).origin(),
            final(self).size() == old(self).size(),
            match r {
                Ok(_) => old(self).inside(p) && final(self).data() == old(self).data().with_cell(p, c)
                    && final(self).cell_at(p) == c && forall|q: Vec2|
                    old(self).inside(q) && q != p ==> final(self).cell_at(q) == old(self).cell_at(q),
                Err(e) => !old(self).inside(p) && e == FieldError::OutOfBounds
                    && final(self).cells() == old(self).cells(),
            },
    {
        let offset = match self.cell_offset(p) {
            Ok(k) => k,
            Err(e) => {
                return Err(e);
            },
        };
        self.cells[offset] = c;
        proof {
            assert forall|q: Vec2| old(self).inside(q) && q != p implies self.cell_at(q)
                == old(self).cell_at(q) by {
                old(self).lemma_index(q, p);
            }
        }
        Ok(())
    }

    /// The field as text: a line for each row, with `.` for an empty cell,
    /// `#` for rock and `o` for sand.
    pub fn render(&self) -> (s: String)
        requires
            self.well_formed(),
        ensures
            s@ == self.data().rows_text(self.size().y as int),
    {
        let ghost f = self.data();
        let mut out: Vec<char> = Vec::new();
        let w: usize = self.size.x as usize;
        let h: usize = self.size.y as usize;
        let n = self.cells.len();
        let mut y: usize = 0;
        while y < h
            invariant
                y <= h,
                f == self.data(),
                f.well_formed(),
                w == f.size.x,
                h == f.size.y,
                n == f.cells.len(),
                out@ == f.rows_text(y as int),
            decreases h - y,
        {
            let ghost before = out@;
            let mut x: usize = 0;
            while x < w
                invariant
                    x <= w,
                    y < h,
                    f == self.data(),
                    f.well_formed(),
                    w == f.size.x,
                    h == f.size.y,
                    n == f.cells.len(),
                    out@ == before + f.row_text(y as int).take(x as int),
                decreases w - x,
            {
                assert(0 <= x + y * w < w * h && y * w >= 0) by (nonlinear_arith)
                    requires
                        0 <= x < w,
                        0 <= y < h,
                ;
                let c = match self.cells[x + y * w] {
                    Cell::Empty => '.',
                    Cell::Rock => '#',
                    Cell::Sand => 'o',
                };
                out.push(c);
                assert(out@ =~= before + f.row_text(y as int).take(x + 1));
                x += 1;
            }
            assert(f.row_text(y as int).take(w as int) =~= f.row_text(y as int));
            out.push('\n');
            assert(out@ =~= f.rows_text(y as int) + f.row_text(y as int).push('\n'));
            y += 1;
        }
        string_from(&out)
    }

    /// Draws rock from `first` to `second` by steps in the direction of
    /// `second`.
    pub fn draw_segment(&mut self, first: Vec2, second: Vec2) -> (r: Result<(), FieldError>)
        requires
            old(self).well_formed(),
        ensures
            final(self).well_formed(),
            final(self).origin() == old(self).origin(),
            final(self).size() == old(self).size(),
            r is Ok <==> old(self).inside(first) && old(self).inside(second) && reaches(
                first,
                second,
            ),
            r is Ok ==> forall|p: Vec2|
                old(self).inside(p) ==> #[trigger] final(self).cell_at(p) == if on_segment(
                    first,
                    second,
                    p,
                ) {
                    Cell::Rock
                } else {
                    old(self).cell_at(p)
                },
            r is Err ==> forall|p: Vec2|
                old(self).inside(p) ==> #[trigger] final(self).cell_at(p) == old(self).cell_at(p)
                    || final(self).cell_at(p) == Cell::Rock,
    {
        let dir = first.direction_to(&second);
        let mut pos = first;
        let ghost mut k: int = 0;
        loop
            invariant_except_break
                at_step(first, second, k, pos),
                forall|j: int| 0 <= j < k ==> !#[trigger] at_step(first, second, j, second),
                forall|p: Vec2|
                    old(self).inside(p) ==> #[trigger] self.cell_at(p) == if drawn(
                        first,
                        second,
                        k,
                        p,
                    ) {
                        Cell::Rock
                    } else {
                        old(self).cell_at(p)
                    },
            invariant
                dir.x == sign(second.x - first.x),
                dir.y == sign(second.y - first.y),
                0 <= k <= self.size().x + self.size().y,
                k > 0 ==> old(self).inside(first),
                self.well_formed(),
                old(self).well_formed(),
                self.origin() == old(self).origin(),
                self.size() == old(self).size(),
            ensures
                old(self).inside(first),
                old(self).inside(second),
                reaches(first, second),
                forall|p: Vec2|
                    old(self).inside(p) ==> #[trigger] self.cell_at(p) == if on_segment(
                        first,
                        second,
                        p,
                    ) {
                        Cell::Rock
                    } else {
                        old(self).cell_at(p)
                    },
            decreases self.size().x + self.size().y - k,
        {
            let ghost before = *self;
            match self.put(pos, Cell::Rock) {
                Ok(_) => {},
                Err(e) => {
                    proof {
                        if old(self).inside(first) && old(self).inside(second) && reaches(
                            first,
                            second,
                        ) {
                            lemma_on_the_way(first, second, k, pos);
                        }
                        assert forall|p: Vec2| old(self).inside(p) implies #[trigger] self.cell_at(p)
                            == old(self).cell_at(p) || self.cell_at(p) == Cell::Rock by {
                            assert(self.cell_at(p) == before.cell_at(p));
                        }
                    }
                    return Err(e);
                },
            }
            proof {
                assert forall|p: Vec2| old(self).inside(p) implies #[trigger] self.cell_at(p)
                    == if drawn(first, second, k + 1, p) {
                    Cell::Rock
                } else {
                    old(self).cell_at(p)
                } by {
                    lemma_drawn_next(first, second, k, p);
                    if p == pos {
                    } else {
                        assert(self.cell_at(p) == before.cell_at(p));
                        if at_step(first, second, k, p) {
                            assert(p == pos);
                        }
                    }
                }
                lemma_steps_inside(*old(self), first, second, k, pos);
            }
            if pos == second {
                proof {
                    assert forall|p: Vec2| old(self).inside(p) implies (drawn(
                        first,
                        second,
                        k + 1,
                        p,
                    ) <==> on_segment(first, second, p)) by {
                        lemma_drawn_all(first, second, k, p);
                    }
                    lemma_arrived(first, second, k);
                }
                break ;
            }
            pos = pos.add(&dir);
            proof {
                assert forall|j: int| 0 <= j < k + 1 implies !#[trigger] at_step(
                    first,
                    second,
                    j,
                    second,
                ) by {
                    if j == k {
                    }
                }
                k = k + 1;
            }
        }
        Ok(())
    }

    /// Draws rock along the path through `points`, from each point to the
    /// next by steps in its direction.
    pub fn draw_lines(&mut self, points: &Vec<Vec2>) -> (r: Result<(), FieldError>)
        requires
            old(self).well_formed(),
        ensures
            final(self).well_formed(),
            final(self).origin() == old(self).origin(),
            final(self).size() == old(self).size(),
            r is Ok <==> old(self).drawable(points@),
            r is Ok ==> forall|p: Vec2|
                old(self).inside(p) ==> #[trigger] final(self).cell_at(p) == if on_path(
                    points@,
                    points@.len() - 1,
                    p,
                ) {
                    Cell::Rock
                } else {
                    old(self).cell_at(p)
                },
            r is Err ==> forall|p: Vec2|
                old(self).inside(p) ==> #[trigger] final(self).cell_at(p) == old(self).cell_at(p)
                    || final(self).cell_at(p) == Cell::Rock,
    {
        let pairs = pairs_of(points);
        let ghost path = points@;
        let mut i: usize = 0;
        while i < pairs.len()
            invariant
                path == points@,
                pairs@ == windows(path),
                i <= pairs@.len(),
                self.well_formed(),
                old(self).well_formed(),
                self.origin() == old(self).origin(),
                self.size() == old(self).size(),
                forall|j: int|
                    0 <= j < i ==> old(self).inside(#[trigger] path[j]) && old(self).inside(
                        path[j + 1],
                    ) && reaches(path[j], path[j + 1]),
                forall|p: Vec2|
                    old(self).inside(p) ==> #[trigger] self.cell_at(p) == if on_path(
                        path,
                        i as int,
                        p,
                    ) {
                        Cell::Rock
                    } else {
                        old(self).cell_at(p)
                    },
            decreases pairs@.len() - i,
        {
            let (first, second) = pairs[i];
            assert(first == path[i as int] && second == path[i + 1]);
            let ghost before = *self;
            match self.draw_segment(first, second) {
                Ok(_) => {},
                Err(e) => {
                    proof {
                        assert forall|p: Vec2| old(self).inside(p) implies #[trigger] self.cell_at(
                            p,
                        ) == old(self).cell_at(p) || self.cell_at(p) == Cell::Rock by {
                            assert(self.cell_at(p) == before.cell_at(p) || self.cell_at(p)
                                == Cell::Rock);
                        }
                    }
                    return Err(e);
                },
            }
            proof {
                assert forall|p: Vec2| old(self).inside(p) implies #[trigger] self.cell_at(p)
                    == if on_path(path, i + 1, p) {
                    Cell::Rock
                } else {
                    old(self).cell_at(p)
                } by {
                    lemma_path_next(path, i as int, p);
                    assert(self.cell_at(p) == if on_segment(first, second, p) {
                        Cell::Rock
                    } else {
                        before.cell_at(p)
                    });
                }
            }
            i += 1;
        }
        proof {
            if path.len() > 0 {
                assert(i == path.len() - 1);
            } else {
                assert forall|p: Vec2| !on_path(path, 0, p) && !on_path(path, -1, p) by {}
            }
        }
        Ok(())
    }
}

/// Whether `p` is met within the first `k` steps from `a` toward `b`.
pub open spec fn drawn(a: Vec2, b: Vec2, k: int, p: Vec2) -> bool {
    exists|j: int| 0 <= j < k && #[trigger] at_step(a, b, j, p)
}

proof fn lemma_drawn_next(a: Vec2, b: Vec2, k: int, p: Vec2)
    requires
        0 <= k,
    ensures
        drawn(a, b, k + 1, p) <==> drawn(a, b, k, p) || at_step(a, b, k, p),
{
    if drawn(a, b, k + 1, p) {
        let j = choose|j: int| 0 <= j < k + 1 && #[trigger] at_step(a, b, j, p);
        if j < k {
            assert(drawn(a, b, k, p));
        }
    }
    if drawn(a, b, k, p) {
        let j = choose|j: int| 0 <= j < k && #[trigger] at_step(a, b, j, p);
        assert(at_step(a, b, j, p));
    }
    if at_step(a, b, k, p) {
    }
}

/// Where steps from `a` come to `b`, every step before that lies between
/// the two, and so on any field that holds both.
proof fn lemma_on_the_way(a: Vec2, b: Vec2, k: int, p: Vec2)
    requires
        reaches(a, b),
        0 <= k,
        at_step(a, b, k, p),
        forall|j: int| 0 <= j < k ==> !#[trigger] at_step(a, b, j, b),
    ensures
        between(a.x as int, b.x as int, p.x as int),
        between(a.y as int, b.y as int, p.y as int),
{
    let m = span(a, b);
    assert(at_step(a, b, m, b));
    if m < k {
        assert(!at_step(a, b, m, b));
    }
}

/// What was met on the way to `b`, once `b` is reached after `k` steps, is
/// what lies on the segment from `a` to `b`.
proof fn lemma_drawn_all(a: Vec2, b: Vec2, k: int, p: Vec2)
    requires
        0 <= k,
        at_step(a, b, k, b),
    ensures
        drawn(a, b, k + 1, p) <==> on_segment(a, b, p),
{
    if drawn(a, b, k + 1, p) {
        let j = choose|j: int| 0 <= j < k + 1 && #[trigger] at_step(a, b, j, p);
        assert(at_step(a, b, j, p));
    }
    if on_segment(a, b, p) {
        let j = choose|j: int| 0 <= j && #[trigger] at_step(a, b, j, p);
        if j <= k {
            assert(at_step(a, b, j, p));
        } else {
            assert(at_step(a, b, 0, p) || at_step(a, b, k, p));
        }
    }
}

proof fn lemma_arrived(a: Vec2, b: Vec2, k: int)
    requires
        0 <= k,
        at_step(a, b, k, b),
    ensures
        reaches(a, b),
{
}

/// A step that lies on the field is fewer steps from the start than the
/// field is wide and high together.
proof fn lemma_steps_inside(f: Field, a: Vec2, b: Vec2, k: int, p: Vec2)
    requires
        f.well_formed(),
        0 <= k,
        at_step(a, b, k, p),
        f.inside(p),
        k > 0 ==> f.inside(a),
    ensures
        f.inside(a),
        p != b ==> k + 1 <= f.size().x + f.size().y,
{
}

proof fn lemma_path_next(path: Seq<Vec2>, i: int, p: Vec2)
    requires
        0 <= i,
        i + 1 < path.len(),
    ensures
        on_path(path, i + 1, p) <==> on_path(path, i, p) || on_segment(path[i], path[i + 1], p),
{
    if on_path(path, i + 1, p) {
        let s = choose|s: int|
            0 <= s < i + 1 && s + 1 < path.len() && #[trigger] on_segment(path[s], path[s + 1], p);
        if s < i {
            assert(on_path(path, i, p));
        }
    }
    if on_path(path, i, p) {
        let s = choose|s: int|
            0 <= s < i && s + 1 < path.len() && #[trigger] on_segment(path[s], path[s + 1], p);
        assert(on_segment(path[s], path[s + 1], p));
    }
    if on_segment(path[i], path[i + 1], p) {
    }
}

} // verus!
