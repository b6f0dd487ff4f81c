//! A cave of rock into which sand falls: the scan of the rock is read into a
//! field, and grains of sand are dropped one by one.
use crate::field::{
    empty_among, lemma_fill_one, on_path, reaches, Cell, Field, FieldData, FieldError,
};
use crate::text::{chars_of, split, split_on, str_views, trim, trimmed, views};
use crate::vec2::{point_of, Vec2};
use vstd::prelude::*;

verus! {

#[derive(Clone, Copy, Debug, PartialEq, Eq, Structural)]
pub enum CaveError {
    /// A point of a path cannot be read.
    BadPoint,
    /// The scan holds no point.
    NoPoints,
    /// The cave is larger than the machine's integers allow.
    TooLarge,
    /// Two points that follow each other lie on no line that can be drawn.
    Crooked,
}

#[derive(Clone, Copy, Debug, PartialEq, Eq, Structural)]
pub enum DropResult {
    Okay,
    OutOfBounds,
    Full,
}

/// Whether each piece, trimmed, names a point.
pub open spec fn all_points(pieces: Seq<Seq<char>>) -> bool {
    forall|i: int| 0 <= i < pieces.len() ==> point_of(trim(#[trigger] pieces[i])) is Some
}

/// The path that a line `x,y -> x,y -> ...` names.
pub open spec fn path_of(line: Seq<char>) -> Result<Seq<Vec2>, CaveError> {
    let pieces = split(line, "->"@);
    if all_points(pieces) {
        Ok(Seq::new(pieces.len(), |i: int| point_of(trim(pieces[i])).unwrap()))
    } else {
        Err(CaveError::BadPoint)
    }
}

pub fn parse_line(l: &str) -> (r: Result<Vec<Vec2>, CaveError>)
    ensures
        match r {
            Ok(path) => path_of(l@) == Ok::<Seq<Vec2>, CaveError>(path@),
            Err(e) => path_of(l@) == Err::<Seq<Vec2>, CaveError>(e),
        },
{
    proof {
        reveal_strlit("->");
    }
    let cs = chars_of(l);
    let pieces = split_on(&cs, "->");
    let ghost text = views(pieces@);
    let mut path: Vec<Vec2> = Vec::new();
    let mut i: usize = 0;
    while i < pieces.len()
        invariant
            i <= pieces.len(),
            text == views(pieces@),
            text == split(l@, "->"@),
            path@.len() == i,
            forall|j: int| 0 <= j < i ==> point_of(trim(#[trigger] text[j])) == Some(path@[j]),
        decreases pieces.len() - i,
    {
        assert(pieces@[i as int]@ == text[i as int]);
        match Vec2::from_chars(&trimmed(&pieces[i])) {
            Some(p) => {
                path.push(p);
            },
            None => {
                assert(point_of(trim(text[i as int])) is None);
                return Err(CaveError::BadPoint);
            },
        }
        i += 1;
    }
    assert(path@ =~= Seq::new(text.len(), |i: int| point_of(trim(text[i])).unwrap()));
    Ok(path)
}

/// Whether the rectangle from `top_left` to `bottom_right` is the smallest
/// that holds all of `v`.
pub open spec fn bounding(v: Seq<Vec2>, top_left: Vec2, bottom_right: Vec2) -> bool {
    &&& forall|i: int|
        0 <= i < v.len() ==> top_left.x <= (#[trigger] v[i]).x <= bottom_right.x && top_left.y
            <= v[i].y <= bottom_right.y
    &&& exists|i: int| 0 <= i < v.len() && (#[trigger] v[i]).x == top_left.x
    &&& exists|i: int| 0 <= i < v.len() && (#[trigger] v[i]).y == top_left.y
    &&& exists|i: int| 0 <= i < v.len() && (#[trigger] v[i]).x == bottom_right.x
    &&& exists|i: int| 0 <= i < v.len() && (#[trigger] v[i]).y == bottom_right.y
}

/// The corners of the smallest rectangle that holds all points of `v`.
pub fn bounds(v: &[Vec2]) -> (r: Result<(Vec2, Vec2), CaveError>)
    ensures
        match r {
            Ok((top_left, bottom_right)) => bounding(v@, top_left, bottom_right),
            Err(e) => v@.len() == 0 && e == CaveError::NoPoints,
        },
{
    if v.len() == 0 {
        return Err(CaveError::NoPoints);
    }
    let first = v[0];
    let (mut top_left, mut bottom_right) = (first, first);
    let mut i: usize = 1;
    assert(v@.take(1)[0] == first);
    while i < v.len()
        invariant
            1 <= i <= v@.len(),
            bounding(v@.take(i as int), top_left, bottom_right),
        decreases v@.len() - i,
    {
        let p = v[i];
        let ghost seen = v@.take(i as int);
        let ghost now = v@.take(i + 1);
        let ghost (tl, br) = (top_left, bottom_right);
        if p.x < top_left.x {
            top_left.x = p.x;
        }
        if p.y < top_left.y {
            top_left.y = p.y;
        }
        if p.x > bottom_right.x {
            bottom_right.x = p.x;
        }
        if p.y > bottom_right.y {
            bottom_right.y = p.y;
        }
        proof {
            assert(now[i as int] == p);
            assert forall|j: int| 0 <= j < now.len() implies top_left.x <= (#[trigger] now[j]).x
                <= bottom_right.x && top_left.y <= now[j].y <= bottom_right.y by {
                if j < i {
                    assert(seen[j] == now[j]);
                }
            }
            let a = choose|k: int| 0 <= k < seen.len() && (#[trigger] seen[k]).x == tl.x;
            let b = choose|k: int| 0 <= k < seen.len() && (#[trigger] seen[k]).y == tl.y;
            let c = choose|k: int| 0 <= k < seen.len() && (#[trigger] seen[k]).x == br.x;
            let d = choose|k: int| 0 <= k < seen.len() && (#[trigger] seen[k]).y == br.y;
            assert(now[a] == seen[a] && now[b] == seen[b] && now[c] == seen[c] && now[d] == seen[d]);
            assert(now[a].x == top_left.x || now[i as int].x == top_left.x);
            assert(now[b].y == top_left.y || now[i as int].y == top_left.y);
            assert(now[c].x == bottom_right.x || now[i as int].x == bottom_right.x);
            assert(now[d].y == bottom_right.y || now[i as int].y == bottom_right.y);
        }
        i += 1;
    }
    assert(v@.take(v@.len() as int) =~= v@);
    Ok((top_left, bottom_right))
}

/// Where a grain of sand ends that falls from a point of the field.
pub enum Fall {
    /// It leaves the field.
    Out,
    /// It comes to rest.
    Rest(Vec2),
}

/// The point one row below `p`, `dx` columns to the right.
pub open spec fn below(p: Vec2, dx: int) -> Vec2 {
    Vec2 { x: (p.x + dx) as isize, y: (p.y + 1) as isize }
}

/// Where a grain ends that is at `pos`: it goes straight down where that
/// cell is empty, else down and left, else down and right, and rests where
/// none of the three is empty. It is lost as soon as the cell that it looks
/// at lies off the field.
pub open spec fn settle(f: FieldData, pos: Vec2) -> Fall
    decreases f.origin.y + f.size.y - pos.y,
{
    if !f.well_formed() || !f.inside(pos) {
        Fall::Out
    } else if !f.inside(below(pos, 0)) {
        Fall::Out
    } else if f.cell_at(below(pos, 0)) == Cell::Empty {
        settle(f, below(pos, 0))
    } else if !f.inside(below(pos, -1)) {
        Fall::Out
    } else if f.cell_at(below(pos, -1)) == Cell::Empty {
        settle(f, below(pos, -1))
    } else if !f.inside(below(pos, 1)) {
        Fall::Out
    } else if f.cell_at(below(pos, 1)) == Cell::Empty {
        settle(f, below(pos, 1))
    } else {
        Fall::Rest(pos)
    }
}

/// A grain that is dropped at `source` on the field `before` comes to rest,
/// and `after` is the field with it.
pub open spec fn grain_rests(before: FieldData, after: FieldData, source: Vec2) -> bool {
    &&& before.inside(source)
    &&& before.cell_at(source) == Cell::Empty
    &&& settle(before, source) matches Fall::Rest(p) && after == before.with_cell(p, Cell::Sand)
}

/// Each field but the last becomes the next by a grain that is dropped at
/// `source` and comes to rest.
pub open spec fn grains_rest(fields: Seq<FieldData>, source: Vec2) -> bool {
    forall|i: int|
        0 <= i < fields.len() - 1 ==> grain_rests(#[trigger] fields[i], fields[i + 1], source)
}

/// `count` grains came to rest, one after the other, and made `after` of
/// `before`.
pub open spec fn poured(before: FieldData, after: FieldData, source: Vec2, count: int) -> bool {
    exists|fields: Seq<FieldData>|
        #![trigger grains_rest(fields, source)]
        fields.len() == count + 1 && fields[0] == before && fields.last() == after && grains_rest(
            fields,
            source,
        )
}

/// A grain comes to rest on a cell that was empty, and the field with it
/// has one empty cell fewer.
pub proof fn lemma_rest_fills(f: FieldData, start: Vec2, pos: Vec2)
    requires
        f.well_formed(),
        f.inside(pos),
        f.cell_at(pos) == Cell::Empty,
        settle(f, start) == settle(f, pos),
    ensures
        settle(f, start) matches Fall::Rest(p) ==> f.inside(p) && f.cell_at(p) == Cell::Empty
            && f.with_cell(p, Cell::Sand).well_formed() && empty_among(
            f.with_cell(p, Cell::Sand).cells,
        ) + 1 == empty_among(f.cells),
    decreases f.origin.y + f.size.y - pos.y,
{
    if !f.inside(below(pos, 0)) {
    } else if f.cell_at(below(pos, 0)) == Cell::Empty {
        lemma_rest_fills(f, start, below(pos, 0));
    } else if !f.inside(below(pos, -1)) {
    } else if f.cell_at(below(pos, -1)) == Cell::Empty {
        lemma_rest_fills(f, start, below(pos, -1));
    } else if !f.inside(below(pos, 1)) {
    } else if f.cell_at(below(pos, 1)) == Cell::Empty {
        lemma_rest_fills(f, start, below(pos, 1));
    } else {
        let w = f.size.x as int;
        let h = f.size.y as int;
        let (px, py) = (pos.x - f.origin.x, pos.y - f.origin.y);
        assert(0 <= px + py * w < w * h) by (nonlinear_arith)
            requires
                0 <= px < w,
                0 <= py < h,
        ;
        lemma_fill_one(f.cells, f.index_of(pos), Cell::Sand);
    }
}

/// Drops a grain of sand at `start` and lets it fall until it rests or
/// leaves the field.
pub fn drop_sand(field: &mut Field, start: Vec2) -> (r: Result<DropResult, FieldError>)
    requires
        old(field).well_formed(),
    ensures
        final(field).well_formed(),
        match r {
            Err(e) => {
                &&& !old(field).inside(start)
                &&& e == FieldError::OutOfBounds
                &&& final(field).data() == old(field).data()
            },
            Ok(DropResult::Full) => {
                &&& old(field).inside(start)
                &&& old(field).cell_at(start) != Cell::Empty
                &&& final(field).data() == old(field).data()
            },
            Ok(DropResult::OutOfBounds) => {
                &&& old(field).inside(start)
                &&& old(field).cell_at(start) == Cell::Empty
                &&& settle(old(field).data(), start) is Out
                &&& final(field).data() == old(field).data()
            },
            Ok(DropResult::Okay) => grain_rests(old(field).data(), final(field).data(), start),
        },
{
    match field.get(start) {
        Ok(c) => {
            if c != Cell::Empty {
                return Ok(DropResult::Full);
            }
        },
        Err(e) => {
            return Err(e);
        },
    }
    let mut pos = start;
    loop
        invariant
            field.well_formed(),
            field.data() == old(field).data(),
            field.inside(pos),
            field.inside(start),
            field.cell_at(start) == Cell::Empty,
            settle(field.data(), start) == settle(field.data(), pos),
        ensures
            settle(field.data(), start) == Fall::Rest(pos),
        decreases field.origin().y + field.size().y - pos.y,
    {
        let mut new_pos = pos;
        let down = Vec2::new(pos.x, pos.y + 1);
        assert(down == below(pos, 0));
        if !field.in_bounds(down) {
            return Ok(DropResult::OutOfBounds);
        }
        let c = match field.get(down) {
            Ok(c) => c,
            Err(e) => {
                return Err(e);
            },
        };
        if c == Cell::Empty {
            new_pos = down;
        } else {
            let left = Vec2::new(pos.x - 1, pos.y + 1);
            assert(left == below(pos, -1));
            if !field.in_bounds(left) {
                return Ok(DropResult::OutOfBounds);
            }
            let c = match field.get(left) {
                Ok(c) => c,
                Err(e) => {
                    return Err(e);
                },
            };
            if c == Cell::Empty {
                new_pos = left;
            } else {
                let right = Vec2::new(pos.x + 1, pos.y + 1);
                assert(right == below(pos, 1));
                if !field.in_bounds(right) {
                    return Ok(DropResult::OutOfBounds);
                }
                let c = match field.get(right) {
                    Ok(c) => c,
                    Err(e) => {
                        return Err(e);
                    },
                };
                if c == Cell::Empty {
                    new_pos = right;
                }
            }
        }
        if pos != new_pos {
            pos = new_pos;
        } else {
            break ;
        }
    }
    match field.put(pos, Cell::Sand) {
        Ok(_) => {},
        Err(e) => {
            return Err(e);
        },
    }
    Ok(DropResult::Okay)
}

/// Whether each line names a path.
pub open spec fn all_paths(lines: Seq<Seq<char>>) -> bool {
    forall|i: int| 0 <= i < lines.len() ==> path_of(#[trigger] lines[i]) is Ok
}

/// The paths that the lines name.
pub open spec fn paths_of(lines: Seq<Seq<char>>) -> Seq<Seq<Vec2>> {
    Seq::new(lines.len(), |i: int| path_of(lines[i]).unwrap())
}

/// The points of the first `n` paths, path after path.
pub open spec fn points_of(paths: Seq<Seq<Vec2>>, n: int) -> Seq<Vec2>
    decreases n,
{
    if n <= 0 || n > paths.len() {
        seq![]
    } else {
        points_of(paths, n - 1) + paths[n - 1]
    }
}

/// The corners of the field for rock between the corners `a` and `b`, as
/// left, top, right, bottom. The field reaches up to row 0. With a floor it
/// is 200 columns wider on each side and two rows deeper.
pub open spec fn frame_of(a: Vec2, b: Vec2, with_baseline: bool) -> (int, int, int, int) {
    (
        if with_baseline {
            a.x - 200
        } else {
            a.x as int
        },
        if a.y < 0 {
            a.y as int
        } else {
            0
        },
        if with_baseline {
            b.x + 200
        } else {
            b.x as int
        },
        if with_baseline {
            b.y + 2
        } else {
            b.y as int
        },
    )
}

/// Whether a field with these corners can be held.
pub open spec fn roomy(frame: (int, int, int, int)) -> bool {
    &&& isize::MIN < frame.0 <= frame.2 < isize::MAX
    &&& isize::MIN < frame.1 <= frame.3 < isize::MAX
    &&& frame.2 - frame.0 < isize::MAX
    &&& frame.3 - frame.1 < isize::MAX
    &&& (frame.2 - frame.0 + 1) * (frame.3 - frame.1 + 1) <= isize::MAX
}

/// The floor: the path along the bottom row of the frame.
pub open spec fn floor_of(frame: (int, int, int, int)) -> Seq<Vec2> {
    seq![
        Vec2 { x: frame.0 as isize, y: frame.3 as isize },
        Vec2 { x: frame.2 as isize, y: frame.3 as isize },
    ]
}

/// The paths along which rock lies: those of the scan and, with a floor,
/// the floor.
pub open spec fn rock_paths(paths: Seq<Seq<Vec2>>, frame: (int, int, int, int), with_baseline: bool) -> Seq<
    Seq<Vec2>,
> {
    if with_baseline {
        paths.push(floor_of(frame))
    } else {
        paths
    }
}

/// Whether `p` lies on one of the first `n` paths.
pub open spec fn on_paths(paths: Seq<Seq<Vec2>>, n: int, p: Vec2) -> bool {
    exists|k: int| 0 <= k < n && k < paths.len() && #[trigger] on_path(paths[k], paths[k].len() - 1, p)
}

/// Whether each point of each path is followed by one that steps from it
/// come to.
pub open spec fn straight(paths: Seq<Seq<Vec2>>) -> bool {
    forall|k: int, i: int|
        0 <= k < paths.len() && 0 <= i && i + 1 < paths[k].len() ==> reaches(
            #[trigger] paths[k][i],
            paths[k][i + 1],
        )
}

/// The field `f` shows the scan `lines`: it spans the frame of the rock, and
/// its cells are rock along the paths and empty elsewhere.
pub open spec fn shows(f: &Field, lines: Seq<Seq<char>>, with_baseline: bool, a: Vec2, b: Vec2) -> bool {
    let frame = frame_of(a, b, with_baseline);
    let paths = rock_paths(paths_of(lines), frame, with_baseline);
    &&& f.well_formed()
    &&& f.origin().x == frame.0
    &&& f.origin().y == frame.1
    &&& f.size().x == frame.2 - frame.0 + 1
    &&& f.size().y == frame.3 - frame.1 + 1
    &&& forall|p: Vec2|
        f.inside(p) ==> #[trigger] f.cell_at(p) == if on_paths(paths, paths.len() as int, p) {
            Cell::Rock
        } else {
            Cell::Empty
        }
}

proof fn lemma_points_of(paths: Seq<Seq<Vec2>>, n: int, k: int, i: int)
    requires
        0 <= k < n <= paths.len(),
        0 <= i < paths[k].len(),
    ensures
        points_of(paths, n).contains(paths[k][i]),
    decreases n,
{
    let all = points_of(paths, n);
    let before = points_of(paths, n - 1);
    if k == n - 1 {
        assert(all[before.len() + i] == paths[k][i]);
    } else {
        lemma_points_of(paths, n - 1, k, i);
        let j = choose|j: int| 0 <= j < before.len() && before[j] == paths[k][i];
        assert(all[j] == paths[k][i]);
    }
}

fn room_for(left: isize, top: isize, right: isize, bottom: isize) -> (r: bool)
    ensures
        r == roomy((left as int, top as int, right as int, bottom as int)),
{
    if !(isize::MIN < left && left <= right && right < isize::MAX) {
        return false;
    }
    if !(isize::MIN < top && top <= bottom && bottom < isize::MAX) {
        return false;
    }
    let width = match right.checked_sub(left) {
        Some(w) => w,
        None => {
            return false;
        },
    };
    let height = match bottom.checked_sub(top) {
        Some(h) => h,
        None => {
            return false;
        },
    };
    if width == isize::MAX || height == isize::MAX {
        return false;
    }
    match (width + 1).checked_mul(height + 1) {
        Some(_) => true,
        None => {
            assert((width + 1) * (height + 1) >= 0) by (nonlinear_arith)
                requires
                    width >= 0,
                    height >= 0,
            ;
            false
        },
    }
}

/// Reads the scan of a cave into a field. With `with_baseline` the cave has
/// a floor two rows below the lowest rock.
pub fn parse_lines(lines: &[&str], with_baseline: bool) -> (r: Result<Field, CaveError>)
    ensures
        match r {
            Ok(f) => all_paths(str_views(lines@)) && straight(paths_of(str_views(lines@)))
                && exists|a: Vec2, b: Vec2|
                #[trigger] bounding(
                    points_of(paths_of(str_views(lines@)), lines@.len() as int),
                    a,
                    b,
                ) && roomy(frame_of(a, b, with_baseline)) && shows(
                    &f,
                    str_views(lines@),
                    with_baseline,
                    a,
                    b,
                ),
            Err(CaveError::BadPoint) => !all_paths(str_views(lines@)),
            Err(CaveError::NoPoints) => all_paths(str_views(lines@)) && points_of(
                paths_of(str_views(lines@)),
                lines@.len() as int,
            ).len() == 0,
            Err(CaveError::TooLarge) => all_paths(str_views(lines@)) && exists|a: Vec2, b: Vec2|
                #[trigger] bounding(
                    points_of(paths_of(str_views(lines@)), lines@.len() as int),
                    a,
                    b,
                ) && !roomy(frame_of(a, b, with_baseline)),
            Err(CaveError::Crooked) => all_paths(str_views(lines@)) && !straight(
                paths_of(str_views(lines@)),
            ),
        },
{
    let ghost text = str_views(lines@);
    let ghost scan = paths_of(text);
    let mut paths: Vec<Vec<Vec2>> = Vec::new();
    let mut all: Vec<Vec2> = Vec::new();
    let mut i: usize = 0;
    while i < lines.len()
        invariant
            i <= lines@.len(),
            text == str_views(lines@),
            scan == paths_of(text),
            paths@.len() == i,
            forall|k: int| 0 <= k < i ==> path_of(#[trigger] text[k]) is Ok,
            forall|k: int| 0 <= k < i ==> (#[trigger] paths@[k])@ == scan[k],
            all@ == points_of(scan, i as int),
        decreases lines@.len() - i,
    {
        assert(text[i as int] == lines@[i as int]@);
        let path = match parse_line(lines[i]) {
            Ok(path) => path,
            Err(e) => {
                assert(path_of(text[i as int]) is Err);
                return Err(CaveError::BadPoint);
            },
        };
        let ghost before = all@;
        let mut k: usize = 0;
        while k < path.len()
            invariant
                k <= path.len(),
                all@ == before + path@.take(k as int),
            decreases path.len() - k,
        {
            all.push(path[k]);
            assert(all@ =~= before + path@.take(k + 1));
            k += 1;
        }
        assert(path@.take(path@.len() as int) =~= path@);
        paths.push(path);
        i += 1;
    }
    assert(all_paths(text));
    let (a, b) = match bounds(all.as_slice()) {
        Ok(corners) => corners,
        Err(_) => {
            return Err(CaveError::NoPoints);
        },
    };
    let top: isize = if a.y < 0 {
        a.y
    } else {
        0
    };
    let ghost frame = frame_of(a, b, with_baseline);
    let (left, right, bottom) = if with_baseline {
        let left = match a.x.checked_sub(200) {
            Some(v) => v,
            None => {
                return Err(CaveError::TooLarge);
            },
        };
        let right = match b.x.checked_add(200) {
            Some(v) => v,
            None => {
                return Err(CaveError::TooLarge);
            },
        };
        let bottom = match b.y.checked_add(2) {
            Some(v) => v,
            None => {
                return Err(CaveError::TooLarge);
            },
        };
        (left, right, bottom)
    } else {
        (a.x, b.x, b.y)
    };
    assert(frame == (left as int, top as int, right as int, bottom as int));
    if !room_for(left, top, right, bottom) {
        return Err(CaveError::TooLarge);
    }
    if with_baseline {
        let mut floor: Vec<Vec2> = Vec::new();
        floor.push(Vec2::new(left, bottom));
        floor.push(Vec2::new(right, bottom));
        assert(floor@ =~= floor_of(frame));
        paths.push(floor);
    }
    let ghost rock = rock_paths(scan, frame, with_baseline);
    assert(paths@.len() == rock.len());
    assert forall|k: int| 0 <= k < paths@.len() implies (#[trigger] paths@[k])@ == rock[k] by {
        if k < scan.len() {
            assert(rock[k] == scan[k]);
        }
    }
    let mut field = Field::new(Vec2::new(left, top), Vec2::new(right, bottom));
    let ghost empty = field;
    assert forall|k: int, j: int| 0 <= k < rock.len() && 0 <= j < rock[k].len() implies field.inside(
        #[trigger] rock[k][j],
    ) by {
        if k < scan.len() {
            lemma_points_of(scan, scan.len() as int, k, j);
            let m = choose|m: int| 0 <= m < all@.len() && all@[m] == scan[k][j];
            assert(a.x <= all@[m].x <= b.x && a.y <= all@[m].y <= b.y);
        }
    }
    let mut n: usize = 0;
    while n < paths.len()
        invariant
            n <= paths@.len(),
            paths@.len() == rock.len(),
            text == str_views(lines@),
            scan == paths_of(text),
            all_paths(text),
            scan.len() <= rock.len() <= scan.len() + 1,
            rock.len() == scan.len() + 1 ==> rock.last() == floor_of(frame) && with_baseline,
            forall|k: int| 0 <= k < scan.len() ==> rock[k] == scan[k],
            forall|k: int| 0 <= k < paths@.len() ==> (#[trigger] paths@[k])@ == rock[k],
            field.well_formed(),
            empty.well_formed(),
            field.origin() == empty.origin(),
            field.size() == empty.size(),
            forall|p: Vec2| empty.inside(p) ==> empty.cell_at(p) == Cell::Empty,
            forall|k: int, j: int|
                0 <= k < rock.len() && 0 <= j < rock[k].len() ==> empty.inside(#[trigger] rock[k][j]),
            forall|k: int, j: int|
                0 <= k < n && 0 <= j && j + 1 < rock[k].len() ==> reaches(
                    #[trigger] rock[k][j],
                    rock[k][j + 1],
                ),
            forall|p: Vec2|
                empty.inside(p) ==> #[trigger] field.cell_at(p) == if on_paths(rock, n as int, p) {
                    Cell::Rock
                } else {
                    Cell::Empty
                },
        decreases paths@.len() - n,
    {
        let ghost before = field;
        let ghost path = rock[n as int];
        assert(paths@[n as int]@ == path);
        assert(before.drawable(path) <==> forall|j: int|
            0 <= j && j + 1 < path.len() ==> reaches(#[trigger] path[j], path[j + 1])) by {
            assert forall|j: int| 0 <= j && j + 1 < path.len() implies before.inside(
                #[trigger] path[j],
            ) && before.inside(path[j + 1]) by {
                assert(empty.inside(rock[n as int][j]));
                assert(empty.inside(rock[n as int][j + 1]));
            }
        }
        match field.draw_lines(&paths[n]) {
            Ok(_) => {},
            Err(_) => {
                proof {
                    let j = choose|j: int|
                        0 <= j && j + 1 < path.len() && !reaches(#[trigger] path[j], path[j + 1]);
                    if n as int >= scan.len() {
                        assert(path == floor_of(frame));
                        assert(j == 0);
                        assert(false);
                    }
                    assert(!reaches(scan[n as int][j], scan[n as int][j + 1]));
                }
                return Err(CaveError::Crooked);
            },
        }
        proof {
            assert forall|p: Vec2| empty.inside(p) implies #[trigger] field.cell_at(p) == if on_paths(
                rock,
                n + 1,
                p,
            ) {
                Cell::Rock
            } else {
                Cell::Empty
            } by {
                assert(before.inside(p));
                if on_paths(rock, n + 1, p) {
                    let k = choose|k: int|
                        0 <= k < n + 1 && k < rock.len() && #[trigger] on_path(
                            rock[k],
                            rock[k].len() - 1,
                            p,
                        );
                    if k < n {
                        assert(on_paths(rock, n as int, p));
                    }
                }
                if on_paths(rock, n as int, p) {
                    let k = choose|k: int|
                        0 <= k < n && k < rock.len() && #[trigger] on_path(
                            rock[k],
                            rock[k].len() - 1,
                            p,
                        );
                    assert(on_path(rock[k], rock[k].len() - 1, p));
                }
                if on_path(path, path.len() - 1, p) {
                    assert(on_path(rock[n as int], rock[n as int].len() - 1, p));
                }
            }
        }
        n += 1;
    }
    proof {
        assert(straight(scan)) by {
            assert forall|k: int, j: int|
                0 <= k < scan.len() && 0 <= j && j + 1 < scan[k].len() implies reaches(
                #[trigger] scan[k][j],
                scan[k][j + 1],
            ) by {
                assert(reaches(rock[k][j], rock[k][j + 1]));
            }
        }
        assert(shows(&field, text, with_baseline, a, b));
    }
    Ok(field)
}

#[derive(Clone, Copy, Debug, PartialEq, Eq, Structural)]
pub enum PourError {
    /// The source lies off the field.
    OffField,
    /// The source is covered, so that no further grain can fall.
    Blocked,
    /// A grain has left the field.
    Lost,
}

/// Drops grains at `source` one after the other and counts those that come
/// to rest, until the source is covered or a grain leaves the field. With
/// `until_full` the first is the awaited end, else the second.
fn pour(field: &mut Field, source: Vec2, until_full: bool) -> (r: Result<usize, PourError>)
    requires
        old(field).well_formed(),
    ensures
        final(field).well_formed(),
        match r {
            Ok(count) => {
                &&& poured(old(field).data(), final(field).data(), source, count as int)
                &&& final(field).cell_at(source) == Cell::Empty <==> !until_full
                &&& !until_full ==> settle(final(field).data(), source) is Out
            },
            Err(PourError::OffField) => !old(field).inside(source) && final(field).data() == old(
                field,
            ).data(),
            Err(PourError::Blocked) => {
                &&& !until_full
                &&& exists|count: int| poured(old(field).data(), final(field).data(), source, count)
                &&& final(field).cell_at(source) != Cell::Empty
            },
            Err(PourError::Lost) => {
                &&& until_full
                &&& exists|count: int| poured(old(field).data(), final(field).data(), source, count)
                &&& final(field).cell_at(source) == Cell::Empty
                &&& settle(final(field).data(), source) is Out
            },
        },
{
    if !field.in_bounds(source) {
        return Err(PourError::OffField);
    }
    let ghost start = field.data();
    let ghost mut fields: Seq<FieldData> = seq![start];
    let mut i: usize = 0;
    proof {
        lemma_empty_bound(start.cells);
    }
    loop
        invariant
            field.well_formed(),
            field.inside(source),
            start == old(field).data(),
            fields.len() == i + 1,
            fields[0] == start,
            fields.last() == field.data(),
            grains_rest(fields, source),
            i + empty_among(field.cells()) <= empty_among(start.cells),
            empty_among(start.cells) <= usize::MAX,
        decreases empty_among(field.cells()),
    {
        let ghost before = field.data();
        proof {
            lemma_empty_bound(field.cells());
        }
        let r = match drop_sand(field, source) {
            Ok(r) => r,
            Err(_) => {
                return Err(PourError::OffField);
            },
        };
        match r {
            DropResult::Okay => {
                proof {
                    lemma_rest_fills(before, source, source);
                    let held = fields;
                    fields = held.push(field.data());
                    assert forall|k: int| 0 <= k < fields.len() - 1 implies grain_rests(
                        #[trigger] fields[k],
                        fields[k + 1],
                        source,
                    ) by {
                        if k < held.len() - 1 {
                            assert(grain_rests(held[k], held[k + 1], source));
                        }
                    }
                }
                i += 1;
            },
            DropResult::OutOfBounds => {
                assert(poured(start, field.data(), source, i as int));
                if until_full {
                    return Err(PourError::Lost);
                } else {
                    return Ok(i);
                }
            },
            DropResult::Full => {
                assert(poured(start, field.data(), source, i as int));
                if until_full {
                    return Ok(i);
                } else {
                    return Err(PourError::Blocked);
                }
            },
        }
    }
}

proof fn lemma_empty_bound(cells: Seq<Cell>)
    ensures
        empty_among(cells) <= cells.len(),
    decreases cells.len(),
{
    if cells.len() > 0 {
        lemma_empty_bound(cells.drop_last());
    }
}

/// Drops grains at `source` until one leaves the field, and counts those
/// that came to rest.
pub fn pour_until_lost(field: &mut Field, source: Vec2) -> (r: Result<usize, PourError>)
    requires
        old(field).well_formed(),
    ensures
        final(field).well_formed(),
        match r {
            Ok(count) => {
                &&& poured(old(field).data(), final(field).data(), source, count as int)
                &&& final(field).cell_at(source) == Cell::Empty
                &&& settle(final(field).data(), source) is Out
            },
            Err(PourError::OffField) => !old(field).inside(source) && final(field).data() == old(
                field,
            ).data(),
            Err(PourError::Blocked) => {
                &&& exists|count: int| poured(old(field).data(), final(field).data(), source, count)
                &&& final(field).cell_at(source) != Cell::Empty
            },
            Err(PourError::Lost) => false,
        },
{
    pour(field, source, false)
}

/// Drops grains at `source` until the source itself is covered, and counts
/// those that came to rest.
pub fn pour_until_full(field: &mut Field, source: Vec2) -> (r: Result<usize, PourError>)
    requires
        old(field).well_formed(),
    ensures
        final(field).well_formed(),
        match r {
            Ok(count) => {
                &&& poured(old(field).data(), final(field).data(), source, count as int)
                &&& final(field).cell_at(source) != Cell::Empty
            },
            Err(PourError::OffField) => !old(field).inside(source) && final(field).data() == old(
                field,
            ).data(),
            Err(PourError::Blocked) => false,
            Err(PourError::Lost) => {
                &&& exists|count: int| poured(old(field).data(), final(field).data(), source, count)
                &&& final(field).cell_at(source) == Cell::Empty
                &&& settle(final(field).data(), source) is Out
            },
        },
{
    pour(field, source, true)
}

} // verus!
