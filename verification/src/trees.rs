//! A grid of tree heights: which trees can be seen from outside, and how far
//! one sees from each.
use crate::text::{chars_of, lines, split_lines, views};
use vstd::prelude::*;

verus! {

pub struct HeightMap {
    pub m: Vec<u8>,
    pub w: usize,
    pub h: usize,
}

/// The number of bytes that a character takes in UTF-8.
pub open spec fn char_width(c: char) -> nat {
    let n = c as u32;
    if n < 0x80 {
        1
    } else if n < 0x800 {
        2
    } else if n < 0x10000 {
        3
    } else {
        4
    }
}

/// The number of bytes that a line takes in UTF-8.
pub open spec fn utf8_len(s: Seq<char>) -> nat
    decreases s.len(),
{
    if s.len() == 0 {
        0
    } else {
        utf8_len(s.drop_last()) + char_width(s.last())
    }
}

/// The low byte of a character's code.
pub open spec fn low_byte(c: char) -> int {
    (c as u32 % 256) as int
}

/// The height that a character stands for: its low byte, counted from `0`.
pub open spec fn height_of(c: char) -> u8 {
    (low_byte(c) - 48) as u8
}

/// The grid `g` with the heights of `line` written over it from `base` on.
pub open spec fn overwrite(g: Seq<u8>, base: int, line: Seq<char>) -> Seq<u8> {
    Seq::new(
        g.len(),
        |i: int|
            if base <= i < base + line.len() {
                height_of(line[i - base])
            } else {
                g[i]
            },
    )
}

/// A grid of `n` zeros over which each line was written in turn, line `y`
/// from index `y * w` on.
pub open spec fn grid_of(text: Seq<Seq<char>>, w: int, n: nat) -> Seq<u8>
    decreases text.len(),
{
    if text.len() == 0 {
        Seq::new(n, |i: int| 0u8)
    } else {
        overwrite(grid_of(text.drop_last(), w, n), (text.len() - 1) * w, text.last())
    }
}

/// The text can be read as a height map: it has a first line, whose length
/// in bytes is the width; the grid fits in memory; every character lands
/// inside the grid and stands for a height.
pub open spec fn readable(text: Seq<Seq<char>>) -> bool {
    &&& text.len() > 0
    &&& utf8_len(text[0]) * text.len() <= usize::MAX
    &&& forall|y: int, x: int|
        0 <= y < text.len() && 0 <= x < text[y].len() ==> y * utf8_len(text[0]) + x < utf8_len(
            text[0],
        ) * text.len() && low_byte(#[trigger] text[y][x]) >= 48
}

/// The index of the last of the greatest entries of `s`.
pub open spec fn last_max(s: Seq<u8>) -> int
    decreases s.len(),
{
    if s.len() <= 1 {
        0
    } else {
        let best = last_max(s.drop_last());
        if s.last() >= s[best] {
            s.len() - 1
        } else {
            best
        }
    }
}

/// Whether some tree of `line` is at least as tall as `t`.
pub open spec fn hides(line: Seq<u8>, t: u8) -> bool {
    exists|i: int| 0 <= i < line.len() && line[i] >= t
}

/// The viewing distance along `line`, whose trees are listed from the
/// farthest to the nearest, for a tree of height `t`: all of the line where
/// `t` is taller than each tree; else the distance to the nearest of the
/// tallest trees.
pub open spec fn viewing(line: Seq<u8>, t: u8) -> int {
    if line.len() == 0 {
        0
    } else if t > line[last_max(line)] {
        line.len() as int
    } else {
        line.len() - last_max(line)
    }
}

pub proof fn lemma_last_max(s: Seq<u8>)
    requires
        s.len() > 0,
    ensures
        0 <= last_max(s) < s.len(),
        forall|i: int| 0 <= i < s.len() ==> #[trigger] s[i] <= s[last_max(s)],
        forall|i: int| last_max(s) < i < s.len() ==> #[trigger] s[i] < s[last_max(s)],
    decreases s.len(),
{
    if s.len() > 1 {
        lemma_last_max(s.drop_last());
        let best = last_max(s.drop_last());
        assert(forall|i: int| 0 <= i < s.len() - 1 ==> #[trigger] s[i] == s.drop_last()[i]);
    }
}

/// The grid keeps its length while lines are written over it.
pub proof fn lemma_grid_len(text: Seq<Seq<char>>, w: int, n: nat)
    ensures
        grid_of(text, w, n).len() == n,
    decreases text.len(),
{
    if text.len() > 0 {
        lemma_grid_len(text.drop_last(), w, n);
    }
}

/// Where every line is as long as the grid is wide, the grid holds the
/// height of each character at the place of its row and column.
pub proof fn lemma_grid_of_rectangle(text: Seq<Seq<char>>, w: int, n: nat, x: int, y: int)
    requires
        forall|j: int| 0 <= j < text.len() ==> (#[trigger] text[j]).len() == w,
        n >= w * text.len(),
        0 <= y < text.len(),
        0 <= x < w,
    ensures
        0 <= y * w + x < n,
        grid_of(text, w, n)[y * w + x] == height_of(text[y][x]),
    decreases text.len(),
{
    let rows = text.len() as int;
    assert(0 <= y * w + x < w * rows && (y < rows - 1 ==> y * w + x < (rows - 1) * w)) by (nonlinear_arith)
        requires
            0 <= y < rows,
            0 <= x < w,
    ;
    lemma_grid_len(text.drop_last(), w, n);
    if y < rows - 1 {
        assert(w * (rows - 1) <= w * rows) by (nonlinear_arith)
            requires
                w >= 0,
        ;
        lemma_grid_of_rectangle(text.drop_last(), w, n, x, y);
    }
}

proof fn lemma_utf8_len_prefix(s: Seq<char>, k: int)
    requires
        0 <= k <= s.len(),
    ensures
        utf8_len(s.take(k)) <= utf8_len(s),
    decreases s.len(),
{
    if k == s.len() {
        assert(s.take(k) =~= s);
    } else {
        lemma_utf8_len_prefix(s.drop_last(), k);
        assert(s.drop_last().take(k) =~= s.take(k));
    }
}

fn byte_length(s: &Vec<char>) -> (n: usize)
    requires
        utf8_len(s@) <= usize::MAX,
    ensures
        n == utf8_len(s@),
{
    let mut n: usize = 0;
    let mut i: usize = 0;
    assert(s@.take(0) =~= Seq::<char>::empty());
    while i < s.len()
        invariant
            i <= s.len(),
            n == utf8_len(s@.take(i as int)),
            utf8_len(s@) <= usize::MAX,
        decreases s.len() - i,
    {
        let c = s[i] as u32;
        let width: usize = if c < 0x80 {
            1
        } else if c < 0x800 {
            2
        } else if c < 0x10000 {
            3
        } else {
            4
        };
        proof {
            assert(s@.take(i + 1).drop_last() =~= s@.take(i as int));
            lemma_utf8_len_prefix(s@, i + 1);
        }
        n = n + width;
        i += 1;
    }
    assert(s@.take(s@.len() as int) =~= s@);
    n
}

impl HeightMap {
    /// The height that the map gives for column `x` of row `y`.
    pub open spec fn height_at(&self, x: int, y: int) -> u8 {
        self.m@[y * self.h + x]
    }

    /// Every tree of the map has a height.
    pub open spec fn addressable(&self) -> bool {
        forall|x: int, y: int|
            0 <= x < self.w && 0 <= y < self.h ==> 0 <= #[trigger] (y * self.h + x) < self.m.len()
    }

    /// The trees left of `(x, y)`, from the edge to the nearest.
    pub open spec fn left_of(&self, x: int, y: int) -> Seq<u8> {
        Seq::new(x as nat, |i: int| self.height_at(i, y))
    }

    /// The trees right of `(x, y)`, from the edge to the nearest.
    pub open spec fn right_of(&self, x: int, y: int) -> Seq<u8> {
        Seq::new((self.w - 1 - x) as nat, |i: int| self.height_at(self.w - 1 - i, y))
    }

    /// The trees above `(x, y)`, from the edge to the nearest.
    pub open spec fn above(&self, x: int, y: int) -> Seq<u8> {
        Seq::new(y as nat, |i: int| self.height_at(x, i))
    }

    /// The trees below `(x, y)`, from the edge to the nearest.
    pub open spec fn below(&self, x: int, y: int) -> Seq<u8> {
        Seq::new((self.h - 1 - y) as nat, |i: int| self.height_at(x, self.h - 1 - i))
    }

    /// A tree is visible when it stands on the edge, or when along its row
    /// or its column all trees on one side are shorter.
    pub open spec fn is_visible(&self, x: int, y: int) -> bool {
        let t = self.height_at(x, y);
        ||| x == 0
        ||| y == 0
        ||| x == self.w - 1
        ||| y == self.h - 1
        ||| !hides(self.left_of(x, y), t)
        ||| !hides(self.right_of(x, y), t)
        ||| !hides(self.above(x, y), t)
        ||| !hides(self.below(x, y), t)
    }

    /// The number of visible trees among the first `rows` of column `x`.
    pub open spec fn visible_in_column(&self, x: int, rows: int) -> nat
        decreases rows,
    {
        if rows <= 0 {
            0
        } else {
            self.visible_in_column(x, rows - 1) + if self.is_visible(x, rows - 1) {
                1nat
            } else {
                0nat
            }
        }
    }

    /// The number of visible trees in the first `columns` columns.
    pub open spec fn visible_in_columns(&self, columns: int) -> nat
        decreases columns,
    {
        if columns <= 0 {
            0
        } else {
            self.visible_in_columns(columns - 1) + self.visible_in_column(
                columns - 1,
                self.h as int,
            )
        }
    }

    /// The heights of the trees at `cells`.
    pub open spec fn heights(&self, cells: Seq<(usize, usize)>) -> Seq<u8> {
        Seq::new(cells.len(), |i: int| self.height_at(cells[i].0 as int, cells[i].1 as int))
    }

    /// The product of the four viewing distances of the tree at `(x, y)`.
    pub open spec fn scenic(&self, x: int, y: int) -> int {
        let t = self.height_at(x, y);
        viewing(self.left_of(x, y), t) * viewing(self.right_of(x, y), t) * viewing(
            self.above(x, y),
            t,
        ) * viewing(self.below(x, y), t)
    }

    /// Reads a map from text, one line for each row, one character for each
    /// tree.
    pub fn from(input: &str) -> (r: Self)
        requires
            readable(lines(input@)),
        ensures
            r.w == utf8_len(lines(input@)[0]),
            r.h == lines(input@).len(),
            r.m@.len() == r.w * r.h,
            r.m@ == grid_of(lines(input@), r.w as int, (r.w * r.h) as nat),
    {
        let cs = chars_of(input);
        let ls = split_lines(&cs);
        let ghost text = lines(input@);
        assert(views(ls@) == text);
        assert(ls@[0]@ == text[0]);
        assert(utf8_len(text[0]) <= usize::MAX) by (nonlinear_arith)
            requires
                utf8_len(text[0]) * text.len() <= usize::MAX,
                text.len() >= 1,
        ;
        let width = byte_length(&ls[0]);
        let height = ls.len();
        let mut m: Vec<u8> = Vec::new();
        let total = width * height;
        while m.len() < total
            invariant
                m@.len() <= total,
                forall|i: int| 0 <= i < m@.len() ==> m@[i] == 0u8,
            decreases total - m@.len(),
        {
            m.push(0u8);
        }
        let mut y: usize = 0;
        assert(text.take(0) =~= Seq::<Seq<char>>::empty());
        assert(m@ =~= grid_of(text.take(0), width as int, total as nat));
        while y < height
            invariant
                y <= height,
                height == text.len(),
                text == views(ls@),
                readable(text),
                width == utf8_len(text[0]),
                total == width * height,
                m@.len() == total,
                m@ == grid_of(text.take(y as int), width as int, total as nat),
            decreases height - y,
        {
            let line = &ls[y];
            assert(line@ == text[y as int]);
            let ghost before = m@;
            let mut x: usize = 0;
            assert(m@ =~= overwrite(before, y * width, line@.take(0)));
            while x < line.len()
                invariant
                    x <= line.len(),
                    y < height,
                    height == text.len(),
                    line@ == text[y as int],
                    readable(text),
                    width == utf8_len(text[0]),
                    total == width * height,
                    m@.len() == total,
                    before.len() == total,
                    m@ == overwrite(before, y * width, line@.take(x as int)),
                decreases line.len() - x,
            {
                let c = line[x];
                assert(text[y as int][x as int] == c);
                assert(y * width + x < total && low_byte(c) >= 48);
                assert(y * width >= 0) by (nonlinear_arith)
                    requires
                        y >= 0,
                        width >= 0,
                ;
                let low: u32 = (c as u32) % 256;
                let v: u8 = (low - 48) as u8;
                m[y * width + x] = v;
                assert(m@ =~= overwrite(before, y * width, line@.take(x + 1)));
                x += 1;
            }
            assert(line@.take(x as int) =~= line@);
            assert(text.take(y + 1).drop_last() =~= text.take(y as int));
            assert(text.take(y + 1).last() == line@);
            y += 1;
        }
        assert(text.take(y as int) =~= text);
        HeightMap { m, w: width, h: height }
    }

    pub fn height(&self, x: usize, y: usize) -> (r: u8)
        requires
            y * self.h + x < self.m.len(),
        ensures
            r == self.height_at(x as int, y as int),
    {
        assert(y * self.h >= 0) by (nonlinear_arith)
            requires
                y >= 0,
                self.h >= 0,
        ;
        self.m[y * self.h + x]
    }

    pub fn visible(&self, x: usize, y: usize) -> (r: bool)
        requires
            self.addressable(),
            x < self.w,
            y < self.h,
        ensures
            r == self.is_visible(x as int, y as int),
    {
        if x == 0 || y == 0 || x == self.w - 1 || y == self.h - 1 {
            return true;
        }
        let ghost t = self.height_at(x as int, y as int);
        assert(0 <= y * self.h + x < self.m.len());
        // From left
        let mut index_left: usize = 0;
        let mut i: usize = 1;
        while i <= x
            invariant
                1 <= i <= x + 1,
                x < self.w,
                y < self.h,
                self.addressable(),
                index_left < i,
                forall|j: int| 0 <= j < i ==> self.height_at(j, y as int) <= self.height_at(index_left as int, y as int),
                forall|j: int| 0 <= j < index_left ==> self.height_at(j, y as int) < self.height_at(index_left as int, y as int),
            decreases x + 1 - i,
        {
            assert(0 <= y * self.h + i < self.m.len());
            assert(0 <= y * self.h + index_left < self.m.len());
            if self.height(i, y) > self.height(index_left, y) {
                index_left = i;
            }
            i += 1;
        }
        if index_left == x {
            assert(!hides(self.left_of(x as int, y as int), t));
            return true;
        }
        assert(hides(self.left_of(x as int, y as int), t)) by {
            assert(self.left_of(x as int, y as int)[index_left as int] >= t);
        }
        // From right
        let mut index_right: usize = x;
        let mut i: usize = x + 1;
        while i < self.w
            invariant
                x + 1 <= i <= self.w,
                y < self.h,
                self.addressable(),
                x <= index_right < i,
                forall|j: int| x <= j < i ==> self.height_at(j, y as int) <= self.height_at(index_right as int, y as int),
                index_right == x ==> forall|j: int| x < j < i ==> self.height_at(j, y as int) < self.height_at(x as int, y as int),
            decreases self.w - i,
        {
            assert(0 <= y * self.h + i < self.m.len());
            assert(0 <= y * self.h + index_right < self.m.len());
            if self.height(i, y) >= self.height(index_right, y) {
                index_right = i;
            }
            i += 1;
        }
        if index_right == x {
            assert(!hides(self.right_of(x as int, y as int), t));
            return true;
        }
        assert(hides(self.right_of(x as int, y as int), t)) by {
            assert(self.right_of(x as int, y as int)[self.w - 1 - index_right] >= t);
        }
        // From top
        let mut index_top: usize = 0;
        let mut i: usize = 1;
        while i <= y
            invariant
                1 <= i <= y + 1,
                x < self.w,
                y < self.h,
                self.addressable(),
                index_top < i,
                forall|j: int| 0 <= j < i ==> self.height_at(x as int, j) <= self.height_at(x as int, index_top as int),
                forall|j: int| 0 <= j < index_top ==> self.height_at(x as int, j) < self.height_at(x as int, index_top as int),
            decreases y + 1 - i,
        {
            assert(0 <= i * self.h + x < self.m.len());
            assert(0 <= index_top * self.h + x < self.m.len());
            if self.height(x, i) > self.height(x, index_top) {
                index_top = i;
            }
            i += 1;
        }
        if index_top == y {
            assert(!hides(self.above(x as int, y as int), t));
            return true;
        }
        assert(hides(self.above(x as int, y as int), t)) by {
            assert(self.above(x as int, y as int)[index_top as int] >= t);
        }
        // From bottom
        let mut index_bottom: usize = y;
        let mut i: usize = y + 1;
        while i < self.h
            invariant
                y + 1 <= i <= self.h,
                x < self.w,
                self.addressable(),
                y <= index_bottom < i,
                forall|j: int| y <= j < i ==> self.height_at(x as int, j) <= self.height_at(x as int, index_bottom as int),
                index_bottom == y ==> forall|j: int| y < j < i ==> self.height_at(x as int, j) < self.height_at(x as int, y as int),
            decreases self.h - i,
        {
            assert(0 <= i * self.h + x < self.m.len());
            assert(0 <= index_bottom * self.h + x < self.m.len());
            if self.height(x, i) >= self.height(x, index_bottom) {
                index_bottom = i;
            }
            i += 1;
        }
        if index_bottom == y {
            assert(!hides(self.below(x as int, y as int), t));
            return true;
        }
        assert(hides(self.below(x as int, y as int), t)) by {
            assert(self.below(x as int, y as int)[self.h - 1 - index_bottom] >= t);
        }
        false
    }

    pub fn count_visible(&self) -> (r: usize)
        requires
            self.addressable(),
            self.w * self.h <= usize::MAX,
        ensures
            r == self.visible_in_columns(self.w as int),
    {
        let mut visible: usize = 0;
        let mut x: usize = 0;
        while x < self.w
            invariant
                x <= self.w,
                self.addressable(),
                self.w * self.h <= usize::MAX,
                visible == self.visible_in_columns(x as int),
                visible <= x * self.h,
            decreases self.w - x,
        {
            let ghost before = visible;
            let mut y: usize = 0;
            while y < self.h
                invariant
                    y <= self.h,
                    x < self.w,
                    self.addressable(),
                    self.w * self.h <= usize::MAX,
                    before <= x * self.h,
                    visible == before + self.visible_in_column(x as int, y as int),
                    visible <= before + y,
                decreases self.h - y,
            {
                assert(x * self.h + self.h <= self.w * self.h) by (nonlinear_arith)
                    requires
                        x < self.w,
                ;
                if self.visible(x, y) {
                    visible += 1;
                }
                y += 1;
            }
            assert(x * self.h + self.h == (x + 1) * self.h) by (nonlinear_arith);
            x += 1;
        }
        visible
    }

    /// The last of the tallest trees among `cells`: its column, its row and
    /// its height.
    pub fn max_height_in_range(&self, cells: &Vec<(usize, usize)>) -> (r: (usize, usize, u8))
        requires
            cells.len() > 0,
            forall|i: int|
                0 <= i < cells.len() ==> (#[trigger] cells@[i]).1 * self.h + cells@[i].0
                    < self.m.len(),
        ensures
            ({
                let k = last_max(self.heights(cells@));
                &&& 0 <= k < cells.len()
                &&& r.0 == cells@[k].0
                &&& r.1 == cells@[k].1
                &&& r.2 == self.heights(cells@)[k]
            }),
    {
        let ghost hs = self.heights(cells@);
        let mut best: usize = 0;
        let mut i: usize = 1;
        assert(last_max(hs.take(1)) == 0);
        while i < cells.len()
            invariant
                1 <= i <= cells.len(),
                hs == self.heights(cells@),
                best < i,
                best == last_max(hs.take(i as int)),
                forall|i: int|
                    0 <= i < cells.len() ==> (#[trigger] cells@[i]).1 * self.h + cells@[i].0
                        < self.m.len(),
            decreases cells.len() - i,
        {
            let (x, y) = cells[i];
            let (bx, by) = cells[best];
            assert(hs.take(i + 1).drop_last() =~= hs.take(i as int));
            if self.height(x, y) >= self.height(bx, by) {
                best = i;
            }
            i += 1;
        }
        assert(hs.take(i as int) =~= hs);
        let (x, y) = cells[best];
        (x, y, self.height(x, y))
    }

    pub fn scenic_score(&self, x: usize, y: usize) -> (r: usize)
        requires
            self.addressable(),
            x < self.w,
            y < self.h,
            self.w * self.w * self.h * self.h <= usize::MAX,
        ensures
            r == self.scenic(x as int, y as int),
    {
        assert(0 <= y * self.h + x < self.m.len());
        let h = self.height(x, y);

        let score_left = if x == 0 {
            0
        } else {
            let mut cells: Vec<(usize, usize)> = Vec::new();
            let mut i: usize = 0;
            while i < x
                invariant
                    i <= x,
                    cells@.len() == i,
                    forall|j: int| 0 <= j < i ==> cells@[j] == (j as usize, y),
                decreases x - i,
            {
                cells.push((i, y));
                i += 1;
            }
            assert forall|i: int| 0 <= i < cells.len() implies (#[trigger] cells@[i]).1 * self.h
                + cells@[i].0 < self.m.len() by {
                assert(0 <= y * self.h + i < self.m.len());
            }
            assert(self.heights(cells@) =~= self.left_of(x as int, y as int));
            let (rx, _ry, rh) = self.max_height_in_range(&cells);
            if h > rh {
                x
            } else {
                x - rx
            }
        };

        let score_right = if x == self.w - 1 {
            0
        } else {
            let mut cells: Vec<(usize, usize)> = Vec::new();
            let mut i: usize = self.w - 1;
            while i > x
                invariant
                    x <= i <= self.w - 1,
                    cells@.len() == self.w - 1 - i,
                    forall|j: int| 0 <= j < cells@.len() ==> cells@[j] == ((self.w - 1 - j) as usize, y),
                decreases i,
            {
                cells.push((i, y));
                i -= 1;
            }
            assert forall|i: int| 0 <= i < cells.len() implies (#[trigger] cells@[i]).1 * self.h
                + cells@[i].0 < self.m.len() by {
                assert(0 <= y * self.h + (self.w - 1 - i) < self.m.len());
            }
            assert(self.heights(cells@) =~= self.right_of(x as int, y as int));
            let (rx, _ry, rh) = self.max_height_in_range(&cells);
            if h > rh {
                self.w - (x + 1)
            } else {
                rx - x
            }
        };

        let score_up = if y == 0 {
            y
        } else {
            let mut cells: Vec<(usize, usize)> = Vec::new();
            let mut i: usize = 0;
            while i < y
                invariant
                    i <= y,
                    cells@.len() == i,
                    forall|j: int| 0 <= j < i ==> cells@[j] == (x, j as usize),
                decreases y - i,
            {
                cells.push((x, i));
                i += 1;
            }
            assert forall|i: int| 0 <= i < cells.len() implies (#[trigger] cells@[i]).1 * self.h
                + cells@[i].0 < self.m.len() by {
                assert(0 <= i * self.h + x < self.m.len());
            }
            assert(self.heights(cells@) =~= self.above(x as int, y as int));
            let (_rx, ry, rh) = self.max_height_in_range(&cells);
            if h > rh {
                y
            } else {
                y - ry
            }
        };

        let score_down = if y == self.h - 1 {
            0
        } else {
            let mut cells: Vec<(usize, usize)> = Vec::new();
            let mut i: usize = self.h - 1;
            while i > y
                invariant
                    y <= i <= self.h - 1,
                    cells@.len() == self.h - 1 - i,
                    forall|j: int| 0 <= j < cells@.len() ==> cells@[j] == (x, (self.h - 1 - j) as usize),
                decreases i,
            {
                cells.push((x, i));
                i -= 1;
            }
            assert forall|i: int| 0 <= i < cells.len() implies (#[trigger] cells@[i]).1 * self.h
                + cells@[i].0 < self.m.len() by {
                assert(0 <= (self.h - 1 - i) * self.h + x < self.m.len());
            }
            assert(self.heights(cells@) =~= self.below(x as int, y as int));
            let (_rx, ry, rh) = self.max_height_in_range(&cells);
            if h > rh {
                self.h - (y + 1)
            } else {
                ry - y
            }
        };
        assert(score_left == viewing(self.left_of(x as int, y as int), h));
        assert(score_right == viewing(self.right_of(x as int, y as int), h));
        assert(score_up == viewing(self.above(x as int, y as int), h));
        assert(score_down == viewing(self.below(x as int, y as int), h));
        assert(score_left * score_right <= self.w * self.w && score_left * score_right * score_up
            <= self.w * self.w * self.h && score_left * score_right * score_up * score_down
            <= self.w * self.w * self.h * self.h && self.w * self.w <= self.w * self.w * self.h
            * self.h && self.w * self.w * self.h <= self.w * self.w * self.h * self.h)
            by (nonlinear_arith)
            requires
                0 <= score_left <= self.w,
                0 <= score_right <= self.w,
                0 <= score_up <= self.h,
                0 <= score_down <= self.h,
                self.h >= 1,
        ;
        score_left * score_right * score_up * score_down
    }

    /// The greatest scenic score of a tree of the map, or 0 where the map
    /// has no tree.
    pub fn best_scenic_score(&self) -> (r: usize)
        requires
            self.addressable(),
            self.w * self.w * self.h * self.h <= usize::MAX,
        ensures
            forall|x: int, y: int|
                0 <= x < self.w && 0 <= y < self.h ==> #[trigger] self.scenic(x, y) <= r,
            r == 0 || exists|x: int, y: int|
                0 <= x < self.w && 0 <= y < self.h && #[trigger] self.scenic(x, y) == r,
    {
        let mut max: usize = 0;
        let mut x: usize = 0;
        while x < self.w
            invariant
                x <= self.w,
                self.addressable(),
                self.w * self.w * self.h * self.h <= usize::MAX,
                forall|i: int, j: int|
                    0 <= i < x && 0 <= j < self.h ==> #[trigger] self.scenic(i, j) <= max,
                max == 0 || exists|i: int, j: int|
                    0 <= i < self.w && 0 <= j < self.h && #[trigger] self.scenic(i, j) == max,
            decreases self.w - x,
        {
            let mut y: usize = 0;
            while y < self.h
                invariant
                    y <= self.h,
                    x < self.w,
                    self.addressable(),
                    self.w * self.w * self.h * self.h <= usize::MAX,
                    forall|i: int, j: int|
                        0 <= i < x && 0 <= j < self.h ==> #[trigger] self.scenic(i, j) <= max,
                    forall|j: int| 0 <= j < y ==> #[trigger] self.scenic(x as int, j) <= max,
                    max == 0 || exists|i: int, j: int|
                        0 <= i < self.w && 0 <= j < self.h && #[trigger] self.scenic(i, j) == max,
                decreases self.h - y,
            {
                let ss = self.scenic_score(x, y);
                if ss > max {
                    max = ss;
                    assert(self.scenic(x as int, y as int) == max);
                }
                y += 1;
            }
            x += 1;
        }
        max
    }

    /// A map that is at least as wide as it is high gives every tree a
    /// height.
    pub proof fn lemma_wide_is_addressable(&self)
        requires
            self.m@.len() == self.w * self.h,
            self.h <= self.w,
        ensures
            self.addressable(),
    {
        assert forall|x: int, y: int| 0 <= x < self.w && 0 <= y < self.h implies 0 <= #[trigger] (y
            * self.h + x) < self.m.len() by {
            assert(0 <= y * self.h + x < self.w * self.h) by (nonlinear_arith)
                requires
                    0 <= x < self.w,
                    0 <= y < self.h,
                    self.h <= self.w,
            ;
        }
    }
}

} // verus!
