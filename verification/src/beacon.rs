//! Sensors and the beacons nearest to them: reading the reports, and what
//! the sensors rule out along a row.
use crate::number::{isize_of, parse_isize};
use crate::text::{chars_of, str_views};
use crate::vec2::{distance, magnitude, Vec2};
use itertools::Itertools;
use regex::Regex;
use vstd::prelude::*;

verus! {

#[derive(PartialEq, Eq, Debug, Clone, Copy, Structural)]
pub enum Cell {
    Sensor,
    Beacon,
    InRange,
    Empty,
}

#[derive(PartialEq, Eq, Debug, Clone, Copy, Structural)]
pub struct Sensor {
    pub loc: Vec2,
    pub beacon: Vec2,
}

#[derive(PartialEq, Eq, Debug, Clone, Copy, Structural)]
pub enum BeaconError {
    /// The line does not hold exactly two pairs of coordinates.
    ExpectedTwo,
    /// A coordinate cannot be read.
    BadNumber,
    /// A pair of coordinates lacks one of its two numbers.
    BadCapture,
    /// The pattern for coordinates is no regular expression.
    BadPattern,
}

/// What the regular expression `pattern` finds in `line`: none where the
/// pattern is not valid; else, for each match from left to right, the text
/// of each of its groups, the whole match first, with none for a group that
/// took no part.
pub uninterp spec fn regex_captures(pattern: Seq<char>, line: Seq<char>) -> Option<
    Seq<Seq<Option<Seq<char>>>>,
>;

/// The groups of one match as mathematical values.
pub open spec fn group_views(groups: Seq<Option<String>>) -> Seq<Option<Seq<char>>> {
    Seq::new(
        groups.len(),
        |i: int|
            match groups[i] {
                Some(s) => Some(s@),
                None => None,
            },
    )
}

/// The matches of a search as mathematical values.
pub open spec fn match_views(found: Seq<Vec<Option<String>>>) -> Seq<Seq<Option<Seq<char>>>> {
    Seq::new(found.len(), |i: int| group_views(found[i]@))
}

/// Compiles `pattern` with `Regex::new` and collects what
/// `Regex::captures_iter` finds in `line`, by `Itertools::collect_vec`.
/// That the result is the value of `regex_captures` for the two texts is
/// taken on trust; nothing is claimed of what is found.
#[verifier::external_body]
fn captures_of(pattern: &str, line: &str) -> (r: Option<Vec<Vec<Option<String>>>>)
    ensures
        match r {
            Some(found) => regex_captures(pattern@, line@) == Some(match_views(found@)),
            None => regex_captures(pattern@, line@) is None,
        },
{
    match Regex::new(pattern) {
        Ok(re) => Some(
            re.captures_iter(line).collect_vec().iter().map(
                |c| c.iter().map(|m| m.map(|m| m.as_str().to_string())).collect(),
            ).collect(),
        ),
        Err(_) => None,
    }
}

/// The coordinate that group `k` of a match writes.
pub open spec fn coordinate(groups: Seq<Option<Seq<char>>>, k: int) -> Result<isize, BeaconError> {
    if k < 0 || k >= groups.len() {
        Err(BeaconError::BadCapture)
    } else {
        match groups[k] {
            None => Err(BeaconError::BadCapture),
            Some(text) => match isize_of(text) {
                Some(v) => Ok(v),
                None => Err(BeaconError::BadNumber),
            },
        }
    }
}

/// The point that the first two groups of a match write.
pub open spec fn point_in(groups: Seq<Option<Seq<char>>>) -> Result<Vec2, BeaconError> {
    match coordinate(groups, 1) {
        Err(e) => Err(e),
        Ok(x) => match coordinate(groups, 2) {
            Err(e) => Err(e),
            Ok(y) => Ok(Vec2 { x, y }),
        },
    }
}

/// The sensor that the matches of a line describe: its own place first, the
/// place of its beacon second.
pub open spec fn sensor_of(found: Seq<Seq<Option<Seq<char>>>>) -> Result<Sensor, BeaconError> {
    if found.len() != 2 {
        Err(BeaconError::ExpectedTwo)
    } else {
        match point_in(found[0]) {
            Err(e) => Err(e),
            Ok(loc) => match point_in(found[1]) {
                Err(e) => Err(e),
                Ok(beacon) => Ok(Sensor { loc, beacon }),
            },
        }
    }
}

/// The sensor that a line of the report describes.
pub open spec fn report_of(line: Seq<char>) -> Result<Sensor, BeaconError> {
    match regex_captures("x=(-?\\d+), y=(-?\\d+)"@, line) {
        None => Err(BeaconError::BadPattern),
        Some(found) => sensor_of(found),
    }
}

fn read_coordinate(groups: &Vec<Option<String>>, k: usize) -> (r: Result<isize, BeaconError>)
    ensures
        r == coordinate(group_views(groups@), k as int),
{
    if k >= groups.len() {
        return Err(BeaconError::BadCapture);
    }
    match &groups[k] {
        None => Err(BeaconError::BadCapture),
        Some(text) => {
            let cs = chars_of(text.as_str());
            match parse_isize(&cs) {
                Some(v) => Ok(v),
                None => Err(BeaconError::BadNumber),
            }
        },
    }
}

fn read_point(groups: &Vec<Option<String>>) -> (r: Result<Vec2, BeaconError>)
    ensures
        r == point_in(group_views(groups@)),
{
    let x = match read_coordinate(groups, 1) {
        Ok(v) => v,
        Err(e) => {
            return Err(e);
        },
    };
    let y = match read_coordinate(groups, 2) {
        Ok(v) => v,
        Err(e) => {
            return Err(e);
        },
    };
    Ok(Vec2::new(x, y))
}

/// Makes a sensor of what was found in a line of the report.
pub fn sensor_from(found: &Vec<Vec<Option<String>>>) -> (r: Result<Sensor, BeaconError>)
    ensures
        r == sensor_of(match_views(found@)),
{
    if found.len() != 2 {
        return Err(BeaconError::ExpectedTwo);
    }
    let loc = match read_point(&found[0]) {
        Ok(v) => v,
        Err(e) => {
            return Err(e);
        },
    };
    let beacon = match read_point(&found[1]) {
        Ok(v) => v,
        Err(e) => {
            return Err(e);
        },
    };
    Ok(Sensor::new(loc, beacon))
}

pub fn parse_line(line: &str) -> (r: Result<Sensor, BeaconError>)
    ensures
        r == report_of(line@),
{
    match captures_of("x=(-?\\d+), y=(-?\\d+)", line) {
        Some(found) => sensor_from(&found),
        None => Err(BeaconError::BadPattern),
    }
}

/// The sensors that the first `n` lines describe, or the error of the first
/// line that describes none.
pub open spec fn reports_of(lines: Seq<Seq<char>>, n: int) -> Result<Seq<Sensor>, BeaconError>
    decreases n,
{
    if n <= 0 || n > lines.len() {
        Ok(seq![])
    } else {
        match reports_of(lines, n - 1) {
            Err(e) => Err(e),
            Ok(before) => match report_of(lines[n - 1]) {
                Err(e) => Err(e),
                Ok(s) => Ok(before.push(s)),
            },
        }
    }
}

proof fn lemma_reports_fail(lines: Seq<Seq<char>>, k: int, n: int)
    requires
        0 <= k <= n <= lines.len(),
        reports_of(lines, k) is Err,
    ensures
        reports_of(lines, n) == reports_of(lines, k),
    decreases n - k,
{
    if k < n {
        lemma_reports_fail(lines, k, n - 1);
    }
}

pub fn parse(lines: &[&str]) -> (r: Result<Vec<Sensor>, BeaconError>)
    ensures
        match r {
            Ok(sensors) => reports_of(str_views(lines@), lines@.len() as int) == Ok::<
                Seq<Sensor>,
                BeaconError,
            >(sensors@),
            Err(e) => reports_of(str_views(lines@), lines@.len() as int) == Err::<
                Seq<Sensor>,
                BeaconError,
            >(e),
        },
{
    let ghost text = str_views(lines@);
    let mut sensors: Vec<Sensor> = Vec::new();
    let mut i: usize = 0;
    while i < lines.len()
        invariant
            i <= lines@.len(),
            text == str_views(lines@),
            reports_of(text, i as int) == Ok::<Seq<Sensor>, BeaconError>(sensors@),
        decreases lines@.len() - i,
    {
        assert(text[i as int] == lines@[i as int]@);
        match parse_line(lines[i]) {
            Ok(s) => {
                sensors.push(s);
            },
            Err(e) => {
                proof {
                    lemma_reports_fail(text, i + 1, text.len() as int);
                }
                return Err(e);
            },
        }
        i += 1;
    }
    Ok(sensors)
}

/// Whether the distance between two points can be taken on this machine.
pub open spec fn measurable(a: Vec2, b: Vec2) -> bool {
    &&& isize::MIN < a.x - b.x <= isize::MAX
    &&& isize::MIN < a.y - b.y <= isize::MAX
    &&& distance(a, b) <= isize::MAX
}

impl Sensor {
    pub fn new(loc: Vec2, beacon: Vec2) -> (r: Self)
        ensures
            r.loc == loc,
            r.beacon == beacon,
    {
        Sensor { loc, beacon }
    }

    /// How far the sensor reaches.
    pub open spec fn reach(&self) -> int {
        distance(self.loc, self.beacon)
    }

    /// The sensor's reach and the columns that it covers can be taken on
    /// this machine.
    pub open spec fn in_range(&self) -> bool {
        &&& measurable(self.loc, self.beacon)
        &&& isize::MIN <= self.loc.x - self.reach()
        &&& self.loc.x + self.reach() <= isize::MAX
    }

    /// The distance to the nearest beacon.
    pub fn distance(&self) -> (r: usize)
        requires
            measurable(self.loc, self.beacon),
        ensures
            r == self.reach(),
    {
        self.loc.manhattan(&self.beacon)
    }
}

/// What the sensors from `i` on say of the place `pos`: the first sensor
/// that stands there, has its beacon there, or reaches it, decides.
pub open spec fn cell_from(pos: Vec2, sensors: Seq<Sensor>, i: int) -> Cell
    decreases sensors.len() - i,
{
    if i < 0 || i >= sensors.len() {
        Cell::Empty
    } else if sensors[i].loc == pos {
        Cell::Sensor
    } else if sensors[i].beacon == pos {
        Cell::Beacon
    } else if distance(sensors[i].loc, pos) <= sensors[i].reach() {
        Cell::InRange
    } else {
        cell_from(pos, sensors, i + 1)
    }
}

/// Whether the distances that decide about `pos` can be taken.
pub open spec fn decidable(pos: Vec2, sensors: Seq<Sensor>) -> bool {
    forall|i: int|
        0 <= i < sensors.len() ==> measurable((#[trigger] sensors[i]).loc, sensors[i].beacon)
            && measurable(sensors[i].loc, pos)
}

pub fn get_cell(pos: Vec2, sensors: &Vec<Sensor>) -> (r: Cell)
    requires
        decidable(pos, sensors@),
    ensures
        r == cell_from(pos, sensors@, 0),
{
    let mut i: usize = 0;
    while i < sensors.len()
        invariant
            i <= sensors@.len(),
            decidable(pos, sensors@),
            cell_from(pos, sensors@, 0) == cell_from(pos, sensors@, i as int),
        decreases sensors@.len() - i,
    {
        let sensor = sensors[i];
        if sensor.loc == pos {
            return Cell::Sensor;
        }
        if sensor.beacon == pos {
            return Cell::Beacon;
        }
        let beacon_distance = sensor.distance();
        let pos_distance = sensor.loc.manhattan(&pos);
        if pos_distance <= beacon_distance {
            return Cell::InRange;
        }
        i += 1;
    }
    Cell::Empty
}

pub open spec fn lesser(a: int, b: int) -> int {
    if a < b {
        a
    } else {
        b
    }
}

pub open spec fn greater(a: int, b: int) -> int {
    if a > b {
        a
    } else {
        b
    }
}

/// The leftmost column that one of the first `n` sensors covers, or 0
/// where none reaches left of that.
pub open spec fn leftmost(sensors: Seq<Sensor>, n: int) -> int
    decreases n,
{
    if n <= 0 || n > sensors.len() {
        0
    } else {
        lesser(sensors[n - 1].loc.x - sensors[n - 1].reach(), leftmost(sensors, n - 1))
    }
}

/// The rightmost column that one of the first `n` sensors covers, or 0
/// where none reaches right of that.
pub open spec fn rightmost(sensors: Seq<Sensor>, n: int) -> int
    decreases n,
{
    if n <= 0 || n > sensors.len() {
        0
    } else {
        greater(sensors[n - 1].loc.x + sensors[n - 1].reach(), rightmost(sensors, n - 1))
    }
}

pub open spec fn all_in_range(sensors: Seq<Sensor>) -> bool {
    forall|i: int| 0 <= i < sensors.len() ==> (#[trigger] sensors[i]).in_range()
}

pub fn lr_boundaries(sensors: &Vec<Sensor>) -> (r: (isize, isize))
    requires
        all_in_range(sensors@),
    ensures
        r.0 == leftmost(sensors@, sensors@.len() as int),
        r.1 == rightmost(sensors@, sensors@.len() as int),
{
    let mut mn: isize = 0;
    let mut mx: isize = 0;
    let mut i: usize = 0;
    while i < sensors.len()
        invariant
            i <= sensors@.len(),
            all_in_range(sensors@),
            mn == leftmost(sensors@, i as int),
            mx == rightmost(sensors@, i as int),
        decreases sensors@.len() - i,
    {
        let s = sensors[i];
        assert(s.in_range());
        let d = s.distance() as isize;
        let l = s.loc.x - d;
        let r = s.loc.x + d;
        if l < mn {
            mn = l;
        }
        if r > mx {
            mx = r;
        }
        i += 1;
    }
    (mn, mx)
}

/// How many places of row `y` from column `from` up to, but without, column
/// `to` lie within the reach of a sensor and hold neither sensor nor beacon.
pub open spec fn covered(y: isize, sensors: Seq<Sensor>, from: int, to: int) -> nat
    decreases to - from,
{
    if to <= from {
        0
    } else {
        covered(y, sensors, from, to - 1) + if cell_from(
            Vec2 { x: (to - 1) as isize, y },
            sensors,
            0,
        ) == Cell::InRange {
            1nat
        } else {
            0nat
        }
    }
}

proof fn lemma_covered_bound(y: isize, sensors: Seq<Sensor>, from: int, to: int)
    requires
        from <= to,
    ensures
        covered(y, sensors, from, to) <= to - from,
    decreases to - from,
{
    if from < to {
        lemma_covered_bound(y, sensors, from, to - 1);
    }
}

/// Counts the places of row `y` where no beacon can be: those within reach
/// of a sensor, between the leftmost and the rightmost column that a sensor
/// covers.
pub fn invalid_spaces_in_line(y: isize, sensors: &Vec<Sensor>) -> (r: Result<usize, BeaconError>)
    requires
        all_in_range(sensors@),
        forall|x: isize|
            leftmost(sensors@, sensors@.len() as int) <= x < rightmost(
                sensors@,
                sensors@.len() as int,
            ) ==> #[trigger] decidable(Vec2 { x, y }, sensors@),
    ensures
        r matches Ok(count) && count == covered(
            y,
            sensors@,
            leftmost(sensors@, sensors@.len() as int),
            rightmost(sensors@, sensors@.len() as int),
        ),
{
    let (l, r) = lr_boundaries(sensors);
    let mut count: usize = 0;
    let mut x: isize = l;
    proof {
        lemma_left_of_right(sensors@, sensors@.len() as int);
    }
    while x < r
        invariant
            l <= x <= r,
            l == leftmost(sensors@, sensors@.len() as int),
            r == rightmost(sensors@, sensors@.len() as int),
            forall|x: isize| l <= x < r ==> #[trigger] decidable(Vec2 { x, y }, sensors@),
            count == covered(y, sensors@, l as int, x as int),
        decreases r - x,
    {
        proof {
            lemma_covered_bound(y, sensors@, l as int, x as int);
        }
        assert(decidable(Vec2 { x, y }, sensors@));
        if get_cell(Vec2::new(x, y), sensors) == Cell::InRange {
            count += 1;
        }
        x += 1;
    }
    Ok(count)
}

proof fn lemma_left_of_right(sensors: Seq<Sensor>, n: int)
    ensures
        leftmost(sensors, n) <= 0 <= rightmost(sensors, n),
    decreases n,
{
    if 0 < n <= sensors.len() {
        lemma_left_of_right(sensors, n - 1);
    }
}

/// The stretches of row `y` that the first `n` sensors cover, for each
/// sensor that reaches the row its first and its last column.
pub open spec fn projections(y: isize, sensors: Seq<Sensor>, n: int) -> Seq<(isize, isize)>
    decreases n,
{
    if n <= 0 || n > sensors.len() {
        seq![]
    } else {
        let s = sensors[n - 1];
        let away = magnitude(s.loc.y - y);
        if away > s.reach() {
            projections(y, sensors, n - 1)
        } else {
            projections(y, sensors, n - 1).push(
                (
                    (s.loc.x - (s.reach() - away)) as isize,
                    (s.loc.x + (s.reach() - away)) as isize,
                ),
            )
        }
    }
}

pub fn project_onto(y: isize, sensors: &Vec<Sensor>) -> (r: Result<Vec<(isize, isize)>, BeaconError>)
    requires
        all_in_range(sensors@),
        forall|i: int|
            0 <= i < sensors@.len() ==> isize::MIN < (#[trigger] sensors@[i]).loc.y - y
                <= isize::MAX,
    ensures
        r matches Ok(stretches) && stretches@ == projections(y, sensors@, sensors@.len() as int),
{
    let mut result: Vec<(isize, isize)> = Vec::new();
    let mut i: usize = 0;
    while i < sensors.len()
        invariant
            i <= sensors@.len(),
            all_in_range(sensors@),
            forall|i: int|
                0 <= i < sensors@.len() ==> isize::MIN < (#[trigger] sensors@[i]).loc.y - y
                    <= isize::MAX,
            result@ == projections(y, sensors@, i as int),
        decreases sensors@.len() - i,
    {
        let s = sensors[i];
        assert(s.in_range());
        let d = s.distance();
        let away = s.loc.y - y;
        let distance_to_projection: usize = if away < 0 {
            (-away) as usize
        } else {
            away as usize
        };
        if distance_to_projection <= d {
            let r = (d - distance_to_projection) as isize;
            result.push((s.loc.x - r, s.loc.x + r));
        }
        i += 1;
    }
    Ok(result)
}

/// A stretch with its ends in order.
pub open spec fn ordered(r: (isize, isize)) -> (isize, isize) {
    if r.0 > r.1 {
        (r.1, r.0)
    } else {
        r
    }
}

/// Whether the column `v` lies in the stretch between the ends of `r`.
pub open spec fn within(r: (isize, isize), v: int) -> bool {
    ordered(r).0 <= v <= ordered(r).1
}

/// The one stretch that two stretches make where they share a column or
/// meet end to end at one; none where they lie apart.
pub open spec fn merged(r1: (isize, isize), r2: (isize, isize)) -> Option<(isize, isize)> {
    let a = ordered(r1);
    let b = ordered(r2);
    let (first, second) = if a.0 > b.0 {
        (b, a)
    } else {
        (a, b)
    };
    if first.1 < second.0 {
        None
    } else {
        Some(
            (
                first.0,
                if first.1 > second.1 {
                    first.1
                } else {
                    second.1
                },
            ),
        )
    }
}

/// How many of the three ways of being out of order the two stretches show.
pub open spec fn disorder(r1: (isize, isize), r2: (isize, isize)) -> nat {
    (if r1.0 > r1.1 {
        4nat
    } else {
        0nat
    }) + (if r2.0 > r2.1 {
        2nat
    } else {
        0nat
    }) + (if ordered(r1).0 > ordered(r2).0 {
        1nat
    } else {
        0nat
    })
}

pub fn merge(r1: (isize, isize), r2: (isize, isize)) -> (r: Option<(isize, isize)>)
    ensures
        r == merged(r1, r2),
    decreases disorder(r1, r2),
{
    let (min1, max1) = r1;
    let (min2, max2) = r2;

    if min1 > max1 {
        return merge((max1, min1), r2);
    }
    if min2 > max2 {
        return merge(r1, (max2, min2));
    }
    if min1 > min2 {
        return merge(r2, r1);
    }
    if max1 < min2 {
        return None;
    }
    Some(
        (
            min1,
            if max1 > max2 {
                max1
            } else {
                max2
            },
        ),
    )
}

/// Where two stretches merge, the result covers what either covers and
/// nothing else; where they do not, no column lies in both.
pub proof fn lemma_merged_covers(r1: (isize, isize), r2: (isize, isize), v: int)
    ensures
        match merged(r1, r2) {
            Some(m) => within(m, v) <==> within(r1, v) || within(r2, v),
            None => !(within(r1, v) && within(r2, v)),
        },
{
}

/// Merging does not depend on the order of the two stretches.
pub proof fn lemma_merged_commutes(r1: (isize, isize), r2: (isize, isize))
    ensures
        merged(r1, r2) == merged(r2, r1),
{
}

} // verus!
