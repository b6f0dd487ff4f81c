//! A vector that is kept in order and never grows beyond a fixed length.
use crate::number::{i32_of, parse_i32};
use crate::text::{chars_of, str_views};
use vstd::prelude::*;

verus! {

/// At most `capacity` values, kept in the order that `pred` asks for.
pub struct FixedCapacityOrderedVec<T, P> where
    T: PartialOrd + Ord + Copy,
    P: Fn(T, T) -> bool + Copy,
 {
    v: Vec<T>,
    capacity: usize,
    pred: P,
}

/// Whether `k` is where `value` goes among `items`: every item before `k`
/// comes before `value` by `pred`, and the item at `k`, if there is one,
/// does not.
pub open spec fn place_for<T, P: Fn(T, T) -> bool>(items: Seq<T>, pred: P, value: T, k: int) -> bool {
    &&& 0 <= k <= items.len()
    &&& forall|i: int| 0 <= i < k ==> call_ensures(pred, (#[trigger] items[i], value), true)
    &&& k < items.len() ==> call_ensures(pred, (items[k], value), false)
}

/// `items` with `value` put in at `k` and what exceeds `capacity` cut off.
pub open spec fn put_in<T>(items: Seq<T>, value: T, k: int, capacity: usize) -> Seq<T> {
    let grown = items.insert(k, value);
    if grown.len() > capacity {
        grown.take(capacity as int)
    } else {
        grown
    }
}

impl<T, P> FixedCapacityOrderedVec<T, P> where
    T: PartialOrd + Ord + Copy,
    P: Fn(T, T) -> bool + Copy,
 {
    /// The values held, in order.
    pub closed spec fn items(&self) -> Seq<T> {
        self.v@
    }

    /// The greatest number of values held.
    pub closed spec fn limit(&self) -> usize {
        self.capacity
    }

    /// The order in which the values are kept.
    pub closed spec fn order(&self) -> P {
        self.pred
    }

    /// The order can be asked about any two values.
    pub open spec fn well_formed(&self) -> bool {
        forall|a: T, b: T| #[trigger] call_requires(self.order(), (a, b))
    }

    pub fn new(capacity: usize, pred: P) -> (r: Self)
        requires
            forall|a: T, b: T| #[trigger] call_requires(pred, (a, b)),
        ensures
            r.well_formed(),
            r.items() == Seq::<T>::empty(),
            r.limit() == capacity,
            r.order() == pred,
    {
        FixedCapacityOrderedVec { v: Vec::new(), capacity, pred }
    }

    /// Puts `value` in before the first value that does not come before it,
    /// and drops the last value where there are then too many.
    pub fn insert(&mut self, value: T)
        requires
            old(self).well_formed(),
        ensures
            final(self).well_formed(),
            final(self).limit() == old(self).limit(),
            final(self).order() == old(self).order(),
            exists|k: int|
                #[trigger] place_for(old(self).items(), old(self).order(), value, k)
                    && final(self).items() == put_in(
                    old(self).items(),
                    value,
                    k,
                    old(self).limit(),
                ),
    {
        let mut partition: usize = 0;
        while partition < self.v.len()
            invariant
                partition <= self.v@.len(),
                self.v@ == old(self).v@,
                self.pred == old(self).pred,
                self.capacity == old(self).capacity,
                self.well_formed(),
                forall|i: int|
                    0 <= i < partition ==> call_ensures(
                        self.pred,
                        (#[trigger] self.v@[i], value),
                        true,
                    ),
            ensures
                partition <= self.v@.len(),
                place_for(self.v@, self.pred, value, partition as int),
            decreases self.v@.len() - partition,
        {
            let pred = self.pred;
            let item = self.v[partition];
            assert(call_requires(self.order(), (item, value)));
            if !pred(item, value) {
                break ;
            }
            partition += 1;
        }
        assert(place_for(old(self).items(), old(self).order(), value, partition as int));
        self.v.insert(partition, value);
        self.v.truncate(self.capacity);
        assert(self.v@ =~= put_in(old(self).v@, value, partition as int, self.capacity));
    }

    pub fn vec(&self) -> (r: &Vec<T>)
        ensures
            r@ == self.items(),
    {
        &self.v
    }
}

#[derive(Clone, Copy, Debug, PartialEq, Eq, Structural)]
pub enum CaloriesError {
    /// A line is neither empty nor a number.
    BadNumber,
    /// The calories of a group leave the range of the machine's integers.
    TooMany,
    /// No group was kept.
    NoGroup,
}

/// The index at or after `i` of the first total that is not above `value`.
pub open spec fn first_not_above(kept: Seq<i32>, value: i32, i: int) -> int
    decreases kept.len() - i,
{
    if i < 0 || i >= kept.len() {
        kept.len() as int
    } else if !(kept[i] > value) {
        i
    } else {
        first_not_above(kept, value, i + 1)
    }
}

/// The totals with `total` put in after those above it, cut to `capacity`.
pub open spec fn with_total(kept: Seq<i32>, total: i32, capacity: usize) -> Seq<i32> {
    put_in(kept, total, first_not_above(kept, total, 0), capacity)
}

/// The totals after `total` was offered: it is put in where none is kept
/// yet or where it is above the last that is kept.
pub open spec fn offered(kept: Seq<i32>, total: i32, capacity: usize) -> Seq<i32> {
    if kept.len() == 0 || total > kept.last() {
        with_total(kept, total, capacity)
    } else {
        kept
    }
}

/// The totals kept so far, and the calories of the group that is open.
pub struct Tally {
    pub kept: Seq<i32>,
    pub running: i32,
}

/// The tally after the first `n` lines: a number adds to the open group,
/// and an empty line closes it.
pub open spec fn tallied(lines: Seq<Seq<char>>, n: int, capacity: usize) -> Result<
    Tally,
    CaloriesError,
>
    decreases n,
{
    if n <= 0 || n > lines.len() {
        Ok(Tally { kept: seq![], running: 0 })
    } else {
        match tallied(lines, n - 1, capacity) {
            Err(e) => Err(e),
            Ok(t) => if lines[n - 1].len() == 0 {
                Ok(Tally { kept: offered(t.kept, t.running, capacity), running: 0 })
            } else {
                match i32_of(lines[n - 1]) {
                    None => Err(CaloriesError::BadNumber),
                    Some(v) => if t.running + v > i32::MAX || t.running + v < i32::MIN {
                        Err(CaloriesError::TooMany)
                    } else {
                        Ok(Tally { kept: t.kept, running: (t.running + v) as i32 })
                    },
                }
            },
        }
    }
}

/// The largest totals of the groups, largest first: what is kept at the
/// end, with the last group offered where one was kept before.
pub open spec fn largest_of(lines: Seq<Seq<char>>, capacity: usize) -> Result<
    Seq<i32>,
    CaloriesError,
> {
    match tallied(lines, lines.len() as int, capacity) {
        Err(e) => Err(e),
        Ok(t) => if t.kept.len() == 0 {
            Err(CaloriesError::NoGroup)
        } else if t.running > t.kept.last() {
            Ok(with_total(t.kept, t.running, capacity))
        } else {
            Ok(t.kept)
        },
    }
}

proof fn lemma_tallied_fails(lines: Seq<Seq<char>>, k: int, n: int, capacity: usize)
    requires
        0 <= k <= n <= lines.len(),
        tallied(lines, k, capacity) is Err,
    ensures
        tallied(lines, n, capacity) == tallied(lines, k, capacity),
    decreases n - k,
{
    if k < n {
        lemma_tallied_fails(lines, k, n - 1, capacity);
    }
}

/// Where the order is "greater than", the place for a value is the first
/// that is not above it.
proof fn lemma_place<P: Fn(i32, i32) -> bool>(kept: Seq<i32>, pred: P, value: i32, k: int, j: int)
    requires
        place_for(kept, pred, value, k),
        forall|a: i32, b: i32, r: bool| #[trigger] call_ensures(pred, (a, b), r) ==> r == (a > b),
        0 <= j <= k,
    ensures
        first_not_above(kept, value, j) == k,
    decreases k - j,
{
    if j < k {
        assert(call_ensures(pred, (kept[j], value), true));
        lemma_place(kept, pred, value, k, j + 1);
    } else if k < kept.len() {
        assert(call_ensures(pred, (kept[k], value), false));
    }
}

/// Adds up the calories of each group of lines and keeps the `capacity`
/// largest totals, largest first. A total is offered when its group ends at
/// an empty line, and the last group at the end.
pub fn largest_totals(lines: &[&str], capacity: usize) -> (r: Result<Vec<i32>, CaloriesError>)
    ensures
        match r {
            Ok(totals) => largest_of(str_views(lines@), capacity) == Ok::<Seq<i32>, CaloriesError>(
                totals@,
            ),
            Err(e) => largest_of(str_views(lines@), capacity) == Err::<Seq<i32>, CaloriesError>(e),
        },
{
    let ghost text = str_views(lines@);
    let pred = |lhs: i32, rhs: i32| -> (r: bool)
        ensures
            r == (lhs > rhs),
        { lhs > rhs };
    let mut top_n_max = FixedCapacityOrderedVec::new(capacity, pred);
    let mut running_total_calories: i32 = 0;
    let mut i: usize = 0;
    while i < lines.len()
        invariant
            i <= lines@.len(),
            text == str_views(lines@),
            top_n_max.well_formed(),
            top_n_max.limit() == capacity,
            top_n_max.order() == pred,
            forall|a: i32, b: i32, r: bool| #[trigger] call_ensures(pred, (a, b), r) ==> r == (a > b),
            tallied(text, i as int, capacity) == Ok::<Tally, CaloriesError>(
                Tally { kept: top_n_max.items(), running: running_total_calories },
            ),
        decreases lines@.len() - i,
    {
        assert(text[i as int] == lines@[i as int]@);
        let s = lines[i];
        if s.is_empty() {
            let ghost kept = top_n_max.items();
            let held = top_n_max.vec().len();
            let offer = if held > 0 {
                running_total_calories > top_n_max.vec()[held - 1]
            } else {
                true
            };
            if offer {
                top_n_max.insert(running_total_calories);
                proof {
                    let k = choose|k: int|
                        #[trigger] place_for(kept, pred, running_total_calories, k)
                            && top_n_max.items() == put_in(kept, running_total_calories, k, capacity);
                    lemma_place(kept, pred, running_total_calories, k, 0);
                }
            }
            running_total_calories = 0;
        } else {
            let cs = chars_of(s);
            let calories = match parse_i32(&cs) {
                Some(v) => v,
                None => {
                    proof {
                        lemma_tallied_fails(text, i + 1, text.len() as int, capacity);
                    }
                    return Err(CaloriesError::BadNumber);
                },
            };
            running_total_calories = match running_total_calories.checked_add(calories) {
                Some(v) => v,
                None => {
                    proof {
                        lemma_tallied_fails(text, i + 1, text.len() as int, capacity);
                    }
                    return Err(CaloriesError::TooMany);
                },
            };
        }
        i += 1;
    }
    let held = top_n_max.vec().len();
    if held == 0 {
        return Err(CaloriesError::NoGroup);
    }
    let min_of_max_calories = top_n_max.vec()[held - 1];
    if running_total_calories > min_of_max_calories {
        let ghost kept = top_n_max.items();
        top_n_max.insert(running_total_calories);
        proof {
            let k = choose|k: int|
                #[trigger] place_for(kept, pred, running_total_calories, k) && top_n_max.items()
                    == put_in(kept, running_total_calories, k, capacity);
            lemma_place(kept, pred, running_total_calories, k, 0);
        }
    }
    let kept = top_n_max.vec();
    let mut totals: Vec<i32> = Vec::new();
    let mut j: usize = 0;
    while j < kept.len()
        invariant
            j <= kept@.len(),
            totals@ == kept@.take(j as int),
        decreases kept@.len() - j,
    {
        totals.push(kept[j]);
        assert(kept@.take(j + 1) =~= kept@.take(j as int).push(kept@[j as int]));
        j += 1;
    }
    assert(kept@.take(kept@.len() as int) =~= kept@);
    Ok(totals)
}

} // verus!
