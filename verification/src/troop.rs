//! A troop of monkeys at play: reading the notes of all of them, and one
//! round of inspecting and throwing.
use crate::monkey::{monkey_of, Monkey, MonkeyData, Operation, ParseError, Test};
use crate::text::{begins_with, chars_of, starts_with, str_views, trim, trimmed};
use vstd::prelude::*;

verus! {

#[derive(Debug, Clone, Copy, PartialEq, Eq, Structural)]
pub enum TroopError {
    /// There is no monkey.
    NoMonkeys,
    /// A worry level left the range of `i64`, or a division was by zero.
    Arithmetic,
    /// An item was thrown to a monkey that is not there.
    NoSuchMonkey,
}

/// The views of the monkeys of a troop.
pub open spec fn troop_view(monkeys: Seq<Monkey>) -> Seq<MonkeyData> {
    Seq::new(monkeys.len(), |i: int| monkeys[i]@)
}

/// `rest` with the monkeys of `done` before it.
pub open spec fn joined(
    done: Seq<MonkeyData>,
    rest: Result<Seq<MonkeyData>, ParseError>,
) -> Result<Seq<MonkeyData>, ParseError> {
    match rest {
        Ok(more) => Ok(done + more),
        Err(e) => Err(e),
    }
}

/// The monkeys described from line `i` on: a line that begins with `Monkey`
/// opens six lines of notes, any other line is passed over.
pub open spec fn monkeys_from(lines: Seq<Seq<char>>, i: int) -> Result<Seq<MonkeyData>, ParseError>
    decreases lines.len() - i,
{
    if i < 0 || i >= lines.len() {
        Ok(seq![])
    } else if starts_with(trim(lines[i]), "Monkey"@) {
        if i + 6 > lines.len() {
            match monkey_of(lines.subrange(i, lines.len() as int)) {
                Ok(_) => Err(ParseError::Incomplete),
                Err(e) => Err(e),
            }
        } else {
            match monkey_of(lines.subrange(i, i + 6)) {
                Ok(m) => joined(seq![m], monkeys_from(lines, i + 6)),
                Err(e) => Err(e),
            }
        }
    } else {
        monkeys_from(lines, i + 1)
    }
}

pub fn parse_monkeys(lines: &[&str]) -> (r: Result<Vec<Monkey>, ParseError>)
    ensures
        match r {
            Ok(monkeys) => monkeys_from(str_views(lines@), 0) == Ok::<
                Seq<MonkeyData>,
                ParseError,
            >(troop_view(monkeys@)),
            Err(e) => monkeys_from(str_views(lines@), 0) == Err::<Seq<MonkeyData>, ParseError>(e),
        },
{
    let ghost text = str_views(lines@);
    let mut monkeys: Vec<Monkey> = Vec::new();
    let mut i: usize = 0;
    assert(joined(troop_view(monkeys@), monkeys_from(text, 0)) =~= monkeys_from(text, 0)) by {
        match monkeys_from(text, 0) {
            Ok(more) => {
                assert(troop_view(monkeys@) + more =~= more);
            },
            Err(_) => {},
        }
    }
    while i < lines.len()
        invariant
            text == str_views(lines@),
            monkeys_from(text, 0) == joined(troop_view(monkeys@), monkeys_from(text, i as int)),
        decreases lines.len() - i,
    {
        let cs = chars_of(lines[i]);
        assert(cs@ == text[i as int]);
        if begins_with(&trimmed(&cs), "Monkey") {
            let mut notes: Vec<&str> = Vec::new();
            let mut k: usize = i;
            while k < lines.len() && k - i < 6
                invariant
                    i <= k <= lines.len(),
                    k - i <= 6,
                    text == str_views(lines@),
                    text.len() == lines@.len(),
                    notes@.len() == k - i,
                    str_views(notes@) == text.subrange(i as int, k as int),
                decreases lines.len() - k,
            {
                let ghost held = notes@;
                notes.push(lines[k]);
                assert forall|j: int| 0 <= j < notes@.len() implies str_views(notes@)[j]
                    == text.subrange(i as int, k + 1)[j] by {
                    if j < held.len() {
                        assert(str_views(held)[j] == text.subrange(i as int, k as int)[j]);
                    }
                }
                assert(str_views(notes@) =~= text.subrange(i as int, k + 1));
                k += 1;
            }
            let ghost before = troop_view(monkeys@);
            match Monkey::parse(notes.as_slice()) {
                Ok(m) => {
                    if k - i < 6 {
                        // six lines are needed for a monkey to be read
                        assert(monkey_of(text.subrange(i as int, k as int)) is Err);
                        assert(false);
                    }
                    monkeys.push(m);
                    assert(troop_view(monkeys@) =~= before + seq![m@]);
                    assert(joined(before, joined(seq![m@], monkeys_from(text, i + 6))) == joined(
                        before + seq![m@],
                        monkeys_from(text, i + 6),
                    )) by {
                        match monkeys_from(text, i + 6) {
                            Ok(more) => {
                                assert(before + (seq![m@] + more) =~= (before + seq![m@]) + more);
                            },
                            Err(_) => {},
                        }
                    }
                    i = k;
                },
                Err(e) => {
                    return Err(e);
                },
            }
        } else {
            i += 1;
        }
    }
    assert(troop_view(monkeys@) + Seq::<MonkeyData>::empty() =~= troop_view(monkeys@));
    Ok(monkeys)
}

pub open spec fn fits(v: int) -> bool {
    i64::MIN <= v <= i64::MAX
}

/// The worry level after a monkey's operation.
pub open spec fn worry_after(op: Operation, old: int) -> int {
    match op {
        Operation::Add(x) => old + x,
        Operation::Mul(x) => old * x,
        Operation::Sqr => old * old,
    }
}

/// `x` divided by `d`, rounded toward zero.
pub open spec fn quotient(x: int, d: int) -> int
    recommends
        d != 0,
{
    if x >= 0 && d > 0 {
        x / d
    } else if x < 0 && d < 0 {
        (-x) / (-d)
    } else if x < 0 {
        -((-x) / d)
    } else {
        -(x / (-d))
    }
}

/// What is left of `x` after that division; it has the sign of `x`.
pub open spec fn remainder(x: int, d: int) -> int
    recommends
        d != 0,
{
    let m = if d < 0 {
        -d
    } else {
        d
    };
    if x >= 0 {
        x % m
    } else {
        -((-x) % m)
    }
}

pub fn run_operation(op: &Operation, old: i64) -> (r: i64)
    requires
        fits(worry_after(*op, old as int)),
    ensures
        r == worry_after(*op, old as int),
{
    match op {
        Operation::Add(x) => old + *x,
        Operation::Mul(x) => old * *x,
        Operation::Sqr => old * old,
    }
}

/// The product of the divisors of the first `n` monkeys, where no product on
/// the way leaves the range of `i64`.
pub open spec fn common_multiple(troop: Seq<MonkeyData>, n: int) -> Option<i64>
    decreases n,
{
    if n <= 0 || n > troop.len() {
        None
    } else if n == 1 {
        Some(troop[0].test.divisible_by)
    } else {
        match common_multiple(troop, n - 1) {
            Some(p) => if fits(p * troop[n - 1].test.divisible_by) {
                Some((p * troop[n - 1].test.divisible_by) as i64)
            } else {
                None
            },
            None => None,
        }
    }
}

/// What a monkey does with one item: the monkey it throws to and the worry
/// level it throws. The level after the operation is divided by
/// `how_worried`, tested against the monkey's divisor, and reduced by
/// `modulus`.
pub open spec fn inspect(
    operation: Operation,
    test: Test,
    item: i64,
    how_worried: i64,
    modulus: i64,
) -> Option<(usize, i64)> {
    let raised = worry_after(operation, item as int);
    if !fits(raised) || how_worried == 0 || test.divisible_by == 0 || modulus == 0 {
        None
    } else {
        let level = quotient(raised, how_worried as int);
        if !fits(level) || (level == i64::MIN && (test.divisible_by == -1 || modulus == -1)) {
            None
        } else {
            Some(
                (
                    if remainder(level, test.divisible_by as int) == 0 {
                        test.pass_true
                    } else {
                        test.pass_false
                    },
                    remainder(level, modulus as int) as i64,
                ),
            )
        }
    }
}

/// What a monkey throws in its turn, item by item.
pub open spec fn inspect_all(m: MonkeyData, how_worried: i64, modulus: i64) -> Option<
    Seq<(usize, i64)>,
> {
    if forall|i: int|
        0 <= i < m.items.len() ==> inspect(
            m.operation,
            m.test,
            #[trigger] m.items[i],
            how_worried,
            modulus,
        ) is Some {
        Some(
            Seq::new(
                m.items.len(),
                |i: int| inspect(m.operation, m.test, m.items[i], how_worried, modulus).unwrap(),
            ),
        )
    } else {
        None
    }
}

/// The monkey `m` holding `items`.
pub open spec fn holding(m: MonkeyData, items: Seq<i64>) -> MonkeyData {
    MonkeyData { id: m.id, items, operation: m.operation, test: m.test }
}

/// The troop after the throws of `thrown`, in order; none where a throw
/// names a monkey that is not there.
pub open spec fn throw(troop: Seq<MonkeyData>, thrown: Seq<(usize, i64)>) -> Option<
    Seq<MonkeyData>,
>
    decreases thrown.len(),
{
    if thrown.len() == 0 {
        Some(troop)
    } else {
        let (to, level) = thrown[0];
        if to >= troop.len() {
            None
        } else {
            throw(
                troop.update(to as int, holding(troop[to as int], troop[to as int].items.push(level))),
                thrown.skip(1),
            )
        }
    }
}

/// The troop after the turn of monkey `k`: it inspects all its items, is
/// left with none, and throws them in order.
pub open spec fn turn(troop: Seq<MonkeyData>, k: int, how_worried: i64, modulus: i64) -> Result<
    Seq<MonkeyData>,
    TroopError,
>
    recommends
        0 <= k < troop.len(),
{
    match inspect_all(troop[k], how_worried, modulus) {
        None => Err(TroopError::Arithmetic),
        Some(thrown) => match throw(troop.update(k, holding(troop[k], seq![])), thrown) {
            None => Err(TroopError::NoSuchMonkey),
            Some(after) => Ok(after),
        },
    }
}

/// The troop after the turns of its first `n` monkeys.
pub open spec fn after_turns(
    troop: Seq<MonkeyData>,
    n: int,
    how_worried: i64,
    modulus: i64,
) -> Result<Seq<MonkeyData>, TroopError>
    decreases n,
{
    if n <= 0 {
        Ok(troop)
    } else {
        match after_turns(troop, n - 1, how_worried, modulus) {
            Ok(t) => turn(t, n - 1, how_worried, modulus),
            Err(e) => Err(e),
        }
    }
}

/// The troop after one round: each monkey takes its turn, in order. Worry
/// levels are kept below the product of all divisors.
pub open spec fn round(troop: Seq<MonkeyData>, how_worried: i64) -> Result<
    Seq<MonkeyData>,
    TroopError,
> {
    if troop.len() == 0 {
        Err(TroopError::NoMonkeys)
    } else {
        match common_multiple(troop, troop.len() as int) {
            None => Err(TroopError::Arithmetic),
            Some(modulus) => after_turns(troop, troop.len() as int, how_worried, modulus),
        }
    }
}

/// How many items each monkey inspects in a round: as many as it holds when
/// its turn comes.
pub open spec fn inspections(troop: Seq<MonkeyData>, how_worried: i64) -> Seq<usize> {
    let modulus = common_multiple(troop, troop.len() as int).unwrap();
    Seq::new(
        troop.len(),
        |k: int| after_turns(troop, k, how_worried, modulus).unwrap()[k].items.len() as usize,
    )
}

/// Division and remainder that report failure give the quotient rounded
/// toward zero and the remainder with the sign of the dividend.
proof fn lemma_checked(x: i64, d: i64)
    ensures
        x.checked_div(d) == if d == 0 || !fits(quotient(x as int, d as int)) {
            None
        } else {
            Some(quotient(x as int, d as int) as i64)
        },
        x.checked_rem(d) == if d == 0 || (x == i64::MIN && d == -1) {
            None
        } else {
            Some(remainder(x as int, d as int) as i64)
        },
{
    if d != 0 {
        let m: int = if d < 0 {
            -d
        } else {
            d as int
        };
        let a: int = if x < 0 {
            -x
        } else {
            x as int
        };
        vstd::arithmetic::div_mod::lemma_div_of0(m);
        vstd::arithmetic::div_mod::lemma_div_pos_is_pos(a, m);
        vstd::arithmetic::div_mod::lemma_div_nonincreasing(a, m);
        vstd::arithmetic::div_mod::lemma_mod_bound(a, m);
        assert(x * -1 == -x);
        assert(d * -1 == -d);
    }
}

/// What a monkey does with one item.
pub fn inspect_item(
    operation: &Operation,
    test: &Test,
    item: i64,
    how_worried: i64,
    modulus: i64,
) -> (r: Option<(usize, i64)>)
    ensures
        r == inspect(*operation, *test, item, how_worried, modulus),
{
    let raised = match operation {
        Operation::Add(x) => item.checked_add(*x),
        Operation::Mul(x) => item.checked_mul(*x),
        Operation::Sqr => item.checked_mul(item),
    };
    let raised = match raised {
        Some(v) => v,
        None => {
            return None;
        },
    };
    proof {
        lemma_checked(raised, how_worried);
    }
    let level = match raised.checked_div(how_worried) {
        Some(v) => v,
        None => {
            return None;
        },
    };
    proof {
        lemma_checked(level, test.divisible_by);
        lemma_checked(level, modulus);
    }
    let tested = match level.checked_rem(test.divisible_by) {
        Some(v) => v,
        None => {
            return None;
        },
    };
    let kept = match level.checked_rem(modulus) {
        Some(v) => v,
        None => {
            return None;
        },
    };
    let to = if tested == 0 {
        test.pass_true
    } else {
        test.pass_false
    };
    Some((to, kept))
}

/// Plays one round: each monkey in turn inspects the items it holds and
/// throws each to another monkey. Returns how many items each inspected.
pub fn run_monkeys(monkeys: &mut Vec<Monkey>, how_worried: i64) -> (r: Result<
    Vec<usize>,
    TroopError,
>)
    ensures
        match r {
            Ok(inspected) => {
                &&& round(troop_view(old(monkeys)@), how_worried) == Ok::<
                    Seq<MonkeyData>,
                    TroopError,
                >(troop_view(final(monkeys)@))
                &&& inspected@ == inspections(troop_view(old(monkeys)@), how_worried)
            },
            Err(e) => round(troop_view(old(monkeys)@), how_worried) == Err::<
                Seq<MonkeyData>,
                TroopError,
            >(e),
        },
{
    let ghost start = troop_view(monkeys@);
    let n = monkeys.len();
    if n == 0 {
        return Err(TroopError::NoMonkeys);
    }
    let mut modulus: i64 = monkeys[0].test.divisible_by;
    let mut i: usize = 1;
    while i < n
        invariant
            1 <= i <= n,
            n == monkeys@.len(),
            start == troop_view(monkeys@),
            common_multiple(start, i as int) == Some(modulus),
        decreases n - i,
    {
        match modulus.checked_mul(monkeys[i].test.divisible_by) {
            Some(p) => {
                modulus = p;
            },
            None => {
                assert(common_multiple(start, i + 1) is None);
                proof {
                    lemma_common_multiple_fails(start, i + 1, n as int);
                }
                return Err(TroopError::Arithmetic);
            },
        }
        i += 1;
    }
    let mut inspected: Vec<usize> = Vec::new();
    let mut k: usize = 0;
    while k < n
        invariant
            k <= n,
            n == monkeys@.len(),
            n == start.len(),
            start == troop_view(old(monkeys)@),
            common_multiple(start, n as int) == Some(modulus),
            after_turns(start, k as int, how_worried, modulus) == Ok::<
                Seq<MonkeyData>,
                TroopError,
            >(troop_view(monkeys@)),
            inspected@.len() == k,
            forall|j: int|
                0 <= j < k ==> (#[trigger] inspected@[j]) == after_turns(
                    start,
                    j,
                    how_worried,
                    modulus,
                ).unwrap()[j].items.len(),
        decreases n - k,
    {
        let ghost before = troop_view(monkeys@);
        let ghost me = before[k as int];
        let count = monkeys[k].items.len();
        let mut thrown: Vec<(usize, i64)> = Vec::new();
        let mut j: usize = 0;
        while j < count
            invariant
                j <= count,
                k < n,
                n == monkeys@.len(),
                n == start.len(),
                start == troop_view(old(monkeys)@),
                common_multiple(start, n as int) == Some(modulus),
                before == troop_view(monkeys@),
                me == before[k as int],
                count == me.items.len(),
                thrown@.len() == j,
                forall|i: int|
                    0 <= i < j ==> inspect(
                        me.operation,
                        me.test,
                        #[trigger] me.items[i],
                        how_worried,
                        modulus,
                    ) == Some(thrown@[i]),
                after_turns(start, k + 1, how_worried, modulus) == turn(
                    before,
                    k as int,
                    how_worried,
                    modulus,
                ),
            decreases count - j,
        {
            let item = monkeys[k].items[j];
            match inspect_item(&monkeys[k].operation, &monkeys[k].test, item, how_worried, modulus) {
                Some(t) => {
                    thrown.push(t);
                },
                None => {
                    assert(inspect(me.operation, me.test, me.items[j as int], how_worried, modulus) is None);
                    proof {
                        lemma_after_turns_fails(start, k + 1, n as int, how_worried, modulus);
                    }
                    return Err(TroopError::Arithmetic);
                },
            }
            j += 1;
        }
        assert(inspect_all(me, how_worried, modulus) == Some(thrown@)) by {
            assert(inspect_all(me, how_worried, modulus).unwrap() =~= thrown@);
        }
        monkeys[k].items.clear();
        inspected.push(count);
        let ghost cleared = troop_view(monkeys@);
        assert(cleared =~= before.update(k as int, holding(me, seq![])));
        let mut j: usize = 0;
        assert(thrown@.skip(0) =~= thrown@);
        while j < thrown.len()
            invariant
                j <= thrown.len(),
                k < n,
                n == monkeys@.len(),
                n == start.len(),
                start == troop_view(old(monkeys)@),
                common_multiple(start, n as int) == Some(modulus),
                throw(cleared, thrown@) == throw(troop_view(monkeys@), thrown@.skip(j as int)),
                after_turns(start, k + 1, how_worried, modulus) == match throw(cleared, thrown@) {
                    None => Err::<Seq<MonkeyData>, TroopError>(TroopError::NoSuchMonkey),
                    Some(after) => Ok(after),
                },
            decreases thrown.len() - j,
        {
            let (to, level) = thrown[j];
            let ghost now = troop_view(monkeys@);
            assert(thrown@.skip(j as int)[0] == (to, level));
            assert(thrown@.skip(j as int).skip(1) =~= thrown@.skip(j + 1));
            if to >= n {
                proof {
                    lemma_after_turns_fails(start, k + 1, n as int, how_worried, modulus);
                }
                return Err(TroopError::NoSuchMonkey);
            }
            monkeys[to].items.push(level);
            assert(troop_view(monkeys@) =~= now.update(
                to as int,
                holding(now[to as int], now[to as int].items.push(level)),
            ));
            j += 1;
        }
        k += 1;
    }
    assert(inspected@ =~= inspections(start, how_worried));
    Ok(inspected)
}

/// Once the product of the divisors has left the range, it stays out.
proof fn lemma_common_multiple_fails(troop: Seq<MonkeyData>, i: int, n: int)
    requires
        1 <= i <= n,
        common_multiple(troop, i) is None,
    ensures
        common_multiple(troop, n) is None,
    decreases n - i,
{
    if i < n {
        lemma_common_multiple_fails(troop, i, n - 1);
    }
}

/// Once a turn has failed, the round has failed in the same way.
proof fn lemma_after_turns_fails(
    troop: Seq<MonkeyData>,
    k: int,
    n: int,
    how_worried: i64,
    modulus: i64,
)
    requires
        0 <= k <= n,
        after_turns(troop, k, how_worried, modulus) is Err,
    ensures
        after_turns(troop, n, how_worried, modulus) == after_turns(troop, k, how_worried, modulus),
    decreases n - k,
{
    if k < n {
        lemma_after_turns_fails(troop, k, n - 1, how_worried, modulus);
    }
}

/// Whether each sum of a total and what the round adds to it is a number
/// of the machine.
pub open spec fn sums_fit(totals: Seq<usize>, more: Seq<usize>) -> bool {
    forall|i: int| 0 <= i < totals.len() ==> #[trigger] totals[i] + more[i] <= usize::MAX
}

/// The troop after `n` rounds, and how many items each monkey has inspected
/// in them.
pub open spec fn after_rounds(troop: Seq<MonkeyData>, n: nat, how_worried: i64) -> Result<
    (Seq<MonkeyData>, Seq<usize>),
    TroopError,
>
    decreases n,
{
    if n == 0 {
        Ok((troop, Seq::new(troop.len(), |i: int| 0usize)))
    } else {
        match after_rounds(troop, (n - 1) as nat, how_worried) {
            Err(e) => Err(e),
            Ok((before, totals)) => match round(before, how_worried) {
                Err(e) => Err(e),
                Ok(after) => if sums_fit(totals, inspections(before, how_worried)) {
                    Ok(
                        (
                            after,
                            Seq::new(
                                totals.len(),
                                |i: int| (totals[i] + inspections(before, how_worried)[i]) as usize,
                            ),
                        ),
                    )
                } else {
                    Err(TroopError::Arithmetic)
                },
            },
        }
    }
}

/// Whether `a` and `b` are the two greatest of `totals`, `a` the greater.
pub open spec fn top_two(totals: Seq<usize>, a: usize, b: usize) -> bool {
    exists|i: int, j: int|
        #![trigger totals[i], totals[j]]
        0 <= i < totals.len() && 0 <= j < totals.len() && i != j && totals[i] == a && totals[j] == b
            && a >= b && forall|k: int| 0 <= k < totals.len() && k != i ==> #[trigger] totals[k] <= b
}

proof fn lemma_after_rounds_fails(troop: Seq<MonkeyData>, k: nat, n: nat, how_worried: i64)
    requires
        k <= n,
        after_rounds(troop, k, how_worried) is Err,
    ensures
        after_rounds(troop, n, how_worried) == after_rounds(troop, k, how_worried),
    decreases n - k,
{
    if k < n {
        lemma_after_rounds_fails(troop, k, (n - 1) as nat, how_worried);
    }
}

/// Plays `rounds` rounds and multiplies the numbers of items that the two
/// busiest monkeys have inspected.
pub fn monkey_business(monkeys: &mut Vec<Monkey>, rounds: usize, how_worried: i64) -> (r: Result<
    usize,
    TroopError,
>)
    ensures
        match r {
            Ok(v) => match after_rounds(troop_view(old(monkeys)@), rounds as nat, how_worried) {
                Ok(played) => played.0 == troop_view(final(monkeys)@) && exists|a: usize, b: usize|
                    #[trigger] top_two(played.1, a, b) && v == a * b,
                Err(_) => false,
            },
            Err(e) => match after_rounds(troop_view(old(monkeys)@), rounds as nat, how_worried) {
                Err(f) => e == f,
                Ok(played) => (e == TroopError::NoMonkeys && played.1.len() < 2) || (e
                    == TroopError::Arithmetic && exists|a: usize, b: usize|
                    #[trigger] top_two(played.1, a, b) && a * b > usize::MAX),
            },
        },
{
    let ghost start = troop_view(monkeys@);
    let mut total: Vec<usize> = Vec::new();
    while total.len() < monkeys.len()
        invariant
            total@.len() <= monkeys@.len(),
            forall|i: int| 0 <= i < total@.len() ==> total@[i] == 0,
        decreases monkeys@.len() - total@.len(),
    {
        total.push(0);
    }
    assert(total@ =~= Seq::new(start.len(), |i: int| 0usize));
    let mut n: usize = 0;
    while n < rounds
        invariant
            n <= rounds,
            start == troop_view(old(monkeys)@),
            after_rounds(start, n as nat, how_worried) == Ok::<
                (Seq<MonkeyData>, Seq<usize>),
                TroopError,
            >((troop_view(monkeys@), total@)),
            total@.len() == monkeys@.len(),
        decreases rounds - n,
    {
        let ghost before = troop_view(monkeys@);
        let ghost held = total@;
        let passes = match run_monkeys(monkeys, how_worried) {
            Ok(passes) => passes,
            Err(e) => {
                proof {
                    lemma_after_rounds_fails(start, (n + 1) as nat, rounds as nat, how_worried);
                }
                return Err(e);
            },
        };
        assert(passes@.len() == before.len());
        assert(troop_view(monkeys@).len() == before.len()) by {
            lemma_round_keeps_count(before, how_worried);
        }
        let mut i: usize = 0;
        while i < total.len()
            invariant
                i <= total@.len(),
                total@.len() == passes@.len(),
                held.len() == total@.len(),
                n < rounds,
                start == troop_view(old(monkeys)@),
                forall|j: int| 0 <= j < i ==> (#[trigger] total@[j]) as int == held[j] + passes@[j],
                forall|j: int| i <= j < total@.len() ==> #[trigger] total@[j] == held[j],
                after_rounds(start, (n + 1) as nat, how_worried) == if sums_fit(held, passes@) {
                    Ok::<(Seq<MonkeyData>, Seq<usize>), TroopError>(
                        (
                            troop_view(monkeys@),
                            Seq::new(held.len(), |i: int| (held[i] + passes@[i]) as usize),
                        ),
                    )
                } else {
                    Err::<(Seq<MonkeyData>, Seq<usize>), TroopError>(TroopError::Arithmetic)
                },
            decreases total@.len() - i,
        {
            match total[i].checked_add(passes[i]) {
                Some(t) => {
                    total[i] = t;
                },
                None => {
                    proof {
                        assert(held[i as int] + passes@[i as int] > usize::MAX);
                        lemma_after_rounds_fails(start, (n + 1) as nat, rounds as nat, how_worried);
                    }
                    return Err(TroopError::Arithmetic);
                },
            }
            i += 1;
        }
        assert(sums_fit(held, passes@)) by {
            assert forall|i: int| 0 <= i < held.len() implies #[trigger] held[i] + passes@[i]
                <= usize::MAX by {
                assert(total@[i] as int == held[i] + passes@[i]);
            }
        }
        assert(total@ =~= Seq::new(held.len(), |i: int| (held[i] + passes@[i]) as usize));
        n += 1;
    }
    if total.len() < 2 {
        return Err(TroopError::NoMonkeys);
    }
    let (mut first, mut second) = if total[0] >= total[1] {
        (0usize, 1usize)
    } else {
        (1usize, 0usize)
    };
    let mut i: usize = 2;
    while i < total.len()
        invariant
            2 <= i <= total@.len(),
            first < i,
            second < i,
            first != second,
            total@[first as int] >= total@[second as int],
            forall|k: int| 0 <= k < i && k != first ==> #[trigger] total@[k] <= total@[second as int],
        decreases total@.len() - i,
    {
        if total[i] > total[first] {
            second = first;
            first = i;
        } else if total[i] > total[second] {
            second = i;
        }
        i += 1;
    }
    proof {
        let played = after_rounds(start, rounds as nat, how_worried)->Ok_0;
        assert(played.1 == total@);
        assert(top_two(played.1, total@[first as int], total@[second as int]));
    }
    total[first].checked_mul(total[second]).ok_or(TroopError::Arithmetic)
}

/// A round leaves as many monkeys as there were.
proof fn lemma_round_keeps_count(troop: Seq<MonkeyData>, how_worried: i64)
    ensures
        round(troop, how_worried) matches Ok(after) ==> after.len() == troop.len(),
{
    if troop.len() > 0 {
        match common_multiple(troop, troop.len() as int) {
            Some(modulus) => {
                lemma_turns_keep_count(troop, troop.len() as int, how_worried, modulus);
            },
            None => {},
        }
    }
}

proof fn lemma_turns_keep_count(troop: Seq<MonkeyData>, n: int, how_worried: i64, modulus: i64)
    requires
        n <= troop.len(),
    ensures
        after_turns(troop, n, how_worried, modulus) matches Ok(after) ==> after.len() == troop.len(),
    decreases n,
{
    if n > 0 {
        lemma_turns_keep_count(troop, n - 1, how_worried, modulus);
        match after_turns(troop, n - 1, how_worried, modulus) {
            Ok(t) => {
                match inspect_all(t[n - 1], how_worried, modulus) {
                    Some(thrown) => {
                        lemma_throw_keeps_count(
                            t.update(n - 1, holding(t[n - 1], seq![])),
                            thrown,
                        );
                    },
                    None => {},
                }
            },
            Err(_) => {},
        }
    }
}

proof fn lemma_throw_keeps_count(troop: Seq<MonkeyData>, thrown: Seq<(usize, i64)>)
    ensures
        throw(troop, thrown) matches Some(after) ==> after.len() == troop.len(),
    decreases thrown.len(),
{
    if thrown.len() > 0 {
        let (to, level) = thrown[0];
        if to < troop.len() {
            lemma_throw_keeps_count(
                troop.update(to as int, holding(troop[to as int], troop[to as int].items.push(level))),
                thrown.skip(1),
            );
        }
    }
}

} // verus!
