//! A processor with one register that draws on a screen while it runs.
use crate::number::{i32_of, parse_i32};
use crate::text::{begins_with, chars_of, slice_of, starts_with, trim, trimmed};
use vstd::prelude::*;

verus! {

#[derive(Debug, PartialEq, Eq, Clone, Copy, Structural)]
pub enum Instr {
    Noop,
    Addx(i32),
}

#[derive(Debug, PartialEq, Eq, Clone, Copy, Structural)]
pub enum CrtError {
    /// The line begins with neither `noop` nor `addx`.
    Invalid,
    /// The number after `addx` cannot be read.
    BadNumber,
    /// The clock stands outside the cycles that the screen has room for.
    ScreenFull,
    /// A value leaves the range of the register.
    Overflow,
}

/// The instruction that a line names.
pub open spec fn instr_of(line: Seq<char>) -> Result<Instr, CrtError> {
    if starts_with(line, "noop"@) {
        Ok(Instr::Noop)
    } else if starts_with(line, "addx"@) {
        match i32_of(trim(line.skip(4))) {
            Some(v) => Ok(Instr::Addx(v)),
            None => Err(CrtError::BadNumber),
        }
    } else {
        Err(CrtError::Invalid)
    }
}

pub fn parse_instrs(line: &str) -> (r: Result<Instr, CrtError>)
    ensures
        r == instr_of(line@),
{
    proof {
        reveal_strlit("noop");
        reveal_strlit("addx");
    }
    let cs = chars_of(line);
    if begins_with(&cs, "noop") {
        Ok(Instr::Noop)
    } else if begins_with(&cs, "addx") {
        let rest = slice_of(&cs, 4, cs.len());
        assert(rest@ =~= line@.skip(4));
        match parse_i32(&trimmed(&rest)) {
            Some(v) => Ok(Instr::Addx(v)),
            None => Err(CrtError::BadNumber),
        }
    } else {
        Err(CrtError::Invalid)
    }
}

/// The number of cycles that the screen has room for.
pub const SCREEN: usize = 260;

pub struct Cpu {
    pub tick: usize,
    pub x: i32,
    pub crt: [char; 260],
}

/// A processor as a mathematical value: the cycle that comes next, the
/// register, and the screen.
pub struct State {
    pub tick: int,
    pub x: int,
    pub crt: Seq<char>,
}

pub open spec fn fits(v: int) -> bool {
    i32::MIN <= v <= i32::MAX
}

/// What is drawn in the cycle after `drawn` cycles while the register holds
/// `x`: the beam stands at column `drawn % 40`, and it lights the pixel
/// where it is at most one column from `x`.
pub open spec fn pixel(drawn: int, x: int) -> char {
    if x - 2 < drawn % 40 < x + 2 {
        '#'
    } else {
        '.'
    }
}

/// The strength of the signal at cycle `tick`: cycle times register at
/// cycles 20, 60, 100 and so on, and nothing at the others.
pub open spec fn signal(tick: int, x: int) -> int {
    if tick % 40 == 20 {
        tick * x
    } else {
        0
    }
}

/// The state after one cycle: the pixel of the cycle is drawn, and the
/// clock goes on.
pub open spec fn ticked(s: State) -> Result<State, CrtError> {
    if s.tick < 1 || s.tick > SCREEN {
        Err(CrtError::ScreenFull)
    } else if !fits(s.x - 2) || !fits(s.x + 2) {
        Err(CrtError::Overflow)
    } else {
        Ok(State { tick: s.tick + 1, x: s.x, crt: s.crt.update(s.tick - 1, pixel(s.tick - 1, s.x)) })
    }
}

/// The total with the signal of the state added.
pub open spec fn sampled(s: State, total: int) -> Result<int, CrtError> {
    if s.tick % 40 == 20 && !fits(s.tick * s.x) {
        Err(CrtError::Overflow)
    } else if !fits(total + signal(s.tick, s.x)) {
        Err(CrtError::Overflow)
    } else {
        Ok(total + signal(s.tick, s.x))
    }
}

/// State and total after one cycle and the sample at its end.
pub open spec fn cycled(s: State, total: int) -> Result<(State, int), CrtError> {
    match ticked(s) {
        Err(e) => Err(e),
        Ok(t) => match sampled(t, total) {
            Err(e) => Err(e),
            Ok(sum) => Ok((t, sum)),
        },
    }
}

/// State and total after an instruction: `noop` takes one cycle; `addx`
/// takes two, and the register has its new value when the second ends.
pub open spec fn executed(s: State, total: int, instr: Instr) -> Result<(State, int), CrtError> {
    match instr {
        Instr::Noop => cycled(s, total),
        Instr::Addx(v) => match cycled(s, total) {
            Err(e) => Err(e),
            Ok((s1, t1)) => match ticked(s1) {
                Err(e) => Err(e),
                Ok(s2) => if !fits(s2.x + v) {
                    Err(CrtError::Overflow)
                } else {
                    let s3 = State { tick: s2.tick, x: s2.x + v, crt: s2.crt };
                    match sampled(s3, t1) {
                        Err(e) => Err(e),
                        Ok(sum) => Ok((s3, sum)),
                    }
                },
            },
        },
    }
}

/// State and total after the first `n` instructions.
pub open spec fn ran(s: State, instrs: Seq<Instr>, n: int) -> Result<(State, int), CrtError>
    decreases n,
{
    if n <= 0 || n > instrs.len() {
        Ok((s, 0))
    } else {
        match ran(s, instrs, n - 1) {
            Err(e) => Err(e),
            Ok((t, total)) => executed(t, total, instrs[n - 1]),
        }
    }
}

proof fn lemma_ran_fails(s: State, instrs: Seq<Instr>, k: int, n: int)
    requires
        0 <= k <= n <= instrs.len(),
        ran(s, instrs, k) is Err,
    ensures
        ran(s, instrs, n) == ran(s, instrs, k),
    decreases n - k,
{
    if k < n {
        lemma_ran_fails(s, instrs, k, n - 1);
    }
}

/// A product is at least as far from zero as its first factor, where the
/// second is not zero.
proof fn lemma_product_grows(t: int, x: int)
    requires
        t >= 0,
    ensures
        x >= 1 ==> t * x >= t,
        x <= -1 ==> t * x <= -t,
{
    assert(x >= 1 ==> t * x >= t) by (nonlinear_arith)
        requires
            t >= 0,
    ;
    assert(x <= -1 ==> t * x <= -t) by (nonlinear_arith)
        requires
            t >= 0,
    ;
}

impl View for Cpu {
    type V = State;

    open spec fn view(&self) -> State {
        State { tick: self.tick as int, x: self.x as int, crt: self.crt@ }
    }
}

impl Cpu {
    pub fn new() -> (r: Self)
        ensures
            r.tick == 1,
            r.x == 1,
            forall|i: int| 0 <= i < SCREEN ==> r.crt@[i] == ' ',
    {
        Cpu { tick: 1, x: 1, crt: [' ';260] }
    }

    /// Draws the pixel of the current cycle.
    pub fn update_screen(&mut self)
        requires
            1 <= old(self).tick <= SCREEN,
            fits(old(self).x - 2),
            fits(old(self).x + 2),
        ensures
            final(self).tick == old(self).tick,
            final(self).x == old(self).x,
            final(self).crt@ == old(self).crt@.update(
                old(self).tick - 1,
                pixel(old(self).tick - 1, old(self).x as int),
            ),
    {
        let crt_tick = self.tick - 1;
        let beam: i32 = (crt_tick % 40) as i32;
        let c = if beam > self.x - 2 && beam < self.x + 2 {
            '#'
        } else {
            '.'
        };
        self.crt[crt_tick] = c;
    }

    /// The strength of the signal, at the cycles at which it is sampled.
    pub fn check_signal(&mut self) -> (r: Option<i32>)
        requires
            old(self).tick % 40 == 20 ==> fits(old(self).tick * old(self).x),
        ensures
            *final(self) == *old(self),
            r == if old(self).tick % 40 == 20 {
                Some((old(self).tick * old(self).x) as i32)
            } else {
                None
            },
    {
        if self.tick % 40 == 20 {
            proof {
                lemma_product_grows(self.tick as int, self.x as int);
            }
            if self.x == 0 {
                return Some(0);
            }
            let signal_strength = (self.tick as i32) * self.x;
            Some(signal_strength)
        } else {
            None
        }
    }

    /// One cycle: draws the pixel, lets the clock go on, and adds the
    /// signal to `total`.
    fn cycle(&mut self, total: i32) -> (r: Result<i32, CrtError>)
        ensures
            match r {
                Ok(sum) => cycled(old(self)@, total as int) == Ok::<(State, int), CrtError>(
                    (final(self)@, sum as int),
                ),
                Err(e) => cycled(old(self)@, total as int) == Err::<(State, int), CrtError>(e),
            },
    {
        match self.draw() {
            Ok(_) => {},
            Err(e) => {
                return Err(e);
            },
        }
        self.sample(total)
    }

    /// Draws the pixel of the current cycle and lets the clock go on.
    fn draw(&mut self) -> (r: Result<(), CrtError>)
        ensures
            match r {
                Ok(_) => ticked(old(self)@) == Ok::<State, CrtError>(final(self)@),
                Err(e) => ticked(old(self)@) == Err::<State, CrtError>(e),
            },
    {
        if self.tick < 1 || self.tick > SCREEN {
            return Err(CrtError::ScreenFull);
        }
        if self.x < i32::MIN + 2 || self.x > i32::MAX - 2 {
            return Err(CrtError::Overflow);
        }
        self.update_screen();
        self.tick += 1;
        Ok(())
    }

    /// Adds the signal of the current cycle to `total`.
    fn sample(&mut self, total: i32) -> (r: Result<i32, CrtError>)
        ensures
            *final(self) == *old(self),
            match r {
                Ok(sum) => sampled(old(self)@, total as int) == Ok::<int, CrtError>(sum as int),
                Err(e) => sampled(old(self)@, total as int) == Err::<int, CrtError>(e),
            },
    {
        if self.tick % 40 == 20 {
            if self.tick > 0x7fff_ffff {
                if self.x != 0 {
                    proof {
                        lemma_product_grows(self.tick as int, self.x as int);
                    }
                    return Err(CrtError::Overflow);
                }
            } else {
                assert(-0x4000_0000_0000_0000 <= self.tick * self.x <= 0x4000_0000_0000_0000)
                    by (nonlinear_arith)
                    requires
                        0 <= self.tick <= 0x7fff_ffff,
                        -0x8000_0000 <= self.x <= 0x7fff_ffff,
                ;
                let wide: i64 = (self.tick as i64) * (self.x as i64);
                if wide < -0x8000_0000 || wide > 0x7fff_ffff {
                    return Err(CrtError::Overflow);
                }
            }
        }
        match self.check_signal() {
            Some(signal_strength) => match total.checked_add(signal_strength) {
                Some(sum) => Ok(sum),
                None => Err(CrtError::Overflow),
            },
            None => Ok(total),
        }
    }

    /// Runs the instructions. Gives the register at the end and the sum of
    /// the signals that were sampled.
    pub fn run(&mut self, instrs: &[Instr]) -> (r: Result<(i32, i32), CrtError>)
        ensures
            match r {
                Ok((x, total)) => ran(old(self)@, instrs@, instrs@.len() as int) == Ok::<
                    (State, int),
                    CrtError,
                >((final(self)@, total as int)) && x == final(self).x,
                Err(e) => ran(old(self)@, instrs@, instrs@.len() as int) == Err::<
                    (State, int),
                    CrtError,
                >(e),
            },
    {
        let mut total_signal_strength: i32 = 0;
        let mut i: usize = 0;
        while i < instrs.len()
            invariant
                i <= instrs@.len(),
                ran(old(self)@, instrs@, i as int) == Ok::<(State, int), CrtError>(
                    (self@, total_signal_strength as int),
                ),
            decreases instrs@.len() - i,
        {
            let ghost before = self@;
            let instr = instrs[i];
            match instr {
                Instr::Noop => {
                    match self.cycle(total_signal_strength) {
                        Ok(sum) => {
                            total_signal_strength = sum;
                        },
                        Err(e) => {
                            proof {
                                lemma_ran_fails(old(self)@, instrs@, i + 1, instrs@.len() as int);
                            }
                            return Err(e);
                        },
                    }
                },
                Instr::Addx(v) => {
                    match self.cycle(total_signal_strength) {
                        Ok(sum) => {
                            total_signal_strength = sum;
                        },
                        Err(e) => {
                            proof {
                                lemma_ran_fails(old(self)@, instrs@, i + 1, instrs@.len() as int);
                            }
                            return Err(e);
                        },
                    }
                    match self.draw() {
                        Ok(_) => {},
                        Err(e) => {
                            proof {
                                lemma_ran_fails(old(self)@, instrs@, i + 1, instrs@.len() as int);
                            }
                            return Err(e);
                        },
                    }
                    match self.x.checked_add(v) {
                        Some(x) => {
                            self.x = x;
                        },
                        None => {
                            proof {
                                lemma_ran_fails(old(self)@, instrs@, i + 1, instrs@.len() as int);
                            }
                            return Err(CrtError::Overflow);
                        },
                    }
                    match self.sample(total_signal_strength) {
                        Ok(sum) => {
                            total_signal_strength = sum;
                        },
                        Err(e) => {
                            proof {
                                lemma_ran_fails(old(self)@, instrs@, i + 1, instrs@.len() as int);
                            }
                            return Err(e);
                        },
                    }
                },
            }
            i += 1;
        }
        Ok((self.x, total_signal_strength))
    }
}

} // verus!
