//! The timer and the work/break cycle: a state machine that the caller drives
//! one step at a time, performing the action each step hands back (show the
//! time left, wait a second, notify, play a sound, persist the log).

use vstd::prelude::*;
use crate::codec::{decimal, push_char, push_decimal};
use crate::session::{Session, SessionList};

verus! {

/// Seconds in a minute.
pub const SECONDS_PER_MINUTE: u64 = 60;

/// The durations of the current cycle and the minutes worked so far.
#[derive(Debug, Clone, Copy, PartialEq, Eq, Structural)]
pub struct Timer {
    pub work_minutes: u64,
    pub break_minutes: u64,
    pub total_worked_minutes: u64,
}

impl Timer {
    /// A timer with the given durations and running total.
    pub fn new(work_minutes: u64, break_minutes: u64, total_worked_minutes: u64) -> (r: Timer)
        ensures
            r == (Timer { work_minutes, break_minutes, total_worked_minutes }),
    {
        Timer { work_minutes, break_minutes, total_worked_minutes }
    }

    /// Adds minutes to the running total.
    pub fn add_worked_minutes(&mut self, minutes: u64)
        requires
            old(self).total_worked_minutes + minutes <= u64::MAX,
        ensures
            *final(self) == (Timer {
                total_worked_minutes: (old(self).total_worked_minutes + minutes) as u64,
                ..*old(self)
            }),
    {
        self.total_worked_minutes = self.total_worked_minutes + minutes;
    }

    /// Sets the work duration.
    pub fn set_work_minutes(&mut self, minutes: u64)
        ensures
            *final(self) == (Timer { work_minutes: minutes, ..*old(self) }),
    {
        self.work_minutes = minutes;
    }

    /// Sets the break duration.
    pub fn set_break_minutes(&mut self, minutes: u64)
        ensures
            *final(self) == (Timer { break_minutes: minutes, ..*old(self) }),
    {
        self.break_minutes = minutes;
    }

    /// Whether a whole cycle can run with these values: both countdowns fit
    /// in seconds, both durations fit in a session record, and the running
    /// total can take the work duration.
    pub fn cycle_fits(&self) -> (r: bool)
        ensures
            r == cycle_fits(*self),
    {
        self.work_minutes <= u64::MAX / SECONDS_PER_MINUTE && self.break_minutes <= u64::MAX
            / SECONDS_PER_MINUTE && self.work_minutes <= u32::MAX as u64 && self.break_minutes
            <= u32::MAX as u64 && self.total_worked_minutes <= u64::MAX - self.work_minutes
    }
}

/// See `Timer::cycle_fits`.
pub open spec fn cycle_fits(t: Timer) -> bool {
    &&& t.work_minutes * 60 <= u64::MAX
    &&& t.break_minutes * 60 <= u64::MAX
    &&& t.work_minutes <= u32::MAX
    &&& t.break_minutes <= u32::MAX
    &&& t.total_worked_minutes + t.work_minutes <= u64::MAX
}

/// Where a cycle stands.
#[derive(Debug, Clone, Copy, PartialEq, Eq, Structural)]
pub enum CyclePhase {
    /// No cycle under way.
    Idle,
    /// Counting down the work interval; `remaining` seconds are left.
    Working { remaining: u64 },
    /// The work interval is over; the break has not begun.
    WorkDone,
    /// Counting down the break; `remaining` seconds are left.
    OnBreak { remaining: u64 },
}

/// What the caller is to do after a step.
#[derive(Debug, Clone, Copy, PartialEq, Eq, Structural)]
pub enum CycleAction {
    /// A countdown of `ticks` seconds begins: set up its display.
    CountdownStarted { ticks: u64 },
    /// Show `remaining` seconds left, then wait one second.
    Tick { remaining: u64 },
    /// The work interval is over: notify when `notify`, play the sound, and
    /// wait for the user before the break.
    WorkFinished { notify: bool },
    /// The break is over and `session` was added to the log: persist the
    /// log, then notify when `notify` and play the sound.
    BreakFinished { session: Session, notify: bool },
}

/// The state that a step reads and changes.
pub struct CycleState {
    pub phase: CyclePhase,
    pub timer: Timer,
    pub sessions: Seq<Session>,
}

/// One step of the cycle from `phase`, with the clock reading `now` (used
/// only when the break ends).
pub open spec fn cycle_step(s: CycleState, notify: bool, now: i64) -> (CycleState, CycleAction) {
    let t = s.timer;
    match s.phase {
        CyclePhase::Idle => (
            CycleState { phase: CyclePhase::Working { remaining: (t.work_minutes * 60) as u64 }, ..s },
            CycleAction::CountdownStarted { ticks: (t.work_minutes * 60) as u64 },
        ),
        CyclePhase::Working { remaining } => if remaining > 0 {
            (
                CycleState { phase: CyclePhase::Working { remaining: (remaining - 1) as u64 }, ..s },
                CycleAction::Tick { remaining },
            )
        } else {
            (
                CycleState {
                    phase: CyclePhase::WorkDone,
                    timer: Timer {
                        total_worked_minutes: (t.total_worked_minutes + t.work_minutes) as u64,
                        ..t
                    },
                    ..s
                },
                CycleAction::WorkFinished { notify },
            )
        },
        CyclePhase::WorkDone => (
            CycleState { phase: CyclePhase::OnBreak { remaining: (t.break_minutes * 60) as u64 }, ..s },
            CycleAction::CountdownStarted { ticks: (t.break_minutes * 60) as u64 },
        ),
        CyclePhase::OnBreak { remaining } => if remaining > 0 {
            (
                CycleState { phase: CyclePhase::OnBreak { remaining: (remaining - 1) as u64 }, ..s },
                CycleAction::Tick { remaining },
            )
        } else {
            let session = Session {
                timestamp: now,
                work_time: t.work_minutes as u32,
                break_time: t.break_minutes as u32,
            };
            (
                CycleState { phase: CyclePhase::Idle, sessions: s.sessions.push(session), ..s },
                CycleAction::BreakFinished { session, notify },
            )
        },
    }
}

/// A step from `phase` stays within the machine's integers.
pub open spec fn can_step(phase: CyclePhase, t: Timer) -> bool {
    match phase {
        CyclePhase::Idle => t.work_minutes * 60 <= u64::MAX,
        CyclePhase::Working { remaining } => remaining == 0 ==> t.total_worked_minutes
            + t.work_minutes <= u64::MAX,
        CyclePhase::WorkDone => t.break_minutes * 60 <= u64::MAX,
        CyclePhase::OnBreak { .. } => t.work_minutes <= u32::MAX && t.break_minutes <= u32::MAX,
    }
}

/// The state after `n` steps, the clock reading `now` throughout.
pub open spec fn cycle_run(s: CycleState, notify: bool, now: i64, n: nat) -> CycleState
    decreases n,
{
    if n == 0 {
        s
    } else {
        cycle_run(cycle_step(s, notify, now).0, notify, now, (n - 1) as nat)
    }
}

/// The number of steps in a whole cycle: the start and the end of each
/// countdown, and one step per second of each.
pub open spec fn cycle_length(t: Timer) -> nat {
    (t.work_minutes * 60 + t.break_minutes * 60 + 4) as nat
}

/// The cycle state machine.
#[derive(Debug, Clone, Copy, PartialEq, Eq, Structural)]
pub struct Cycle {
    pub phase: CyclePhase,
}

impl Cycle {
    /// A machine with no cycle under way.
    pub fn new() -> (r: Cycle)
        ensures
            r.phase == CyclePhase::Idle,
    {
        Cycle { phase: CyclePhase::Idle }
    }

    /// Takes one step, with the clock reading `now`; a finished break adds
    /// its session to `sessions`.
    pub fn advance(
        &mut self,
        timer: &mut Timer,
        sessions: &mut SessionList,
        notify: bool,
        now: i64,
    ) -> (r: CycleAction)
        requires
            can_step(old(self).phase, *old(timer)),
        ensures
            ({
                let (next, action) = cycle_step(
                    CycleState { phase: old(self).phase, timer: *old(timer), sessions: old(sessions)@ },
                    notify,
                    now,
                );
                &&& final(self).phase == next.phase
                &&& *final(timer) == next.timer
                &&& final(sessions)@ == next.sessions
                &&& r == action
            }),
    {
        match self.phase {
            CyclePhase::Idle => {
                let ticks = timer.work_minutes * SECONDS_PER_MINUTE;
                self.phase = CyclePhase::Working { remaining: ticks };
                CycleAction::CountdownStarted { ticks }
            },
            CyclePhase::Working { remaining } => {
                if remaining > 0 {
                    self.phase = CyclePhase::Working { remaining: remaining - 1 };
                    CycleAction::Tick { remaining }
                } else {
                    let minutes = timer.work_minutes;
                    timer.add_worked_minutes(minutes);
                    self.phase = CyclePhase::WorkDone;
                    CycleAction::WorkFinished { notify }
                }
            },
            CyclePhase::WorkDone => {
                let ticks = timer.break_minutes * SECONDS_PER_MINUTE;
                self.phase = CyclePhase::OnBreak { remaining: ticks };
                CycleAction::CountdownStarted { ticks }
            },
            CyclePhase::OnBreak { remaining } => {
                if remaining > 0 {
                    self.phase = CyclePhase::OnBreak { remaining: remaining - 1 };
                    CycleAction::Tick { remaining }
                } else {
                    let session = Session::new(
                        Some(now),
                        timer.work_minutes as u32,
                        timer.break_minutes as u32,
                    );
                    sessions.append(session);
                    self.phase = CyclePhase::Idle;
                    CycleAction::BreakFinished { session, notify }
                }
            },
        }
    }
}

proof fn lemma_run_one(s: CycleState, notify: bool, now: i64)
    ensures
        cycle_run(s, notify, now, 1) == cycle_step(s, notify, now).0,
{
    assert(cycle_run(cycle_step(s, notify, now).0, notify, now, 0) == cycle_step(s, notify, now).0);
}

proof fn lemma_run_split(s: CycleState, notify: bool, now: i64, a: nat, b: nat)
    ensures
        cycle_run(s, notify, now, a + b) == cycle_run(cycle_run(s, notify, now, a), notify, now, b),
    decreases a,
{
    if a > 0 {
        lemma_run_split(cycle_step(s, notify, now).0, notify, now, (a - 1) as nat, b);
        assert((a + b - 1) as nat == (a - 1) as nat + b);
    }
}

proof fn lemma_countdown(s: CycleState, notify: bool, now: i64, n: nat)
    requires
        (s.phase matches CyclePhase::Working { remaining } && n <= remaining) || (
        s.phase matches CyclePhase::OnBreak { remaining } && n <= remaining),
    ensures
        cycle_run(s, notify, now, n) == (CycleState {
            phase: match s.phase {
                CyclePhase::Working { remaining } => CyclePhase::Working {
                    remaining: (remaining - n) as u64,
                },
                CyclePhase::OnBreak { remaining } => CyclePhase::OnBreak {
                    remaining: (remaining - n) as u64,
                },
                _ => s.phase,
            },
            ..s
        }),
    decreases n,
{
    if n > 0 {
        lemma_countdown(cycle_step(s, notify, now).0, notify, now, (n - 1) as nat);
    }
}

/// A whole cycle from idle, with durations that fit, ends idle again with
/// exactly one more session, holding the cycle's durations and stamped with
/// the clock, and with the running total raised by the work duration; each of
/// its steps can be taken. This holds for zero-minute durations too.
pub proof fn lemma_full_cycle(t: Timer, sessions: Seq<Session>, notify: bool, now: i64)
    requires
        cycle_fits(t),
    ensures
        cycle_run(CycleState { phase: CyclePhase::Idle, timer: t, sessions }, notify, now, cycle_length(t))
            == (CycleState {
            phase: CyclePhase::Idle,
            timer: Timer {
                total_worked_minutes: (t.total_worked_minutes + t.work_minutes) as u64,
                ..t
            },
            sessions: sessions.push(
                Session {
                    timestamp: now,
                    work_time: t.work_minutes as u32,
                    break_time: t.break_minutes as u32,
                },
            ),
        }),
        forall|k: nat|
            k < cycle_length(t) ==> {
                let sk = #[trigger] cycle_run(
                    CycleState { phase: CyclePhase::Idle, timer: t, sessions },
                    notify,
                    now,
                    k,
                );
                can_step(sk.phase, sk.timer)
            },
{
    let w = (t.work_minutes * 60) as nat;
    let b = (t.break_minutes * 60) as nat;
    let s0 = CycleState { phase: CyclePhase::Idle, timer: t, sessions };
    let s1 = cycle_step(s0, notify, now).0;
    assert(s1 == CycleState { phase: CyclePhase::Working { remaining: w as u64 }, ..s0 });
    lemma_countdown(s1, notify, now, w);
    let s2 = cycle_run(s1, notify, now, w);
    let s3 = cycle_step(s2, notify, now).0;
    let s4 = cycle_step(s3, notify, now).0;
    lemma_countdown(s4, notify, now, b);
    let s5 = cycle_run(s4, notify, now, b);
    let s6 = cycle_step(s5, notify, now).0;
    lemma_run_one(s0, notify, now);
    assert(cycle_run(s0, notify, now, 1) == s1);
    lemma_run_split(s0, notify, now, 1, w);
    lemma_run_one(s2, notify, now);
    assert(cycle_run(s2, notify, now, 1) == s3);
    lemma_run_split(s0, notify, now, 1 + w, 1);
    lemma_run_one(s3, notify, now);
    assert(cycle_run(s3, notify, now, 1) == s4);
    lemma_run_split(s0, notify, now, 1 + w + 1, 1);
    lemma_run_split(s0, notify, now, 1 + w + 1 + 1, b);
    lemma_run_one(s5, notify, now);
    assert(cycle_run(s5, notify, now, 1) == s6);
    lemma_run_split(s0, notify, now, 1 + w + 1 + 1 + b, 1);
    assert(cycle_length(t) == 1 + w + 1 + 1 + b + 1);
    assert forall|k: nat| k < cycle_length(t) implies {
        let sk = #[trigger] cycle_run(s0, notify, now, k);
        can_step(sk.phase, sk.timer)
    } by {
        if k == 0 {
        } else if k <= 1 + w {
            lemma_run_split(s0, notify, now, 1, (k - 1) as nat);
            lemma_countdown(s1, notify, now, (k - 1) as nat);
        } else if k == 2 + w {
        } else {
            lemma_run_split(s0, notify, now, 1 + w + 1 + 1, (k - (3 + w)) as nat);
            lemma_countdown(s4, notify, now, (k - (3 + w)) as nat);
        }
    }
}

/// A count of seconds as it is shown: zero-padded minutes and seconds,
/// `MM:SS`.
pub open spec fn countdown_text(remaining: u64) -> Seq<char> {
    two_digits((remaining / 60) as nat) + seq![':'] + two_digits((remaining % 60) as nat)
}

/// A number in decimal, padded with a zero to at least two digits.
pub open spec fn two_digits(n: nat) -> Seq<char> {
    if n < 10 {
        seq!['0'] + decimal(n)
    } else {
        decimal(n)
    }
}

fn push_two_digits(out: &mut String, n: u64)
    ensures
        final(out)@ == old(out)@ + two_digits(n as nat),
{
    if n < 10 {
        push_char(out, '0');
    }
    push_decimal(out, n);
    assert(out@ =~= old(out)@ + two_digits(n as nat));
}

/// The time left in a countdown, as shown: `MM:SS`.
pub fn countdown_label(remaining: u64) -> (r: String)
    ensures
        r@ == countdown_text(remaining),
{
    let mut out = String::new();
    push_two_digits(&mut out, remaining / SECONDS_PER_MINUTE);
    push_char(&mut out, ':');
    push_two_digits(&mut out, remaining % SECONDS_PER_MINUTE);
    assert(out@ =~= countdown_text(remaining));
    out
}

/// Minutes in a day.
pub const MINUTES_PER_DAY: u64 = 1440;

/// A number of minutes as whole days, then hours, then minutes.
pub fn stats_breakdown(minutes: u64) -> (r: (u64, u64, u64))
    ensures
        r.0 == minutes / 1440,
        r.1 == (minutes % 1440) / 60,
        r.2 == minutes % 60,
{
    (minutes / MINUTES_PER_DAY, (minutes % MINUTES_PER_DAY) / SECONDS_PER_MINUTE, minutes % 60)
}

/// How the statistics judge the minutes worked.
#[derive(Debug, Clone, Copy, PartialEq, Eq, Structural)]
pub enum StatsRemark {
    /// Nothing worked yet.
    AlmostBetterThanNothing,
    /// At most one default work interval.
    BetterThanNothing,
    /// More than that.
    GoodJob,
}

/// The remark for a total of minutes worked.
pub fn stats_remark(minutes: u64) -> (r: StatsRemark)
    ensures
        minutes == 0 ==> r == StatsRemark::AlmostBetterThanNothing,
        0 < minutes <= 25 ==> r == StatsRemark::BetterThanNothing,
        minutes > 25 ==> r == StatsRemark::GoodJob,
{
    if minutes == 0 {
        StatsRemark::AlmostBetterThanNothing
    } else if minutes <= 25 {
        StatsRemark::BetterThanNothing
    } else {
        StatsRemark::GoodJob
    }
}

} // verus!
