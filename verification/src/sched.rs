//! The daily scheduler: trigger-time parsing, next-trigger arithmetic,
//! and the two-state loop that survives pass failures.
//!
//! The shell turns wall-clock readings into plain instants (seconds)
//! and sleeps; everything the scheduler decides is decided here.

use vstd::prelude::*;

use crate::time::{char_digit, is_digit, is_digit_seq, lemma_num_val_prefix_le, num_val};

verus! {

/// `k` is the position of the only colon in `s`.
pub open spec fn single_colon_at(s: Seq<char>, k: int) -> bool {
    &&& 0 <= k < s.len()
    &&& s[k] == ':'
    &&& forall|j: int| 0 <= j < s.len() && j != k ==> s[j] != ':'
}

/// What a schedule argument means: `HH:MM`, both fields one or more
/// digits, the hour at most 23 and the minute at most 59; anything
/// else is rejected.
pub open spec fn schedule_spec(s: Seq<char>) -> Option<(nat, nat)> {
    if exists|k: int| single_colon_at(s, k) {
        let k = choose|k: int| single_colon_at(s, k);
        let hh = s.subrange(0, k);
        let mm = s.subrange(k + 1, s.len() as int);
        if hh.len() >= 1 && mm.len() >= 1 && is_digit_seq(hh) && is_digit_seq(mm) && num_val(hh)
            <= 23 && num_val(mm) <= 59 {
            Some((num_val(hh), num_val(mm)))
        } else {
            None
        }
    } else {
        None
    }
}

/// Parses a digit run in `s` over `[from, to)` against a cap, exactly:
/// `Some` iff the run is all digits and its value is within the cap.
fn parse_capped(s: &str, from: usize, to: usize, cap: u8) -> (r: Option<u8>)
    requires
        from <= to <= s@.len(),
    ensures
        match r {
            Some(v) => is_digit_seq(s@.subrange(from as int, to as int)) && v == num_val(
                s@.subrange(from as int, to as int),
            ) && v <= cap,
            None => !is_digit_seq(s@.subrange(from as int, to as int)) || num_val(
                s@.subrange(from as int, to as int),
            ) > cap,
        },
{
    let ghost whole = s@.subrange(from as int, to as int);
    let mut acc: u8 = 0;
    let mut i: usize = from;
    while i < to
        invariant
            from <= i <= to <= s@.len(),
            whole =~= s@.subrange(from as int, to as int),
            forall|q: int| from <= q < i ==> is_digit(#[trigger] s@[q]),
            acc == num_val(s@.subrange(from as int, i as int)),
            acc <= cap,
        decreases to - i,
    {
        let ghost pre = s@.subrange(from as int, i as int);
        let c = s.get_char(i);
        proof {
            let post = s@.subrange(from as int, i + 1int);
            assert(post.drop_last() =~= pre);
            assert(post.last() == s@[i as int]);
        }
        let d = match char_digit(c) {
            Some(d) => d,
            None => {
                proof {
                    assert(whole[i - from] == s@[i as int]);
                }
                return None;
            },
        };
        if acc > cap / 10 || acc as u32 * 10 + d as u32 > cap as u32 {
            proof {
                assert(num_val(s@.subrange(from as int, i + 1int)) > cap);
                lemma_num_val_prefix_le(whole, i + 1 - from);
                assert(whole.subrange(0, i + 1 - from) =~= s@.subrange(from as int, i + 1int));
                if is_digit_seq(whole) {
                    assert(num_val(whole) > cap);
                }
            }
            return None;
        }
        acc = acc * 10 + d;
        i += 1;
    }
    proof {
        assert(whole =~= s@.subrange(from as int, to as int));
        assert forall|q: int| 0 <= q < whole.len() implies is_digit(#[trigger] whole[q]) by {
            assert(whole[q] == s@[q + from]);
        }
    }
    Some(acc)
}

/// Parses a schedule argument, exactly as [`schedule_spec`] reads it.
pub fn parse_schedule(s: &str) -> (r: Option<(u8, u8)>)
    ensures
        match r {
            Some(p) => schedule_spec(s@) == Some((p.0 as nat, p.1 as nat)) && p.0 <= 23 && p.1
                <= 59,
            None => schedule_spec(s@) is None,
        },
{
    let n = s.unicode_len();
    let mut c: usize = 0;
    while c < n && s.get_char(c) != ':'
        invariant
            0 <= c <= n == s@.len(),
            forall|j: int| 0 <= j < c ==> s@[j] != ':',
        decreases n - c,
    {
        c += 1;
    }
    if c == n {
        proof {
            assert forall|k: int| !single_colon_at(s@, k) by {
                if 0 <= k < s@.len() {
                    assert(s@[k] != ':');
                }
            }
        }
        return None;
    }
    let mut d: usize = c + 1;
    while d < n && s.get_char(d) != ':'
        invariant
            c < d <= n == s@.len(),
            forall|j: int| c < j < d ==> s@[j] != ':',
        decreases n - d,
    {
        d += 1;
    }
    if d < n {
        proof {
            assert(s@[c as int] == ':' && s@[d as int] == ':');
            assert forall|k: int| !single_colon_at(s@, k) by {
                if single_colon_at(s@, k) {
                    if k == c {
                        assert(s@[d as int] != ':');
                    } else {
                        assert(s@[c as int] != ':');
                    }
                }
            }
        }
        return None;
    }
    proof {
        assert(single_colon_at(s@, c as int));
        let k = choose|k: int| single_colon_at(s@, k);
        assert(k == c) by {
            if k != c {
                assert(s@[c as int] != ':');
            }
        }
    }
    if c == 0 || c + 1 == n {
        return None;
    }
    let h = match parse_capped(s, 0, c, 23) {
        Some(h) => h,
        None => {
            return None;
        },
    };
    let m = match parse_capped(s, c + 1, n, 59) {
        Some(m) => m,
        None => {
            return None;
        },
    };
    Some((h, m))
}

/// The next trigger instant: today's occurrence of the target time if
/// it is still ahead, otherwise tomorrow's.
pub open spec fn next_trigger_spec(now_ts: int, today_target_ts: int) -> int {
    if now_ts >= today_target_ts {
        today_target_ts + 86400
    } else {
        today_target_ts
    }
}

/// Picks the next trigger instant and the seconds to sleep until it.
/// `today_target_ts` is today's occurrence of the target time of day,
/// so it lies less than a day before `now_ts` at the latest; both are
/// bounded as any civil instant is.
pub fn next_trigger(now_ts: i64, today_target_ts: i64) -> (r: (i64, i64))
    requires
        -100_000_000_000 <= now_ts <= 100_000_000_000,
        -100_000_000_000 <= today_target_ts <= 100_000_000_000,
        now_ts < today_target_ts + 86400,
    ensures
        r.0 == next_trigger_spec(now_ts as int, today_target_ts as int),
        r.1 == r.0 - now_ts,
        r.1 >= 1,
{
    let target = if now_ts >= today_target_ts {
        today_target_ts + 86400
    } else {
        today_target_ts
    };
    (target, target - now_ts)
}

/// The scheduler's two states: computing the next trigger, or one full
/// pipeline pass in flight.
#[derive(Debug, Clone, Copy, PartialEq, Eq, Structural)]
pub enum SchedulerState {
    Idle,
    Running,
}

/// What the shell reports to the scheduler.
#[derive(Debug, Clone, Copy, PartialEq, Eq, Structural)]
pub enum SchedulerEvent {
    /// The sleep ended: the trigger instant arrived.
    TriggerReached,
    /// The pass in flight finished, well or badly.
    PassFinished { ok: bool },
}

/// What the scheduler asks the shell to do next.
#[derive(Debug, Clone, Copy, PartialEq, Eq, Structural)]
pub enum SchedulerAction {
    /// Run one full scan-group-plan-execute pass.
    StartPass,
    /// Recompute the next trigger from the wall clock and sleep.
    ComputeNextTrigger,
}

/// The transition rule: a trigger starts a pass; a finished pass —
/// successful or failed — returns to Idle, so no pass failure ever
/// stops the loop.
pub open spec fn scheduler_step_spec(st: SchedulerState, ev: SchedulerEvent) -> (
    SchedulerState,
    SchedulerAction,
) {
    match (st, ev) {
        (SchedulerState::Idle, SchedulerEvent::TriggerReached) => (
            SchedulerState::Running,
            SchedulerAction::StartPass,
        ),
        (SchedulerState::Running, SchedulerEvent::PassFinished { .. }) => (
            SchedulerState::Idle,
            SchedulerAction::ComputeNextTrigger,
        ),
        _ => (st, SchedulerAction::ComputeNextTrigger),
    }
}

pub fn scheduler_step(st: SchedulerState, ev: SchedulerEvent) -> (r: (
    SchedulerState,
    SchedulerAction,
))
    ensures
        r == scheduler_step_spec(st, ev),
{
    match (st, ev) {
        (SchedulerState::Idle, SchedulerEvent::TriggerReached) => (
            SchedulerState::Running,
            SchedulerAction::StartPass,
        ),
        (SchedulerState::Running, SchedulerEvent::PassFinished { ok: _ }) => (
            SchedulerState::Idle,
            SchedulerAction::ComputeNextTrigger,
        ),
        (other, _) => (other, SchedulerAction::ComputeNextTrigger),
    }
}

/// However a pass ends, the scheduler is Idle again: one pass's failure
/// never terminates the loop.
pub proof fn lemma_pass_failure_survived(ok: bool)
    ensures
        scheduler_step_spec(SchedulerState::Running, SchedulerEvent::PassFinished { ok }).0
            is Idle,
{
}

} // verus!
