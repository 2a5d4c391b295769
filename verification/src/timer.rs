//! The timer state deriver: timer semantics computed from persisted record
//! fields plus a wall-clock reading.
//!
//! Every command runs in its own short-lived process, so the record is the
//! only source of truth: each transition reads the addressed record, derives
//! the new field values, and writes them straight back through the store.
//! The lifecycle of a record is `Running ⇄ Paused → Stopped`, and `Stopped`
//! is terminal.
//!
//! Clock readings come in as explicit epoch seconds; a caller takes them
//! from [`crate::clock::current_epoch`].  A reading earlier than a stored
//! moment (a clock that went backwards) counts as a zero-length interval,
//! and accumulated seconds saturate rather than wrap.

use vstd::prelude::*;
use crate::clock::TS_MAX;
use crate::record::{EncodeError, EntryV, LogEntry, RecState, wire_ok};
use crate::store::{LogBook, wf};
use crate::text::free_of;

verus! {

/// Why a timer transition was refused.
#[derive(Clone, Copy, Debug, PartialEq, Eq, Structural)]
pub enum TimerError {
    /// No record carries the addressed index.
    NotFound,
    /// The record is already paused.
    AlreadyPaused,
    /// The record is not paused.
    NotPaused,
    /// The record was stopped earlier; stopping is terminal.
    AlreadyStopped,
}

/// `a - b`, floored at zero.
pub open spec fn sat_sub(a: int, b: int) -> int {
    if a >= b {
        a - b
    } else {
        0
    }
}

/// `a + b`, capped at the largest storable second count.
pub open spec fn sat_add(a: int, b: int) -> int {
    if a + b > u64::MAX as int {
        u64::MAX as int
    } else {
        a + b
    }
}

/// What pausing the record at `index` at moment `now` makes of the log:
/// only a running record can pause, and pausing records the moment.
pub open spec fn pause_spec(b: Seq<EntryV>, index: int, now: int) -> Result<
    Seq<EntryV>,
    TimerError,
> {
    if !(1 <= index <= b.len()) {
        Err(TimerError::NotFound)
    } else {
        let e = b[index - 1];
        match e.state {
            RecState::Stopped => Err(TimerError::AlreadyStopped),
            RecState::Paused => Err(TimerError::AlreadyPaused),
            RecState::Running => Ok(
                b.update(
                    index - 1,
                    EntryV { state: RecState::Paused, paused_since: now, ..e },
                ),
            ),
        }
    }
}

/// What resuming the record at `index` at moment `now` makes of the log:
/// only a paused record can resume, and the true paused interval — from the
/// recorded pause moment to `now` — is added to the accumulator.
pub open spec fn resume_spec(b: Seq<EntryV>, index: int, now: int) -> Result<
    Seq<EntryV>,
    TimerError,
> {
    if !(1 <= index <= b.len()) {
        Err(TimerError::NotFound)
    } else {
        let e = b[index - 1];
        match e.state {
            RecState::Stopped => Err(TimerError::AlreadyStopped),
            RecState::Running => Err(TimerError::NotPaused),
            RecState::Paused => Ok(
                b.update(
                    index - 1,
                    EntryV {
                        state: RecState::Running,
                        paused_since: 0,
                        paused_seconds: sat_add(
                            e.paused_seconds,
                            sat_sub(now, e.paused_since),
                        ),
                        ..e
                    },
                ),
            ),
        }
    }
}

/// What stopping the record at `index` at moment `now` makes of the log.
/// Stopping from `Paused` first folds the pending paused interval into the
/// accumulator; the elapsed seconds are the wall time since the start, less
/// everything spent paused.
pub open spec fn stop_spec(b: Seq<EntryV>, index: int, now: int) -> Result<
    Seq<EntryV>,
    TimerError,
> {
    if !(1 <= index <= b.len()) {
        Err(TimerError::NotFound)
    } else {
        let e = b[index - 1];
        match e.state {
            RecState::Stopped => Err(TimerError::AlreadyStopped),
            _ => {
                let folded = if e.state is Paused {
                    sat_add(e.paused_seconds, sat_sub(now, e.paused_since))
                } else {
                    e.paused_seconds
                };
                Ok(
                    b.update(
                        index - 1,
                        EntryV {
                            state: RecState::Stopped,
                            paused_since: 0,
                            paused_seconds: folded,
                            elapsed_seconds: sat_sub(sat_sub(now, e.start_time), folded),
                            ..e
                        },
                    ),
                )
            },
        }
    }
}

/// The duration the record at `index` reads at moment `now`: the stored
/// elapsed seconds once stopped, the paused accumulator while paused, and
/// the running time — wall time since start, less time paused — otherwise.
pub open spec fn elapsed_spec(b: Seq<EntryV>, index: int, now: int) -> Result<int, TimerError> {
    if !(1 <= index <= b.len()) {
        Err(TimerError::NotFound)
    } else {
        let e = b[index - 1];
        match e.state {
            RecState::Stopped => Ok(e.elapsed_seconds),
            RecState::Paused => Ok(e.paused_seconds),
            RecState::Running => Ok(sat_sub(sat_sub(now, e.start_time), e.paused_seconds)),
        }
    }
}

/// The timer state deriver.  It carries no state of its own: everything a
/// transition needs lives in the record it reads and writes back.
pub struct Timer {}

impl Timer {
    /// A deriver.
    pub fn new() -> (r: Timer) {
        Timer {  }
    }

    /// Starts timing `description` at moment `now`: appends a fresh running
    /// record and returns its index.
    pub fn start(&self, book: &mut LogBook, description: String, now: u64) -> (r: Result<
        u64,
        EncodeError,
    >)
        requires
            wf(old(book)@),
            old(book)@.len() + 1 <= u64::MAX,
            now <= TS_MAX,
        ensures
            wf(final(book)@),
            match r {
                Ok(ix) => ix == old(book)@.len() + 1 && final(book)@ =~= old(book)@.push(
                    EntryV {
                        index: old(book)@.len() as int + 1,
                        start_time: now as int,
                        description: description@,
                        elapsed_seconds: 0,
                        paused_seconds: 0,
                        state: RecState::Running,
                        paused_since: 0,
                    },
                ),
                Err(err) => err == EncodeError::InvalidDescription && !(free_of(description@, ',')
                    && free_of(description@, '\n')) && final(book)@ == old(book)@,
            },
    {
        book.append(description, now)
    }

    /// Pauses the record at `index` at moment `now`.
    pub fn pause(&self, book: &mut LogBook, index: u64, now: u64) -> (r: Result<(), TimerError>)
        requires
            wf(old(book)@),
            now <= TS_MAX,
        ensures
            wf(final(book)@),
            match r {
                Ok(()) => pause_spec(old(book)@, index as int, now as int) == Ok::<
                    Seq<EntryV>,
                    TimerError,
                >(final(book)@),
                Err(er) => pause_spec(old(book)@, index as int, now as int) == Err::<
                    Seq<EntryV>,
                    TimerError,
                >(er) && final(book)@ == old(book)@,
            },
    {
        let e = match book.find(index) {
            Some(e) => e,
            None => {
                return Err(TimerError::NotFound);
            },
        };
        match e.state {
            RecState::Stopped => Err(TimerError::AlreadyStopped),
            RecState::Paused => Err(TimerError::AlreadyPaused),
            RecState::Running => {
                let touched = LogEntry {
                    index: e.index,
                    start_time: e.start_time,
                    description: e.description.clone(),
                    elapsed_seconds: e.elapsed_seconds,
                    paused_seconds: e.paused_seconds,
                    state: RecState::Paused,
                    paused_since: now,
                };
                proof {
                    assert(touched@ =~= (EntryV {
                        state: RecState::Paused,
                        paused_since: now as int,
                        ..old(book)@[index - 1]
                    }));
                }
                let outcome = book.replace(index, touched);
                proof {
                    assert(outcome is Ok);
                }
                Ok(())
            },
        }
    }

    /// Resumes the record at `index` at moment `now`, adding the paused
    /// interval to its accumulator.
    pub fn resume(&self, book: &mut LogBook, index: u64, now: u64) -> (r: Result<(), TimerError>)
        requires
            wf(old(book)@),
            now <= TS_MAX,
        ensures
            wf(final(book)@),
            match r {
                Ok(()) => resume_spec(old(book)@, index as int, now as int) == Ok::<
                    Seq<EntryV>,
                    TimerError,
                >(final(book)@),
                Err(er) => resume_spec(old(book)@, index as int, now as int) == Err::<
                    Seq<EntryV>,
                    TimerError,
                >(er) && final(book)@ == old(book)@,
            },
    {
        let e = match book.find(index) {
            Some(e) => e,
            None => {
                return Err(TimerError::NotFound);
            },
        };
        match e.state {
            RecState::Stopped => Err(TimerError::AlreadyStopped),
            RecState::Running => Err(TimerError::NotPaused),
            RecState::Paused => {
                let interval = if now >= e.paused_since {
                    now - e.paused_since
                } else {
                    0
                };
                let accumulated = e.paused_seconds.checked_add(interval).unwrap_or(u64::MAX);
                let touched = LogEntry {
                    index: e.index,
                    start_time: e.start_time,
                    description: e.description.clone(),
                    elapsed_seconds: e.elapsed_seconds,
                    paused_seconds: accumulated,
                    state: RecState::Running,
                    paused_since: 0,
                };
                proof {
                    assert(touched@ =~= (EntryV {
                        state: RecState::Running,
                        paused_since: 0,
                        paused_seconds: sat_add(
                            old(book)@[index - 1].paused_seconds,
                            sat_sub(now as int, old(book)@[index - 1].paused_since),
                        ),
                        ..old(book)@[index - 1]
                    }));
                }
                let outcome = book.replace(index, touched);
                proof {
                    assert(outcome is Ok);
                }
                Ok(())
            },
        }
    }

    /// Stops the record at `index` at moment `now`, fixing its elapsed
    /// seconds.  This is terminal.
    pub fn stop(&self, book: &mut LogBook, index: u64, now: u64) -> (r: Result<(), TimerError>)
        requires
            wf(old(book)@),
            now <= TS_MAX,
        ensures
            wf(final(book)@),
            match r {
                Ok(()) => stop_spec(old(book)@, index as int, now as int) == Ok::<
                    Seq<EntryV>,
                    TimerError,
                >(final(book)@),
                Err(er) => stop_spec(old(book)@, index as int, now as int) == Err::<
                    Seq<EntryV>,
                    TimerError,
                >(er) && final(book)@ == old(book)@,
            },
    {
        let e = match book.find(index) {
            Some(e) => e,
            None => {
                return Err(TimerError::NotFound);
            },
        };
        let paused_now = match e.state {
            RecState::Stopped => {
                return Err(TimerError::AlreadyStopped);
            },
            RecState::Paused => true,
            RecState::Running => false,
        };
        let folded = if paused_now {
            let interval = if now >= e.paused_since {
                now - e.paused_since
            } else {
                0
            };
            e.paused_seconds.checked_add(interval).unwrap_or(u64::MAX)
        } else {
            e.paused_seconds
        };
        let since_start = if now >= e.start_time {
            now - e.start_time
        } else {
            0
        };
        let elapsed = if since_start >= folded {
            since_start - folded
        } else {
            0
        };
        let touched = LogEntry {
            index: e.index,
            start_time: e.start_time,
            description: e.description.clone(),
            elapsed_seconds: elapsed,
            paused_seconds: folded,
            state: RecState::Stopped,
            paused_since: 0,
        };
        proof {
            let ev = old(book)@[index - 1];
            let folded_s = if ev.state is Paused {
                sat_add(ev.paused_seconds, sat_sub(now as int, ev.paused_since))
            } else {
                ev.paused_seconds
            };
            assert(folded as int == folded_s);
            assert(elapsed as int == sat_sub(sat_sub(now as int, ev.start_time), folded_s));
            assert(touched@ =~= (EntryV {
                state: RecState::Stopped,
                paused_since: 0,
                paused_seconds: folded_s,
                elapsed_seconds: sat_sub(sat_sub(now as int, ev.start_time), folded_s),
                ..ev
            }));
        }
        let outcome = book.replace(index, touched);
        proof {
            assert(outcome is Ok);
        }
        Ok(())
    }

    /// The duration the record at `index` reads at moment `now`.
    pub fn get_elapsed_time(&self, book: &LogBook, index: u64, now: u64) -> (r: Result<
        u64,
        TimerError,
    >)
        requires
            wf(book@),
        ensures
            match r {
                Ok(v) => elapsed_spec(book@, index as int, now as int) == Ok::<int, TimerError>(
                    v as int,
                ),
                Err(er) => elapsed_spec(book@, index as int, now as int) == Err::<int, TimerError>(
                    er,
                ),
            },
    {
        let e = match book.find(index) {
            Some(e) => e,
            None => {
                return Err(TimerError::NotFound);
            },
        };
        match e.state {
            RecState::Stopped => Ok(e.elapsed_seconds),
            RecState::Paused => Ok(e.paused_seconds),
            RecState::Running => {
                let since_start = if now >= e.start_time {
                    now - e.start_time
                } else {
                    0
                };
                let v = if since_start >= e.paused_seconds {
                    since_start - e.paused_seconds
                } else {
                    0
                };
                Ok(v)
            },
        }
    }

    /// Writes a final elapsed time and paused total into the record at
    /// `index`.  Recording an elapsed time is what stops an entry, so the
    /// record comes out stopped, its pause moment cleared.  The addressed
    /// record must not be stopped already — stopping is terminal — and
    /// neither total may shrink: elapsed seconds are never decremented and
    /// paused seconds only grow.
    pub fn update_log_entry_with_elapsed_time(
        &self,
        book: &mut LogBook,
        index: u64,
        elapsed_seconds: u64,
        paused_seconds: u64,
    ) -> (r: Result<(), TimerError>)
        requires
            wf(old(book)@),
            1 <= index <= old(book)@.len() ==> !(old(book)@[index - 1].state is Stopped)
                && elapsed_seconds as int >= old(book)@[index - 1].elapsed_seconds
                && paused_seconds as int >= old(book)@[index - 1].paused_seconds,
        ensures
            wf(final(book)@),
            match r {
                Ok(()) => 1 <= index <= old(book)@.len() && final(book)@ =~= old(book)@.update(
                    index - 1,
                    (EntryV {
                        elapsed_seconds: elapsed_seconds as int,
                        paused_seconds: paused_seconds as int,
                        state: RecState::Stopped,
                        paused_since: 0,
                        ..old(book)@[index - 1]
                    }),
                ),
                Err(er) => er == TimerError::NotFound && !(1 <= index <= old(book)@.len()) && final(book)@ == old(book)@,
            },
    {
        let e = match book.find(index) {
            Some(e) => e,
            None => {
                return Err(TimerError::NotFound);
            },
        };
        let touched = LogEntry {
            index: e.index,
            start_time: e.start_time,
            description: e.description.clone(),
            elapsed_seconds,
            paused_seconds,
            state: RecState::Stopped,
            paused_since: 0,
        };
        proof {
            assert(touched@ =~= (EntryV {
                elapsed_seconds: elapsed_seconds as int,
                paused_seconds: paused_seconds as int,
                state: RecState::Stopped,
                paused_since: 0,
                ..old(book)@[index - 1]
            }));
        }
        let outcome = book.replace(index, touched);
        proof {
            assert(outcome is Ok);
        }
        Ok(())
    }

    /// Writes a new paused total into the record at `index`, leaving every
    /// other field alone.  The paused total only grows: the new value may
    /// not lie below the stored one.
    pub fn update_log_entry_with_paused_time(
        &self,
        book: &mut LogBook,
        index: u64,
        paused_seconds: u64,
    ) -> (r: Result<(), TimerError>)
        requires
            wf(old(book)@),
            1 <= index <= old(book)@.len() ==> paused_seconds as int >= old(book)@[index
                - 1].paused_seconds,
        ensures
            wf(final(book)@),
            match r {
                Ok(()) => 1 <= index <= old(book)@.len() && final(book)@ =~= old(book)@.update(
                    index - 1,
                    (EntryV { paused_seconds: paused_seconds as int, ..old(book)@[index - 1] }),
                ),
                Err(er) => er == TimerError::NotFound && !(1 <= index <= old(book)@.len()) && final(book)@ == old(book)@,
            },
    {
        let e = match book.find(index) {
            Some(e) => e,
            None => {
                return Err(TimerError::NotFound);
            },
        };
        let touched = LogEntry {
            index: e.index,
            start_time: e.start_time,
            description: e.description.clone(),
            elapsed_seconds: e.elapsed_seconds,
            paused_seconds,
            state: e.state,
            paused_since: e.paused_since,
        };
        proof {
            assert(touched@ =~= (EntryV {
                paused_seconds: paused_seconds as int,
                ..old(book)@[index - 1]
            }));
        }
        let outcome = book.replace(index, touched);
        proof {
            assert(outcome is Ok);
        }
        Ok(())
    }
}

/// Paused seconds never decrease: whichever timer transition succeeds, every
/// record's accumulator stays or grows, so any sequence of pauses, resumes
/// and stops is monotone.
pub proof fn lemma_paused_monotonic(b: Seq<EntryV>, index: int, now: int)
    requires
        wf(b),
        now >= 0,
    ensures
        pause_spec(b, index, now) matches Ok(b2) ==> forall|k: int|
            0 <= k < b.len() ==> #[trigger] b2[k].paused_seconds >= b[k].paused_seconds,
        resume_spec(b, index, now) matches Ok(b2) ==> forall|k: int|
            0 <= k < b.len() ==> #[trigger] b2[k].paused_seconds >= b[k].paused_seconds,
        stop_spec(b, index, now) matches Ok(b2) ==> forall|k: int|
            0 <= k < b.len() ==> #[trigger] b2[k].paused_seconds >= b[k].paused_seconds,
{
}

/// A pause immediately resumed at the same moment is a no-op: the log comes
/// back exactly as it was, record for record and byte for byte.
pub proof fn lemma_pause_resume_noop(b: Seq<EntryV>, index: int, now: int)
    requires
        wf(b),
        pause_spec(b, index, now) is Ok,
    ensures
        resume_spec(pause_spec(b, index, now)->Ok_0, index, now) == Ok::<Seq<EntryV>, TimerError>(
            b,
        ),
{
    let e = b[index - 1];
    let e1 = EntryV { state: RecState::Paused, paused_since: now, ..e };
    let b1 = b.update(index - 1, e1);
    assert(b1[index - 1] == e1);
    let e2 = EntryV {
        state: RecState::Running,
        paused_since: 0,
        paused_seconds: sat_add(e1.paused_seconds, sat_sub(now, now)),
        ..e1
    };
    assert(wire_ok(e));
    assert(e2 =~= e);
    let b2 = b1.update(index - 1, e2);
    assert(b2 =~= b);
}

/// Stopping is terminal: after a stop succeeds on an index, any later
/// pause, resume or stop of that index is refused with `AlreadyStopped`.
pub proof fn lemma_stop_terminal(b: Seq<EntryV>, index: int, now: int, later: int)
    requires
        stop_spec(b, index, now) is Ok,
    ensures
        pause_spec(stop_spec(b, index, now)->Ok_0, index, later) == Err::<Seq<EntryV>, TimerError>(
            TimerError::AlreadyStopped,
        ),
        resume_spec(stop_spec(b, index, now)->Ok_0, index, later) == Err::<
            Seq<EntryV>,
            TimerError,
        >(TimerError::AlreadyStopped),
        stop_spec(stop_spec(b, index, now)->Ok_0, index, later) == Err::<Seq<EntryV>, TimerError>(
            TimerError::AlreadyStopped,
        ),
{
}

/// A stopped record stays stopped: no later timer transition, on any index,
/// moves it out of the terminal state.
pub proof fn lemma_stopped_stays(b: Seq<EntryV>, i: int, j: int, now: int)
    requires
        1 <= i <= b.len(),
        b[i - 1].state is Stopped,
    ensures
        pause_spec(b, j, now) matches Ok(b2) ==> b2[i - 1].state is Stopped,
        resume_spec(b, j, now) matches Ok(b2) ==> b2[i - 1].state is Stopped,
        stop_spec(b, j, now) matches Ok(b2) ==> b2[i - 1].state is Stopped,
{
}

} // verus!
