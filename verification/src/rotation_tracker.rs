//! Pure decision state for when the file set should roll over.
//!
//! A [`RotationTracker`] holds the live counters of a rotation policy: how
//! much was written since the last rotation, or the monotonic deadline of the
//! next time-based rotation. It performs no I/O and never fails; the clock is
//! injected by the caller as a plain tick count so that time-based rotation
//! is deterministic and testable.

use vstd::prelude::*;

use crate::RotationPeriod;

verus! {

/// Saturating addition of an unbounded amount onto a `usize` counter.
pub open spec fn sat_add_usize(a: usize, n: nat) -> usize {
    if a + n > usize::MAX {
        usize::MAX
    } else {
        (a + n) as usize
    }
}

/// Saturating addition on `u64` deadlines.
pub open spec fn sat_add_u64(a: u64, b: u64) -> u64 {
    if a + b > u64::MAX {
        u64::MAX
    } else {
        (a + b) as u64
    }
}

/// The number of line terminator bytes (`10u8`) in `buf`.
pub open spec fn newline_count(buf: Seq<u8>) -> nat
    decreases buf.len(),
{
    if buf.len() == 0 {
        0
    } else {
        newline_count(buf.drop_last()) + if buf.last() == 10u8 {
            1nat
        } else {
            0nat
        }
    }
}

/// Live counters of a rotation policy, owned by the sink.
///
/// The counters always reflect what happened since the last rotation, never
/// since the tracker was created: `reset` is called exactly once per rotation
/// event, before the new file accepts writes.
#[derive(Debug, Copy, Clone, Ord, PartialOrd, Eq, PartialEq, Structural)]
pub enum RotationTracker {
    /// Rotate once `written` line terminator bytes reach `period`.
    Lines { period: usize, written: usize },
    /// Rotate once `written` bytes reach `period`.
    Bytes { period: usize, written: usize },
    /// Rotate once the injected clock reaches `next_rotation`.
    Interval { period: u64, next_rotation: u64 },
    /// Never rotate on its own.
    Manual,
}

/// The deadline of the next time-based rotation, `period` ticks from `now`.
pub fn calc_next_rotation(now: u64, period: u64) -> (r: u64)
    ensures
        r == sat_add_u64(now, period),
{
    now.saturating_add(period)
}

/// Count the line terminator bytes in `buf`.
fn count_newlines(buf: &[u8]) -> (n: usize)
    ensures
        n == newline_count(buf@),
{
    let mut n: usize = 0;
    let mut k: usize = 0;
    while k < buf.len()
        invariant
            k <= buf@.len(),
            n <= k,
            n == newline_count(buf@.take(k as int)),
        decreases buf@.len() - k,
    {
        proof {
            assert(buf@.take(k + 1).drop_last() =~= buf@.take(k as int));
            assert(buf@.take(k + 1).last() == buf@[k as int]);
        }
        if buf[k] == 10u8 {
            n = n + 1;
        }
        k = k + 1;
    }
    proof {
        assert(buf@.take(buf@.len() as int) =~= buf@);
    }
    n
}

impl RotationTracker {
    /// The tracker a [`RotationPeriod`] starts out as, given the clock reading
    /// at construction time.
    pub open spec fn spec_new(rotate_every: RotationPeriod, now: u64) -> RotationTracker {
        match rotate_every {
            RotationPeriod::Lines(period) => RotationTracker::Lines { period, written: 0 },
            RotationPeriod::Bytes(period) => RotationTracker::Bytes { period, written: 0 },
            RotationPeriod::Interval(period) => RotationTracker::Interval {
                period,
                next_rotation: sat_add_u64(now, period),
            },
            RotationPeriod::Manual => RotationTracker::Manual,
        }
    }

    /// Build the tracker for a rotation policy; `now` is the current reading
    /// of the caller's monotonic clock.
    pub fn new(rotate_every: RotationPeriod, now: u64) -> (t: Self)
        ensures
            t == Self::spec_new(rotate_every, now),
    {
        match rotate_every {
            RotationPeriod::Lines(period) => RotationTracker::Lines { period, written: 0 },
            RotationPeriod::Bytes(period) => RotationTracker::Bytes { period, written: 0 },
            RotationPeriod::Interval(period) => RotationTracker::Interval {
                period,
                next_rotation: calc_next_rotation(now, period),
            },
            RotationPeriod::Manual => RotationTracker::Manual,
        }
    }

    /// The tracker after `buf` was recorded as durably written.
    pub open spec fn spec_wrote(self, buf: Seq<u8>) -> RotationTracker {
        match self {
            RotationTracker::Lines { period, written } => RotationTracker::Lines {
                period,
                written: sat_add_usize(written, newline_count(buf)),
            },
            RotationTracker::Bytes { period, written } => RotationTracker::Bytes {
                period,
                written: sat_add_usize(written, buf.len()),
            },
            RotationTracker::Interval { .. } => self,
            RotationTracker::Manual => self,
        }
    }

    /// Record that `buf` was durably written to the current file.
    ///
    /// Counts line terminator bytes for the Lines policy and all bytes for
    /// the Bytes policy, saturating instead of wrapping; a no-op otherwise.
    pub fn wrote(&mut self, buf: &[u8])
        ensures
            *final(self) == old(self).spec_wrote(buf@),
    {
        match *self {
            RotationTracker::Lines { period, written } => {
                let n = count_newlines(buf);
                *self = RotationTracker::Lines { period, written: written.saturating_add(n) };
            }
            RotationTracker::Bytes { period, written } => {
                *self = RotationTracker::Bytes {
                    period,
                    written: written.saturating_add(buf.len()),
                };
            }
            RotationTracker::Interval { .. } => {}
            RotationTracker::Manual => {}
        }
    }

    /// Whether the policy calls for a rotation, given the clock reading `now`.
    pub open spec fn spec_should_rotate(self, now: u64) -> bool {
        match self {
            RotationTracker::Lines { period, written } => written >= period,
            RotationTracker::Bytes { period, written } => written >= period,
            RotationTracker::Interval { period, next_rotation } => now >= next_rotation,
            RotationTracker::Manual => false,
        }
    }

    /// Ask the tracker whether the sink should rotate before writing more.
    ///
    /// A zero period means the counter has already reached it, so the very
    /// first write rotates; the Manual policy never asks for a rotation.
    pub fn should_rotate(&self, now: u64) -> (r: bool)
        ensures
            r == self.spec_should_rotate(now),
    {
        match *self {
            RotationTracker::Lines { period, written } => written >= period,
            RotationTracker::Bytes { period, written } => written >= period,
            RotationTracker::Interval { period: _, next_rotation } => now >= next_rotation,
            RotationTracker::Manual => false,
        }
    }

    /// The tracker after a rotation completed at clock reading `now`.
    pub open spec fn spec_reset(self, now: u64) -> RotationTracker {
        match self {
            RotationTracker::Lines { period, .. } => RotationTracker::Lines { period, written: 0 },
            RotationTracker::Bytes { period, .. } => RotationTracker::Bytes { period, written: 0 },
            RotationTracker::Interval { period, .. } => RotationTracker::Interval {
                period,
                next_rotation: sat_add_u64(now, period),
            },
            RotationTracker::Manual => RotationTracker::Manual,
        }
    }

    /// Notify the tracker that a rotation just completed: volume counters
    /// start over and the next time-based deadline is `period` from `now`.
    pub fn reset(&mut self, now: u64)
        ensures
            *final(self) == old(self).spec_reset(now),
    {
        match *self {
            RotationTracker::Lines { period, written: _ } => {
                *self = RotationTracker::Lines { period, written: 0 };
            }
            RotationTracker::Bytes { period, written: _ } => {
                *self = RotationTracker::Bytes { period, written: 0 };
            }
            RotationTracker::Interval { period, next_rotation: _ } => {
                *self = RotationTracker::Interval {
                    period,
                    next_rotation: calc_next_rotation(now, period),
                };
            }
            RotationTracker::Manual => {}
        }
    }
}

/// The tracker after a sequence of `wrote` calls, oldest first.
pub open spec fn apply_writes(t: RotationTracker, bufs: Seq<Seq<u8>>) -> RotationTracker
    decreases bufs.len(),
{
    if bufs.len() == 0 {
        t
    } else {
        apply_writes(t, bufs.drop_last()).spec_wrote(bufs.last())
    }
}

/// The total number of bytes in a sequence of write buffers.
pub open spec fn total_bytes(bufs: Seq<Seq<u8>>) -> nat
    decreases bufs.len(),
{
    if bufs.len() == 0 {
        0
    } else {
        total_bytes(bufs.drop_last()) + bufs.last().len()
    }
}

/// The total number of line terminator bytes in a sequence of write buffers.
pub open spec fn total_newlines(bufs: Seq<Seq<u8>>) -> nat
    decreases bufs.len(),
{
    if bufs.len() == 0 {
        0
    } else {
        total_newlines(bufs.drop_last()) + newline_count(bufs.last())
    }
}

proof fn lemma_bytes_written(period: usize, bufs: Seq<Seq<u8>>)
    ensures
        apply_writes(RotationTracker::Bytes { period, written: 0 }, bufs)
            == (RotationTracker::Bytes { period, written: sat_add_usize(0, total_bytes(bufs)) }),
    decreases bufs.len(),
{
    if bufs.len() > 0 {
        lemma_bytes_written(period, bufs.drop_last());
    }
}

proof fn lemma_lines_written(period: usize, bufs: Seq<Seq<u8>>)
    ensures
        apply_writes(RotationTracker::Lines { period, written: 0 }, bufs)
            == (RotationTracker::Lines { period, written: sat_add_usize(0, total_newlines(bufs)) }),
    decreases bufs.len(),
{
    if bufs.len() > 0 {
        lemma_lines_written(period, bufs.drop_last());
    }
}

/// A Bytes tracker never asks for a rotation while the bytes recorded since
/// the last reset total less than the period, and asks for one exactly from
/// the write that reaches the period on; a zero period rotates immediately,
/// before any write.
pub proof fn lemma_bytes_policy_threshold(period: usize, bufs: Seq<Seq<u8>>, now: u64)
    ensures
        total_bytes(bufs) < period ==> !apply_writes(
            RotationTracker::Bytes { period, written: 0 },
            bufs,
        ).spec_should_rotate(now),
        total_bytes(bufs) >= period ==> apply_writes(
            RotationTracker::Bytes { period, written: 0 },
            bufs,
        ).spec_should_rotate(now),
{
    lemma_bytes_written(period, bufs);
}

/// A Lines tracker never asks for a rotation while the line terminators
/// recorded since the last reset total less than the period, and asks for one
/// exactly from the write that reaches the period on; a zero period rotates
/// immediately, before any write.
pub proof fn lemma_lines_policy_threshold(period: usize, bufs: Seq<Seq<u8>>, now: u64)
    ensures
        total_newlines(bufs) < period ==> !apply_writes(
            RotationTracker::Lines { period, written: 0 },
            bufs,
        ).spec_should_rotate(now),
        total_newlines(bufs) >= period ==> apply_writes(
            RotationTracker::Lines { period, written: 0 },
            bufs,
        ).spec_should_rotate(now),
{
    lemma_lines_written(period, bufs);
}

/// A Manual tracker never asks for a rotation, whatever was written: only an
/// explicit rotation advances the file set.
pub proof fn lemma_manual_never_rotates(bufs: Seq<Seq<u8>>, now: u64)
    ensures
        apply_writes(RotationTracker::Manual, bufs) == RotationTracker::Manual,
        !apply_writes(RotationTracker::Manual, bufs).spec_should_rotate(now),
    decreases bufs.len(),
{
    if bufs.len() > 0 {
        lemma_manual_never_rotates(bufs.drop_last(), now);
    }
}

} // verus!
