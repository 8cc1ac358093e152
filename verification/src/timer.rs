//! A stopwatch that banks the time spent running, so that a pause never
//! counts towards the elapsed time.

use std::time::{Duration, Instant};
use vstd::prelude::*;

verus! {

/// `std::time::Instant`, a reading of the monotonic clock. Nothing is known
/// of what a value holds.
#[verifier::external_type_specification]
#[verifier::external_body]
pub struct ExInstant(Instant);

/// `Instant::now` reads the monotonic clock. Nothing is claimed of the
/// reading.
pub assume_specification[ Instant::now ]() -> (now: Instant);

/// `Instant::saturating_duration_since` gives the time from `earlier` to
/// `later`, or zero where `earlier` is the later one; it does not panic.
/// Nothing is claimed of the span.
pub assume_specification[ Instant::saturating_duration_since ](
    later: &Instant,
    earlier: Instant,
) -> (span: Duration);

/// `Duration::as_nanos` gives the whole span in nanoseconds. Nothing is
/// claimed of the number.
pub assume_specification[ Duration::as_nanos ](span: &Duration) -> (nanos: u128);

/// Nanoseconds in one millisecond.
pub const NANOS_PER_MILLI: u128 = 1_000_000;

/// The sum of two nanosecond counts, held at `u128::MAX` where it would pass it.
pub open spec fn capped_sum(a: nat, b: nat) -> nat {
    if a + b > u128::MAX {
        u128::MAX as nat
    } else {
        a + b
    }
}

/// The time from `earlier` to `later`, zero where `earlier` is the later one.
pub open spec fn span_between(earlier: nat, later: nat) -> nat {
    if later >= earlier {
        (later - earlier) as nat
    } else {
        0
    }
}

/// Whole milliseconds in `nanos`, held at `u64::MAX` where they would pass it.
pub open spec fn whole_millis(nanos: nat) -> u64 {
    if nanos / (NANOS_PER_MILLI as nat) > u64::MAX {
        u64::MAX
    } else {
        (nanos / (NANOS_PER_MILLI as nat)) as u64
    }
}

/// A stopwatch. Moments are nanoseconds on the monotonic clock, counted from
/// the moment the stopwatch was made. While it runs, the elapsed time is what
/// was banked before the last resume plus the time since that resume; while
/// it is paused, the elapsed time is what was banked, and stands still.
pub struct Timer {
    /// The moment the stopwatch was made: clock readings count from it.
    origin: Instant,
    /// The moment of the last resume (or of creation or reset).
    start_time: u128,
    /// Nanoseconds banked over the stretches that ended in a pause.
    paused_duration: u128,
    is_paused: bool,
}

impl Timer {
    /// The moment the stopwatch was made: clock readings count from it.
    pub closed spec fn origin(&self) -> Instant {
        self.origin
    }

    /// The moment of the last resume (or of creation or reset).
    pub closed spec fn started(&self) -> nat {
        self.start_time as nat
    }

    /// Nanoseconds banked over the running stretches that a pause has closed.
    pub closed spec fn banked(&self) -> nat {
        self.paused_duration as nat
    }

    /// Whether the stopwatch stands still.
    pub closed spec fn paused(&self) -> bool {
        self.is_paused
    }

    /// Elapsed nanoseconds at the moment `now`.
    pub open spec fn nanos_at(&self, now: nat) -> nat {
        if self.paused() {
            self.banked()
        } else {
            capped_sum(self.banked(), span_between(self.started(), now))
        }
    }

    /// Elapsed whole milliseconds at the moment `now`.
    pub open spec fn millis_at(&self, now: nat) -> u64 {
        whole_millis(self.nanos_at(now))
    }

    /// A paused stopwatch with nothing elapsed.
    pub fn new() -> (timer: Timer)
        ensures
            timer.paused(),
            timer.banked() == 0,
            timer.started() == 0,
    {
        Timer { origin: Instant::now(), start_time: 0, paused_duration: 0, is_paused: true }
    }

    /// The moment now: nanoseconds that the monotonic clock has run since the
    /// stopwatch was made.
    pub(crate) fn running_nanos(&self) -> (nanos: u128) {
        let now = Instant::now();
        now.saturating_duration_since(self.origin).as_nanos()
    }

    /// Stops a running stopwatch at the moment `now`, banking the time since
    /// its last resume; leaves a paused one as it is.
    pub fn pause_at(&mut self, now: u128)
        ensures
            final(self).paused(),
            final(self).banked() == old(self).nanos_at(now as nat),
            final(self).started() == old(self).started(),
            final(self).origin() == old(self).origin(),
            old(self).paused() ==> *final(self) == *old(self),
    {
        if !self.is_paused {
            let running = now.saturating_sub(self.start_time);
            self.paused_duration = self.paused_duration.saturating_add(running);
            self.is_paused = true;
        }
    }

    /// Stops a running stopwatch now, banking the time since its last resume;
    /// leaves a paused one as it is.
    pub fn pause(&mut self)
        ensures
            final(self).paused(),
            final(self).started() == old(self).started(),
            final(self).origin() == old(self).origin(),
            old(self).paused() ==> *final(self) == *old(self),
            exists|now: u128| final(self).banked() == old(self).nanos_at(now as nat),
            final(self).banked() >= old(self).banked(),
    {
        let now = self.running_nanos();
        self.pause_at(now);
        assert(self.banked() == old(self).nanos_at(now as nat));
    }

    /// Starts a paused stopwatch at the moment `now`: the time up to `now` is
    /// not counted, the time after it is. Leaves a running one as it is. What
    /// was banked stays.
    pub fn resume_at(&mut self, now: u128)
        ensures
            !final(self).paused(),
            final(self).banked() == old(self).banked(),
            final(self).origin() == old(self).origin(),
            old(self).paused() ==> final(self).started() == now,
            !old(self).paused() ==> *final(self) == *old(self),
    {
        if self.is_paused {
            self.start_time = now;
            self.is_paused = false;
        }
    }

    /// Starts a paused stopwatch from now; leaves a running one as it is.
    /// What was banked stays.
    pub fn resume(&mut self)
        ensures
            !final(self).paused(),
            final(self).banked() == old(self).banked(),
            final(self).origin() == old(self).origin(),
            !old(self).paused() ==> *final(self) == *old(self),
    {
        let now = self.running_nanos();
        self.resume_at(now);
    }

    /// Elapsed whole milliseconds at the moment `now`.
    pub fn elapsed_at(&self, now: u128) -> (millis: u64)
        ensures
            millis == self.millis_at(now as nat),
    {
        let nanos = if self.is_paused {
            self.paused_duration
        } else {
            self.paused_duration.saturating_add(now.saturating_sub(self.start_time))
        };
        let millis = nanos / NANOS_PER_MILLI;
        if millis > u64::MAX as u128 {
            u64::MAX
        } else {
            millis as u64
        }
    }

    /// Elapsed whole milliseconds now: what was banked while paused, and what
    /// was banked plus the time since the last resume while running.
    pub fn elapsed(&self) -> (millis: u64)
        ensures
            self.paused() ==> millis == whole_millis(self.banked()),
            exists|now: u128| millis == self.millis_at(now as nat),
            millis >= whole_millis(self.banked()),
    {
        let now = self.running_nanos();
        let millis = self.elapsed_at(now);
        assert(millis == self.millis_at(now as nat));
        millis
    }

    /// Whether the stopwatch stands still.
    pub fn is_paused(&self) -> (paused: bool)
        ensures
            paused == self.paused(),
    {
        self.is_paused
    }

    /// Back to a paused stopwatch with nothing elapsed at the moment `now`,
    /// whether it was running or not.
    pub fn reset_at(&mut self, now: u128)
        ensures
            final(self).paused(),
            final(self).banked() == 0,
            final(self).started() == now,
            final(self).origin() == old(self).origin(),
    {
        self.start_time = now;
        self.paused_duration = 0;
        self.is_paused = true;
    }

    /// Back to a paused stopwatch with nothing elapsed, whether it was running
    /// or not.
    pub fn reset(&mut self)
        ensures
            final(self).paused(),
            final(self).banked() == 0,
            final(self).origin() == old(self).origin(),
            forall|now: nat| #[trigger] final(self).millis_at(now) == 0,
    {
        let now = self.running_nanos();
        self.reset_at(now);
    }
}

/// While nothing changes the stopwatch, a later moment never shows a smaller
/// elapsed time than an earlier one.
pub proof fn lemma_elapsed_never_decreases(timer: Timer, earlier: nat, later: nat)
    requires
        earlier <= later,
    ensures
        timer.nanos_at(earlier) <= timer.nanos_at(later),
        timer.millis_at(earlier) <= timer.millis_at(later),
{
    let a = timer.nanos_at(earlier);
    let b = timer.nanos_at(later);
    assert(a <= b);
    assert(a / (NANOS_PER_MILLI as nat) <= b / (NANOS_PER_MILLI as nat));
}

/// A paused stopwatch shows the same elapsed time at every moment.
pub proof fn lemma_paused_stands_still(timer: Timer, earlier: nat, later: nat)
    requires
        timer.paused(),
    ensures
        timer.millis_at(earlier) == timer.millis_at(later),
        timer.millis_at(earlier) == whole_millis(timer.banked()),
{
}

/// The time spent paused is not counted: a stopwatch that was resumed at the
/// moment `resumed` with `banked` nanoseconds in the bank shows, at a moment
/// `now` that is not before it, what was banked plus the time since.
pub proof fn lemma_running_counts_from_resume(timer: Timer, banked: nat, resumed: nat, now: nat)
    requires
        !timer.paused(),
        timer.banked() == banked,
        timer.started() == resumed,
        resumed <= now,
    ensures
        timer.nanos_at(now) == capped_sum(banked, (now - resumed) as nat),
        timer.nanos_at(resumed) == banked,
{
}

} // verus!
