use vstd::prelude::*;
use std::time::Instant;

verus! {

#[verifier::external_type_specification]
#[verifier::external_body]
pub struct ExInstant(std::time::Instant);

/// `std::time::Instant::now`: the present moment. Nothing is claimed of it.
#[verifier::external_body]
fn now() -> Instant {
    Instant::now()
}

/// `std::time::Instant::elapsed`: the time since `instant`, in whole seconds and the
/// nanoseconds beyond them, which are fewer than make a second.
#[verifier::external_body]
fn elapsed(instant: &Instant) -> (r: (u64, u32))
    ensures
        r.1 < 1_000_000_000,
{
    let duration = instant.elapsed();
    (duration.as_secs(), duration.subsec_nanos())
}

/// A time span in nanoseconds.
pub open spec fn span(secs: u64, nanos: u32) -> nat {
    (secs * 1_000_000_000 + nanos) as nat
}

/// The longest time span that a stopwatch shows.
pub open spec fn longest() -> nat {
    span(u64::MAX, 999_999_999)
}

/// A stopwatch that can be paused.
#[derive(Clone, Copy)]
pub struct Stopwatch {
    secs: u64,
    nanos: u32,
    last_instant: Option<Instant>,
    is_running: bool,
}

impl Stopwatch {
    /// The time shown, in nanoseconds.
    pub closed spec fn shown(&self) -> nat {
        span(self.secs, self.nanos)
    }

    /// The whole seconds shown.
    pub closed spec fn seconds(&self) -> u64 {
        self.secs
    }

    pub closed spec fn running(&self) -> bool {
        self.is_running
    }

    /// The stopwatch has been started at some time.
    pub closed spec fn started(&self) -> bool {
        self.last_instant is Some
    }

    /// The nanoseconds shown are fewer than make a second.
    pub closed spec fn wf(&self) -> bool {
        self.nanos < 1_000_000_000
    }

    pub fn new() -> (r: Stopwatch)
        ensures
            r.wf(),
            r.shown() == 0,
            !r.running(),
            !r.started(),
    {
        Stopwatch { secs: 0, nanos: 0, last_instant: None, is_running: false }
    }

    /// Lets the time run.
    pub fn start(&mut self)
        requires
            old(self).wf(),
        ensures
            final(self).wf(),
            final(self).running(),
            final(self).started(),
            final(self).shown() >= old(self).shown(),
            !old(self).running() ==> final(self).shown() == old(self).shown(),
    {
        if self.last_instant.is_none() {
            self.last_instant = Some(now());
        }
        self.update_time();
        self.is_running = true;
    }

    /// Holds the time.
    pub fn pause(&mut self)
        requires
            old(self).wf(),
            old(self).started(),
        ensures
            final(self).wf(),
            !final(self).running(),
            final(self).started(),
            final(self).shown() >= old(self).shown(),
            !old(self).running() ==> final(self).shown() == old(self).shown(),
    {
        self.update_time();
        self.is_running = false;
    }

    /// The whole seconds that the stopwatch shows at the end.
    pub fn stop(self) -> (r: u64)
        requires
            self.wf(),
            self.started(),
        ensures
            r >= self.seconds(),
            !self.running() ==> r == self.seconds(),
    {
        let mut watch = self;
        watch.update_time();
        watch.secs
    }

    /// The whole seconds that the stopwatch shows now.
    pub fn read(&mut self) -> (r: u64)
        requires
            old(self).wf(),
            old(self).started(),
        ensures
            final(self).wf(),
            final(self).running() == old(self).running(),
            final(self).started(),
            final(self).shown() >= old(self).shown(),
            !old(self).running() ==> final(self).shown() == old(self).shown(),
            r == final(self).seconds(),
            r >= old(self).seconds(),
    {
        self.update_time();
        self.secs
    }

    /// Adds the time since the stopwatch was last looked at, if it runs; the time shown never
    /// goes beyond the longest that it can show.
    fn update_time(&mut self)
        requires
            old(self).wf(),
            old(self).started(),
        ensures
            final(self).wf(),
            final(self).running() == old(self).running(),
            final(self).started(),
            final(self).shown() >= old(self).shown(),
            final(self).seconds() >= old(self).seconds(),
            !old(self).running() ==> final(self).shown() == old(self).shown(),
    {
        let last_instant = self.last_instant.unwrap();
        if self.is_running {
            let (more_secs, more_nanos) = elapsed(&last_instant);
            let total = add_spans(self.secs, self.nanos, more_secs, more_nanos);
            self.secs = total.0;
            self.nanos = total.1;
        }
        self.last_instant = Some(now());
    }
}

/// The sum of two time spans, or the longest span if the sum is longer.
pub fn add_spans(secs: u64, nanos: u32, more_secs: u64, more_nanos: u32) -> (r: (u64, u32))
    requires
        nanos < 1_000_000_000,
        more_nanos < 1_000_000_000,
    ensures
        r.1 < 1_000_000_000,
        span(r.0, r.1) == if span(secs, nanos) + span(more_secs, more_nanos) <= longest() {
            span(secs, nanos) + span(more_secs, more_nanos)
        } else {
            longest()
        },
{
    let mut sum_nanos: u32 = nanos + more_nanos;
    let mut carry: u64 = 0;
    if sum_nanos >= 1_000_000_000 {
        sum_nanos = sum_nanos - 1_000_000_000;
        carry = 1;
    }
    if more_secs > u64::MAX - secs || carry > u64::MAX - secs - more_secs {
        (u64::MAX, 999_999_999)
    } else {
        (secs + more_secs + carry, sum_nanos)
    }
}

} // verus!
