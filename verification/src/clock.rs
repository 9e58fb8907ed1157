//! Time, as the rest of the library sees it: nanoseconds since a clock was started.

use vstd::prelude::*;

verus! {

/// Tokio's monotonic instant. Nothing inside it is looked at; only how long ago it was matters.
#[verifier::external_type_specification]
#[verifier::external_body]
pub struct ExInstant(tokio::time::Instant);

/// Calls `tokio::time::Instant::now`. Nothing is claimed of the instant: it depends on the time.
#[verifier::external_body]
fn instant_now() -> tokio::time::Instant {
    tokio::time::Instant::now()
}

/// Calls `tokio::time::Instant::elapsed` on the start of `clock` and gives the duration in
/// nanoseconds. Nothing is claimed of the number: it depends on the time of the call. What is claimed
/// is that the clock's readings are the numbers that were answered, in the order in which they were.
#[verifier::external_body]
pub(crate) fn nanos_since(clock: &mut Clock) -> (out: u128)
    ensures
        final(clock)@ == old(clock)@.push(out),
{
    clock.start.elapsed().as_nanos()
}

/// A span of time.
#[derive(Debug, Clone, Copy, PartialEq, Eq, Structural)]
pub struct Duration {
    pub nanos: u128,
}

impl Duration {
    /// A span of whole seconds.
    pub fn from_secs(secs: u64) -> (out: Duration)
        ensures
            out.nanos == secs * 1_000_000_000,
    {
        assert(secs * 1_000_000_000 <= u64::MAX * 1_000_000_000);
        Duration { nanos: secs as u128 * 1_000_000_000 }
    }
}

/// The whole milliseconds in `nanos`, kept to the low 64 bits.
pub open spec fn millis(nanos: u128) -> u64 {
    (nanos / 1_000_000) as u64
}

/// The whole milliseconds in `nanos`, kept to the low 64 bits.
pub fn to_millis(nanos: u128) -> (out: u64)
    ensures
        out == millis(nanos),
{
    #[verifier::truncate]
    ((nanos / 1_000_000) as u64)
}

/// **Milliseconds are whole, and none is missing.** A reading lies in the millisecond that it is given
/// as, for as long as that fits in 64 bits.
pub proof fn millis_are_whole(nanos: u128)
    ensures
        nanos < 0x1_0000_0000_0000_0000 * 1_000_000 ==> millis(nanos) * 1_000_000 <= nanos < (millis(
            nanos,
        ) + 1) * 1_000_000,
{
}

/// A running clock.
pub struct Clock {
    start: tokio::time::Instant,
    readings: Ghost<Seq<u128>>,
}

/// What was read off a clock so far, in order.
impl View for Clock {
    type V = Seq<u128>;

    closed spec fn view(&self) -> Seq<u128> {
        self.readings@
    }
}

impl Clock {
    /// A clock that starts now. Nothing was read off it yet.
    pub fn start() -> (out: Clock)
        ensures
            out@ == Seq::<u128>::empty(),
    {
        Clock { start: instant_now(), readings: Ghost(Seq::empty()) }
    }

    /// Nanoseconds since the clock was started. Any value may come back, so whatever is built on
    /// this is proved for every reading. A look at the clock does not count among its readings.
    pub fn elapsed(&self) -> u128 {
        let mut glance = Clock { start: self.start, readings: Ghost(Seq::empty()) };
        nanos_since(&mut glance)
    }
}

} // verus!
