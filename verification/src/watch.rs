//! A clock that is never behind itself.

use crate::clock;
use crate::clock::Clock;
use vstd::prelude::*;

verus! {

/// A clock whose readings never fall: where the clock underneath falls back, the last reading stands
/// until it has caught up.
pub struct Watch {
    clock: Clock,
    last: u128,
}

/// What a [`Watch`] says: its latest reading, and everything that was read off the clock underneath.
#[verifier::ext_equal]
pub struct WatchView {
    pub last: u128,
    pub raw: Seq<u128>,
}

impl View for Watch {
    type V = WatchView;

    closed spec fn view(&self) -> WatchView {
        WatchView { last: self.last, raw: self.clock@ }
    }
}

impl WatchView {
    /// Before anything was read.
    pub open spec fn unread() -> WatchView {
        WatchView { last: 0, raw: Seq::empty() }
    }
}

/// The watch was read exactly once between `a` and `b`. Its latest reading is then what the clock
/// underneath said, or the reading before, whichever is later.
pub open spec fn ticks(a: WatchView, b: WatchView) -> bool {
    &&& b.raw == a.raw.push(b.raw.last())
    &&& b.last == if a.last <= b.raw.last() {
        b.raw.last()
    } else {
        a.last
    }
}

/// **Readings never fall.** A reading is not below the one before it, nor below what the clock said;
/// and it is one of the two.
pub proof fn readings_never_fall(a: WatchView, b: WatchView)
    requires
        ticks(a, b),
    ensures
        a.last <= b.last,
        b.raw.len() == a.raw.len() + 1,
        b.raw.last() <= b.last,
        b.last == a.last || b.last == b.raw.last(),
        b.raw.last() >= a.last ==> b.last == b.raw.last(),
{
}

impl Watch {
    /// A watch that starts now.
    pub fn start() -> (out: Watch)
        ensures
            out@ == WatchView::unread(),
    {
        Watch { clock: Clock::start(), last: 0 }
    }

    /// Nanoseconds since the watch was started, and never less than before.
    pub fn read(&mut self) -> (out: u128)
        ensures
            ticks(old(self)@, final(self)@),
            out == final(self)@.last,
    {
        let now: u128 = clock::nanos_since(&mut self.clock);
        if self.last < now {
            self.last = now;
        }
        self.last
    }
}

} // verus!
