//! The in-memory lock service.
//!
//! For several races it is better than a real service, because it can be told to misbehave in ways
//! that a correct service never would.

use crate::clock::Duration;
use crate::history::{History, Log};
use crate::lock::table;
use crate::lock::table::{LockTable, TableView};
use crate::lock::LockService;
use crate::types::{HolderId, Holding, HoldingView, LockError, Refusal, ResourceId, Ticket, Version};
use crate::watch;
use crate::watch::{Watch, WatchView};
use vstd::hash_set::StringHashSet;
use vstd::prelude::*;

verus! {

/// Faults that the service can be told to inject.
pub struct Faults {
    /// Silently discard these holders' renewals while they stay otherwise live: a *wedged* holder
    /// that the service still answers as if it were healthy.
    pub swallow_keepalive: StringHashSet,
    /// Grant these resources to a second holder while the first still holds.
    pub grant_twice: StringHashSet,
    /// Issue the *previous* ticket again instead of a higher one. The only fault whose purpose is
    /// to make a check fail.
    pub non_monotonic_tickets: bool,
    /// Ignore these holders' releases, so that only the lease frees the lock.
    pub drop_release: StringHashSet,
}

/// What [`Faults`] says.
#[verifier::ext_equal]
pub struct FaultsView {
    pub swallow_keepalive: Set<Seq<char>>,
    pub grant_twice: Set<Seq<char>>,
    pub non_monotonic_tickets: bool,
    pub drop_release: Set<Seq<char>>,
}

/// No fault at all.
pub open spec fn no_faults() -> FaultsView {
    FaultsView {
        swallow_keepalive: Set::empty(),
        grant_twice: Set::empty(),
        non_monotonic_tickets: false,
        drop_release: Set::empty(),
    }
}

impl View for Faults {
    type V = FaultsView;

    open spec fn view(&self) -> FaultsView {
        FaultsView {
            swallow_keepalive: self.swallow_keepalive@,
            grant_twice: self.grant_twice@,
            non_monotonic_tickets: self.non_monotonic_tickets,
            drop_release: self.drop_release@,
        }
    }
}

/// By default nothing is injected.
impl Default for Faults {
    fn default() -> (out: Self)
        ensures
            out@ == no_faults(),
    {
        Faults {
            swallow_keepalive: StringHashSet::new(),
            grant_twice: StringHashSet::new(),
            non_monotonic_tickets: false,
            drop_release: StringHashSet::new(),
        }
    }
}

/// The in-memory lock service: a [`LockTable`] and the watch that its leases are read against.
pub struct FakeLockService {
    table: LockTable,
    watch: Watch,
}

/// What a [`FakeLockService`] says: its memory, and what was read off its watch.
#[verifier::ext_equal]
pub struct ServiceView {
    pub table: TableView,
    pub watch: WatchView,
}

impl View for FakeLockService {
    type V = ServiceView;

    closed spec fn view(&self) -> ServiceView {
        ServiceView { table: self.table@, watch: self.watch@ }
    }
}

/// The service before anyone has asked for anything.
pub open spec fn idle(lease: Duration, faults: FaultsView) -> TableView {
    TableView { next_ticket: 1, last_issued: 0, resources: Seq::empty(), faults, lease }
}

impl FakeLockService {
    /// A service that knows no resource and injects no fault.
    ///
    /// `lease` is the liveness timeout, on the scale of seconds, because it detects whether a
    /// *process* is alive. It is not the hold ceiling, which is on the scale of minutes, because
    /// that one bounds how long *work* may take.
    pub fn new(lease: Duration) -> (out: Self)
        ensures
            out@ == (ServiceView {
                table: idle(lease, no_faults()),
                watch: WatchView::unread(),
            }),
    {
        FakeLockService { table: LockTable::new(lease), watch: Watch::start() }
    }

    /// The same service with these faults to inject.
    pub fn with_faults(self, faults: Faults) -> (out: Self)
        ensures
            out@ == (ServiceView {
                table: TableView { faults: faults@, ..self@.table },
                ..self@
            }),
    {
        let mut out = self;
        out.table.set_faults(faults);
        out
    }

    /// Replaces the faults to inject from here on.
    pub fn set_faults(&mut self, faults: Faults)
        ensures
            final(self)@ == (ServiceView {
                table: TableView { faults: faults@, ..old(self)@.table },
                ..old(self)@
            }),
    {
        self.table.set_faults(faults);
    }

    /// Ends every hold of `resource` on the spot, rather than waiting for the clock: a control that
    /// no real service offers.
    pub fn force_expire(&mut self, history: &mut History, resource: &ResourceId)
        requires
            old(self)@.table.room(0),
        ensures
            watch::ticks(old(self)@.watch, final(self)@.watch),
            (final(self)@.table, final(history)@) == table::force_expire_outcome(
                old(self)@.table,
                old(history)@,
                final(self)@.watch.last,
                resource@,
            ),
            forall|n: nat| #[trigger] old(self)@.table.room(n) ==> final(self)@.table.room(n),
    {
        let now: u128 = self.watch.read();
        self.table.force_expire(history, now, resource);
    }

    /// The content version as it stands, without going through the interface.
    pub fn peek_version(&self, resource: &ResourceId) -> (out: Version)
        requires
            self@.table.room(0),
        ensures
            out == Version(self@.table.resource(resource@).version),
    {
        self.table.peek_version(resource)
    }
}

/// Every operation reads the watch exactly once, and the answer is the one that the table gives at that
/// reading.
impl LockService for FakeLockService {
    open spec fn room(state: ServiceView, n: nat) -> bool {
        state.table.room(n)
    }

    proof fn less_room(state: ServiceView, n: nat, m: nat) {
        let t = state.table;
        assert forall|i: int| 0 <= i < t.resources.len() implies (
        #[trigger] t.resources[i]).version + m <= u64::MAX by {
            assert(t.resources[i].version + n <= u64::MAX);
        }
    }

    fn has_room(&self, n: u64) -> (out: bool) {
        self.table.has_room(n)
    }

    open spec fn acquires(
        pre: ServiceView,
        log: Log,
        resource: Seq<char>,
        holder: Seq<char>,
        post: ServiceView,
        after: Log,
        out: Result<HoldingView, LockError>,
    ) -> bool {
        &&& watch::ticks(pre.watch, post.watch)
        &&& (post.table, after, out) == table::acquire_outcome(
            pre.table,
            log,
            post.watch.last,
            resource,
            holder,
        )
    }

    fn acquire(&mut self, history: &mut History, resource: &ResourceId, holder: &HolderId) -> (out:
        Result<Holding, LockError>) {
        let now: u128 = self.watch.read();
        self.table.acquire(history, now, resource, holder)
    }

    open spec fn releases(
        pre: ServiceView,
        log: Log,
        holding: HoldingView,
        post: ServiceView,
        after: Log,
        out: Result<(), LockError>,
    ) -> bool {
        &&& out is Ok
        &&& watch::ticks(pre.watch, post.watch)
        &&& (post.table, after) == table::release_outcome(
            pre.table,
            log,
            post.watch.last,
            holding,
        )
    }

    fn release(&mut self, history: &mut History, holding: &Holding) -> (out: Result<(), LockError>) {
        let now: u128 = self.watch.read();
        self.table.release(history, now, holding);
        Ok(())
    }

    open spec fn tells_ticket(
        pre: ServiceView,
        log: Log,
        resource: Seq<char>,
        post: ServiceView,
        after: Log,
        out: Result<Option<Ticket>, LockError>,
    ) -> bool {
        &&& out is Ok
        &&& watch::ticks(pre.watch, post.watch)
        &&& (post.table, after, out->Ok_0) == table::current_ticket_outcome(
            pre.table,
            log,
            post.watch.last,
            resource,
        )
    }

    fn current_ticket(&mut self, history: &mut History, resource: &ResourceId) -> (out: Result<
        Option<Ticket>,
        LockError,
    >) {
        let now: u128 = self.watch.read();
        Ok(self.table.current_ticket(history, now, resource))
    }

    open spec fn renews(
        pre: ServiceView,
        log: Log,
        holding: HoldingView,
        post: ServiceView,
        after: Log,
        out: Result<(), LockError>,
    ) -> bool {
        &&& watch::ticks(pre.watch, post.watch)
        &&& (post.table, after, out) == table::keepalive_outcome(
            pre.table,
            log,
            post.watch.last,
            holding,
        )
    }

    fn keepalive(&mut self, history: &mut History, holding: &Holding) -> (out: Result<
        (),
        LockError,
    >) {
        let now: u128 = self.watch.read();
        self.table.keepalive(history, now, holding)
    }

    open spec fn revokes(
        pre: ServiceView,
        log: Log,
        resource: Seq<char>,
        post: ServiceView,
        after: Log,
        out: Result<Ticket, LockError>,
    ) -> bool {
        &&& out is Ok
        &&& watch::ticks(pre.watch, post.watch)
        &&& (post.table, after, out->Ok_0) == table::force_release_outcome(
            pre.table,
            log,
            post.watch.last,
            resource,
        )
    }

    fn force_release(&mut self, history: &mut History, resource: &ResourceId) -> (out: Result<
        Ticket,
        LockError,
    >) {
        let now: u128 = self.watch.read();
        Ok(self.table.force_release(history, now, resource))
    }

    open spec fn tells_held(
        pre: ServiceView,
        log: Log,
        holding: HoldingView,
        post: ServiceView,
        after: Log,
        out: Result<bool, LockError>,
    ) -> bool {
        &&& out is Ok
        &&& watch::ticks(pre.watch, post.watch)
        &&& (post.table, after, out->Ok_0) == table::is_still_held_outcome(
            pre.table,
            log,
            post.watch.last,
            holding,
        )
    }

    fn is_still_held(&mut self, history: &mut History, holding: &Holding) -> (out: Result<
        bool,
        LockError,
    >) {
        let now: u128 = self.watch.read();
        Ok(self.table.is_still_held(history, now, holding))
    }

    open spec fn tells_version(
        pre: ServiceView,
        log: Log,
        resource: Seq<char>,
        post: ServiceView,
        after: Log,
        out: Result<Version, LockError>,
    ) -> bool {
        &&& out is Ok
        &&& watch::ticks(pre.watch, post.watch)
        &&& (post.table, after, out->Ok_0) == table::current_version_outcome(
            pre.table,
            log,
            post.watch.last,
            resource,
        )
    }

    fn current_version(&mut self, history: &mut History, resource: &ResourceId) -> (out: Result<
        Version,
        LockError,
    >) {
        let now: u128 = self.watch.read();
        Ok(self.table.current_version(history, now, resource))
    }

    open spec fn commits(
        pre: ServiceView,
        log: Log,
        holding: HoldingView,
        expected_version: Version,
        content_hash: u64,
        post: ServiceView,
        after: Log,
        out: Result<Version, Refusal>,
    ) -> bool {
        &&& watch::ticks(pre.watch, post.watch)
        &&& (post.table, after, out) == table::commit_outcome(
            pre.table,
            log,
            post.watch.last,
            holding,
            expected_version,
            content_hash,
        )
    }

    fn commit(
        &mut self,
        history: &mut History,
        holding: &Holding,
        expected_version: Version,
        content_hash: u64,
    ) -> (out: Result<Version, Refusal>) {
        let now: u128 = self.watch.read();
        self.table.commit(history, now, holding, expected_version, content_hash)
    }
}

} // verus!
