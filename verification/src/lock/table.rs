//! The state of the in-memory lock service, and what each operation does to it.
//!
//! Every operation is a function of the state, the history and one reading of the clock. Lapsed
//! leases are swept at the start of each operation, so expiry is *observed* rather than driven by a
//! timer.

use crate::clock;
use crate::clock::Duration;
use crate::history;
use crate::history::{Event, EventView, History, Log};
use crate::lock;
use crate::lock::fake::{Faults, FaultsView};
use crate::types::{HolderId, Holding, HoldingView, LockError, Refusal, ResourceId, Ticket, Version};
use vstd::prelude::*;

verus! {

struct HeldBy {
    holder: HolderId,
    ticket: Ticket,
    renewed_at: u128,
}

struct ResState {
    name: ResourceId,
    /// Normally zero or one entry. Two only where the service grants twice.
    held: Vec<HeldBy>,
    version: u64,
    content_hash: u64,
}

/// The lock service's memory.
pub struct LockTable {
    next_ticket: u64,
    last_issued: u64,
    resources: Vec<ResState>,
    faults: Faults,
    lease: Duration,
}

/// One hold: who, on which ticket, and when it was granted or last renewed.
#[verifier::ext_equal]
pub struct HeldView {
    pub holder: Seq<char>,
    pub ticket: Ticket,
    pub renewed_at: u128,
}

/// One resource as the lock service knows it.
#[verifier::ext_equal]
pub struct ResView {
    pub name: Seq<char>,
    pub held: Seq<HeldView>,
    pub version: u64,
    pub content_hash: u64,
}

/// The lock service's memory as a mathematical value. Resources stand in the order in which they
/// were first asked for.
#[verifier::ext_equal]
pub struct TableView {
    pub next_ticket: u64,
    pub last_issued: u64,
    pub resources: Seq<ResView>,
    pub faults: FaultsView,
    pub lease: Duration,
}

impl View for HeldBy {
    type V = HeldView;

    closed spec fn view(&self) -> HeldView {
        HeldView { holder: self.holder@, ticket: self.ticket, renewed_at: self.renewed_at }
    }
}

impl View for ResState {
    type V = ResView;

    closed spec fn view(&self) -> ResView {
        ResView {
            name: self.name@,
            held: self.held@.map_values(|h: HeldBy| h@),
            version: self.version,
            content_hash: self.content_hash,
        }
    }
}

impl View for LockTable {
    type V = TableView;

    closed spec fn view(&self) -> TableView {
        TableView {
            next_ticket: self.next_ticket,
            last_issued: self.last_issued,
            resources: self.resources@.map_values(|r: ResState| r@),
            faults: self.faults@,
            lease: self.lease,
        }
    }
}

/// Entry `i` is the one for `name`.
pub open spec fn is_at(rs: Seq<ResView>, name: Seq<char>, i: int) -> bool {
    0 <= i < rs.len() && rs[i].name == name
}

/// Where the entry for `name` stands, if there is one.
pub open spec fn position(rs: Seq<ResView>, name: Seq<char>) -> Option<int> {
    if exists|i: int| is_at(rs, name, i) {
        Some(choose|i: int| is_at(rs, name, i))
    } else {
        None
    }
}

/// No resource has two entries.
pub open spec fn distinct_names(rs: Seq<ResView>) -> bool {
    forall|i: int, j: int|
        0 <= i < rs.len() && 0 <= j < rs.len() && #[trigger] rs[i].name == #[trigger] rs[j].name
            ==> i == j
}

/// A resource nobody has asked for yet: unheld, at version zero.
pub open spec fn fresh(name: Seq<char>) -> ResView {
    ResView { name, held: Seq::empty(), version: 0, content_hash: 0 }
}

impl TableView {
    /// What the service knows of `name`.
    pub open spec fn resource(self, name: Seq<char>) -> ResView {
        match position(self.resources, name) {
            Some(i) => self.resources[i],
            None => fresh(name),
        }
    }

    /// The same memory with the entry of one resource replaced, or added at the end.
    pub open spec fn with_resource(self, r: ResView) -> TableView {
        TableView {
            resources: match position(self.resources, r.name) {
                Some(i) => self.resources.update(i, r),
                None => self.resources.push(r),
            },
            ..self
        }
    }

    /// The same memory with the entry of a known resource replaced. An unknown resource stays
    /// unknown.
    pub open spec fn with_known(self, r: ResView) -> TableView {
        if position(self.resources, r.name) is Some {
            self.with_resource(r)
        } else {
            self
        }
    }

    /// `n` more grants, revocations and commits fit in the counters.
    pub open spec fn room(self, n: nat) -> bool {
        &&& distinct_names(self.resources)
        &&& self.next_ticket + n <= u64::MAX
        &&& forall|i: int|
            0 <= i < self.resources.len() ==> (#[trigger] self.resources[i]).version + n
                <= u64::MAX
    }
}

/// The lease of `h` is over at `now`.
pub open spec fn lapsed(h: HeldView, lease: Duration, now: u128) -> bool {
    h.renewed_at + lease.nanos <= now
}

/// The holds that are still good at `now`, in order.
pub open spec fn live(held: Seq<HeldView>, lease: Duration, now: u128) -> Seq<HeldView>
    decreases held.len(),
{
    if held.len() == 0 {
        Seq::empty()
    } else if lapsed(held.last(), lease, now) {
        live(held.drop_last(), lease, now)
    } else {
        live(held.drop_last(), lease, now).push(held.last())
    }
}

/// The expiry events of one resource at `now`, in the order of its holds.
pub open spec fn expiries(name: Seq<char>, held: Seq<HeldView>, lease: Duration, now: u128) -> Seq<
    EventView,
>
    decreases held.len(),
{
    if held.len() == 0 {
        Seq::empty()
    } else if lapsed(held.last(), lease, now) {
        expiries(name, held.drop_last(), lease, now).push(
            EventView::LeaseExpired {
                holder: held.last().holder,
                resource: name,
                ticket: held.last().ticket,
            },
        )
    } else {
        expiries(name, held.drop_last(), lease, now)
    }
}

/// One resource without its lapsed holds.
pub open spec fn swept_resource(r: ResView, lease: Duration, now: u128) -> ResView {
    ResView { held: live(r.held, lease, now), ..r }
}

/// The history after the lapsed holds of `rs` were reported, resource after resource.
pub open spec fn swept_log(rs: Seq<ResView>, log: Log, lease: Duration, now: u128) -> Log
    decreases rs.len(),
{
    if rs.len() == 0 {
        log
    } else {
        history::record_all(
            swept_log(rs.drop_last(), log, lease, now),
            clock::millis(now),
            expiries(rs.last().name, rs.last().held, lease, now),
        )
    }
}

/// The memory without lapsed holds.
pub open spec fn swept(t: TableView, now: u128) -> TableView {
    TableView {
        resources: t.resources.map_values(|r: ResView| swept_resource(r, t.lease, now)),
        ..t
    }
}

/// Ticket `t` is held, and no held ticket is higher.
pub open spec fn is_highest(held: Seq<HeldView>, t: Ticket) -> bool {
    &&& exists|i: int| 0 <= i < held.len() && (#[trigger] held[i]).ticket == t
    &&& forall|i: int| 0 <= i < held.len() ==> (#[trigger] held[i]).ticket.0 <= t.0
}

/// The ticket in force: the highest among the current holds. Where the service granted twice, the
/// lower ticket therefore compares stale.
pub open spec fn in_force(held: Seq<HeldView>) -> Option<Ticket> {
    if held.len() == 0 {
        None
    } else {
        Some(choose|t: Ticket| is_highest(held, t))
    }
}

/// Some hold is on ticket `t`.
pub open spec fn holds(held: Seq<HeldView>, t: Ticket) -> bool {
    exists|i: int| 0 <= i < held.len() && (#[trigger] held[i]).ticket == t
}

/// The holds that are not on ticket `t`, in order.
pub open spec fn without_ticket(held: Seq<HeldView>, t: Ticket) -> Seq<HeldView>
    decreases held.len(),
{
    if held.len() == 0 {
        Seq::empty()
    } else if held.last().ticket == t {
        without_ticket(held.drop_last(), t)
    } else {
        without_ticket(held.drop_last(), t).push(held.last())
    }
}

/// The first hold on ticket `t` is the one at `k`.
pub open spec fn is_first(held: Seq<HeldView>, t: Ticket, k: int) -> bool {
    &&& 0 <= k < held.len()
    &&& held[k].ticket == t
    &&& forall|j: int| 0 <= j < k ==> (#[trigger] held[j]).ticket != t
}

/// The holds after the first one on ticket `t` was renewed at `now`.
pub open spec fn renewed(held: Seq<HeldView>, t: Ticket, now: u128) -> Seq<HeldView> {
    let k = choose|k: int| is_first(held, t, k);
    held.update(k, HeldView { renewed_at: now, ..held[k] })
}

/// The ticket that the next grant carries. Where tickets are made to repeat, it is the last one
/// again.
pub open spec fn next_issue(t: TableView) -> Ticket {
    if t.faults.non_monotonic_tickets {
        Ticket(if t.last_issued == 0 { 1 } else { t.last_issued })
    } else {
        Ticket(t.next_ticket)
    }
}

/// The memory after a ticket was issued.
pub open spec fn after_issue(t: TableView) -> TableView {
    TableView {
        next_ticket: if t.faults.non_monotonic_tickets {
            t.next_ticket
        } else {
            (t.next_ticket + 1) as u64
        },
        last_issued: next_issue(t).0,
        ..t
    }
}

/// Taking the lock: refused while someone else holds it, unless the service is told to grant twice.
pub open spec fn acquire_outcome(
    t: TableView,
    log: Log,
    now: u128,
    resource: Seq<char>,
    holder: Seq<char>,
) -> (TableView, Log, Result<HoldingView, LockError>) {
    let ms = clock::millis(now);
    let s = swept(t, now);
    let asked = history::record(
        swept_log(t.resources, log, t.lease, now),
        ms,
        EventView::TakeRequested { holder, resource },
    );
    let known = s.with_resource(s.resource(resource));
    if known.resource(resource).held.len() > 0 && !t.faults.grant_twice.contains(resource) {
        (known, asked, Err(LockError::Contended))
    } else {
        let ticket = next_issue(known);
        let issued = after_issue(known);
        let r = issued.resource(resource);
        (
            issued.with_resource(
                ResView { held: r.held.push(HeldView { holder, ticket, renewed_at: now }), ..r },
            ),
            history::record(
                history::record(asked, ms, EventView::TicketIssued { resource, ticket }),
                ms,
                EventView::TakeGranted { holder, resource, ticket },
            ),
            Ok(HoldingView { resource, holder, ticket }),
        )
    }
}

/// Giving the lock back. Never an error: giving back a lock already lost changes no hold. A
/// release that the service is told to drop does nothing at all.
pub open spec fn release_outcome(t: TableView, log: Log, now: u128, h: HoldingView) -> (
    TableView,
    Log,
) {
    let s = swept(t, now);
    let seen = swept_log(t.resources, log, t.lease, now);
    if t.faults.drop_release.contains(h.holder) {
        (s, seen)
    } else {
        let r = s.resource(h.resource);
        (
            s.with_known(ResView { held: without_ticket(r.held, h.ticket), ..r }),
            history::record(
                seen,
                clock::millis(now),
                EventView::GiveBack { holder: h.holder, resource: h.resource, ticket: h.ticket },
            ),
        )
    }
}

/// Asking for the ticket in force.
pub open spec fn current_ticket_outcome(t: TableView, log: Log, now: u128, resource: Seq<char>) -> (
    TableView,
    Log,
    Option<Ticket>,
) {
    let s = swept(t, now);
    (s, swept_log(t.resources, log, t.lease, now), in_force(s.resource(resource).held))
}

/// Renewing a hold. A renewal that the service is told to swallow is answered as if it had worked.
pub open spec fn keepalive_outcome(t: TableView, log: Log, now: u128, h: HoldingView) -> (
    TableView,
    Log,
    Result<(), LockError>,
) {
    let s = swept(t, now);
    let seen = swept_log(t.resources, log, t.lease, now);
    let r = s.resource(h.resource);
    if t.faults.swallow_keepalive.contains(h.holder) {
        (s, seen, Ok(()))
    } else if holds(r.held, h.ticket) {
        (
            s.with_known(ResView { held: renewed(r.held, h.ticket, now), ..r }),
            seen,
            Ok(()),
        )
    } else {
        (s, seen, Err(LockError::Expired))
    }
}

/// Taking the lock away from whoever holds it. No lock is taken to do so, no holder is asked, and
/// it always succeeds. The barrier that it answers is the next ticket to be issued.
pub open spec fn force_release_outcome(t: TableView, log: Log, now: u128, resource: Seq<char>) -> (
    TableView,
    Log,
    Ticket,
) {
    let s = swept(t, now);
    let r = s.resource(resource);
    let barrier = Ticket((t.next_ticket + 1) as u64);
    (
        TableView {
            next_ticket: barrier.0,
            ..s.with_known(ResView { held: Seq::empty(), ..r })
        },
        history::record(
            swept_log(t.resources, log, t.lease, now),
            clock::millis(now),
            EventView::Revoked { resource, by: "preemptor"@, new_ticket: Some(barrier) },
        ),
        barrier,
    )
}

/// Asking whether a hold is still there. Advisory only.
pub open spec fn is_still_held_outcome(t: TableView, log: Log, now: u128, h: HoldingView) -> (
    TableView,
    Log,
    bool,
) {
    let s = swept(t, now);
    (
        s,
        swept_log(t.resources, log, t.lease, now),
        holds(s.resource(h.resource).held, h.ticket),
    )
}

/// Asking for the content version.
pub open spec fn current_version_outcome(
    t: TableView,
    log: Log,
    now: u128,
    resource: Seq<char>,
) -> (TableView, Log, Version) {
    let s = swept(t, now);
    (s, swept_log(t.resources, log, t.lease, now), Version(s.resource(resource).version))
}

/// The atomic step. A write is authorized exactly if its ticket is in force *and* the content is
/// still at the expected version; the version then moves on by one. Otherwise nothing changes.
pub open spec fn commit_outcome(
    t: TableView,
    log: Log,
    now: u128,
    h: HoldingView,
    expected: Version,
    hash: u64,
) -> (TableView, Log, Result<Version, Refusal>) {
    let s = swept(t, now);
    let seen = swept_log(t.resources, log, t.lease, now);
    let r = s.resource(h.resource);
    let current = in_force(r.held);
    if current != Some(h.ticket) {
        (s, seen, Err(Refusal::StaleTicket { held: h.ticket, current }))
    } else if Version(r.version) != expected {
        (s, seen, Err(Refusal::StaleVersion { read: expected, current: Version(r.version) }))
    } else {
        let version = (r.version + 1) as u64;
        (
            s.with_known(ResView { version, content_hash: hash, ..r }),
            seen,
            Ok(Version(version)),
        )
    }
}

/// Ending every hold of one resource on the spot, whatever the clock says.
pub open spec fn force_expire_outcome(t: TableView, log: Log, now: u128, resource: Seq<char>) -> (
    TableView,
    Log,
) {
    let r = t.resource(resource);
    (
        t.with_known(ResView { held: Seq::empty(), ..r }),
        history::record_all(log, clock::millis(now), all_expired(resource, r.held)),
    )
}

/// An expiry event for each of `held`, in order.
pub open spec fn all_expired(name: Seq<char>, held: Seq<HeldView>) -> Seq<EventView> {
    held.map_values(
        |h: HeldView|
            EventView::LeaseExpired { holder: h.holder, resource: name, ticket: h.ticket },
    )
}

pub(crate) proof fn lemma_position(rs: Seq<ResView>, name: Seq<char>, i: int)
    requires
        distinct_names(rs),
        is_at(rs, name, i),
    ensures
        position(rs, name) == Some(i),
{
    let j = choose|j: int| is_at(rs, name, j);
    assert(is_at(rs, name, j));
    assert(rs[i].name == rs[j].name);
}

/// What is known of a resource carries its name.
pub(crate) proof fn lemma_named(t: TableView, name: Seq<char>)
    ensures
        t.resource(name).name == name,
{
    if exists|i: int| is_at(t.resources, name, i) {
        let i = choose|i: int| is_at(t.resources, name, i);
        assert(is_at(t.resources, name, i));
    }
}

pub(crate) proof fn lemma_in_force(held: Seq<HeldView>, t: Ticket)
    requires
        is_highest(held, t),
    ensures
        in_force(held) == Some(t),
{
    let i = choose|i: int| 0 <= i < held.len() && (#[trigger] held[i]).ticket == t;
    let u = choose|u: Ticket| is_highest(held, u);
    assert(is_highest(held, u));
    let j = choose|j: int| 0 <= j < held.len() && (#[trigger] held[j]).ticket == u;
    assert(held[i].ticket.0 <= u.0);
    assert(held[j].ticket.0 <= t.0);
}

/// Where a ticket is held, some hold is the first on it.
pub(crate) proof fn lemma_has_first(held: Seq<HeldView>, t: Ticket)
    requires
        holds(held, t),
    ensures
        exists|k: int| is_first(held, t, k),
    decreases held.len(),
{
    let first = held.drop_last();
    if holds(first, t) {
        lemma_has_first(first, t);
        let k = choose|k: int| is_first(first, t, k);
        assert(is_first(first, t, k));
        assert forall|j: int| 0 <= j < k implies (#[trigger] held[j]).ticket != t by {
            assert(first[j].ticket != t);
        }
        assert(is_first(held, t, k));
    } else {
        let k = choose|k: int| 0 <= k < held.len() && (#[trigger] held[k]).ticket == t;
        assert forall|j: int| 0 <= j < k implies (#[trigger] held[j]).ticket != t by {
            assert(first[j] == held[j]);
        }
        assert(is_first(held, t, k));
    }
}

/// Where anything is held, some held ticket is the highest.
pub(crate) proof fn lemma_has_highest(held: Seq<HeldView>)
    requires
        held.len() > 0,
    ensures
        exists|t: Ticket| is_highest(held, t),
    decreases held.len(),
{
    let last = held.last();
    if held.len() == 1 {
        assert(held[0].ticket == last.ticket);
        assert(is_highest(held, last.ticket));
    } else {
        let first = held.drop_last();
        lemma_has_highest(first);
        let t = choose|t: Ticket| is_highest(first, t);
        assert(is_highest(first, t));
        let k = choose|k: int| 0 <= k < first.len() && (#[trigger] first[k]).ticket == t;
        assert(held[k].ticket == t);
        assert(held[held.len() - 1].ticket == last.ticket);
        let top = if last.ticket.0 > t.0 {
            last.ticket
        } else {
            t
        };
        assert forall|i: int| 0 <= i < held.len() implies (#[trigger] held[i]).ticket.0 <= top.0 by {
            if i < first.len() {
                assert(first[i].ticket.0 <= t.0);
            }
        }
        assert(is_highest(held, top));
    }
}

impl ResState {
    /// Drops the lapsed holds and reports each.
    fn sweep(&mut self, history: &mut History, lease: Duration, now: u128)
        ensures
            final(self)@ == swept_resource(old(self)@, lease, now),
            final(history)@ == history::record_all(
                old(history)@,
                clock::millis(now),
                expiries(old(self)@.name, old(self)@.held, lease, now),
            ),
    {
        let ghost all = self@.held;
        let ghost log = history@;
        let ghost name = self@.name;
        let ms: u64 = clock::to_millis(now);
        let mut k: usize = 0;
        let ghost mut done: int = 0;
        proof {
            assert(all.take(0) =~= Seq::empty());
            assert(all.skip(0) =~= all);
            assert(live(all.take(0), lease, now) + all.skip(0) =~= all);
        }
        while k < self.held.len()
            invariant
                0 <= done <= all.len(),
                k == live(all.take(done), lease, now).len(),
                self@.held == live(all.take(done), lease, now) + all.skip(done),
                self@.name == name,
                self@.version == old(self)@.version,
                self@.content_hash == old(self)@.content_hash,
                history@ == history::record_all(
                    log,
                    ms,
                    expiries(name, all.take(done), lease, now),
                ),
                ms == clock::millis(now),
                name == old(self)@.name,
            decreases all.len() - done,
        {
            let ghost before = self@.held;
            let ghost kept = live(all.take(done), lease, now);
            proof {
                assert(all.take(done + 1).drop_last() =~= all.take(done));
                assert(all.take(done + 1).last() == all[done]);
                assert(before[k as int] == all.skip(done)[0]);
                assert(self.held@[k as int]@ == before[k as int]);
            }
            let renewed_at: u128 = self.held[k].renewed_at;
            if renewed_at <= now && now - renewed_at >= lease.nanos {
                let gone = self.held.remove(k);
                history.record(
                    ms,
                    Event::LeaseExpired {
                        holder: gone.holder,
                        resource: self.name.clone(),
                        ticket: gone.ticket,
                    },
                );
                proof {
                    assert(self@.held =~= before.remove(k as int));
                    assert(before.remove(k as int) =~= kept + all.skip(done + 1));
                    assert(expiries(name, all.take(done + 1), lease, now).drop_last()
                        =~= expiries(name, all.take(done), lease, now));
                }
            } else {
                k = k + 1;
                proof {
                    assert(kept + all.skip(done) =~= kept.push(all[done]) + all.skip(done + 1));
                }
            }
            proof {
                done = done + 1;
            }
        }
        proof {
            if done < all.len() {
                assert(all.skip(done).len() > 0);
            }
            assert(all.take(done) =~= all);
            assert(self@.held =~= live(all, lease, now));
        }
    }

    /// The ticket in force.
    fn current(&self) -> (out: Option<Ticket>)
        ensures
            out == in_force(self@.held),
    {
        if self.held.len() == 0 {
            return None;
        }
        let mut best: Ticket = self.held[0].ticket;
        let mut i: usize = 1;
        let ghost mut at: int = 0;
        while i < self.held.len()
            invariant
                1 <= i <= self.held.len(),
                0 <= at < i,
                self@.held[at].ticket == best,
                forall|j: int| 0 <= j < i ==> (#[trigger] self@.held[j]).ticket.0 <= best.0,
            decreases self.held.len() - i,
        {
            let t: Ticket = self.held[i].ticket;
            assert(self@.held[i as int].ticket == t);
            if t.0 > best.0 {
                best = t;
                proof {
                    at = i as int;
                }
            }
            i = i + 1;
        }
        proof {
            assert(is_highest(self@.held, best));
            lemma_in_force(self@.held, best);
        }
        Some(best)
    }

    /// Where the first hold on `ticket` stands.
    fn first_on(&self, ticket: Ticket) -> (out: Option<usize>)
        ensures
            match out {
                Some(k) => is_first(self@.held, ticket, k as int),
                None => !holds(self@.held, ticket),
            },
    {
        let mut k: usize = 0;
        while k < self.held.len()
            invariant
                k <= self.held.len(),
                forall|j: int| 0 <= j < k ==> (#[trigger] self@.held[j]).ticket != ticket,
            decreases self.held.len() - k,
        {
            assert(self@.held[k as int].ticket == self.held@[k as int].ticket);
            if self.held[k].ticket == ticket {
                return Some(k);
            }
            k = k + 1;
        }
        None
    }

    /// Drops the holds on `ticket`.
    fn give_back(&mut self, ticket: Ticket)
        ensures
            final(self)@ == (ResView {
                held: without_ticket(old(self)@.held, ticket),
                ..old(self)@
            }),
    {
        let ghost all = self@.held;
        let mut k: usize = 0;
        let ghost mut done: int = 0;
        proof {
            assert(all.take(0) =~= Seq::empty());
            assert(without_ticket(all.take(0), ticket) + all.skip(0) =~= all);
        }
        while k < self.held.len()
            invariant
                0 <= done <= all.len(),
                k == without_ticket(all.take(done), ticket).len(),
                self@.held == without_ticket(all.take(done), ticket) + all.skip(done),
                self@.name == old(self)@.name,
                self@.version == old(self)@.version,
                self@.content_hash == old(self)@.content_hash,
            decreases all.len() - done,
        {
            let ghost before = self@.held;
            let ghost kept = without_ticket(all.take(done), ticket);
            proof {
                assert(all.take(done + 1).drop_last() =~= all.take(done));
                assert(all.take(done + 1).last() == all[done]);
                assert(before[k as int] == all.skip(done)[0]);
                assert(self.held@[k as int]@ == before[k as int]);
            }
            if self.held[k].ticket == ticket {
                let _gone = self.held.remove(k);
                proof {
                    assert(self@.held =~= before.remove(k as int));
                    assert(before.remove(k as int) =~= kept + all.skip(done + 1));
                }
            } else {
                k = k + 1;
                proof {
                    assert(kept + all.skip(done) =~= kept.push(all[done]) + all.skip(done + 1));
                }
            }
            proof {
                done = done + 1;
            }
        }
        proof {
            if done < all.len() {
                assert(all.skip(done).len() > 0);
            }
            assert(all.take(done) =~= all);
            assert(self@.held =~= without_ticket(all, ticket));
        }
    }
}

impl LockTable {
    /// An empty memory: no resource is known, and the first ticket will be number one, so that
    /// ticket zero is never valid.
    pub fn new(lease: Duration) -> (out: Self)
        ensures
            out@ == (TableView {
                next_ticket: 1,
                last_issued: 0,
                resources: Seq::empty(),
                faults: crate::lock::fake::no_faults(),
                lease,
            }),
    {
        let out = LockTable {
            next_ticket: 1,
            last_issued: 0,
            resources: Vec::new(),
            faults: Faults::default(),
            lease,
        };
        assert(out@.resources =~= Seq::empty());
        out
    }

    /// Replaces the faults to inject from here on.
    pub fn set_faults(&mut self, faults: Faults)
        ensures
            final(self)@ == (TableView { faults: faults@, ..old(self)@ }),
    {
        self.faults = faults;
    }

    /// Where the entry for `name` stands.
    fn find(&self, name: &ResourceId) -> (out: Option<usize>)
        requires
            distinct_names(self@.resources),
        ensures
            match out {
                Some(i) => is_at(self@.resources, name@, i as int) && position(
                    self@.resources,
                    name@,
                ) == Some(i as int),
                None => position(self@.resources, name@) is None,
            },
    {
        let mut i: usize = 0;
        while i < self.resources.len()
            invariant
                i <= self.resources.len(),
                distinct_names(self@.resources),
                forall|j: int| 0 <= j < i ==> (#[trigger] self@.resources[j]).name != name@,
            decreases self.resources.len() - i,
        {
            assert(self@.resources[i as int].name == self.resources@[i as int].name@);
            if self.resources[i].name == *name {
                proof {
                    lemma_position(self@.resources, name@, i as int);
                }
                return Some(i);
            }
            i = i + 1;
        }
        proof {
            assert(forall|j: int| !is_at(self@.resources, name@, j));
        }
        None
    }

    /// Where the entry for `name` stands; it is added at the end if there is none.
    fn find_or_add(&mut self, name: &ResourceId) -> (out: usize)
        requires
            distinct_names(old(self)@.resources),
        ensures
            final(self)@ == old(self)@.with_resource(old(self)@.resource(name@)),
            distinct_names(final(self)@.resources),
            is_at(final(self)@.resources, name@, out as int),
            position(final(self)@.resources, name@) == Some(out as int),
            final(self)@.resources[out as int] == old(self)@.resource(name@),
    {
        let found = self.find(name);
        match found {
            Some(i) => {
                assert(self@.resources.update(i as int, self@.resources[i as int])
                    =~= self@.resources);
                i
            },
            None => {
                let i: usize = self.resources.len();
                self.resources.push(
                    ResState {
                        name: name.clone(),
                        held: Vec::new(),
                        version: 0,
                        content_hash: 0,
                    },
                );
                proof {
                    assert(forall|j: int| !is_at(old(self)@.resources, name@, j));
                    assert(self.resources@[i as int]@.held =~= Seq::empty());
                    assert(self@.resources =~= old(self)@.resources.push(fresh(name@)));
                    assert forall|a: int, b: int|
                        0 <= a < self@.resources.len() && 0 <= b < self@.resources.len()
                            && #[trigger] self@.resources[a].name
                            == #[trigger] self@.resources[b].name implies a == b by {
                        assert(!is_at(old(self)@.resources, name@, a));
                        assert(!is_at(old(self)@.resources, name@, b));
                        if a < i && b < i {
                            assert(old(self)@.resources[a].name == old(self)@.resources[b].name);
                        }
                    }
                    lemma_position(self@.resources, name@, i as int);
                }
                i
            },
        }
    }

    /// Drops every lapsed hold and reports each.
    fn sweep(&mut self, history: &mut History, now: u128)
        ensures
            final(self)@ == swept(old(self)@, now),
            final(history)@ == swept_log(
                old(self)@.resources,
                old(history)@,
                old(self)@.lease,
                now,
            ),
            distinct_names(old(self)@.resources) ==> distinct_names(final(self)@.resources),
    {
        let ghost all = self@.resources;
        let ghost log = history@;
        let lease: Duration = self.lease;
        let mut i: usize = 0;
        proof {
            assert(all.take(0) =~= Seq::empty());
        }
        while i < self.resources.len()
            invariant
                i <= all.len(),
                lease == self@.lease,
                self@.resources.len() == all.len(),
                forall|j: int|
                    0 <= j < all.len() ==> #[trigger] self@.resources[j] == (if j < i {
                        swept_resource(all[j], lease, now)
                    } else {
                        all[j]
                    }),
                (TableView { resources: all, ..self@ }) == old(self)@,
                history@ == swept_log(all.take(i as int), log, lease, now),
            decreases all.len() - i,
        {
            let ghost before = self@.resources;
            proof {
                assert(before[i as int] == all[i as int]);
                assert(before[i as int] == self.resources@[i as int]@);
                assert(all.take(i + 1).drop_last() =~= all.take(i as int));
                assert(all.take(i + 1).last() == all[i as int]);
            }
            self.resources[i].sweep(history, lease, now);
            proof {
                assert(self@.resources =~= before.update(
                    i as int,
                    swept_resource(all[i as int], lease, now),
                ));
            }
            i = i + 1;
        }
        proof {
            assert(all.take(i as int) =~= all);
            assert(self@.resources =~= swept(old(self)@, now).resources);
            assert(self@ =~= swept(old(self)@, now));
            if distinct_names(all) {
                assert forall|a: int, b: int|
                    0 <= a < self@.resources.len() && 0 <= b < self@.resources.len()
                        && #[trigger] self@.resources[a].name == #[trigger] self@.resources[b].name
                    implies a == b by {
                    assert(all[a].name == all[b].name);
                }
            }
        }
    }

    /// Issues the next ticket and reports it.
    fn issue(&mut self, history: &mut History, now: u128, resource: &ResourceId) -> (out: Ticket)
        requires
            old(self)@.next_ticket < u64::MAX,
        ensures
            out == next_issue(old(self)@),
            final(self)@ == after_issue(old(self)@),
            final(history)@ == history::record(
                old(history)@,
                clock::millis(now),
                EventView::TicketIssued { resource: resource@, ticket: out },
            ),
    {
        let value: u64 = if self.faults.non_monotonic_tickets {
            if self.last_issued == 0 {
                1
            } else {
                self.last_issued
            }
        } else {
            let v: u64 = self.next_ticket;
            self.next_ticket = self.next_ticket + 1;
            v
        };
        self.last_issued = value;
        let t = Ticket(value);
        history.record(
            clock::to_millis(now),
            Event::TicketIssued { resource: resource.clone(), ticket: t },
        );
        t
    }

    /// Takes the lock at `now`.
    pub fn acquire(
        &mut self,
        history: &mut History,
        now: u128,
        resource: &ResourceId,
        holder: &HolderId,
    ) -> (out: Result<Holding, LockError>)
        requires
            old(self)@.room(1),
        ensures
            (final(self)@, final(history)@, lock::holding_reply(out)) == acquire_outcome(
                old(self)@,
                old(history)@,
                now,
                resource@,
                holder@,
            ),
            forall|n: nat|
                0 < n && #[trigger] old(self)@.room(n) ==> final(self)@.room((n - 1) as nat),
    {
        proof {
            lemma_swept_room(old(self)@, now);
        }
        self.sweep(history, now);
        let ms: u64 = clock::to_millis(now);
        history.record(
            ms,
            Event::TakeRequested { holder: holder.clone(), resource: resource.clone() },
        );
        let ghost s = self@;
        let i = self.find_or_add(resource);
        let ghost known = self@;
        proof {
            assert(known.resources[i as int] == self.resources@[i as int]@);
        }
        if self.resources[i].held.len() > 0 && !self.faults.grant_twice.contains(resource.as_str()) {
            return Err(LockError::Contended);
        }
        let ticket = self.issue(history, now, resource);
        let ghost issued = self@;
        proof {
            assert(issued.resources[i as int] == self.resources@[i as int]@);
            assert(position(issued.resources, resource@) == Some(i as int));
        }
        self.resources[i].held.push(HeldBy { holder: holder.clone(), ticket, renewed_at: now });
        proof {
            let r = issued.resource(resource@);
            let r2 = ResView {
                held: r.held.push(HeldView { holder: holder@, ticket, renewed_at: now }),
                ..r
            };
            assert(self.resources@[i as int]@.held =~= r2.held);
            assert(self@.resources =~= issued.resources.update(i as int, r2));
            assert(self@ =~= issued.with_resource(r2));
        }
        history.record(
            ms,
            Event::TakeGranted { holder: holder.clone(), resource: resource.clone(), ticket },
        );
        Ok(Holding { resource: resource.clone(), holder: holder.clone(), ticket })
    }

    /// Gives the lock back at `now`.
    pub fn release(&mut self, history: &mut History, now: u128, holding: &Holding)
        requires
            old(self)@.room(0),
        ensures
            (final(self)@, final(history)@) == release_outcome(
                old(self)@,
                old(history)@,
                now,
                holding@,
            ),
            forall|n: nat| #[trigger] old(self)@.room(n) ==> final(self)@.room(n),
    {
        proof {
            lemma_swept_room(old(self)@, now);
        }
        self.sweep(history, now);
        if self.faults.drop_release.contains(holding.holder.as_str()) {
            return ;
        }
        let ghost s = self@;
        let found = self.find(&holding.resource);
        match found {
            Some(i) => {
                proof {
                    assert(s.resources[i as int] == self.resources@[i as int]@);
                }
                self.resources[i].give_back(holding.ticket);
                proof {
                    assert(self@.resources =~= s.resources.update(
                        i as int,
                        self.resources@[i as int]@,
                    ));
                }
            },
            None => {},
        }
        history.record(
            clock::to_millis(now),
            Event::GiveBack {
                holder: holding.holder.clone(),
                resource: holding.resource.clone(),
                ticket: holding.ticket,
            },
        );
    }

    /// The ticket in force at `now`.
    pub fn current_ticket(&mut self, history: &mut History, now: u128, resource: &ResourceId) -> (out:
        Option<Ticket>)
        requires
            old(self)@.room(0),
        ensures
            (final(self)@, final(history)@, out) == current_ticket_outcome(
                old(self)@,
                old(history)@,
                now,
                resource@,
            ),
            forall|n: nat| #[trigger] old(self)@.room(n) ==> final(self)@.room(n),
    {
        proof {
            lemma_swept_room(old(self)@, now);
        }
        self.sweep(history, now);
        let found = self.find(resource);
        match found {
            Some(i) => {
                assert(self@.resources[i as int] == self.resources@[i as int]@);
                self.resources[i].current()
            },
            None => None,
        }
    }

    /// Renews a hold at `now`.
    pub fn keepalive(&mut self, history: &mut History, now: u128, holding: &Holding) -> (out: Result<
        (),
        LockError,
    >)
        requires
            old(self)@.room(0),
        ensures
            (final(self)@, final(history)@, out) == keepalive_outcome(
                old(self)@,
                old(history)@,
                now,
                holding@,
            ),
            forall|n: nat| #[trigger] old(self)@.room(n) ==> final(self)@.room(n),
    {
        proof {
            lemma_swept_room(old(self)@, now);
        }
        self.sweep(history, now);
        if self.faults.swallow_keepalive.contains(holding.holder.as_str()) {
            return Ok(());
        }
        let ghost s = self@;
        let found = self.find(&holding.resource);
        match found {
            Some(i) => {
                proof {
                    assert(s.resources[i as int] == self.resources@[i as int]@);
                }
                let first = self.resources[i].first_on(holding.ticket);
                match first {
                    Some(k) => {
                        let ghost held = s.resources[i as int].held;
                        self.resources[i].held[k].renewed_at = now;
                        proof {
                            assert(is_first(held, holding.ticket, k as int));
                            let k2 = choose|k2: int| is_first(held, holding.ticket, k2);
                            assert(is_first(held, holding.ticket, k2));
                            assert(k2 == k as int);
                            assert(holds(held, holding.ticket));
                            assert(self.resources@[i as int]@.held =~= renewed(
                                held,
                                holding.ticket,
                                now,
                            ));
                            assert(self@.resources =~= s.resources.update(
                                i as int,
                                self.resources@[i as int]@,
                            ));
                        }
                        Ok(())
                    },
                    None => Err(LockError::Expired),
                }
            },
            None => {
                assert(s.resource(holding.resource@).held.len() == 0);
                Err(LockError::Expired)
            },
        }
    }

    /// Takes the lock away from whoever holds it at `now`.
    pub fn force_release(&mut self, history: &mut History, now: u128, resource: &ResourceId) -> (out:
        Ticket)
        requires
            old(self)@.room(1),
        ensures
            (final(self)@, final(history)@, out) == force_release_outcome(
                old(self)@,
                old(history)@,
                now,
                resource@,
            ),
            forall|n: nat|
                0 < n && #[trigger] old(self)@.room(n) ==> final(self)@.room((n - 1) as nat),
    {
        proof {
            lemma_swept_room(old(self)@, now);
        }
        self.sweep(history, now);
        let ghost s = self@;
        let found = self.find(resource);
        match found {
            Some(i) => {
                proof {
                    assert(s.resources[i as int] == self.resources@[i as int]@);
                }
                self.resources[i].held.clear();
                proof {
                    assert(self.resources@[i as int]@.held =~= Seq::empty());
                    assert(self@.resources =~= s.resources.update(
                        i as int,
                        self.resources@[i as int]@,
                    ));
                }
            },
            None => {},
        }
        self.next_ticket = self.next_ticket + 1;
        let barrier = Ticket(self.next_ticket);
        history.record(
            clock::to_millis(now),
            Event::Revoked {
                resource: resource.clone(),
                by: "preemptor".to_owned(),
                new_ticket: Some(barrier),
            },
        );
        barrier
    }

    /// Whether a hold is still there at `now`.
    pub fn is_still_held(&mut self, history: &mut History, now: u128, holding: &Holding) -> (out:
        bool)
        requires
            old(self)@.room(0),
        ensures
            (final(self)@, final(history)@, out) == is_still_held_outcome(
                old(self)@,
                old(history)@,
                now,
                holding@,
            ),
            forall|n: nat| #[trigger] old(self)@.room(n) ==> final(self)@.room(n),
    {
        proof {
            lemma_swept_room(old(self)@, now);
        }
        self.sweep(history, now);
        let found = self.find(&holding.resource);
        match found {
            Some(i) => {
                assert(self@.resources[i as int] == self.resources@[i as int]@);
                match self.resources[i].first_on(holding.ticket) {
                    Some(_) => true,
                    None => false,
                }
            },
            None => {
                assert(self@.resource(holding.resource@).held.len() == 0);
                false
            },
        }
    }

    /// The content version at `now`.
    pub fn current_version(&mut self, history: &mut History, now: u128, resource: &ResourceId) -> (out:
        Version)
        requires
            old(self)@.room(0),
        ensures
            (final(self)@, final(history)@, out) == current_version_outcome(
                old(self)@,
                old(history)@,
                now,
                resource@,
            ),
            forall|n: nat| #[trigger] old(self)@.room(n) ==> final(self)@.room(n),
    {
        proof {
            lemma_swept_room(old(self)@, now);
        }
        self.sweep(history, now);
        self.peek_version(resource)
    }

    /// Authorizes a write at `now`, or says why not.
    pub fn commit(
        &mut self,
        history: &mut History,
        now: u128,
        holding: &Holding,
        expected_version: Version,
        content_hash: u64,
    ) -> (out: Result<Version, Refusal>)
        requires
            old(self)@.room(1),
        ensures
            (final(self)@, final(history)@, out) == commit_outcome(
                old(self)@,
                old(history)@,
                now,
                holding@,
                expected_version,
                content_hash,
            ),
            forall|n: nat|
                0 < n && #[trigger] old(self)@.room(n) ==> final(self)@.room((n - 1) as nat),
    {
        proof {
            lemma_swept_room(old(self)@, now);
        }
        self.sweep(history, now);
        let ghost s = self@;
        let found = self.find(&holding.resource);
        match found {
            Some(i) => {
                proof {
                    assert(s.resources[i as int] == self.resources@[i as int]@);
                }
                let current = self.resources[i].current();
                if current != Some(holding.ticket) {
                    return Err(Refusal::StaleTicket { held: holding.ticket, current });
                }
                let version: u64 = self.resources[i].version;
                if version != expected_version.0 {
                    return Err(
                        Refusal::StaleVersion { read: expected_version, current: Version(version) },
                    );
                }
                proof {
                    assert(s.room(1));
                    assert(s.resources[i as int].version + 1 <= u64::MAX);
                }
                self.resources[i].version = version + 1;
                self.resources[i].content_hash = content_hash;
                proof {
                    assert(self@.resources =~= s.resources.update(
                        i as int,
                        self.resources@[i as int]@,
                    ));
                }
                Ok(Version(version + 1))
            },
            None => Err(Refusal::StaleTicket { held: holding.ticket, current: None }),
        }
    }

    /// Ends every hold of `resource` at `now`, whatever its lease says.
    pub fn force_expire(&mut self, history: &mut History, now: u128, resource: &ResourceId)
        requires
            old(self)@.room(0),
        ensures
            (final(self)@, final(history)@) == force_expire_outcome(
                old(self)@,
                old(history)@,
                now,
                resource@,
            ),
            forall|n: nat| #[trigger] old(self)@.room(n) ==> final(self)@.room(n),
    {
        let ghost s = self@;
        let ghost log = history@;
        let ms: u64 = clock::to_millis(now);
        let found = self.find(resource);
        match found {
            Some(i) => {
                proof {
                    assert(s.resources[i as int] == self.resources@[i as int]@);
                    assert(all_expired(resource@, s.resources[i as int].held).take(0)
                        =~= Seq::empty());
                }
                let mut k: usize = 0;
                while k < self.resources[i].held.len()
                    invariant
                        self@ == s,
                        i < self.resources.len(),
                        s.resources[i as int] == self.resources@[i as int]@,
                        k <= s.resources[i as int].held.len(),
                        ms == clock::millis(now),
                        history@ == history::record_all(
                            log,
                            ms,
                            all_expired(resource@, s.resources[i as int].held).take(k as int),
                        ),
                    decreases s.resources[i as int].held.len() - k,
                {
                    let ghost events = all_expired(resource@, s.resources[i as int].held);
                    history.record(
                        ms,
                        Event::LeaseExpired {
                            holder: self.resources[i].held[k].holder.clone(),
                            resource: resource.clone(),
                            ticket: self.resources[i].held[k].ticket,
                        },
                    );
                    proof {
                        let h = self.resources@[i as int].held@[k as int];
                        assert(s.resources[i as int].held[k as int] == h@);
                        assert(events.take(k + 1).drop_last() =~= events.take(k as int));
                        assert(events.take(k + 1).last() == events[k as int]);
                    }
                    k = k + 1;
                }
                self.resources[i].held.clear();
                proof {
                    let events = all_expired(resource@, s.resources[i as int].held);
                    assert(events.take(k as int) =~= events);
                    assert(self.resources@[i as int]@.held =~= Seq::empty());
                    assert(self@.resources =~= s.resources.update(
                        i as int,
                        self.resources@[i as int]@,
                    ));
                }
            },
            None => {
                assert(all_expired(resource@, s.resource(resource@).held) =~= Seq::empty());
            },
        }
    }

    /// Whether `n` more grants, revocations and commits fit in the counters.
    pub fn has_room(&self, n: u64) -> (out: bool)
        ensures
            out == self@.room(n as nat),
    {
        if self.next_ticket > u64::MAX - n {
            return false;
        }
        let ghost rs = self@.resources;
        let mut i: usize = 0;
        while i < self.resources.len()
            invariant
                i <= self.resources.len(),
                rs == self@.resources,
                forall|a: int, b: int|
                    0 <= a < i && 0 <= b < i && #[trigger] rs[a].name == #[trigger] rs[b].name
                        ==> a == b,
                forall|a: int| 0 <= a < i ==> (#[trigger] rs[a]).version + n <= u64::MAX,
            decreases self.resources.len() - i,
        {
            assert(rs[i as int] == self.resources@[i as int]@);
            if self.resources[i].version > u64::MAX - n {
                assert(rs[i as int].version + n > u64::MAX);
                return false;
            }
            let mut k: usize = 0;
            while k < i
                invariant
                    k <= i < self.resources.len(),
                    rs == self@.resources,
                    forall|a: int| 0 <= a < k ==> (#[trigger] rs[a]).name != rs[i as int].name,
                decreases i - k,
            {
                assert(rs[k as int] == self.resources@[k as int]@);
                assert(rs[i as int] == self.resources@[i as int]@);
                if self.resources[k].name == self.resources[i].name {
                    assert(rs[k as int].name == rs[i as int].name);
                    return false;
                }
                k = k + 1;
            }
            i = i + 1;
        }
        true
    }

    /// The content version as it stands, without looking at the clock.
    pub fn peek_version(&self, resource: &ResourceId) -> (out: Version)
        requires
            self@.room(0),
        ensures
            out == Version(self@.resource(resource@).version),
    {
        let found = self.find(resource);
        match found {
            Some(i) => {
                assert(self@.resources[i as int] == self.resources@[i as int]@);
                Version(self.resources[i].version)
            },
            None => Version(0),
        }
    }
}

proof fn lemma_swept_room(t: TableView, now: u128)
    ensures
        forall|n: nat| #[trigger] t.room(n) ==> swept(t, now).room(n),
{
    assert forall|n: nat| #[trigger] t.room(n) implies swept(t, now).room(n) by {
        let s = swept(t, now);
        assert forall|a: int, b: int|
            0 <= a < s.resources.len() && 0 <= b < s.resources.len() && #[trigger] s.resources[a].name
                == #[trigger] s.resources[b].name implies a == b by {
            assert(t.resources[a].name == t.resources[b].name);
        }
        assert forall|i: int| 0 <= i < s.resources.len() implies (
        #[trigger] s.resources[i]).version + n <= u64::MAX by {
            assert(t.resources[i].version + n <= u64::MAX);
        }
    }
}

} // verus!
