//! How long a lock lasts, as two calls of the in-memory lock service show it: every call is answered at
//! one reading of the service's own watch, and a grant is good for exactly one lease from there.

use crate::clock::Duration;
use crate::history::Log;
use crate::lock::fake::{FakeLockService, ServiceView};
use crate::lock::laws;
use crate::lock::table;
use crate::lock::table::{HeldView, ResView, TableView};
use crate::lock::LockService;
use crate::timing::one_reading;
use crate::types::{HoldingView, LockError, Refusal, Ticket, Version};
use crate::watch;
use vstd::prelude::*;

verus! {

proof fn lemma_one_reading(a: ServiceView, b: ServiceView)
    requires
        watch::ticks(a.watch, b.watch),
    ensures
        one_reading(a.watch, b.watch),
{
    assert(b.watch.raw.drop_last() =~= a.watch.raw);
}

/// **A request is answered at one reading of the service's watch.**
pub proof fn acquire_takes_one_reading(
    pre: ServiceView,
    log: Log,
    resource: Seq<char>,
    holder: Seq<char>,
    post: ServiceView,
    after: Log,
    out: Result<HoldingView, LockError>,
)
    requires
        FakeLockService::acquires(pre, log, resource, holder, post, after, out),
    ensures
        one_reading(pre.watch, post.watch),
        post.table.lease == pre.table.lease,
        post.table.faults == pre.table.faults,
{
    lemma_one_reading(pre, post);
}

/// **A release is answered at one reading of the service's watch.** It never fails.
pub proof fn release_takes_one_reading(
    pre: ServiceView,
    log: Log,
    holding: HoldingView,
    post: ServiceView,
    after: Log,
    out: Result<(), LockError>,
)
    requires
        FakeLockService::releases(pre, log, holding, post, after, out),
    ensures
        one_reading(pre.watch, post.watch),
        post.table.lease == pre.table.lease,
        post.table.faults == pre.table.faults,
        out is Ok,
{
    lemma_one_reading(pre, post);
}

/// **A renewal is answered at one reading of the service's watch.**
pub proof fn renewal_takes_one_reading(
    pre: ServiceView,
    log: Log,
    holding: HoldingView,
    post: ServiceView,
    after: Log,
    out: Result<(), LockError>,
)
    requires
        FakeLockService::renews(pre, log, holding, post, after, out),
    ensures
        one_reading(pre.watch, post.watch),
        post.table.lease == pre.table.lease,
        post.table.faults == pre.table.faults,
{
    lemma_one_reading(pre, post);
}

/// **A revocation is answered at one reading of the service's watch.** It never fails.
pub proof fn revocation_takes_one_reading(
    pre: ServiceView,
    log: Log,
    resource: Seq<char>,
    post: ServiceView,
    after: Log,
    out: Result<Ticket, LockError>,
)
    requires
        FakeLockService::revokes(pre, log, resource, post, after, out),
    ensures
        one_reading(pre.watch, post.watch),
        post.table.lease == pre.table.lease,
        post.table.faults == pre.table.faults,
        out is Ok,
{
    lemma_one_reading(pre, post);
}

/// **A commit is answered at one reading of the service's watch.**
pub proof fn commit_takes_one_reading(
    pre: ServiceView,
    log: Log,
    holding: HoldingView,
    expected: Version,
    hash: u64,
    post: ServiceView,
    after: Log,
    out: Result<Version, Refusal>,
)
    requires
        FakeLockService::commits(pre, log, holding, expected, hash, post, after, out),
    ensures
        one_reading(pre.watch, post.watch),
        post.table.lease == pre.table.lease,
        post.table.faults == pre.table.faults,
{
    lemma_one_reading(pre, post);
}

/// What a single hold leaves when lapsed holds are dropped.
proof fn lemma_live_one(x: HeldView, lease: Duration, now: u128)
    ensures
        now >= x.renewed_at + lease.nanos ==> table::live(seq![x], lease, now) == Seq::<
            HeldView,
        >::empty(),
        now < x.renewed_at + lease.nanos ==> table::live(seq![x], lease, now) == seq![x],
{
    let held = seq![x];
    assert(held.drop_last() =~= Seq::<HeldView>::empty());
    assert(table::live(held.drop_last(), lease, now) =~= Seq::<HeldView>::empty());
    assert(Seq::<HeldView>::empty().push(x) =~= seq![x]);
}

/// What is in force where one lock is held.
proof fn lemma_force_one(x: HeldView)
    ensures
        table::in_force(seq![x]) == Some(x.ticket),
        forall|t: Ticket| table::holds(seq![x], t) <==> t == x.ticket,
{
    let held = seq![x];
    assert(held[0].ticket == x.ticket);
    assert(table::is_highest(held, x.ticket));
    table::lemma_in_force(held, x.ticket);
    assert forall|t: Ticket| table::holds(held, t) <==> t == x.ticket by {
        if t == x.ticket {
            assert(held[0].ticket == t);
        }
    }
}

/// What the service knows of a lock right after it was granted.
proof fn lemma_granted(
    pre: ServiceView,
    log: Log,
    resource: Seq<char>,
    holder: Seq<char>,
    post: ServiceView,
    after: Log,
    h: HoldingView,
)
    requires
        FakeLockService::room(pre, 1),
        !pre.table.faults.grant_twice.contains(resource),
        FakeLockService::acquires(pre, log, resource, holder, post, after, Ok(h)),
    ensures
        h.resource == resource,
        h.holder == holder,
        table::distinct_names(post.table.resources),
        post.table.lease == pre.table.lease,
        post.table.faults == pre.table.faults,
        post.table.resource(resource).version == pre.table.resource(resource).version,
        post.table.resource(resource).held == seq![
            HeldView { holder, ticket: h.ticket, renewed_at: post.watch.last },
        ],
{
    let now = post.watch.last;
    laws::lemma_acquire(pre.table, log, now, resource, holder, resource);
    let left = table::live(pre.table.resource(resource).held, pre.table.lease, now);
    assert(left =~= Seq::<HeldView>::empty());
    assert(post.table.resource(resource).held =~= seq![
        HeldView { holder, ticket: h.ticket, renewed_at: now },
    ]);
}

/// **A grant is good for exactly one lease.** Where the service is not told to grant a resource twice,
/// the next request after a grant succeeds if and only if the clock has moved on by a whole lease
/// since the grant; before that it is answered that the lock is contended, whoever asks.
pub proof fn grant_lasts_one_lease(
    pre: ServiceView,
    log: Log,
    resource: Seq<char>,
    holder: Seq<char>,
    mid: ServiceView,
    between: Log,
    first: Result<HoldingView, LockError>,
    other: Seq<char>,
    post: ServiceView,
    after: Log,
    second: Result<HoldingView, LockError>,
)
    requires
        FakeLockService::room(pre, 2),
        !pre.table.faults.grant_twice.contains(resource),
        FakeLockService::acquires(pre, log, resource, holder, mid, between, first),
        first is Ok,
        FakeLockService::acquires(mid, between, resource, other, post, after, second),
    ensures
        second is Ok <==> post.watch.last >= mid.watch.last + pre.table.lease.nanos,
        second is Err ==> second->Err_0 == LockError::Contended,
        second is Ok ==> second->Ok_0.holder == other && second->Ok_0.resource == resource,
        second is Ok && !pre.table.faults.non_monotonic_tickets ==> first->Ok_0.ticket.0
            < second->Ok_0.ticket.0,
{
    FakeLockService::less_room(pre, 2, 1);
    lemma_granted(pre, log, resource, holder, mid, between, first->Ok_0);
    let x = HeldView { holder, ticket: first->Ok_0.ticket, renewed_at: mid.watch.last };
    laws::lemma_acquire(mid.table, between, post.watch.last, resource, other, resource);
    lemma_live_one(x, mid.table.lease, post.watch.last);
}

/// **A granted lock commits for exactly one lease.** A commit on a lock that was just granted is
/// refused on its ticket if and only if the clock has moved on by a whole lease since the grant.
/// Before that the version alone decides: the expected one moves on by one, and any other is refused
/// with what it should have been.
pub proof fn grant_commits_for_one_lease(
    pre: ServiceView,
    log: Log,
    resource: Seq<char>,
    holder: Seq<char>,
    mid: ServiceView,
    between: Log,
    h: HoldingView,
    expected: Version,
    hash: u64,
    post: ServiceView,
    after: Log,
    out: Result<Version, Refusal>,
)
    requires
        FakeLockService::room(pre, 2),
        !pre.table.faults.grant_twice.contains(resource),
        FakeLockService::acquires(pre, log, resource, holder, mid, between, Ok(h)),
        FakeLockService::room(mid, 1),
        FakeLockService::commits(mid, between, h, expected, hash, post, after, out),
    ensures
        ({
            let version = pre.table.resource(resource).version;
            if post.watch.last >= mid.watch.last + pre.table.lease.nanos {
                out == Err::<Version, Refusal>(
                    Refusal::StaleTicket { held: h.ticket, current: None },
                )
            } else if expected.0 != version {
                out == Err::<Version, Refusal>(
                    Refusal::StaleVersion { read: expected, current: Version(version) },
                )
            } else {
                &&& out is Ok
                &&& out->Ok_0.0 == version + 1
            }
        }),
{
    FakeLockService::less_room(pre, 2, 1);
    lemma_granted(pre, log, resource, holder, mid, between, h);
    let x = HeldView { holder, ticket: h.ticket, renewed_at: mid.watch.last };
    laws::commit_needs_ticket_and_version(
        mid.table,
        between,
        post.watch.last,
        h,
        expected,
        hash,
    );
    lemma_live_one(x, mid.table.lease, post.watch.last);
    lemma_force_one(x);
    lemma_version_room(mid.table, resource);
}

/// A version that has room can be counted up.
proof fn lemma_version_room(t: TableView, resource: Seq<char>)
    requires
        t.room(1),
    ensures
        t.resource(resource).version + 1 <= u64::MAX,
{
    match table::position(t.resources, resource) {
        Some(i) => {
            assert(table::is_at(t.resources, resource, i));
            assert(t.resources[i].version + 1 <= u64::MAX);
        },
        None => {},
    }
}

/// **A lock can be renewed for exactly one lease, and a renewal is good for one more.** Unless the
/// service is told to swallow the holder's renewals, a renewal of a lock that was just granted is
/// answered that it is lost if and only if the clock has moved on by a whole lease since the grant.
/// And if it went through, the next request succeeds if and only if the clock has moved on by a whole
/// lease since the renewal.
pub proof fn renewal_lasts_one_lease(
    pre: ServiceView,
    log: Log,
    resource: Seq<char>,
    holder: Seq<char>,
    mid: ServiceView,
    between: Log,
    h: HoldingView,
    renewed: ServiceView,
    then_log: Log,
    out: Result<(), LockError>,
    other: Seq<char>,
    post: ServiceView,
    after: Log,
    second: Result<HoldingView, LockError>,
)
    requires
        FakeLockService::room(pre, 2),
        !pre.table.faults.grant_twice.contains(resource),
        !pre.table.faults.swallow_keepalive.contains(holder),
        FakeLockService::acquires(pre, log, resource, holder, mid, between, Ok(h)),
        FakeLockService::renews(mid, between, h, renewed, then_log, out),
        FakeLockService::acquires(renewed, then_log, resource, other, post, after, second),
    ensures
        if renewed.watch.last >= mid.watch.last + pre.table.lease.nanos {
            &&& out == Err::<(), LockError>(LockError::Expired)
            &&& second is Ok
        } else {
            &&& out is Ok
            &&& second is Ok <==> post.watch.last >= renewed.watch.last + pre.table.lease.nanos
        },
{
    FakeLockService::less_room(pre, 2, 1);
    lemma_granted(pre, log, resource, holder, mid, between, h);
    let now = renewed.watch.last;
    let x = HeldView { holder, ticket: h.ticket, renewed_at: mid.watch.last };
    let y = HeldView { holder, ticket: h.ticket, renewed_at: now };
    let s = table::swept(mid.table, now);
    let r = s.resource(resource);
    laws::lemma_swept(mid.table, now, resource);
    table::lemma_named(s, resource);
    lemma_live_one(x, mid.table.lease, now);
    lemma_live_one(y, mid.table.lease, post.watch.last);
    lemma_force_one(x);
    if now < mid.watch.last + pre.table.lease.nanos {
        assert(r.held == seq![x]);
        let held = table::renewed(r.held, h.ticket, now);
        table::lemma_has_first(r.held, h.ticket);
        let k = choose|k: int| table::is_first(r.held, h.ticket, k);
        assert(table::is_first(r.held, h.ticket, k));
        assert(held =~= seq![y]);
        laws::lemma_lookup(s, ResView { held, ..r }, resource);
        assert(table::position(s.resources, resource) is Some) by {
            if table::position(s.resources, resource) is None {
                assert(r.held.len() == 0);
            }
        }
        assert(renewed.table.resource(resource).held == seq![y]);
    } else {
        assert(r.held =~= Seq::<HeldView>::empty());
        assert(!table::holds(r.held, h.ticket));
        assert(table::live(r.held, renewed.table.lease, post.watch.last).len() == 0);
    }
    laws::lemma_acquire(renewed.table, then_log, post.watch.last, resource, other, resource);
}

/// **A swallowed renewal changes nothing about the lease.** It is answered as if it had worked, and the
/// lock is free all the same once the clock has moved on by a whole lease since the grant, and not
/// before.
pub proof fn swallowed_renewal_leaves_lease(
    pre: ServiceView,
    log: Log,
    resource: Seq<char>,
    holder: Seq<char>,
    mid: ServiceView,
    between: Log,
    h: HoldingView,
    renewed: ServiceView,
    then_log: Log,
    out: Result<(), LockError>,
    other: Seq<char>,
    post: ServiceView,
    after: Log,
    second: Result<HoldingView, LockError>,
)
    requires
        FakeLockService::room(pre, 2),
        !pre.table.faults.grant_twice.contains(resource),
        pre.table.faults.swallow_keepalive.contains(holder),
        FakeLockService::acquires(pre, log, resource, holder, mid, between, Ok(h)),
        FakeLockService::renews(mid, between, h, renewed, then_log, out),
        FakeLockService::acquires(renewed, then_log, resource, other, post, after, second),
    ensures
        out is Ok,
        second is Ok <==> post.watch.last >= mid.watch.last + pre.table.lease.nanos,
{
    FakeLockService::less_room(pre, 2, 1);
    lemma_granted(pre, log, resource, holder, mid, between, h);
    let now = renewed.watch.last;
    let x = HeldView { holder, ticket: h.ticket, renewed_at: mid.watch.last };
    laws::lemma_swept(mid.table, now, resource);
    lemma_live_one(x, mid.table.lease, now);
    lemma_live_one(x, mid.table.lease, post.watch.last);
    laws::lemma_acquire(renewed.table, then_log, post.watch.last, resource, other, resource);
}

/// **A lock counts as held for exactly one lease.** Asked whether a lock that was just granted is still
/// held, the service says so if and only if the clock has not moved on by a whole lease.
pub proof fn hold_is_told_for_one_lease(
    pre: ServiceView,
    log: Log,
    resource: Seq<char>,
    holder: Seq<char>,
    mid: ServiceView,
    between: Log,
    h: HoldingView,
    post: ServiceView,
    after: Log,
    out: Result<bool, LockError>,
)
    requires
        FakeLockService::room(pre, 1),
        !pre.table.faults.grant_twice.contains(resource),
        FakeLockService::acquires(pre, log, resource, holder, mid, between, Ok(h)),
        FakeLockService::tells_held(mid, between, h, post, after, out),
    ensures
        one_reading(mid.watch, post.watch),
        out == Ok::<bool, LockError>(post.watch.last < mid.watch.last + pre.table.lease.nanos),
{
    lemma_one_reading(mid, post);
    lemma_granted(pre, log, resource, holder, mid, between, h);
    let x = HeldView { holder, ticket: h.ticket, renewed_at: mid.watch.last };
    laws::lemma_swept(mid.table, post.watch.last, resource);
    lemma_live_one(x, mid.table.lease, post.watch.last);
    lemma_force_one(x);
}

/// **A ticket is in force for exactly one lease.** Asked for the ticket in force of a lock that was
/// just granted, the service names the granted one if and only if the clock has not moved on by a
/// whole lease, and none otherwise.
pub proof fn ticket_is_told_for_one_lease(
    pre: ServiceView,
    log: Log,
    resource: Seq<char>,
    holder: Seq<char>,
    mid: ServiceView,
    between: Log,
    h: HoldingView,
    post: ServiceView,
    after: Log,
    out: Result<Option<Ticket>, LockError>,
)
    requires
        FakeLockService::room(pre, 1),
        !pre.table.faults.grant_twice.contains(resource),
        FakeLockService::acquires(pre, log, resource, holder, mid, between, Ok(h)),
        FakeLockService::tells_ticket(mid, between, resource, post, after, out),
    ensures
        one_reading(mid.watch, post.watch),
        out == (if post.watch.last < mid.watch.last + pre.table.lease.nanos {
            Ok::<Option<Ticket>, LockError>(Some(h.ticket))
        } else {
            Ok(None)
        }),
{
    lemma_one_reading(mid, post);
    lemma_granted(pre, log, resource, holder, mid, between, h);
    let x = HeldView { holder, ticket: h.ticket, renewed_at: mid.watch.last };
    laws::lemma_swept(mid.table, post.watch.last, resource);
    lemma_live_one(x, mid.table.lease, post.watch.last);
    lemma_force_one(x);
}

/// **What was given back can be taken at once.** Unless the service is told to drop the holder's
/// releases, a request after the release of a lock that was just granted succeeds, whatever the clock
/// says; and if it is told so, the request succeeds if and only if the clock has moved on by a whole
/// lease since the grant.
pub proof fn released_lock_is_free(
    pre: ServiceView,
    log: Log,
    resource: Seq<char>,
    holder: Seq<char>,
    mid: ServiceView,
    between: Log,
    h: HoldingView,
    given: ServiceView,
    then_log: Log,
    out: Result<(), LockError>,
    other: Seq<char>,
    post: ServiceView,
    after: Log,
    second: Result<HoldingView, LockError>,
)
    requires
        FakeLockService::room(pre, 2),
        !pre.table.faults.grant_twice.contains(resource),
        FakeLockService::acquires(pre, log, resource, holder, mid, between, Ok(h)),
        FakeLockService::releases(mid, between, h, given, then_log, out),
        FakeLockService::acquires(given, then_log, resource, other, post, after, second),
    ensures
        if pre.table.faults.drop_release.contains(holder) {
            second is Ok <==> post.watch.last >= mid.watch.last + pre.table.lease.nanos
        } else {
            second is Ok
        },
{
    FakeLockService::less_room(pre, 2, 1);
    lemma_granted(pre, log, resource, holder, mid, between, h);
    let now = given.watch.last;
    let x = HeldView { holder, ticket: h.ticket, renewed_at: mid.watch.last };
    let s = table::swept(mid.table, now);
    let r = s.resource(resource);
    laws::lemma_swept(mid.table, now, resource);
    table::lemma_named(s, resource);
    lemma_live_one(x, mid.table.lease, now);
    lemma_live_one(x, mid.table.lease, post.watch.last);
    let held = table::without_ticket(r.held, h.ticket);
    laws::lemma_lookup(s, ResView { held, ..r }, resource);
    assert(seq![x].drop_last() =~= Seq::<HeldView>::empty());
    reveal_with_fuel(table::without_ticket, 2);
    assert(held =~= Seq::<HeldView>::empty());
    if !pre.table.faults.drop_release.contains(holder) {
        assert(given.table.resource(resource).held =~= Seq::<HeldView>::empty());
    }
    laws::lemma_acquire(given.table, then_log, post.watch.last, resource, other, resource);
}

/// **What was taken away can be taken at once, above the barrier.** A request after a revocation
/// succeeds, whoever held the lock and whatever the clock says; and unless tickets are made to repeat,
/// it is on a ticket that is not below the barrier.
pub proof fn revoked_lock_is_free(
    pre: ServiceView,
    log: Log,
    resource: Seq<char>,
    mid: ServiceView,
    between: Log,
    barrier: Result<Ticket, LockError>,
    other: Seq<char>,
    post: ServiceView,
    after: Log,
    second: Result<HoldingView, LockError>,
)
    requires
        FakeLockService::room(pre, 2),
        FakeLockService::revokes(pre, log, resource, mid, between, barrier),
        FakeLockService::acquires(mid, between, resource, other, post, after, second),
    ensures
        barrier is Ok,
        second is Ok,
        !pre.table.faults.non_monotonic_tickets ==> barrier->Ok_0.0 <= second->Ok_0.ticket.0,
{
    FakeLockService::less_room(pre, 2, 1);
    laws::revocation_takes_lock(pre.table, log, mid.watch.last, resource);
    let s = table::swept(pre.table, mid.watch.last);
    laws::lemma_swept(pre.table, mid.watch.last, resource);
    table::lemma_named(s, resource);
    laws::lemma_lookup(s, ResView { held: Seq::empty(), ..s.resource(resource) }, resource);
    laws::lemma_acquire(mid.table, between, post.watch.last, resource, other, resource);
    assert(mid.table.resource(resource).held =~= Seq::<HeldView>::empty());
}

/// **A commit is what the version says next.** After a commit the service tells the version that the
/// commit answered; after a refused one, the version that stood before.
pub proof fn commit_is_told(
    pre: ServiceView,
    log: Log,
    h: HoldingView,
    expected: Version,
    hash: u64,
    mid: ServiceView,
    between: Log,
    ruling: Result<Version, Refusal>,
    post: ServiceView,
    after: Log,
    out: Result<Version, LockError>,
)
    requires
        FakeLockService::room(pre, 1),
        FakeLockService::commits(pre, log, h, expected, hash, mid, between, ruling),
        FakeLockService::tells_version(mid, between, h.resource, post, after, out),
    ensures
        one_reading(mid.watch, post.watch),
        out is Ok,
        ruling matches Ok(v) ==> out->Ok_0 == v && v.0 == expected.0 + 1,
        ruling is Err ==> out->Ok_0 == Version(pre.table.resource(h.resource).version),
{
    lemma_one_reading(mid, post);
    let now = mid.watch.last;
    laws::commit_needs_ticket_and_version(pre.table, log, now, h, expected, hash);
    lemma_version_room(pre.table, h.resource);
    let s = table::swept(pre.table, now);
    laws::lemma_swept(pre.table, now, h.resource);
    table::lemma_named(s, h.resource);
    let r = s.resource(h.resource);
    let version = (r.version + 1) as u64;
    laws::lemma_lookup(s, ResView { version, content_hash: hash, ..r }, h.resource);
    laws::lemma_swept(mid.table, post.watch.last, h.resource);
}

} // verus!
