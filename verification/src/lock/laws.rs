//! What can be relied on of the in-memory lock service.

use crate::clock::Duration;
use crate::history::Log;
use crate::lock::table;
use crate::lock::table::{HeldView, ResView, TableView};
use crate::types::{HoldingView, LockError, Refusal, Ticket, Version};
use vstd::prelude::*;

verus! {

/// Looking up a resource after one was replaced or added.
pub(crate) proof fn lemma_lookup(t: TableView, res: ResView, q: Seq<char>)
    requires
        table::distinct_names(t.resources),
    ensures
        table::distinct_names(t.with_resource(res).resources),
        t.with_resource(res).resource(q) == (if q == res.name {
            res
        } else {
            t.resource(q)
        }),
        t.with_known(res).resource(q) == (if q == res.name && table::position(
            t.resources,
            q,
        ) is Some {
            res
        } else {
            t.resource(q)
        }),
{
    let a = t.with_resource(res);
    match table::position(t.resources, res.name) {
        Some(i) => {
            assert(table::is_at(t.resources, res.name, i));
            assert forall|x: int, y: int|
                0 <= x < a.resources.len() && 0 <= y < a.resources.len()
                    && #[trigger] a.resources[x].name == #[trigger] a.resources[y].name implies x
                == y by {
                assert(t.resources[x].name == a.resources[x].name);
                assert(t.resources[y].name == a.resources[y].name);
            }
            assert forall|x: int| table::is_at(a.resources, q, x) <==> table::is_at(
                t.resources,
                q,
                x,
            ) by {}
            if exists|x: int| table::is_at(t.resources, q, x) {
                let x = choose|x: int| table::is_at(t.resources, q, x);
                assert(table::is_at(a.resources, q, x));
                table::lemma_position(t.resources, q, x);
                table::lemma_position(a.resources, q, x);
                if q == res.name {
                    table::lemma_position(t.resources, q, i);
                } else {
                    assert(x != i);
                }
            } else {
                assert(forall|x: int| !table::is_at(a.resources, q, x));
            }
        },
        None => {
            let n = t.resources.len() as int;
            assert(forall|x: int| !table::is_at(t.resources, res.name, x));
            assert forall|x: int, y: int|
                0 <= x < a.resources.len() && 0 <= y < a.resources.len()
                    && #[trigger] a.resources[x].name == #[trigger] a.resources[y].name implies x
                == y by {
                assert(!table::is_at(t.resources, res.name, x));
                assert(!table::is_at(t.resources, res.name, y));
                if x < n && y < n {
                    assert(t.resources[x].name == t.resources[y].name);
                }
            }
            if q == res.name {
                assert(table::is_at(a.resources, q, n));
                table::lemma_position(a.resources, q, n);
            } else if exists|x: int| table::is_at(t.resources, q, x) {
                let x = choose|x: int| table::is_at(t.resources, q, x);
                assert(table::is_at(a.resources, q, x));
                table::lemma_position(t.resources, q, x);
                table::lemma_position(a.resources, q, x);
            } else {
                assert forall|x: int| !table::is_at(a.resources, q, x) by {
                    assert(!table::is_at(t.resources, q, x));
                }
            }
        },
    }
}

/// Looking up a resource after a sweep.
pub(crate) proof fn lemma_swept(t: TableView, now: u128, q: Seq<char>)
    requires
        table::distinct_names(t.resources),
    ensures
        table::distinct_names(table::swept(t, now).resources),
        table::swept(t, now).resource(q) == table::swept_resource(t.resource(q), t.lease, now),
        table::position(table::swept(t, now).resources, q) == table::position(t.resources, q),
{
    let s = table::swept(t, now);
    assert forall|x: int, y: int|
        0 <= x < s.resources.len() && 0 <= y < s.resources.len() && #[trigger] s.resources[x].name
            == #[trigger] s.resources[y].name implies x == y by {
        assert(t.resources[x].name == t.resources[y].name);
    }
    assert forall|x: int| table::is_at(s.resources, q, x) <==> table::is_at(t.resources, q, x) by {}
    if exists|x: int| table::is_at(t.resources, q, x) {
        let x = choose|x: int| table::is_at(t.resources, q, x);
        assert(table::is_at(s.resources, q, x));
        table::lemma_position(t.resources, q, x);
        table::lemma_position(s.resources, q, x);
    } else {
        assert(forall|x: int| !table::is_at(s.resources, q, x));
        assert(s.resource(q).held =~= table::live(t.resource(q).held, t.lease, now));
    }
}

/// Nothing is live that was not held.
pub(crate) proof fn lemma_live(held: Seq<HeldView>, lease: Duration, now: u128, t: Ticket)
    ensures
        table::holds(table::live(held, lease, now), t) ==> table::holds(held, t),
        table::live(held, lease, now).len() <= held.len(),
    decreases held.len(),
{
    if held.len() > 0 {
        let first = held.drop_last();
        let out = table::live(held, lease, now);
        let kept = table::live(first, lease, now);
        lemma_live(first, lease, now, t);
        if table::holds(out, t) {
            let k = choose|k: int| 0 <= k < out.len() && (#[trigger] out[k]).ticket == t;
            if k < kept.len() {
                assert(kept[k].ticket == t);
                let j = choose|j: int| 0 <= j < first.len() && (#[trigger] first[j]).ticket == t;
                assert(held[j].ticket == t);
            } else {
                assert(held[held.len() - 1].ticket == t);
            }
        }
    }
}

/// Nothing is left on a ticket that was dropped.
pub(crate) proof fn lemma_without(held: Seq<HeldView>, t: Ticket, u: Ticket)
    ensures
        table::holds(table::without_ticket(held, t), u) <==> u != t && table::holds(held, u),
        table::without_ticket(held, t).len() <= held.len(),
        !table::holds(held, t) ==> table::without_ticket(held, t) == held,
    decreases held.len(),
{
    if held.len() > 0 {
        let first = held.drop_last();
        let kept = table::without_ticket(first, t);
        let out = table::without_ticket(held, t);
        lemma_without(first, t, u);
        let last = held.last();
        assert(held[held.len() - 1] == last);
        if table::holds(first, t) {
            let k = choose|k: int| 0 <= k < first.len() && (#[trigger] first[k]).ticket == t;
            assert(held[k].ticket == t);
        }
        if table::holds(first, u) {
            let k = choose|k: int| 0 <= k < first.len() && (#[trigger] first[k]).ticket == u;
            assert(held[k].ticket == u);
        }
        if table::holds(kept, u) {
            let k = choose|k: int| 0 <= k < kept.len() && (#[trigger] kept[k]).ticket == u;
            assert(out[k].ticket == u);
        }
        if last.ticket == u && u != t {
            assert(out[kept.len() as int].ticket == u);
        }
        if table::holds(out, u) {
            let k = choose|k: int| 0 <= k < out.len() && (#[trigger] out[k]).ticket == u;
            if k < kept.len() {
                assert(kept[k].ticket == u);
            }
        }
        if table::holds(held, u) {
            let k = choose|k: int| 0 <= k < held.len() && (#[trigger] held[k]).ticket == u;
            if k < first.len() {
                assert(first[k].ticket == u);
            }
        }
        if !table::holds(held, t) {
            assert(out =~= held);
        }
    }
}

/// Renewing keeps the tickets.
pub(crate) proof fn lemma_renewed(held: Seq<HeldView>, t: Ticket, now: u128, u: Ticket)
    requires
        table::holds(held, t),
    ensures
        table::holds(table::renewed(held, t, now), u) <==> table::holds(held, u),
        table::renewed(held, t, now).len() == held.len(),
        exists|k: int|
            0 <= k < held.len() && (#[trigger] table::renewed(held, t, now)[k]).ticket == t
                && table::renewed(held, t, now)[k].renewed_at == now,
{
    table::lemma_has_first(held, t);
    let k = choose|k: int| table::is_first(held, t, k);
    assert(table::is_first(held, t, k));
    let out = table::renewed(held, t, now);
    assert(out[k].ticket == t && out[k].renewed_at == now);
    if table::holds(held, u) {
        let j = choose|j: int| 0 <= j < held.len() && (#[trigger] held[j]).ticket == u;
        assert(out[j].ticket == u);
    }
    if table::holds(out, u) {
        let j = choose|j: int| 0 <= j < out.len() && (#[trigger] out[j]).ticket == u;
        assert(held[j].ticket == u);
    }
}

/// **The lock is granted exactly if nobody holds it.** A request succeeds if and only if no hold is
/// still good, or the service is told to grant this resource twice; otherwise it is answered that
/// the lock is contended. What is granted is on the next ticket.
pub proof fn grant_needs_free_lock(
    t: TableView,
    log: Log,
    now: u128,
    resource: Seq<char>,
    holder: Seq<char>,
)
    requires
        table::distinct_names(t.resources),
    ensures
        ({
            let left = table::live(t.resource(resource).held, t.lease, now);
            let (after, _, out) = table::acquire_outcome(t, log, now, resource, holder);
            if left.len() == 0 || t.faults.grant_twice.contains(resource) {
                &&& out == Ok::<HoldingView, LockError>(
                    HoldingView { resource, holder, ticket: table::next_issue(t) },
                )
                &&& after.resource(resource).held == left.push(
                    HeldView { holder, ticket: table::next_issue(t), renewed_at: now },
                )
            } else {
                &&& out == Err::<HoldingView, LockError>(LockError::Contended)
                &&& after.resource(resource).held == left
            }
        }),
{
    lemma_acquire(t, log, now, resource, holder, resource);
}

/// What a request for the lock leaves of any resource.
pub(crate) proof fn lemma_acquire(
    t: TableView,
    log: Log,
    now: u128,
    resource: Seq<char>,
    holder: Seq<char>,
    q: Seq<char>,
)
    requires
        table::distinct_names(t.resources),
    ensures
        ({
            let left = table::live(t.resource(q).held, t.lease, now);
            let (after, _, out) = table::acquire_outcome(t, log, now, resource, holder);
            let free = table::live(t.resource(resource).held, t.lease, now).len() == 0
                || t.faults.grant_twice.contains(resource);
            &&& table::distinct_names(after.resources)
            &&& after.resource(q).version == t.resource(q).version
            &&& after.resource(q).held == (if q == resource && free {
                left.push(HeldView { holder, ticket: table::next_issue(t), renewed_at: now })
            } else {
                left
            })
            &&& out == (if free {
                Ok::<HoldingView, LockError>(
                    HoldingView { resource, holder, ticket: table::next_issue(t) },
                )
            } else {
                Err(LockError::Contended)
            })
        }),
{
    let s = table::swept(t, now);
    lemma_swept(t, now, resource);
    lemma_swept(t, now, q);
    table::lemma_named(s, resource);
    lemma_lookup(s, s.resource(resource), resource);
    lemma_lookup(s, s.resource(resource), q);
    let known = s.with_resource(s.resource(resource));
    let issued = table::after_issue(known);
    assert(issued.resource(resource) == known.resource(resource));
    assert(issued.resource(q) == known.resource(q));
    let r = issued.resource(resource);
    let ticket = table::next_issue(known);
    let r2 = ResView { held: r.held.push(HeldView { holder, ticket, renewed_at: now }), ..r };
    lemma_lookup(issued, r2, resource);
    lemma_lookup(issued, r2, q);
}

/// **Told to repeat tickets, the service repeats them.** Under that fault every grant after the first
/// is on the ticket of the one before.
pub proof fn repeated_tickets_repeat(
    t: TableView,
    log: Log,
    now: u128,
    resource: Seq<char>,
    holder: Seq<char>,
)
    requires
        table::distinct_names(t.resources),
        t.faults.non_monotonic_tickets,
        t.last_issued > 0,
    ensures
        ({
            let (after, _, out) = table::acquire_outcome(t, log, now, resource, holder);
            out matches Ok(h) ==> h.ticket == Ticket(t.last_issued) && after.last_issued
                == t.last_issued
        }),
{
    lemma_acquire(t, log, now, resource, holder, resource);
}

/// **At most one holds the lock.** Unless the service is told to grant a resource twice, no
/// operation leaves more than one hold on it where there was at most one before.
pub proof fn at_most_one_holds(
    t: TableView,
    log: Log,
    now: u128,
    resource: Seq<char>,
    holder: Seq<char>,
    h: HoldingView,
    expected: Version,
    hash: u64,
    q: Seq<char>,
)
    requires
        table::distinct_names(t.resources),
        !t.faults.grant_twice.contains(q),
        t.resource(q).held.len() <= 1,
    ensures
        table::acquire_outcome(t, log, now, resource, holder).0.resource(q).held.len() <= 1,
        table::release_outcome(t, log, now, h).0.resource(q).held.len() <= 1,
        table::current_ticket_outcome(t, log, now, resource).0.resource(q).held.len() <= 1,
        table::keepalive_outcome(t, log, now, h).0.resource(q).held.len() <= 1,
        table::force_release_outcome(t, log, now, resource).0.resource(q).held.len() <= 1,
        table::is_still_held_outcome(t, log, now, h).0.resource(q).held.len() <= 1,
        table::current_version_outcome(t, log, now, resource).0.resource(q).held.len() <= 1,
        table::commit_outcome(t, log, now, h, expected, hash).0.resource(q).held.len() <= 1,
        table::force_expire_outcome(t, log, now, resource).0.resource(q).held.len() <= 1,
{
    let s = table::swept(t, now);
    lemma_swept(t, now, q);
    lemma_swept(t, now, h.resource);
    lemma_swept(t, now, resource);
    table::lemma_named(s, resource);
    table::lemma_named(s, h.resource);
    table::lemma_named(t, resource);
    lemma_acquire(t, log, now, resource, holder, q);
    lemma_live(t.resource(q).held, t.lease, now, Ticket(0));
    let r = s.resource(h.resource);
    lemma_without(r.held, h.ticket, h.ticket);
    lemma_lookup(s, ResView { held: table::without_ticket(r.held, h.ticket), ..r }, q);
    if table::holds(r.held, h.ticket) {
        lemma_renewed(r.held, h.ticket, now, h.ticket);
        lemma_lookup(s, ResView { held: table::renewed(r.held, h.ticket, now), ..r }, q);
    }
    let version = (r.version + 1) as u64;
    lemma_lookup(s, ResView { version, content_hash: hash, ..r }, q);
    lemma_lookup(s, ResView { held: Seq::empty(), ..s.resource(resource) }, q);
    lemma_lookup(t, ResView { held: Seq::empty(), ..t.resource(resource) }, q);
    let cleared = s.with_known(ResView { held: Seq::empty(), ..s.resource(resource) });
    let revoked = table::force_release_outcome(t, log, now, resource).0;
    assert(revoked.resource(q) == cleared.resource(q));
}

/// **A lapsed lease frees the lock.** Once every hold has lapsed, the next request succeeds: the
/// dead holder need not do anything.
pub proof fn lapsed_lease_frees_lock(
    t: TableView,
    log: Log,
    now: u128,
    resource: Seq<char>,
    holder: Seq<char>,
)
    requires
        table::distinct_names(t.resources),
        forall|i: int|
            0 <= i < t.resource(resource).held.len() ==> table::lapsed(
                #[trigger] t.resource(resource).held[i],
                t.lease,
                now,
            ),
    ensures
        table::acquire_outcome(t, log, now, resource, holder).2 is Ok,
{
    lemma_acquire(t, log, now, resource, holder, resource);
    lemma_all_lapsed(t.resource(resource).held, t.lease, now);
}

pub(crate) proof fn lemma_all_lapsed(held: Seq<HeldView>, lease: Duration, now: u128)
    requires
        forall|i: int| 0 <= i < held.len() ==> table::lapsed(#[trigger] held[i], lease, now),
    ensures
        table::live(held, lease, now).len() == 0,
    decreases held.len(),
{
    if held.len() > 0 {
        let first = held.drop_last();
        assert forall|i: int| 0 <= i < first.len() implies table::lapsed(
            #[trigger] first[i],
            lease,
            now,
        ) by {
            assert(first[i] == held[i]);
        }
        lemma_all_lapsed(first, lease, now);
        assert(table::lapsed(held[held.len() - 1], lease, now));
    }
}

/// **Giving back is idempotent.** Once the hold is gone, giving it back again ends no hold: all that
/// happens is what any operation does to lapsed holds.
pub proof fn release_is_idempotent(t: TableView, log: Log, now: u128, h: HoldingView)
    requires
        table::distinct_names(t.resources),
        !table::holds(t.resource(h.resource).held, h.ticket),
    ensures
        table::release_outcome(t, log, now, h).0 == table::swept(t, now),
{
    let s = table::swept(t, now);
    let r = s.resource(h.resource);
    lemma_swept(t, now, h.resource);
    lemma_live(t.resource(h.resource).held, t.lease, now, h.ticket);
    lemma_without(r.held, h.ticket, h.ticket);
    table::lemma_named(s, h.resource);
    let r2 = ResView { held: table::without_ticket(r.held, h.ticket), ..r };
    assert(r2 == r);
    match table::position(s.resources, h.resource) {
        Some(i) => {
            assert(table::is_at(s.resources, h.resource, i));
            assert(s.resources.update(i, r) =~= s.resources);
        },
        None => {},
    }
}

/// **A release ends the hold.** Afterwards nothing is held on its ticket, unless the service is told
/// to drop this holder's releases.
pub proof fn release_ends_hold(t: TableView, log: Log, now: u128, h: HoldingView)
    requires
        table::distinct_names(t.resources),
        !t.faults.drop_release.contains(h.holder),
    ensures
        !table::holds(
            table::release_outcome(t, log, now, h).0.resource(h.resource).held,
            h.ticket,
        ),
{
    let s = table::swept(t, now);
    let r = s.resource(h.resource);
    lemma_swept(t, now, h.resource);
    table::lemma_named(s, h.resource);
    let r2 = ResView { held: table::without_ticket(r.held, h.ticket), ..r };
    lemma_lookup(s, r2, h.resource);
    lemma_without(r.held, h.ticket, h.ticket);
}

/// **A revocation takes the lock away, and always succeeds.** Whoever holds the lock, however
/// healthy it looks, nothing is held afterwards; the barrier is above every ticket issued so far;
/// and the next ticket to be issued is not below the barrier.
pub proof fn revocation_takes_lock(t: TableView, log: Log, now: u128, resource: Seq<char>)
    requires
        t.room(1),
    ensures
        ({
            let (after, _, barrier) = table::force_release_outcome(t, log, now, resource);
            &&& after.resource(resource).held.len() == 0
            &&& barrier.0 > t.next_ticket
            &&& after.next_ticket == barrier.0
            &&& !t.faults.non_monotonic_tickets ==> table::next_issue(after).0 >= barrier.0
        }),
{
    let s = table::swept(t, now);
    let r = s.resource(resource);
    lemma_swept(t, now, resource);
    table::lemma_named(s, resource);
    let r2 = ResView { held: Seq::empty(), ..r };
    lemma_lookup(s, r2, resource);
    let mid = s.with_known(r2);
    let after = table::force_release_outcome(t, log, now, resource).0;
    assert(after.resource(resource) == mid.resource(resource));
}

/// **Only the ticket in force commits, and only on the version in force.** A write is authorized if
/// and only if its ticket is the highest one held, of the holds that are still good, and the version
/// that it expects is the current one. Then the version moves on by one; otherwise it stays, and the
/// reply says which of the two was stale.
pub proof fn commit_needs_ticket_and_version(
    t: TableView,
    log: Log,
    now: u128,
    h: HoldingView,
    expected: Version,
    hash: u64,
)
    requires
        t.room(1),
    ensures
        ({
            let r = t.resource(h.resource);
            let current = table::in_force(table::live(r.held, t.lease, now));
            let (after, _, out) = table::commit_outcome(t, log, now, h, expected, hash);
            if current != Some(h.ticket) {
                &&& out == Err::<Version, Refusal>(
                    Refusal::StaleTicket { held: h.ticket, current },
                )
                &&& after == table::swept(t, now)
            } else if expected.0 != r.version {
                &&& out == Err::<Version, Refusal>(
                    Refusal::StaleVersion { read: expected, current: Version(r.version) },
                )
                &&& after == table::swept(t, now)
            } else {
                &&& out == Ok::<Version, Refusal>(Version((r.version + 1) as u64))
                &&& after.resource(h.resource).version == r.version + 1
                &&& after.resource(h.resource).content_hash == hash
                &&& after.resource(h.resource).held == table::live(r.held, t.lease, now)
            }
        }),
{
    let s = table::swept(t, now);
    let r = s.resource(h.resource);
    lemma_swept(t, now, h.resource);
    table::lemma_named(s, h.resource);
    match table::position(t.resources, h.resource) {
        Some(i) => {
            assert(table::is_at(t.resources, h.resource, i));
            assert(t.resources[i].version + 1 <= u64::MAX);
        },
        None => {},
    }
    let version = (r.version + 1) as u64;
    lemma_lookup(s, ResView { version, content_hash: hash, ..r }, h.resource);
}

/// **Of two tickets at most one commits.** Even where the service granted the lock twice, two
/// holders on different tickets are not both authorized in the same state.
pub proof fn only_one_ticket_commits(
    t: TableView,
    log: Log,
    now: u128,
    a: HoldingView,
    b: HoldingView,
    expected_a: Version,
    expected_b: Version,
    hash_a: u64,
    hash_b: u64,
)
    requires
        t.room(1),
        a.resource == b.resource,
        a.ticket != b.ticket,
    ensures
        !(table::commit_outcome(t, log, now, a, expected_a, hash_a).2 is Ok
            && table::commit_outcome(t, log, now, b, expected_b, hash_b).2 is Ok),
{
    commit_needs_ticket_and_version(t, log, now, a, expected_a, hash_a);
    commit_needs_ticket_and_version(t, log, now, b, expected_b, hash_b);
}

/// **Nobody commits twice from one reading.** Once a write was authorized, another one that was
/// based on the same version is refused, whoever makes it and on whichever ticket.
pub proof fn one_commit_for_each_version(
    t: TableView,
    log: Log,
    now: u128,
    a: HoldingView,
    b: HoldingView,
    expected: Version,
    hash_a: u64,
    later: u128,
    hash_b: u64,
)
    requires
        t.room(2),
        a.resource == b.resource,
        table::commit_outcome(t, log, now, a, expected, hash_a).2 is Ok,
    ensures
        ({
            let (after, log_after, _) = table::commit_outcome(t, log, now, a, expected, hash_a);
            table::commit_outcome(after, log_after, later, b, expected, hash_b).2 is Err
        }),
{
    assert(t.room(1)) by {
        assert forall|i: int| 0 <= i < t.resources.len() implies (
        #[trigger] t.resources[i]).version + 1 <= u64::MAX by {
            assert(t.resources[i].version + 2 <= u64::MAX);
        }
    }
    commit_needs_ticket_and_version(t, log, now, a, expected, hash_a);
    let (after, log_after, _) = table::commit_outcome(t, log, now, a, expected, hash_a);
    let s = table::swept(t, now);
    lemma_swept(t, now, a.resource);
    table::lemma_named(s, a.resource);
    let r = s.resource(a.resource);
    let version = (r.version + 1) as u64;
    lemma_lookup(s, ResView { version, content_hash: hash_a, ..r }, a.resource);
    assert(table::distinct_names(after.resources));
    lemma_swept(after, later, a.resource);
}

/// **A renewal keeps the hold for another lease.** It is answered `Ok` if the hold was still good,
/// and then the hold is still good at any time before a whole lease has gone by.
pub proof fn renewal_extends_lease(t: TableView, log: Log, now: u128, h: HoldingView, later: u128)
    requires
        table::distinct_names(t.resources),
        !t.faults.swallow_keepalive.contains(h.holder),
        later < now + t.lease.nanos,
    ensures
        ({
            let (after, _, out) = table::keepalive_outcome(t, log, now, h);
            &&& out is Ok <==> table::holds(
                table::live(t.resource(h.resource).held, t.lease, now),
                h.ticket,
            )
            &&& out is Ok ==> table::holds(
                table::live(after.resource(h.resource).held, t.lease, later),
                h.ticket,
            )
        }),
{
    let s = table::swept(t, now);
    let r = s.resource(h.resource);
    lemma_swept(t, now, h.resource);
    table::lemma_named(s, h.resource);
    if table::holds(r.held, h.ticket) {
        let held = table::renewed(r.held, h.ticket, now);
        lemma_renewed(r.held, h.ticket, now, h.ticket);
        lemma_lookup(s, ResView { held, ..r }, h.resource);
        assert(table::position(s.resources, h.resource) is Some);
        let k = choose|k: int|
            0 <= k < r.held.len() && (#[trigger] held[k]).ticket == h.ticket && held[k].renewed_at
                == now;
        lemma_still_live(held, t.lease, later, k);
    }
}

pub(crate) proof fn lemma_still_live(held: Seq<HeldView>, lease: Duration, now: u128, k: int)
    requires
        0 <= k < held.len(),
        !table::lapsed(held[k], lease, now),
    ensures
        table::holds(table::live(held, lease, now), held[k].ticket),
    decreases held.len(),
{
    let first = held.drop_last();
    let kept = table::live(first, lease, now);
    let out = table::live(held, lease, now);
    if k == held.len() - 1 {
        assert(out[kept.len() as int].ticket == held[k].ticket);
    } else {
        assert(first[k] == held[k]);
        lemma_still_live(first, lease, now, k);
        let j = choose|j: int| 0 <= j < kept.len() && (#[trigger] kept[j]).ticket == held[k].ticket;
        assert(out[j].ticket == held[k].ticket);
    }
}

/// **A swallowed renewal renews nothing**, although it is answered as if it had: the holder looks
/// healthy, and its lease runs out all the same.
pub proof fn swallowed_renewal_renews_nothing(t: TableView, log: Log, now: u128, h: HoldingView)
    requires
        t.faults.swallow_keepalive.contains(h.holder),
    ensures
        table::keepalive_outcome(t, log, now, h).0 == table::swept(t, now),
        table::keepalive_outcome(t, log, now, h).2 is Ok,
{
}

/// One operation of the service, with the reading of the clock at which it is answered.
pub enum Op {
    Acquire { now: u128, resource: Seq<char>, holder: Seq<char> },
    Release { now: u128, holding: HoldingView },
    CurrentTicket { now: u128, resource: Seq<char> },
    Keepalive { now: u128, holding: HoldingView },
    ForceRelease { now: u128, resource: Seq<char> },
    IsStillHeld { now: u128, holding: HoldingView },
    CurrentVersion { now: u128, resource: Seq<char> },
    Commit { now: u128, holding: HoldingView, expected: Version, hash: u64 },
    ForceExpire { now: u128, resource: Seq<char> },
}

/// The service and the history after one operation.
pub open spec fn done(t: TableView, log: Log, op: Op) -> (TableView, Log) {
    match op {
        Op::Acquire { now, resource, holder } => {
            let (after, log_after, _) = table::acquire_outcome(t, log, now, resource, holder);
            (after, log_after)
        },
        Op::Release { now, holding } => table::release_outcome(t, log, now, holding),
        Op::CurrentTicket { now, resource } => {
            let (after, log_after, _) = table::current_ticket_outcome(t, log, now, resource);
            (after, log_after)
        },
        Op::Keepalive { now, holding } => {
            let (after, log_after, _) = table::keepalive_outcome(t, log, now, holding);
            (after, log_after)
        },
        Op::ForceRelease { now, resource } => {
            let (after, log_after, _) = table::force_release_outcome(t, log, now, resource);
            (after, log_after)
        },
        Op::IsStillHeld { now, holding } => {
            let (after, log_after, _) = table::is_still_held_outcome(t, log, now, holding);
            (after, log_after)
        },
        Op::CurrentVersion { now, resource } => {
            let (after, log_after, _) = table::current_version_outcome(t, log, now, resource);
            (after, log_after)
        },
        Op::Commit { now, holding, expected, hash } => {
            let (after, log_after, _) = table::commit_outcome(
                t,
                log,
                now,
                holding,
                expected,
                hash,
            );
            (after, log_after)
        },
        Op::ForceExpire { now, resource } => table::force_expire_outcome(t, log, now, resource),
    }
}

/// The service and the history after some operations.
pub open spec fn done_all(t: TableView, log: Log, ops: Seq<Op>) -> (TableView, Log)
    decreases ops.len(),
{
    if ops.len() == 0 {
        (t, log)
    } else {
        let (before, log_before) = done_all(t, log, ops.drop_last());
        done(before, log_before, ops.last())
    }
}

/// The next ticket never falls.
proof fn lemma_next_rises(t: TableView, log: Log, ops: Seq<Op>)
    requires
        !t.faults.non_monotonic_tickets,
        t.next_ticket + ops.len() <= u64::MAX,
    ensures
        ({
            let after = done_all(t, log, ops).0;
            &&& after.faults == t.faults
            &&& t.next_ticket <= after.next_ticket <= t.next_ticket + ops.len()
        }),
    decreases ops.len(),
{
    if ops.len() > 0 {
        lemma_next_rises(t, log, ops.drop_last());
    }
}

/// **Tickets rise.** Unless tickets are made to repeat, a lock that is granted is on a higher ticket
/// than any lock granted before it, whichever resources the two are on, and whatever the service was
/// asked in between.
pub proof fn tickets_rise(
    t: TableView,
    log: Log,
    now: u128,
    resource: Seq<char>,
    holder: Seq<char>,
    ops: Seq<Op>,
    later: u128,
    other: Seq<char>,
    next: Seq<char>,
)
    requires
        !t.faults.non_monotonic_tickets,
        t.next_ticket + ops.len() + 2 <= u64::MAX,
    ensures
        ({
            let (granted, log_granted, first) = table::acquire_outcome(
                t,
                log,
                now,
                resource,
                holder,
            );
            let (between, log_between) = done_all(granted, log_granted, ops);
            let second = table::acquire_outcome(between, log_between, later, other, next).2;
            first matches Ok(a) ==> second matches Ok(b) ==> a.ticket.0 < b.ticket.0
        }),
{
    let (granted, log_granted, first) = table::acquire_outcome(t, log, now, resource, holder);
    if first is Ok {
        assert(granted.next_ticket == t.next_ticket + 1);
        lemma_next_rises(granted, log_granted, ops);
    }
}

/// **A barrier stands.** Unless tickets are made to repeat, no lock that is granted after a
/// revocation is on a ticket below its barrier, whichever resource it is on, and whatever the service
/// was asked in between; and the barrier is above every ticket granted before the revocation.
pub proof fn barriers_stand(
    t: TableView,
    log: Log,
    now: u128,
    resource: Seq<char>,
    ops: Seq<Op>,
    revoked: Seq<char>,
    later: u128,
    holder: Seq<char>,
)
    requires
        !t.faults.non_monotonic_tickets,
        t.next_ticket + ops.len() + 2 <= u64::MAX,
    ensures
        ({
            let (after, log_after, barrier) = table::force_release_outcome(t, log, now, revoked);
            let (between, log_between) = done_all(after, log_after, ops);
            table::acquire_outcome(between, log_between, later, resource, holder).2 matches Ok(h)
                ==> barrier.0 <= h.ticket.0
        }),
        ({
            let (granted, log_granted, first) = table::acquire_outcome(
                t,
                log,
                now,
                resource,
                holder,
            );
            let (between, log_between) = done_all(granted, log_granted, ops);
            let barrier = table::force_release_outcome(between, log_between, later, revoked).2;
            first matches Ok(h) ==> h.ticket.0 < barrier.0
        }),
{
    let (after, log_after, _) = table::force_release_outcome(t, log, now, revoked);
    lemma_next_rises(after, log_after, ops);
    let (granted, log_granted, first) = table::acquire_outcome(t, log, now, resource, holder);
    if first is Ok {
        assert(granted.next_ticket == t.next_ticket + 1);
        lemma_next_rises(granted, log_granted, ops);
    }
}

/// None but a request for the lock brings a hold on `ticket` where there was none.
pub(crate) proof fn lemma_only_fewer(
    t: TableView,
    log: Log,
    now: u128,
    resource: Seq<char>,
    h: HoldingView,
    expected: Version,
    hash: u64,
    q: Seq<char>,
    ticket: Ticket,
)
    requires
        table::distinct_names(t.resources),
        !table::holds(t.resource(q).held, ticket),
    ensures
        !table::holds(table::release_outcome(t, log, now, h).0.resource(q).held, ticket),
        !table::holds(
            table::current_ticket_outcome(t, log, now, resource).0.resource(q).held,
            ticket,
        ),
        !table::holds(table::keepalive_outcome(t, log, now, h).0.resource(q).held, ticket),
        !table::holds(
            table::force_release_outcome(t, log, now, resource).0.resource(q).held,
            ticket,
        ),
        !table::holds(table::is_still_held_outcome(t, log, now, h).0.resource(q).held, ticket),
        !table::holds(
            table::current_version_outcome(t, log, now, resource).0.resource(q).held,
            ticket,
        ),
        !table::holds(
            table::commit_outcome(t, log, now, h, expected, hash).0.resource(q).held,
            ticket,
        ),
        !table::holds(
            table::force_expire_outcome(t, log, now, resource).0.resource(q).held,
            ticket,
        ),
{
    let s = table::swept(t, now);
    lemma_swept(t, now, q);
    lemma_swept(t, now, resource);
    lemma_swept(t, now, h.resource);
    table::lemma_named(s, resource);
    table::lemma_named(s, h.resource);
    table::lemma_named(t, resource);
    lemma_live(t.resource(q).held, t.lease, now, ticket);
    assert(!table::holds(s.resource(q).held, ticket));
    let r = s.resource(h.resource);
    lemma_without(r.held, h.ticket, ticket);
    lemma_lookup(s, ResView { held: table::without_ticket(r.held, h.ticket), ..r }, q);
    if table::holds(r.held, h.ticket) {
        lemma_renewed(r.held, h.ticket, now, ticket);
        lemma_lookup(s, ResView { held: table::renewed(r.held, h.ticket, now), ..r }, q);
    }
    let version = (r.version + 1) as u64;
    lemma_lookup(s, ResView { version, content_hash: hash, ..r }, q);
    lemma_lookup(s, ResView { held: Seq::empty(), ..s.resource(resource) }, q);
    lemma_lookup(t, ResView { held: Seq::empty(), ..t.resource(resource) }, q);
    let cleared = s.with_known(ResView { held: Seq::empty(), ..s.resource(resource) });
    let revoked = table::force_release_outcome(t, log, now, resource).0;
    assert(revoked.resource(q) == cleared.resource(q));
}

/// The ticket was issued, and nothing is held on it any more.
pub open spec fn is_lost(t: TableView, resource: Seq<char>, ticket: Ticket) -> bool {
    ticket.0 < t.next_ticket && !table::holds(t.resource(resource).held, ticket)
}

/// **A lost lock stays lost.** Unless tickets are made to repeat, no operation brings back a hold on
/// a ticket whose hold has ended. So a holder that lost the lock can never commit on its ticket
/// again, however long it waits and whatever others do.
pub proof fn lost_ticket_stays_lost(
    t: TableView,
    log: Log,
    now: u128,
    resource: Seq<char>,
    holder: Seq<char>,
    h: HoldingView,
    expected: Version,
    hash: u64,
    q: Seq<char>,
    ticket: Ticket,
)
    requires
        t.room(1),
        !t.faults.non_monotonic_tickets,
        is_lost(t, q, ticket),
    ensures
        is_lost(table::acquire_outcome(t, log, now, resource, holder).0, q, ticket),
        is_lost(table::release_outcome(t, log, now, h).0, q, ticket),
        is_lost(table::current_ticket_outcome(t, log, now, resource).0, q, ticket),
        is_lost(table::keepalive_outcome(t, log, now, h).0, q, ticket),
        is_lost(table::force_release_outcome(t, log, now, resource).0, q, ticket),
        is_lost(table::is_still_held_outcome(t, log, now, h).0, q, ticket),
        is_lost(table::current_version_outcome(t, log, now, resource).0, q, ticket),
        is_lost(table::commit_outcome(t, log, now, h, expected, hash).0, q, ticket),
        is_lost(table::force_expire_outcome(t, log, now, resource).0, q, ticket),
        h.resource == q && h.ticket == ticket ==> table::commit_outcome(
            t,
            log,
            now,
            h,
            expected,
            hash,
        ).2 is Err,
{
    lemma_lost_acquire(t, log, now, resource, holder, q, ticket);
    lemma_only_fewer(t, log, now, resource, h, expected, hash, q, ticket);
    if h.resource == q && h.ticket == ticket {
        let s = table::swept(t, now);
        lemma_swept(t, now, q);
        lemma_live(t.resource(q).held, t.lease, now, ticket);
        lemma_not_in_force(s.resource(q).held, ticket);
    }
}

pub(crate) proof fn lemma_not_in_force(held: Seq<HeldView>, ticket: Ticket)
    requires
        !table::holds(held, ticket),
    ensures
        table::in_force(held) != Some(ticket),
{
    if held.len() > 0 {
        table::lemma_has_highest(held);
        let t = choose|t: Ticket| table::is_highest(held, t);
        assert(table::is_highest(held, t));
    }
}

proof fn lemma_lost_acquire(
    t: TableView,
    log: Log,
    now: u128,
    resource: Seq<char>,
    holder: Seq<char>,
    q: Seq<char>,
    ticket: Ticket,
)
    requires
        t.room(1),
        !t.faults.non_monotonic_tickets,
        is_lost(t, q, ticket),
    ensures
        is_lost(table::acquire_outcome(t, log, now, resource, holder).0, q, ticket),
{
    lemma_acquire(t, log, now, resource, holder, q);
    let left = table::live(t.resource(q).held, t.lease, now);
    lemma_live(t.resource(q).held, t.lease, now, ticket);
    let new = HeldView { holder, ticket: table::next_issue(t), renewed_at: now };
    let out = left.push(new);
    if table::holds(out, ticket) {
        let k = choose|k: int| 0 <= k < out.len() && (#[trigger] out[k]).ticket == ticket;
        if k < left.len() {
            assert(left[k].ticket == ticket);
        }
    }
}

} // verus!
