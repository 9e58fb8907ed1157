//! What each operation of the in-memory lock service changes, what it records, and what it leaves
//! alone.

use crate::clock;
use crate::clock::Duration;
use crate::history;
use crate::history::{EntryView, EventView, Log};
use crate::lock::fake;
use crate::lock::fake::{FakeLockService, FaultsView, ServiceView};
use crate::lock::laws;
use crate::lock::table;
use crate::lock::table::{HeldView, ResView, TableView};
use crate::lock::LockService;
use crate::types::{HoldingView, LockError, Refusal, Ticket, Version};
use vstd::prelude::*;

verus! {

/// The holds whose lease is not over at `now`, in order.
pub open spec fn good(held: Seq<HeldView>, lease: Duration, now: u128) -> Seq<HeldView> {
    held.filter(|h: HeldView| now < h.renewed_at + lease.nanos)
}

/// The holds whose lease is over at `now`, in order.
pub open spec fn over(held: Seq<HeldView>, lease: Duration, now: u128) -> Seq<HeldView> {
    held.filter(|h: HeldView| h.renewed_at + lease.nanos <= now)
}

/// What is recorded of the holds of `r` whose lease is over at `now`.
pub open spec fn ends(r: ResView, lease: Duration, now: u128) -> Seq<EventView> {
    over(r.held, lease, now).map_values(
        |h: HeldView|
            EventView::LeaseExpired { holder: h.holder, resource: r.name, ticket: h.ticket },
    )
}

/// `log` with `events` behind it, numbered on, all of them at `now`.
pub open spec fn with_all(log: Log, now: u128, events: Seq<EventView>) -> Log {
    log + Seq::new(
        events.len(),
        |i: int|
            EntryView {
                seq: (log.len() + i) as nat,
                at_ms: clock::millis(now),
                event: events[i],
            },
    )
}

/// What the history holds once every hold whose lease is over was reported, resource after resource.
pub open spec fn seen(t: TableView, log: Log, now: u128) -> Log {
    with_all(log, now, t.resources.map_values(|r: ResView| ends(r, t.lease, now)).flatten())
}

/// **A hold is dropped exactly when its lease is over.** What is left of some holds is those that still
/// have some of their lease before them, in their order.
pub proof fn only_lapsed_holds_go(held: Seq<HeldView>, lease: Duration, now: u128)
    ensures
        table::live(held, lease, now) == good(held, lease, now),
    decreases held.len(),
{
    reveal(Seq::filter);
    if held.len() > 0 {
        only_lapsed_holds_go(held.drop_last(), lease, now);
    }
}

/// **A release drops exactly the holds on its ticket.**
pub proof fn only_the_ticket_goes(held: Seq<HeldView>, t: Ticket)
    ensures
        table::without_ticket(held, t) == held.filter(|h: HeldView| h.ticket != t),
    decreases held.len(),
{
    reveal(Seq::filter);
    if held.len() > 0 {
        only_the_ticket_goes(held.drop_last(), t);
    }
}

proof fn lemma_ends(r: ResView, lease: Duration, now: u128)
    ensures
        table::expiries(r.name, r.held, lease, now) == ends(r, lease, now),
    decreases r.held.len(),
{
    reveal(Seq::filter);
    if r.held.len() > 0 {
        let first = ResView { held: r.held.drop_last(), ..r };
        lemma_ends(first, lease, now);
        let f = |h: HeldView|
            EventView::LeaseExpired { holder: h.holder, resource: r.name, ticket: h.ticket };
        let kept = over(first.held, lease, now);
        assert(ends(first, lease, now) =~= kept.map_values(f));
        assert(kept.push(r.held.last()).map_values(f) =~= kept.map_values(f).push(
            f(r.held.last()),
        ));
    }
    assert(table::expiries(r.name, r.held, lease, now) =~= ends(r, lease, now));
}

proof fn lemma_with_all(log: Log, now: u128, events: Seq<EventView>)
    ensures
        history::record_all(log, clock::millis(now), events) == with_all(log, now, events),
    decreases events.len(),
{
    if events.len() > 0 {
        lemma_with_all(log, now, events.drop_last());
    }
    assert(history::record_all(log, clock::millis(now), events) =~= with_all(log, now, events));
}

proof fn lemma_seen(rs: Seq<ResView>, log: Log, lease: Duration, now: u128)
    ensures
        table::swept_log(rs, log, lease, now) == with_all(
            log,
            now,
            rs.map_values(|r: ResView| ends(r, lease, now)).flatten(),
        ),
    decreases rs.len(),
{
    let f = |r: ResView| ends(r, lease, now);
    if rs.len() > 0 {
        let first = rs.drop_last();
        lemma_seen(first, log, lease, now);
        lemma_ends(rs.last(), lease, now);
        let before = table::swept_log(first, log, lease, now);
        lemma_with_all(before, now, f(rs.last()));
        assert(rs.map_values(f) =~= first.map_values(f).push(f(rs.last())));
        first.map_values(f).lemma_flatten_push(f(rs.last()));
        assert(with_all(before, now, f(rs.last())) =~= with_all(
            log,
            now,
            first.map_values(f).flatten() + f(rs.last()),
        ));
    } else {
        assert(rs.map_values(f) =~= Seq::<Seq<EventView>>::empty());
        assert(with_all(log, now, Seq::<EventView>::empty()) =~= log);
    }
}

/// **Every lapsed hold is reported once, and nothing else is.** Before an operation does its own work,
/// the history gets one entry for each hold whose lease is over, in the order of the resources and of
/// their holds, at the reading of the operation.
pub proof fn lapsed_holds_are_reported(t: TableView, log: Log, now: u128)
    ensures
        table::swept_log(t.resources, log, t.lease, now) == seen(t, log, now),
{
    lemma_seen(t.resources, log, t.lease, now);
}

/// **What a request records.** The request itself always, and a ticket and a grant behind it if and
/// only if the lock was granted.
pub proof fn request_is_recorded(
    pre: ServiceView,
    log: Log,
    resource: Seq<char>,
    holder: Seq<char>,
    post: ServiceView,
    after: Log,
    out: Result<HoldingView, LockError>,
)
    requires
        FakeLockService::acquires(pre, log, resource, holder, post, after, out),
    ensures
        ({
            let now = post.watch.last;
            let before = seen(pre.table, log, now);
            let asked = EventView::TakeRequested { holder, resource };
            after == (match out {
                Err(_) => with_all(before, now, seq![asked]),
                Ok(h) => with_all(
                    before,
                    now,
                    seq![
                        asked,
                        EventView::TicketIssued { resource, ticket: h.ticket },
                        EventView::TakeGranted { holder, resource, ticket: h.ticket },
                    ],
                ),
            })
        }),
{
    let now = post.watch.last;
    lapsed_holds_are_reported(pre.table, log, now);
    let before = seen(pre.table, log, now);
    let asked = EventView::TakeRequested { holder, resource };
    match out {
        Err(_) => {
            assert(after =~= with_all(before, now, seq![asked]));
        },
        Ok(h) => {
            assert(after =~= with_all(
                before,
                now,
                seq![
                    asked,
                    EventView::TicketIssued { resource, ticket: h.ticket },
                    EventView::TakeGranted { holder, resource, ticket: h.ticket },
                ],
            ));
        },
    }
}

/// **What a release records.** That the lock was given back, unless the service is told to drop the
/// holder's releases.
pub proof fn release_is_recorded(
    pre: ServiceView,
    log: Log,
    h: HoldingView,
    post: ServiceView,
    after: Log,
    out: Result<(), LockError>,
)
    requires
        FakeLockService::releases(pre, log, h, post, after, out),
    ensures
        ({
            let now = post.watch.last;
            let before = seen(pre.table, log, now);
            after == (if pre.table.faults.drop_release.contains(h.holder) {
                before
            } else {
                with_all(
                    before,
                    now,
                    seq![
                        EventView::GiveBack {
                            holder: h.holder,
                            resource: h.resource,
                            ticket: h.ticket,
                        },
                    ],
                )
            })
        }),
{
    let now = post.watch.last;
    lapsed_holds_are_reported(pre.table, log, now);
    let before = seen(pre.table, log, now);
    if !pre.table.faults.drop_release.contains(h.holder) {
        assert(after =~= with_all(
            before,
            now,
            seq![
                EventView::GiveBack { holder: h.holder, resource: h.resource, ticket: h.ticket },
            ],
        ));
    }
}

/// **What a revocation records.** That the lock was taken away, with the barrier that it answers.
pub proof fn revocation_is_recorded(
    pre: ServiceView,
    log: Log,
    resource: Seq<char>,
    post: ServiceView,
    after: Log,
    out: Result<Ticket, LockError>,
)
    requires
        FakeLockService::revokes(pre, log, resource, post, after, out),
    ensures
        after == with_all(
            seen(pre.table, log, post.watch.last),
            post.watch.last,
            seq![
                EventView::Revoked { resource, by: "preemptor"@, new_ticket: Some(out->Ok_0) },
            ],
        ),
{
    let now = post.watch.last;
    lapsed_holds_are_reported(pre.table, log, now);
    assert(after =~= with_all(
        seen(pre.table, log, now),
        now,
        seq![EventView::Revoked { resource, by: "preemptor"@, new_ticket: Some(out->Ok_0) }],
    ));
}

/// **What is asked is not recorded.** Asking for the ticket, for the version or for a hold, renewing,
/// and committing record nothing of their own.
pub proof fn questions_are_not_recorded(
    pre: ServiceView,
    log: Log,
    resource: Seq<char>,
    h: HoldingView,
    expected: Version,
    hash: u64,
    post: ServiceView,
    after: Log,
    ticket: Result<Option<Ticket>, LockError>,
    version: Result<Version, LockError>,
    held: Result<bool, LockError>,
    renewal: Result<(), LockError>,
    ruling: Result<Version, Refusal>,
)
    requires
        FakeLockService::tells_ticket(pre, log, resource, post, after, ticket)
            || FakeLockService::tells_version(pre, log, resource, post, after, version)
            || FakeLockService::tells_held(pre, log, h, post, after, held)
            || FakeLockService::renews(pre, log, h, post, after, renewal)
            || FakeLockService::commits(pre, log, h, expected, hash, post, after, ruling),
    ensures
        after == seen(pre.table, log, post.watch.last),
{
    lapsed_holds_are_reported(pre.table, log, post.watch.last);
}

/// **A question changes nothing.** Asking for the ticket, for the version or for a hold leaves every
/// resource at its version, and with the holds whose lease is not over.
pub proof fn questions_change_nothing(
    pre: ServiceView,
    log: Log,
    resource: Seq<char>,
    h: HoldingView,
    post: ServiceView,
    after: Log,
    ticket: Result<Option<Ticket>, LockError>,
    version: Result<Version, LockError>,
    held: Result<bool, LockError>,
    q: Seq<char>,
)
    requires
        FakeLockService::room(pre, 0),
        FakeLockService::tells_ticket(pre, log, resource, post, after, ticket)
            || FakeLockService::tells_version(pre, log, resource, post, after, version)
            || FakeLockService::tells_held(pre, log, h, post, after, held),
    ensures
        stays(pre, post, q),
        post.table.next_ticket == pre.table.next_ticket,
        post.table.last_issued == pre.table.last_issued,
{
    laws::lemma_swept(pre.table, post.watch.last, q);
    only_lapsed_holds_go(pre.table.resource(q).held, pre.table.lease, post.watch.last);
}

/// `q` is as it was, but for holds whose lease is over.
pub open spec fn stays(pre: ServiceView, post: ServiceView, q: Seq<char>) -> bool {
    &&& post.table.resource(q).name == q
    &&& post.table.resource(q).version == pre.table.resource(q).version
    &&& post.table.resource(q).content_hash == pre.table.resource(q).content_hash
    &&& post.table.resource(q).held == good(
        pre.table.resource(q).held,
        pre.table.lease,
        post.watch.last,
    )
}

/// **The ticket in force is the highest that is held.** Asked for it, the service names a ticket on
/// which some hold is that still has some of its lease before it, and no other such hold is on a
/// higher one; and it names none if and only if there is no such hold.
pub proof fn highest_ticket_is_in_force(
    pre: ServiceView,
    log: Log,
    resource: Seq<char>,
    post: ServiceView,
    after: Log,
    out: Result<Option<Ticket>, LockError>,
)
    requires
        FakeLockService::room(pre, 0),
        FakeLockService::tells_ticket(pre, log, resource, post, after, out),
    ensures
        ({
            let left = good(pre.table.resource(resource).held, pre.table.lease, post.watch.last);
            &&& out is Ok
            &&& is_top(left, out->Ok_0)
        }),
{
    let now = post.watch.last;
    laws::lemma_swept(pre.table, now, resource);
    only_lapsed_holds_go(pre.table.resource(resource).held, pre.table.lease, now);
    let left = good(pre.table.resource(resource).held, pre.table.lease, now);
    if left.len() > 0 {
        table::lemma_has_highest(left);
        let t = choose|t: Ticket| table::is_highest(left, t);
        assert(table::is_highest(left, t));
        table::lemma_in_force(left, t);
    }
}

/// **A hold is there as long as its lease is not over.** Asked whether a hold is still there, the
/// service says so if and only if some hold of the resource is on its ticket and still has some of its
/// lease before it.
pub proof fn hold_is_there_while_good(
    pre: ServiceView,
    log: Log,
    h: HoldingView,
    post: ServiceView,
    after: Log,
    out: Result<bool, LockError>,
)
    requires
        FakeLockService::room(pre, 0),
        FakeLockService::tells_held(pre, log, h, post, after, out),
    ensures
        ({
            let left = good(pre.table.resource(h.resource).held, pre.table.lease, post.watch.last);
            &&& out is Ok
            &&& out->Ok_0 <==> exists|i: int|
                0 <= i < left.len() && (#[trigger] left[i]).ticket == h.ticket
        }),
{
    laws::lemma_swept(pre.table, post.watch.last, h.resource);
    only_lapsed_holds_go(pre.table.resource(h.resource).held, pre.table.lease, post.watch.last);
}

/// **The version is told as it stands**, and it is zero for a resource that nobody has asked for.
pub proof fn version_is_told(
    pre: ServiceView,
    log: Log,
    resource: Seq<char>,
    post: ServiceView,
    after: Log,
    out: Result<Version, LockError>,
)
    requires
        FakeLockService::room(pre, 0),
        FakeLockService::tells_version(pre, log, resource, post, after, out),
    ensures
        out == Ok::<Version, LockError>(Version(pre.table.resource(resource).version)),
        (forall|i: int|
            0 <= i < pre.table.resources.len() ==> (#[trigger] pre.table.resources[i]).name
                != resource) ==> out == Ok::<Version, LockError>(Version(0)),
{
    laws::lemma_swept(pre.table, post.watch.last, resource);
    if table::position(pre.table.resources, resource) is Some {
        let i = choose|i: int| table::is_at(pre.table.resources, resource, i);
        assert(table::is_at(pre.table.resources, resource, i));
    }
}

/// **A request changes only what it asks for.** A granted lock is one more hold, behind those that are
/// still good, from the reading of the request; a lock that is not granted changes nothing. No other
/// resource changes, and no version does.
pub proof fn request_changes_one_resource(
    pre: ServiceView,
    log: Log,
    resource: Seq<char>,
    holder: Seq<char>,
    post: ServiceView,
    after: Log,
    out: Result<HoldingView, LockError>,
    q: Seq<char>,
)
    requires
        FakeLockService::room(pre, 1),
        FakeLockService::acquires(pre, log, resource, holder, post, after, out),
    ensures
        ({
            let left = good(pre.table.resource(resource).held, pre.table.lease, post.watch.last);
            let r = post.table.resource(resource);
            &&& q != resource || out is Err ==> stays(pre, post, q)
            &&& r.version == pre.table.resource(resource).version
            &&& r.content_hash == pre.table.resource(resource).content_hash
            &&& out is Ok <==> left.len() == 0 || pre.table.faults.grant_twice.contains(resource)
            &&& out matches Ok(h) ==> {
                &&& h.holder == holder
                &&& h.resource == resource
                &&& r.held == left.push(
                    HeldView { holder, ticket: h.ticket, renewed_at: post.watch.last },
                )
            }
            &&& out matches Err(e) ==> e == LockError::Contended
        }),
{
    let now = post.watch.last;
    let t = pre.table;
    laws::lemma_acquire(t, log, now, resource, holder, resource);
    laws::lemma_acquire(t, log, now, resource, holder, q);
    only_lapsed_holds_go(t.resource(resource).held, t.lease, now);
    only_lapsed_holds_go(t.resource(q).held, t.lease, now);
    lemma_acquire_hash(t, log, now, resource, holder, resource);
    lemma_acquire_hash(t, log, now, resource, holder, q);
    table::lemma_named(post.table, q);
}

proof fn lemma_acquire_hash(
    t: TableView,
    log: Log,
    now: u128,
    resource: Seq<char>,
    holder: Seq<char>,
    q: Seq<char>,
)
    requires
        table::distinct_names(t.resources),
    ensures
        table::acquire_outcome(t, log, now, resource, holder).0.resource(q).content_hash
            == t.resource(q).content_hash,
{
    let s = table::swept(t, now);
    laws::lemma_swept(t, now, resource);
    laws::lemma_swept(t, now, q);
    table::lemma_named(s, resource);
    laws::lemma_lookup(s, s.resource(resource), resource);
    laws::lemma_lookup(s, s.resource(resource), q);
    let known = s.with_resource(s.resource(resource));
    let issued = table::after_issue(known);
    assert(issued.resource(resource) == known.resource(resource));
    assert(issued.resource(q) == known.resource(q));
    let r = issued.resource(resource);
    let ticket = table::next_issue(known);
    let r2 = ResView { held: r.held.push(HeldView { holder, ticket, renewed_at: now }), ..r };
    laws::lemma_lookup(issued, r2, q);
}

/// **A release changes only its own hold.** The holds on its ticket go, unless the service is told to
/// drop the holder's releases; the others whose lease is not over stay. No other resource changes, and
/// no version does.
pub proof fn release_changes_one_hold(
    pre: ServiceView,
    log: Log,
    h: HoldingView,
    post: ServiceView,
    after: Log,
    out: Result<(), LockError>,
    q: Seq<char>,
)
    requires
        FakeLockService::room(pre, 0),
        FakeLockService::releases(pre, log, h, post, after, out),
    ensures
        ({
            let left = good(pre.table.resource(h.resource).held, pre.table.lease, post.watch.last);
            let r = post.table.resource(h.resource);
            &&& q != h.resource || pre.table.faults.drop_release.contains(h.holder) ==> stays(
                pre,
                post,
                q,
            )
            &&& r.version == pre.table.resource(h.resource).version
            &&& r.content_hash == pre.table.resource(h.resource).content_hash
            &&& !pre.table.faults.drop_release.contains(h.holder) ==> r.held == left.filter(
                |x: HeldView| x.ticket != h.ticket,
            )
            &&& post.table.next_ticket == pre.table.next_ticket
        }),
{
    let now = post.watch.last;
    let t = pre.table;
    let s = table::swept(t, now);
    laws::lemma_swept(t, now, h.resource);
    laws::lemma_swept(t, now, q);
    table::lemma_named(s, h.resource);
    table::lemma_named(post.table, q);
    only_lapsed_holds_go(t.resource(h.resource).held, t.lease, now);
    only_lapsed_holds_go(t.resource(q).held, t.lease, now);
    let r = s.resource(h.resource);
    only_the_ticket_goes(r.held, h.ticket);
    let r2 = ResView { held: table::without_ticket(r.held, h.ticket), ..r };
    laws::lemma_lookup(s, r2, q);
    laws::lemma_lookup(s, r2, h.resource);
    if table::position(s.resources, h.resource) is None {
        assert(r.held =~= Seq::<HeldView>::empty());
        assert(r2.held =~= r.held);
    }
}

/// `b` is `a` but for the hold at `k`.
pub open spec fn differs_at(a: Seq<HeldView>, b: Seq<HeldView>, k: int) -> bool {
    &&& 0 <= k < a.len()
    &&& b.len() == a.len()
    &&& forall|j: int| 0 <= j < a.len() && j != k ==> #[trigger] b[j] == a[j]
}

/// **A renewal changes only its own hold.** Unless the service is told to swallow the holder's renewals,
/// it goes through if and only if a hold on its ticket still has some of its lease before it; then the
/// first such hold counts from the reading of the renewal, and nothing else changes. A renewal that
/// does not go through, or is swallowed, changes nothing.
pub proof fn renewal_changes_one_hold(
    pre: ServiceView,
    log: Log,
    h: HoldingView,
    post: ServiceView,
    after: Log,
    out: Result<(), LockError>,
    q: Seq<char>,
)
    requires
        FakeLockService::room(pre, 0),
        FakeLockService::renews(pre, log, h, post, after, out),
    ensures
        ({
            let left = good(pre.table.resource(h.resource).held, pre.table.lease, post.watch.last);
            let swallowed = pre.table.faults.swallow_keepalive.contains(h.holder);
            let r = post.table.resource(h.resource);
            &&& q != h.resource || out is Err || swallowed ==> stays(pre, post, q)
            &&& swallowed ==> out is Ok
            &&& !swallowed ==> (out is Ok <==> exists|i: int|
                0 <= i < left.len() && (#[trigger] left[i]).ticket == h.ticket)
            &&& out matches Err(e) ==> e == LockError::Expired
            &&& !swallowed && out is Ok ==> exists|k: int| #[trigger]
                differs_at(left, r.held, k) && {
                    &&& left[k].ticket == h.ticket
                    &&& forall|j: int| 0 <= j < k ==> (#[trigger] left[j]).ticket != h.ticket
                    &&& r.held[k].ticket == h.ticket
                    &&& r.held[k].holder == left[k].holder
                    &&& r.held[k].renewed_at == post.watch.last
                }
            &&& r.version == pre.table.resource(h.resource).version
            &&& r.content_hash == pre.table.resource(h.resource).content_hash
            &&& post.table.next_ticket == pre.table.next_ticket
        }),
{
    let now = post.watch.last;
    let t = pre.table;
    let s = table::swept(t, now);
    laws::lemma_swept(t, now, h.resource);
    laws::lemma_swept(t, now, q);
    table::lemma_named(s, h.resource);
    table::lemma_named(post.table, q);
    only_lapsed_holds_go(t.resource(h.resource).held, t.lease, now);
    only_lapsed_holds_go(t.resource(q).held, t.lease, now);
    let r = s.resource(h.resource);
    let left = r.held;
    if table::holds(left, h.ticket) {
        table::lemma_has_first(left, h.ticket);
        let k = choose|k: int| table::is_first(left, h.ticket, k);
        assert(table::is_first(left, h.ticket, k));
        let held = table::renewed(left, h.ticket, now);
        assert(differs_at(left, held, k));
        laws::lemma_lookup(s, ResView { held, ..r }, q);
        laws::lemma_lookup(s, ResView { held, ..r }, h.resource);
        if table::position(s.resources, h.resource) is None {
            assert(r.held.len() == 0);
        }
        if !t.faults.swallow_keepalive.contains(h.holder) {
            assert(post.table.resource(h.resource).held == held);
            assert(differs_at(
                good(t.resource(h.resource).held, t.lease, now),
                post.table.resource(h.resource).held,
                k,
            ));
        }
    } else if !t.faults.swallow_keepalive.contains(h.holder) {
        assert(out is Err);
        assert(forall|i: int| 0 <= i < left.len() ==> (#[trigger] left[i]).ticket != h.ticket);
    }
}

/// **A revocation changes only what it is for.** Nothing is held of the resource afterwards; its version
/// stays, and so does every other resource. The barrier is one above the next ticket there was.
pub proof fn revocation_changes_one_resource(
    pre: ServiceView,
    log: Log,
    resource: Seq<char>,
    post: ServiceView,
    after: Log,
    out: Result<Ticket, LockError>,
    q: Seq<char>,
)
    requires
        FakeLockService::room(pre, 1),
        FakeLockService::revokes(pre, log, resource, post, after, out),
    ensures
        q != resource ==> stays(pre, post, q),
        post.table.resource(resource).held.len() == 0,
        post.table.resource(resource).version == pre.table.resource(resource).version,
        post.table.resource(resource).content_hash == pre.table.resource(resource).content_hash,
        out is Ok,
        out->Ok_0.0 == pre.table.next_ticket + 1,
        post.table.next_ticket == pre.table.next_ticket + 1,
{
    let now = post.watch.last;
    let t = pre.table;
    let s = table::swept(t, now);
    laws::lemma_swept(t, now, resource);
    laws::lemma_swept(t, now, q);
    table::lemma_named(s, resource);
    table::lemma_named(post.table, q);
    only_lapsed_holds_go(t.resource(q).held, t.lease, now);
    let cleared = ResView { held: Seq::empty(), ..s.resource(resource) };
    laws::lemma_lookup(s, cleared, q);
    laws::lemma_lookup(s, cleared, resource);
    let mid = s.with_known(cleared);
    assert(post.table.resource(q) == mid.resource(q));
    assert(post.table.resource(resource) == mid.resource(resource));
}

/// `top` is the highest ticket of `held`, or none if there is no hold.
pub open spec fn is_top(held: Seq<HeldView>, top: Option<Ticket>) -> bool {
    match top {
        None => held.len() == 0,
        Some(t) => (exists|i: int| 0 <= i < held.len() && (#[trigger] held[i]).ticket == t)
            && forall|i: int| 0 <= i < held.len() ==> (#[trigger] held[i]).ticket.0 <= t.0,
    }
}

/// **A commit changes only the version.** It goes through if and only if its ticket is the highest of
/// the holds whose lease is not over and the expected version is the one that stands. Then the version
/// moves on by one, and the content is known by its hash; otherwise nothing changes. No hold changes
/// either way, nor does any other resource.
pub proof fn commit_changes_one_version(
    pre: ServiceView,
    log: Log,
    h: HoldingView,
    expected: Version,
    hash: u64,
    post: ServiceView,
    after: Log,
    out: Result<Version, Refusal>,
    q: Seq<char>,
)
    requires
        FakeLockService::room(pre, 1),
        FakeLockService::commits(pre, log, h, expected, hash, post, after, out),
    ensures
        ({
            let left = good(pre.table.resource(h.resource).held, pre.table.lease, post.watch.last);
            let version = pre.table.resource(h.resource).version;
            let r = post.table.resource(h.resource);
            let highest = (exists|i: int|
                0 <= i < left.len() && (#[trigger] left[i]).ticket == h.ticket) && forall|i: int|
                0 <= i < left.len() ==> (#[trigger] left[i]).ticket.0 <= h.ticket.0;
            &&& q != h.resource || out is Err ==> stays(pre, post, q)
            &&& r.held == left
            &&& out is Ok <==> highest && expected.0 == version
            &&& out matches Ok(v) ==> v.0 == version + 1 && r.version == v.0 && r.content_hash
                == hash
            &&& !highest ==> exists|current: Option<Ticket>| #[trigger]
                is_top(left, current) && out == Err::<Version, Refusal>(
                    Refusal::StaleTicket { held: h.ticket, current },
                )
            &&& highest && expected.0 != version ==> out == Err::<Version, Refusal>(
                Refusal::StaleVersion { read: expected, current: Version(version) },
            )
        }),
{
    let now = post.watch.last;
    let t = pre.table;
    let s = table::swept(t, now);
    laws::commit_needs_ticket_and_version(t, log, now, h, expected, hash);
    laws::lemma_swept(t, now, h.resource);
    laws::lemma_swept(t, now, q);
    table::lemma_named(s, h.resource);
    table::lemma_named(post.table, q);
    only_lapsed_holds_go(t.resource(h.resource).held, t.lease, now);
    only_lapsed_holds_go(t.resource(q).held, t.lease, now);
    let r = s.resource(h.resource);
    let left = r.held;
    if table::holds(left, h.ticket) && table::is_highest(left, h.ticket) {
        table::lemma_in_force(left, h.ticket);
    } else if left.len() > 0 {
        table::lemma_has_highest(left);
        let u = choose|u: Ticket| table::is_highest(left, u);
        assert(table::is_highest(left, u));
        table::lemma_in_force(left, u);
        assert(is_top(left, Some(u)));
    } else {
        assert(is_top(left, None));
    }
    match table::position(t.resources, h.resource) {
        Some(i) => {
            assert(table::is_at(t.resources, h.resource, i));
            assert(t.resources[i].version + 1 <= u64::MAX);
        },
        None => {},
    }
    let version = (r.version + 1) as u64;
    laws::lemma_lookup(s, ResView { version, content_hash: hash, ..r }, q);
    laws::lemma_lookup(s, ResView { version, content_hash: hash, ..r }, h.resource);
}

/// **Tickets count up by one.** Unless tickets are made to repeat, the first grant of a service that was
/// just set up is on ticket one; and after a grant, the next ticket is one above it.
pub proof fn tickets_count_up(
    pre: ServiceView,
    log: Log,
    resource: Seq<char>,
    holder: Seq<char>,
    post: ServiceView,
    after: Log,
    out: Result<HoldingView, LockError>,
)
    requires
        FakeLockService::room(pre, 1),
        !pre.table.faults.non_monotonic_tickets,
        FakeLockService::acquires(pre, log, resource, holder, post, after, out),
    ensures
        out matches Ok(h) ==> h.ticket.0 == pre.table.next_ticket && post.table.next_ticket
            == h.ticket.0 + 1 && post.table.last_issued == h.ticket.0,
        out is Err ==> post.table.next_ticket == pre.table.next_ticket && post.table.last_issued
            == pre.table.last_issued,
        out is Ok && (exists|lease: Duration, faults: FaultsView|
            pre.table == #[trigger] fake::idle(lease, faults)) ==> out->Ok_0.ticket == Ticket(1),
{
    laws::lemma_acquire(pre.table, log, post.watch.last, resource, holder, resource);
}

/// **Told to repeat tickets, the service never goes on.** Under that fault the first grant is on ticket
/// one, and every other on the ticket of the one before.
pub proof fn repeated_tickets_stay(
    pre: ServiceView,
    log: Log,
    resource: Seq<char>,
    holder: Seq<char>,
    post: ServiceView,
    after: Log,
    out: Result<HoldingView, LockError>,
)
    requires
        FakeLockService::room(pre, 1),
        pre.table.faults.non_monotonic_tickets,
        FakeLockService::acquires(pre, log, resource, holder, post, after, out),
    ensures
        post.table.next_ticket == pre.table.next_ticket,
        out matches Ok(h) ==> post.table.last_issued == h.ticket.0 && h.ticket.0 == (
        if pre.table.last_issued == 0 {
            1u64
        } else {
            pre.table.last_issued
        }),
{
    laws::lemma_acquire(pre.table, log, post.watch.last, resource, holder, resource);
}

/// **A forced expiry ends every hold of its resource, and nothing else.** Each hold is reported, in
/// order, whether or not its lease is over; the version stays, and so does every other resource.
pub proof fn forced_expiry_ends_every_hold(
    t: TableView,
    log: Log,
    now: u128,
    resource: Seq<char>,
    q: Seq<char>,
)
    requires
        t.room(0),
    ensures
        ({
            let (after, log_after) = table::force_expire_outcome(t, log, now, resource);
            &&& after.resource(resource).held.len() == 0
            &&& after.resource(resource).version == t.resource(resource).version
            &&& after.resource(resource).content_hash == t.resource(resource).content_hash
            &&& q != resource ==> after.resource(q) == t.resource(q)
            &&& after.next_ticket == t.next_ticket
            &&& after.last_issued == t.last_issued
            &&& after.lease == t.lease
            &&& after.faults == t.faults
            &&& log_after == with_all(
                log,
                now,
                t.resource(resource).held.map_values(
                    |h: HeldView|
                        EventView::LeaseExpired { holder: h.holder, resource, ticket: h.ticket },
                ),
            )
        }),
{
    table::lemma_named(t, resource);
    let cleared = ResView { held: Seq::empty(), ..t.resource(resource) };
    laws::lemma_lookup(t, cleared, resource);
    laws::lemma_lookup(t, cleared, q);
    let events = table::all_expired(resource, t.resource(resource).held);
    assert(events =~= t.resource(resource).held.map_values(
        |h: HeldView| EventView::LeaseExpired { holder: h.holder, resource, ticket: h.ticket },
    ));
    lemma_with_all(log, now, events);
}

/// **A new service is unheld and honest.** Nobody holds anything, every resource is at version zero, and
/// no fault is injected for anyone.
pub proof fn new_service_is_unheld(lease: Duration, q: Seq<char>)
    ensures
        ({
            let t = fake::idle(lease, fake::no_faults());
            &&& t.lease == lease
            &&& t.resource(q).held.len() == 0
            &&& t.resource(q).version == 0
            &&& !t.faults.swallow_keepalive.contains(q)
            &&& !t.faults.grant_twice.contains(q)
            &&& !t.faults.drop_release.contains(q)
            &&& !t.faults.non_monotonic_tickets
        }),
{
    let t = fake::idle(lease, fake::no_faults());
    assert(forall|i: int| !table::is_at(t.resources, q, i));
}

} // verus!
