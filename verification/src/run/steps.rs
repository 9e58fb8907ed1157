//! What the operations of the harness do to the history, and what they keep.

use crate::checker;
use crate::clock;
use crate::harness;
use crate::harness::{AttemptView, AuthorizedView, HarnessView, ReadingView};
use crate::history;
use crate::history::{EventView, Log};
use crate::lock::table;
use crate::run::logs;
use crate::run::model;
use crate::run::model::{State, Times};
use crate::run::tables;
use crate::types::{HoldingView, Refusal, Span, Ticket, Version};
use vstd::prelude::*;

verus! {

/// Every lock that is held across an agent's thinking is that agent's, and on this resource.
pub open spec fn owns(h: State) -> bool {
    forall|holder: Seq<char>| #[trigger]
        h.open.contains_key(holder) ==> h.open[holder].holding.resource == h.resource
            && h.open[holder].holding.holder == holder
}

/// The lock service knows only this resource, and what is held is held by whom it says.
pub open spec fn sane(h: State) -> bool {
    tables::single(h.lock, h.resource) && owns(h)
}

/// The content version.
pub open spec fn version(h: State) -> u64 {
    h.lock.resource(h.resource).version
}

/// The hash that the lock service keeps of the content.
pub open spec fn content_hash(h: State) -> u64 {
    h.lock.resource(h.resource).content_hash
}

/// The history is in tune with the lock service.
pub open spec fn in_tune(h: State) -> bool {
    tables::in_tune(h.lock, h.log, h.resource)
}

/// What every operation keeps.
pub open spec fn frame(a: State, b: State) -> bool {
    &&& sane(b)
    &&& b.resource == a.resource
    &&& b.cfg == a.cfg
    &&& b.fail_at == a.fail_at
    &&& b.lock.faults == a.lock.faults
    &&& b.lock.lease == a.lock.lease
    &&& a.log.len() <= b.log.len()
    &&& history::numbered(a.log) ==> history::numbered(b.log)
}

/// What an operation keeps that is no write.
pub open spec fn calm(a: State, b: State) -> bool {
    &&& frame(a, b)
    &&& logs::same_writes(a.log, b.log)
    &&& version(b) == version(a)
    &&& content_hash(b) == content_hash(a)
    &&& in_tune(a) ==> in_tune(b)
}

/// Recording an event that is neither about a write nor about a ticket.
pub(crate) proof fn lemma_noted(h: State, at_ms: u64, event: EventView)
    requires
        sane(h),
        logs::is_quiet(event),
        logs::keeps_tickets(event),
    ensures
        calm(h, HarnessView { log: history::record(h.log, at_ms, event), ..h }),
{
    logs::lemma_record(h.log, at_ms, event);
    logs::lemma_quiet(h.log, at_ms, event);
    logs::lemma_keeps_tickets(h.log, at_ms, event);
}

pub(crate) proof fn lemma_acquired(h: State, now: u128, holder: Seq<char>)
    requires
        sane(h),
        h.lock.room(1),
    ensures
        calm(h, h.answered(model::acquired(h, now, holder))),
        h.lock.room(2) ==> h.answered(model::acquired(h, now, holder)).lock.room(1),
        match model::acquired(h, now, holder).reply {
            Ok(holding) => holding.resource == h.resource && holding.holder == holder,
            Err(_) => true,
        },
{
    let b = h.answered(model::acquired(h, now, holder));
    tables::lemma_room(h.lock, h.resource, 1);
    tables::lemma_room(h.lock, h.resource, 2);
    tables::lemma_acquire(h.lock, h.log, now, h.resource, holder);
    if in_tune(h) {
        tables::lemma_acquire_tune(h.lock, h.log, now, h.resource, holder);
    }
    tables::lemma_room(b.lock, h.resource, 1);
}

pub(crate) proof fn lemma_told_version(h: State, now: u128)
    requires
        sane(h),
    ensures
        calm(h, h.answered(model::told_version(h, now))),
        model::told_version(h, now).reply == Ok::<Version, crate::types::LockError>(
            Version(version(h)),
        ),
        h.answered(model::told_version(h, now)).lock.resource(h.resource).held == table::live(
            h.lock.resource(h.resource).held,
            h.lock.lease,
            now,
        ),
{
    tables::lemma_ask(h.lock, h.log, now, h.resource);
}

pub(crate) proof fn lemma_given_back(h: State, now: u128, holding: HoldingView)
    requires
        sane(h),
        holding.resource == h.resource,
    ensures
        calm(h, h.answered(model::given_back(h, now, holding))),
{
    tables::lemma_release(h.lock, h.log, now, h.resource, holding);
    if in_tune(h) {
        tables::lemma_release_tune(h.lock, h.log, now, h.resource, holding);
    }
}

pub(crate) proof fn lemma_read(h: State, holder: Seq<char>, t: Times)
    requires
        sane(h),
        h.lock.room(1),
    ensures
        calm(h, model::read_begun(h, holder, t).0),
{
    let grant = model::acquired(h, t.acquire, holder);
    if h.cfg.span == Span::Full {
        lemma_acquired(h, t.acquire, holder);
        let mid = h.answered(grant);
        match grant.reply {
            Err(_) => {},
            Ok(holding) => {
                lemma_told_version(mid, t.version);
                let out = model::read_begun(h, holder, t).0;
                assert forall|u: Seq<char>| #[trigger] out.open.contains_key(u) implies out.open[u].holding.resource
                    == h.resource && out.open[u].holding.holder == u by {
                    if u != holder {
                        assert(h.open.contains_key(u));
                    }
                }
            },
        }
    } else {
        lemma_told_version(h, t.version);
    }
}

pub(crate) proof fn lemma_read_done(
    h: State,
    reading: ReadingView,
    content: Result<Seq<char>, Seq<char>>,
    t: Times,
)
    requires
        sane(h),
    ensures
        calm(h, model::read_done(h, reading, content, t).0),
{
    match content {
        Err(_) => {
            lemma_abandoned(h, reading.holder, t);
        },
        Ok(_) => {
            lemma_noted(
                h,
                clock::millis(t.noted),
                EventView::Read {
                    holder: reading.holder,
                    resource: h.resource,
                    version: reading.version,
                },
            );
        },
    }
}

pub(crate) proof fn lemma_progressed(h: State, holder: Seq<char>, t: Times)
    requires
        sane(h),
    ensures
        calm(h, model::progressed(h, holder, t).0),
{
    logs::lemma_quiet_all(h.log, 0, Seq::empty());
    if h.open.contains_key(holder) {
        if harness::past_ceiling(h.open[holder].taken_at, t.checked, h.cfg.hold_ceiling) {
            lemma_noted(
                h,
                clock::millis(t.noted),
                EventView::CeilingReached { holder, resource: h.resource },
            );
        } else {
            tables::lemma_keepalive(h.lock, h.log, t.renew, h.resource, h.open[holder].holding);
        }
    }
}

pub(crate) proof fn lemma_abandoned(h: State, holder: Seq<char>, t: Times)
    requires
        sane(h),
    ensures
        calm(h, model::abandoned(h, holder, t)),
{
    logs::lemma_quiet_all(h.log, 0, Seq::empty());
    if h.open.contains_key(holder) {
        lemma_given_back(h, t.release, h.open[holder].holding);
        lemma_closed(h, holder);
    }
}

proof fn lemma_closed(h: State, holder: Seq<char>)
    requires
        owns(h),
    ensures
        owns(h.closed_for(holder)),
{
    let b = h.closed_for(holder);
    assert forall|u: Seq<char>| #[trigger] b.open.contains_key(u) implies b.open[u].holding.resource
        == b.resource && b.open[u].holding.holder == u by {
        assert(h.open.contains_key(u));
    }
}

pub(crate) proof fn lemma_revoked(h: State, t: Times)
    requires
        sane(h),
        h.lock.room(1),
    ensures
        calm(h, model::revoked(h, t)),
{
    tables::lemma_room(h.lock, h.resource, 1);
    tables::lemma_force_release(h.lock, h.log, t.revoke, h.resource);
}

/// Ending every hold of a resource on the spot.
pub(crate) proof fn lemma_expired(h: State, resource: Seq<char>, now: u128)
    requires
        sane(h),
    ensures
        ({
            let (lock, log) = table::force_expire_outcome(h.lock, h.log, now, resource);
            calm(h, HarnessView { lock, log, ..h })
        }),
{
    tables::lemma_force_expire(h.lock, h.log, now, h.resource, resource);
}

/// What a refused write does to what is said of writes.
pub open spec fn refused_in(a: Log, b: Log, holder: Seq<char>, content: Seq<char>) -> bool {
    &&& checker::windows(b) == checker::windows(a)
    &&& checker::open_attempt(b, holder) is None
    &&& forall|u: Seq<char>|
        u != holder ==> #[trigger] checker::open_attempt(b, u) == checker::open_attempt(a, u)
    &&& forall|u: Seq<char>| #[trigger] checker::basis(b, u) == checker::basis(a, u)
    &&& checker::version_in_force(b) == checker::version_in_force(a)
    &&& checker::p6_violations(b) == checker::p6_violations(a)
    &&& checker::latest_accepted(b) == checker::latest_accepted(a)
    &&& logs::accepted(b) == logs::accepted(a)
    &&& forall|c: Seq<char>| #[trigger]
        logs::was_refused(b, c) <==> logs::was_refused(a, c) || c == content
}

/// Recording a refused write.
pub(crate) proof fn lemma_refused(
    h: State,
    at_ms: u64,
    holder: Seq<char>,
    reason: Refusal,
    content: Seq<char>,
)
    requires
        sane(h),
    ensures
        ({
            let e = EventView::WriteRefused { holder, resource: h.resource, reason, content };
            let b = HarnessView { log: history::record(h.log, at_ms, e), ..h };
            &&& frame(h, b)
            &&& refused_in(h.log, b.log, holder, content)
            &&& in_tune(h) ==> in_tune(b)
        }),
{
    let e = EventView::WriteRefused { holder, resource: h.resource, reason, content };
    let b = history::record(h.log, at_ms, e);
    logs::lemma_record(h.log, at_ms, e);
    logs::lemma_keeps_tickets(h.log, at_ms, e);
    assert forall|c: Seq<char>| #[trigger]
        logs::was_refused(b, c) <==> logs::was_refused(h.log, c) || c == content by {
        logs::lemma_was_refused(h.log, at_ms, e, c);
    }
}

/// What an attempt to write does to what is said of writes.
pub open spec fn attempted_in(a: Log, b: Log, holder: Seq<char>, expected: Version) -> bool {
    &&& checker::windows(b) == checker::windows(a)
    &&& checker::open_attempt(b, holder) is Some
    &&& checker::open_attempt(b, holder)->Some_0 >= a.len()
    &&& forall|u: Seq<char>|
        u != holder ==> #[trigger] checker::open_attempt(b, u) == checker::open_attempt(a, u)
    &&& checker::basis(b, holder) == Some(expected)
    &&& forall|u: Seq<char>|
        u != holder ==> #[trigger] checker::basis(b, u) == checker::basis(a, u)
    &&& checker::version_in_force(b) == checker::version_in_force(a)
    &&& checker::p6_violations(b) == checker::p6_violations(a)
    &&& checker::latest_accepted(b) == checker::latest_accepted(a)
    &&& logs::accepted(b) == logs::accepted(a)
    &&& forall|c: Seq<char>| #[trigger] logs::was_refused(b, c) == logs::was_refused(a, c)
}

/// The first half of authorizing a write.
pub(crate) proof fn lemma_attempted(
    h: State,
    holder: Seq<char>,
    read_at: Version,
    content: Seq<char>,
    t: Times,
)
    requires
        sane(h),
        h.lock.room(2),
    ensures
        ({
            let (b, out) = model::attempted(h, holder, read_at, content, t);
            &&& frame(h, b)
            &&& version(b) == version(h)
            &&& content_hash(b) == content_hash(h)
            &&& b.lock.room(1)
            &&& in_tune(h) ==> in_tune(b)
            &&& match out {
                Err(_) => calm(h, b),
                Ok(a) => {
                    &&& attempted_in(h.log, b.log, holder, read_at)
                    &&& a.holder == holder
                    &&& a.holding.holder == holder
                    &&& a.holding.resource == h.resource
                    &&& a.read_at == read_at
                    &&& a.content == content
                },
            }
        }),
{
    let grant = model::acquired(h, t.acquire, holder);
    let asked = if h.cfg.span == Span::WriteOnly {
        h.answered(grant)
    } else {
        h
    };
    logs::lemma_quiet_all(h.log, 0, Seq::empty());
    tables::lemma_room(h.lock, h.resource, 1);
    tables::lemma_room(h.lock, h.resource, 2);
    if h.cfg.span == Span::WriteOnly {
        lemma_acquired(h, t.acquire, holder);
    }
    assert(calm(h, asked));
    match harness::write_lock(h, holder, t.checked, grant) {
        Err(_) => {},
        Ok(holding) => {
            let e = EventView::WriteAttempted {
                holder,
                resource: h.resource,
                ticket: holding.ticket,
                expected_version: read_at,
            };
            logs::lemma_record(asked.log, clock::millis(t.noted), e);
            logs::lemma_keeps_tickets(asked.log, clock::millis(t.noted), e);
            let b = history::record(asked.log, clock::millis(t.noted), e);
            assert forall|c: Seq<char>| #[trigger] logs::was_refused(b, c) == logs::was_refused(
                h.log,
                c,
            ) by {
                logs::lemma_was_refused(asked.log, clock::millis(t.noted), e, c);
                assert(logs::was_refused(asked.log, c) == logs::was_refused(h.log, c));
            }
            assert forall|u: Seq<char>| u != holder implies #[trigger] checker::open_attempt(b, u)
                == checker::open_attempt(h.log, u) by {
                assert(checker::open_attempt(asked.log, u) == checker::open_attempt(h.log, u));
            }
            assert forall|u: Seq<char>| u != holder implies #[trigger] checker::basis(b, u)
                == checker::basis(h.log, u) by {
                assert(checker::basis(asked.log, u) == checker::basis(h.log, u));
            }
        },
    }
}

/// The second half of authorizing a write.
pub(crate) proof fn lemma_authorized(
    h: State,
    a: AttemptView,
    written: Result<(), Seq<char>>,
    t: Times,
)
    requires
        sane(h),
        h.lock.room(1),
        a.holding.resource == h.resource,
    ensures
        ({
            let (b, out) = model::authorized(h, a, written, t);
            &&& frame(h, b)
            &&& in_tune(h) ==> in_tune(b)
            &&& match out {
                Ok(write) => {
                    &&& logs::same_writes(h.log, b.log)
                    &&& version(b) == version(h) + 1
                    &&& content_hash(b) == crate::store::hash_of(a.content)
                    &&& write.new_version == Version(version(b))
                    &&& write.holding == a.holding
                    &&& write.content == a.content
                    &&& a.read_at == Version(version(h))
                    &&& table::in_force(b.lock.resource(h.resource).held) == Some(a.holding.ticket)
                },
                Err(_) => {
                    &&& version(b) == version(h)
                    &&& content_hash(b) == content_hash(h)
                    &&& logs::same_writes(h.log, b.log) || refused_in(
                        h.log,
                        b.log,
                        a.holder,
                        a.content,
                    )
                },
            }
        }),
{
    logs::lemma_quiet_all(h.log, 0, Seq::empty());
    if crate::store::staged(h.fail_at, written) is Err {
        if h.cfg.span == Span::WriteOnly {
            lemma_given_back(h, t.release, a.holding);
        }
    } else {
        let ruling = model::ruled(h, t.commit, a);
        tables::lemma_commit(
            h.lock,
            h.log,
            t.commit,
            h.resource,
            a.holding,
            a.read_at,
            crate::store::hash_of(a.content),
        );
        let mid = h.answered(ruling);
        assert(frame(h, mid));
        match ruling.reply {
            Ok(_) => {},
            Err(reason) => {
                let refused = harness::ruled_against(h, a, ruling, t.refused);
                lemma_refused(mid, clock::millis(t.refused), a.holder, reason, a.content);
                assert(refused_in(mid.log, refused.log, a.holder, a.content));
                lemma_after_quiet(h.log, mid.log, refused.log, a.holder, a.content);
                if h.cfg.span == Span::WriteOnly {
                    lemma_given_back(refused, t.release, a.holding);
                    let b = refused.answered(model::given_back(refused, t.release, a.holding));
                    lemma_then_quiet(h.log, refused.log, b.log, a.holder, a.content);
                }
            },
        }
    }
}

/// Quiet events before a refusal.
proof fn lemma_after_quiet(a: Log, b: Log, c: Log, holder: Seq<char>, content: Seq<char>)
    requires
        logs::same_writes(a, b),
        refused_in(b, c, holder, content),
    ensures
        refused_in(a, c, holder, content),
{
    assert forall|u: Seq<char>| u != holder implies #[trigger] checker::open_attempt(c, u)
        == checker::open_attempt(a, u) by {
        assert(checker::open_attempt(b, u) == checker::open_attempt(a, u));
    }
    assert forall|u: Seq<char>| #[trigger] checker::basis(c, u) == checker::basis(a, u) by {
        assert(checker::basis(b, u) == checker::basis(a, u));
    }
    assert forall|d: Seq<char>| #[trigger]
        logs::was_refused(c, d) <==> logs::was_refused(a, d) || d == content by {
        assert(logs::was_refused(b, d) == logs::was_refused(a, d));
    }
}

/// Quiet events after a refusal.
proof fn lemma_then_quiet(a: Log, b: Log, c: Log, holder: Seq<char>, content: Seq<char>)
    requires
        refused_in(a, b, holder, content),
        logs::same_writes(b, c),
    ensures
        refused_in(a, c, holder, content),
{
    assert(checker::open_attempt(c, holder) == checker::open_attempt(b, holder));
    assert forall|u: Seq<char>| u != holder implies #[trigger] checker::open_attempt(c, u)
        == checker::open_attempt(a, u) by {
        assert(checker::open_attempt(b, u) == checker::open_attempt(a, u));
    }
    assert forall|u: Seq<char>| #[trigger] checker::basis(c, u) == checker::basis(a, u) by {
        assert(checker::basis(b, u) == checker::basis(a, u));
    }
    assert forall|d: Seq<char>| #[trigger]
        logs::was_refused(c, d) <==> logs::was_refused(a, d) || d == content by {
        assert(logs::was_refused(b, d) <==> logs::was_refused(a, d) || d == content);
    }
}

/// The event that says that a write was accepted.
pub open spec fn acceptance(w: AuthorizedView) -> EventView {
    EventView::WriteAccepted {
        holder: w.holding.holder,
        resource: w.holding.resource,
        ticket: w.holding.ticket,
        version: w.new_version,
        content: w.content,
    }
}

/// What an accepted write does to what is said of writes.
pub open spec fn accepted_in(a: Log, b: Log, w: AuthorizedView) -> bool {
    let holder = w.holding.holder;
    &&& match checker::open_attempt(a, holder) {
        Some(start) => exists|end: nat|
            a.len() <= end < b.len() && checker::windows(b) == #[trigger] checker::windows(a).push(
                checker::WindowView { holder, start, end },
            ),
        None => checker::windows(b) == checker::windows(a),
    }
    &&& checker::open_attempt(b, holder) is None
    &&& forall|u: Seq<char>|
        u != holder ==> #[trigger] checker::open_attempt(b, u) == checker::open_attempt(a, u)
    &&& checker::basis(b, holder) is None
    &&& forall|u: Seq<char>|
        u != holder ==> #[trigger] checker::basis(b, u) == checker::basis(a, u)
    &&& checker::version_in_force(b) == w.new_version
    &&& checker::basis(a, holder) == Some(checker::version_in_force(a)) ==> checker::p6_violations(
        b,
    ) == checker::p6_violations(a)
    &&& checker::latest_accepted(b) is Some
    &&& checker::latest_accepted(b)->Some_0.1 == w.content
    &&& logs::accepted(b) == logs::accepted(a).push(acceptance(w))
    &&& forall|c: Seq<char>| #[trigger] logs::was_refused(b, c) == logs::was_refused(a, c)
}

/// Recording an accepted write.
proof fn lemma_accepted(h: State, at_ms: u64, w: AuthorizedView)
    requires
        sane(h),
        w.holding.resource == h.resource,
    ensures
        ({
            let e = EventView::WriteAccepted {
                holder: w.holding.holder,
                resource: h.resource,
                ticket: w.holding.ticket,
                version: w.new_version,
                content: w.content,
            };
            let b = HarnessView { log: history::record(h.log, at_ms, e), ..h };
            &&& frame(h, b)
            &&& accepted_in(h.log, b.log, w)
            &&& in_tune(h) && table::in_force(h.lock.resource(h.resource).held) == Some(
                w.holding.ticket,
            ) ==> in_tune(b)
        }),
{
    let e = EventView::WriteAccepted {
        holder: w.holding.holder,
        resource: h.resource,
        ticket: w.holding.ticket,
        version: w.new_version,
        content: w.content,
    };
    let b = history::record(h.log, at_ms, e);
    logs::lemma_record(h.log, at_ms, e);
    assert forall|c: Seq<char>| #[trigger] logs::was_refused(b, c) == logs::was_refused(
        h.log,
        c,
    ) by {
        logs::lemma_was_refused(h.log, at_ms, e, c);
    }
    match checker::open_attempt(h.log, w.holding.holder) {
        Some(start) => {
            let end = h.log.len();
            let window = checker::WindowView { holder: w.holding.holder, start, end };
            assert(checker::windows(b) == checker::windows(h.log).push(window));
        },
        None => {},
    }
    let held = h.lock.resource(h.resource).held;
    if in_tune(h) && table::in_force(held) == Some(w.holding.ticket) {
        tables::lemma_in_force(h.lock, h.log, h.resource);
        table::lemma_has_highest(held);
        assert(table::is_highest(held, w.holding.ticket));
        match checker::latest_revocation(h.log) {
            Some((_, Some(barrier))) => {
                let k = choose|k: int|
                    0 <= k < held.len() && (#[trigger] held[k]).ticket == w.holding.ticket;
                assert(barrier.0 <= held[k].ticket.0);
            },
            _ => {},
        }
        assert(logs::same_tickets(h.log, b));
        assert(checker::p2_at(h.log, b.last()) is None);
        assert(logs::tickets_clean(b));
    }
}

/// Quiet events before an accepted write, and after it.
proof fn lemma_around_accepted(a: Log, b: Log, c: Log, d: Log, w: AuthorizedView)
    requires
        logs::same_writes(a, b),
        accepted_in(b, c, w),
        logs::same_writes(c, d),
    ensures
        accepted_in(a, d, w),
{
    let holder = w.holding.holder;
    assert(checker::open_attempt(b, holder) == checker::open_attempt(a, holder));
    assert(checker::open_attempt(d, holder) == checker::open_attempt(c, holder));
    assert(checker::basis(b, holder) == checker::basis(a, holder));
    assert(checker::basis(d, holder) == checker::basis(c, holder));
    match checker::open_attempt(a, holder) {
        Some(start) => {
            let end = choose|end: nat|
                b.len() <= end < c.len() && checker::windows(c) == #[trigger] checker::windows(
                    b,
                ).push(checker::WindowView { holder, start, end });
            assert(checker::windows(d) == checker::windows(a).push(
                checker::WindowView { holder, start, end },
            ));
        },
        None => {},
    }
    assert forall|u: Seq<char>| u != holder implies #[trigger] checker::open_attempt(d, u)
        == checker::open_attempt(a, u) by {
        assert(checker::open_attempt(b, u) == checker::open_attempt(a, u));
        assert(checker::open_attempt(c, u) == checker::open_attempt(b, u));
    }
    assert forall|u: Seq<char>| u != holder implies #[trigger] checker::basis(d, u)
        == checker::basis(a, u) by {
        assert(checker::basis(b, u) == checker::basis(a, u));
        assert(checker::basis(c, u) == checker::basis(b, u));
    }
    assert forall|x: Seq<char>| #[trigger] logs::was_refused(d, x) == logs::was_refused(a, x) by {
        assert(logs::was_refused(b, x) == logs::was_refused(a, x));
        assert(logs::was_refused(c, x) == logs::was_refused(b, x));
    }
}

/// The hold on `ticket` is still good when the service is asked whether the write may be applied.
pub open spec fn keeps_hold(h: State, ticket: Ticket, t: Times) -> bool {
    table::holds(
        table::live(h.lock.resource(h.resource).held, h.lock.lease, t.version),
        ticket,
    )
}

/// Applying a write, both halves.
pub(crate) proof fn lemma_application(
    h: State,
    w: AuthorizedView,
    renamed: Result<(), Seq<char>>,
    t: Times,
)
    requires
        sane(h),
        w.holding.resource == h.resource,
    ensures
        ({
            let (b, out) = model::application(h, w, renamed, t);
            &&& frame(h, b)
            &&& version(b) == version(h)
            &&& content_hash(b) == content_hash(h)
            &&& match out {
                Ok(v) => {
                    &&& v == w.new_version
                    &&& version(h) == w.new_version.0
                    &&& accepted_in(h.log, b.log, w)
                    &&& in_tune(h) && table::in_force(h.lock.resource(h.resource).held) == Some(
                        w.holding.ticket,
                    ) && keeps_hold(h, w.holding.ticket, t) ==> in_tune(b)
                },
                Err(_) => {
                    &&& in_tune(h) ==> in_tune(b)
                    &&& logs::same_writes(h.log, b.log) || (version(h) != w.new_version.0
                        && refused_in(h.log, b.log, w.holding.holder, w.content))
                },
            }
            &&& out is Err && version(h) == w.new_version.0 ==> renamed is Err
                || crate::store::may_rename(h.fail_at) is Err
        }),
{
    let current = model::told_version(h, t.version);
    lemma_told_version(h, t.version);
    let mid = h.answered(current);
    let holder = w.holding.holder;
    if version(h) != w.new_version.0 {
        let reason = Refusal::StaleVersion { read: w.new_version, current: Version(version(h)) };
        lemma_refused(mid, clock::millis(t.refused), holder, reason, w.content);
        let e = EventView::WriteRefused {
            holder,
            resource: h.resource,
            reason,
            content: w.content,
        };
        let noted = HarnessView {
            log: history::record(mid.log, clock::millis(t.refused), e),
            ..mid
        };
        let over = harness::overtaken(h, w, current, t.refused);
        assert(over == noted.closed_for(holder));
        lemma_closed(noted, holder);
        lemma_after_quiet(h.log, mid.log, over.log, holder, w.content);
        lemma_given_back(over, t.release, w.holding);
        let b = over.answered(model::given_back(over, t.release, w.holding));
        lemma_then_quiet(h.log, over.log, b.log, holder, w.content);
    } else if crate::store::may_rename(h.fail_at) is Ok && renamed is Ok {
        lemma_accepted(mid, clock::millis(t.accepted), w);
        let e = EventView::WriteAccepted {
            holder,
            resource: h.resource,
            ticket: w.holding.ticket,
            version: w.new_version,
            content: w.content,
        };
        let noted = HarnessView {
            log: history::record(mid.log, clock::millis(t.accepted), e),
            ..mid
        };
        let done = harness::published(mid, w, t.accepted);
        assert(done == noted.closed_for(holder));
        lemma_closed(noted, holder);
        let held = h.lock.resource(h.resource).held;
        if in_tune(h) && table::in_force(held) == Some(w.holding.ticket) && keeps_hold(
            h,
            w.holding.ticket,
            t,
        ) {
            lemma_still_in_force(h, w.holding.ticket, t);
        }
        lemma_given_back(done, t.release, w.holding);
        let b = done.answered(model::given_back(done, t.release, w.holding));
        lemma_around_accepted(h.log, mid.log, done.log, b.log, w);
    } else {
        lemma_given_back(mid, t.release, w.holding);
        let given = mid.answered(model::given_back(mid, t.release, w.holding));
        lemma_closed(given, holder);
        assert(model::application(h, w, renamed, t).0 == given.closed_for(holder));
        lemma_then_same(h.log, mid.log, given.log);
    }
}

/// Quiet events, and then more of them.
proof fn lemma_then_same(a: Log, b: Log, c: Log)
    requires
        logs::same_writes(a, b),
        logs::same_writes(b, c),
    ensures
        logs::same_writes(a, c),
{
    assert forall|u: Seq<char>| #[trigger] checker::open_attempt(c, u) == checker::open_attempt(
        a,
        u,
    ) by {
        assert(checker::open_attempt(b, u) == checker::open_attempt(a, u));
    }
    assert forall|u: Seq<char>| #[trigger] checker::basis(c, u) == checker::basis(a, u) by {
        assert(checker::basis(b, u) == checker::basis(a, u));
    }
    assert forall|d: Seq<char>| #[trigger] logs::was_refused(c, d) == logs::was_refused(a, d) by {
        assert(logs::was_refused(b, d) == logs::was_refused(a, d));
    }
}

/// A ticket that was in force and whose hold did not lapse is still in force.
proof fn lemma_still_in_force(h: State, ticket: Ticket, t: Times)
    requires
        in_tune(h),
        table::in_force(h.lock.resource(h.resource).held) == Some(ticket),
        keeps_hold(h, ticket, t),
    ensures
        table::in_force(
            table::live(h.lock.resource(h.resource).held, h.lock.lease, t.version),
        ) == Some(ticket),
{
    let held = h.lock.resource(h.resource).held;
    let left = table::live(held, h.lock.lease, t.version);
    table::lemma_has_highest(held);
    assert(table::is_highest(held, ticket));
    logs::lemma_live(held, h.lock.lease, t.version);
    assert forall|i: int| 0 <= i < left.len() implies (#[trigger] left[i]).ticket.0 <= ticket.0 by {
        assert(held.contains(left[i]));
        let k = choose|k: int| 0 <= k < held.len() && held[k] == left[i];
        assert(held[k].ticket.0 <= ticket.0);
    }
    assert(table::is_highest(left, ticket));
    table::lemma_in_force(left, ticket);
}

} // verus!
