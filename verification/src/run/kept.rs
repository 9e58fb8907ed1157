//! What holds while a lock is kept.
//!
//! Where the lock service neither grants twice nor repeats tickets, there is never more than one
//! hold, and a hold that ended does not come back. So while one holder keeps the lock, nobody else's
//! write is authorized.

use crate::history::Log;
use crate::lock::laws;
use crate::lock::table;
use crate::lock::table::TableView;
use crate::run::exclusion;
use crate::run::model;
use crate::run::model::{State, Step, Times, World};
use crate::run::steps;
use crate::run::tables;
use crate::types::{HoldingView, Span, Ticket, Version};
use vstd::prelude::*;

verus! {

/// The service is not told to grant `r` twice, nor to repeat tickets; there is at most one hold, and
/// its ticket was issued.
pub open spec fn undoubled(t: TableView, r: Seq<char>) -> bool {
    let held = t.resource(r).held;
    &&& tables::single(t, r)
    &&& !t.faults.non_monotonic_tickets
    &&& !t.faults.grant_twice.contains(r)
    &&& held.len() <= 1
    &&& held.len() == 1 ==> held[0].ticket.0 < t.next_ticket
}

/// No hold on a ticket that was already issued has come back.
spec fn wanes(a: TableView, b: TableView, r: Seq<char>) -> bool {
    &&& undoubled(b, r)
    &&& a.next_ticket <= b.next_ticket
    &&& forall|u: Ticket|
        u.0 < a.next_ticket && #[trigger] table::holds(b.resource(r).held, u) ==> table::holds(
            a.resource(r).held,
            u,
        )
}

/// Nothing is held that was not held before.
spec fn shrinks(a: TableView, b: TableView, r: Seq<char>) -> bool {
    &&& wanes(a, b, r)
    &&& forall|u: Ticket| #[trigger]
        table::holds(b.resource(r).held, u) ==> table::holds(a.resource(r).held, u)
}

proof fn lemma_held(t: TableView, r: Seq<char>)
    requires
        undoubled(t, r),
    ensures
        forall|u: Ticket| #[trigger] table::holds(t.resource(r).held, u) ==> u.0 < t.next_ticket,
        t.resource(r).held.len() == 1 ==> table::holds(
            t.resource(r).held,
            t.resource(r).held[0].ticket,
        ),
{
    let held = t.resource(r).held;
    if held.len() == 1 {
        assert(held[0].ticket == held[0].ticket);
    }
}

/// Where nothing is held that was not held before, and no more than one is.
proof fn lemma_fewer(a: TableView, b: TableView, r: Seq<char>)
    requires
        undoubled(a, r),
        tables::single(b, r),
        b.faults == a.faults,
        a.next_ticket <= b.next_ticket,
        b.resource(r).held.len() <= 1,
        forall|u: Ticket| #[trigger]
            table::holds(b.resource(r).held, u) ==> table::holds(a.resource(r).held, u),
    ensures
        shrinks(a, b, r),
{
    lemma_held(a, r);
    let held = b.resource(r).held;
    if held.len() == 1 {
        assert(held[0].ticket == held[0].ticket);
        assert(table::holds(held, held[0].ticket));
    }
}

proof fn lemma_acquire(t: TableView, log: Log, now: u128, r: Seq<char>, holder: Seq<char>)
    requires
        undoubled(t, r),
        t.next_ticket < u64::MAX,
    ensures
        wanes(t, table::acquire_outcome(t, log, now, r, holder).0, r),
{
    let b = table::acquire_outcome(t, log, now, r, holder).0;
    tables::lemma_acquire(t, log, now, r, holder);
    laws::grant_needs_free_lock(t, log, now, r, holder);
    let left = table::live(t.resource(r).held, t.lease, now);
    if left.len() == 0 {
        assert(b.resource(r).held[0].ticket == Ticket(t.next_ticket));
    } else {
        assert(b.resource(r).held == left);
        lemma_live(t, r, now);
        lemma_fewer(t, b, r);
    }
}

proof fn lemma_live(t: TableView, r: Seq<char>, now: u128)
    requires
        undoubled(t, r),
    ensures
        table::live(t.resource(r).held, t.lease, now).len() <= 1,
        forall|u: Ticket| #[trigger]
            table::holds(table::live(t.resource(r).held, t.lease, now), u) ==> table::holds(
                t.resource(r).held,
                u,
            ),
{
    let held = t.resource(r).held;
    reveal_with_fuel(table::live, 2);
    if held.len() == 1 {
        assert(held.drop_last() =~= Seq::empty());
        assert(table::live(held, t.lease, now) =~= held || table::live(held, t.lease, now)
            =~= Seq::empty());
    }
}

/// Everything that is no request for the lock.
proof fn lemma_others(
    t: TableView,
    log: Log,
    now: u128,
    r: Seq<char>,
    h: HoldingView,
    resource: Seq<char>,
)
    requires
        undoubled(t, r),
        h.resource == r,
    ensures
        shrinks(t, table::release_outcome(t, log, now, h).0, r),
        shrinks(t, table::keepalive_outcome(t, log, now, h).0, r),
        shrinks(t, table::current_version_outcome(t, log, now, r).0, r),
        shrinks(t, table::force_expire_outcome(t, log, now, resource).0, r),
{
    laws::at_most_one_holds(t, log, now, resource, h.holder, h, Version(0), 0, r);
    tables::lemma_release(t, log, now, r, h);
    tables::lemma_keepalive(t, log, now, r, h);
    tables::lemma_ask(t, log, now, r);
    tables::lemma_force_expire(t, log, now, r, resource);
    let released = table::release_outcome(t, log, now, h).0;
    let renewed = table::keepalive_outcome(t, log, now, h).0;
    let asked = table::current_version_outcome(t, log, now, r).0;
    let expired = table::force_expire_outcome(t, log, now, resource).0;
    assert forall|u: Ticket| #[trigger]
        table::holds(released.resource(r).held, u) implies table::holds(t.resource(r).held, u) by {
        if !table::holds(t.resource(r).held, u) {
            laws::lemma_only_fewer(t, log, now, resource, h, Version(0), 0, r, u);
        }
    }
    lemma_fewer(t, released, r);
    assert forall|u: Ticket| #[trigger]
        table::holds(renewed.resource(r).held, u) implies table::holds(t.resource(r).held, u) by {
        if !table::holds(t.resource(r).held, u) {
            laws::lemma_only_fewer(t, log, now, resource, h, Version(0), 0, r, u);
        }
    }
    lemma_fewer(t, renewed, r);
    assert forall|u: Ticket| #[trigger]
        table::holds(asked.resource(r).held, u) implies table::holds(t.resource(r).held, u) by {
        if !table::holds(t.resource(r).held, u) {
            laws::lemma_only_fewer(t, log, now, resource, h, Version(0), 0, r, u);
        }
    }
    lemma_fewer(t, asked, r);
    assert forall|u: Ticket| #[trigger]
        table::holds(expired.resource(r).held, u) implies table::holds(t.resource(r).held, u) by {
        if !table::holds(t.resource(r).held, u) {
            laws::lemma_only_fewer(t, log, now, resource, h, Version(0), 0, r, u);
        }
    }
    lemma_fewer(t, expired, r);
}

proof fn lemma_commit(
    t: TableView,
    log: Log,
    now: u128,
    r: Seq<char>,
    h: HoldingView,
    expected: Version,
    hash: u64,
)
    requires
        undoubled(t, r),
        h.resource == r,
        t.room(1),
    ensures
        ({
            let (after, _, out) = table::commit_outcome(t, log, now, h, expected, hash);
            &&& shrinks(t, after, r)
            &&& out is Ok ==> forall|u: Ticket| #[trigger]
                table::holds(after.resource(r).held, u) ==> u == h.ticket
        }),
{
    let (after, _, out) = table::commit_outcome(t, log, now, h, expected, hash);
    tables::lemma_commit(t, log, now, r, h, expected, hash);
    lemma_live(t, r, now);
    lemma_fewer(t, after, r);
    if out is Ok {
        let held = after.resource(r).held;
        table::lemma_has_highest(held);
        assert(table::is_highest(held, h.ticket));
    }
}

/// Authorizing a write, both halves: if the version moves on, nothing is held but what the write
/// went under.
proof fn lemma_authorization(
    h: State,
    holder: Seq<char>,
    read_at: Version,
    content: Seq<char>,
    written: Result<(), Seq<char>>,
    t: Times,
)
    requires
        steps::sane(h),
        undoubled(h.lock, h.resource),
        h.lock.room(2),
    ensures
        ({
            let (b, out) = model::authorization(h, holder, read_at, content, written, t);
            &&& steps::sane(b)
            &&& b.resource == h.resource
            &&& wanes(h.lock, b.lock, h.resource)
            &&& steps::version(b) != steps::version(h) ==> {
                &&& model::attempted(h, holder, read_at, content, t).1 matches Ok(a)
                &&& forall|u: Ticket| #[trigger]
                    table::holds(b.lock.resource(h.resource).held, u) ==> u == a.holding.ticket
            }
            &&& out matches Ok(write) ==> write.holding.resource == h.resource
            &&& forall|u: Ticket| #[trigger]
                table::holds(b.lock.resource(h.resource).held, u) ==> table::holds(
                    model::attempted(h, holder, read_at, content, t).0.lock.resource(
                        h.resource,
                    ).held,
                    u,
                )
        }),
{
    let r = h.resource;
    tables::lemma_room(h.lock, r, 2);
    let (begun, attempt) = model::attempted(h, holder, read_at, content, t);
    steps::lemma_attempted(h, holder, read_at, content, t);
    if h.cfg.span == Span::WriteOnly {
        lemma_acquire(h.lock, h.log, t.acquire, r, holder);
        assert(begun.lock == model::acquired(h, t.acquire, holder).state);
    } else {
        assert(begun.lock == h.lock);
    }
    assert(wanes(h.lock, begun.lock, r));
    match attempt {
        Err(_) => {},
        Ok(a) => {
            steps::lemma_authorized(begun, a, written, t);
            let (b, out) = model::authorized(begun, a, written, t);
            if crate::store::staged(h.fail_at, written) is Ok {
                let ruling = model::ruled(begun, t.commit, a);
                let hash = crate::store::hash_of(content);
                lemma_commit(begun.lock, begun.log, t.commit, r, a.holding, read_at, hash);
                assert(wanes(begun.lock, ruling.state, r));
                if ruling.reply is Err && h.cfg.span == Span::WriteOnly {
                    let refused = crate::harness::ruled_against(begun, a, ruling, t.refused);
                    lemma_others(refused.lock, refused.log, t.release, r, a.holding, r);
                    assert(shrinks(ruling.state, b.lock, r));
                } else {
                    assert(b.lock == ruling.state);
                }
                lemma_waned(begun.lock, ruling.state, b.lock, r);
            } else {
                lemma_others(begun.lock, begun.log, t.release, r, a.holding, r);
                assert(shrinks(begun.lock, b.lock, r) || b.lock == begun.lock);
            }
            lemma_waned(h.lock, begun.lock, b.lock, r);
        },
    }
}

proof fn lemma_waned(a: TableView, b: TableView, c: TableView, r: Seq<char>)
    requires
        wanes(a, b, r),
        wanes(b, c, r) || b == c,
    ensures
        wanes(a, c, r),
{
}

/// Applying a write, both halves.
proof fn lemma_application(
    h: State,
    w: crate::harness::AuthorizedView,
    renamed: Result<(), Seq<char>>,
    t: Times,
)
    requires
        steps::sane(h),
        undoubled(h.lock, h.resource),
        w.holding.resource == h.resource,
    ensures
        shrinks(h.lock, model::application(h, w, renamed, t).0.lock, h.resource),
        steps::version(model::application(h, w, renamed, t).0) == steps::version(h),
{
    let r = h.resource;
    steps::lemma_application(h, w, renamed, t);
    steps::lemma_told_version(h, t.version);
    let current = model::told_version(h, t.version);
    lemma_others(h.lock, h.log, t.version, r, w.holding, r);
    let over = crate::harness::overtaken(h, w, current, t.refused);
    lemma_others(over.lock, over.log, t.release, r, w.holding, r);
    let mid = h.answered(current);
    let done = crate::harness::published(mid, w, t.accepted);
    lemma_others(done.lock, done.log, t.release, r, w.holding, r);
    lemma_others(mid.lock, mid.log, t.release, r, w.holding, r);
    let b = model::application(h, w, renamed, t).0;
    assert(shrinks(h.lock, current.state, r));
    assert(shrinks(current.state, b.lock, r) || b.lock == current.state);
    lemma_waned(h.lock, current.state, b.lock, r);
}

/// What a write in one piece leaves of the harness.
spec fn written_through(
    h: State,
    holder: Seq<char>,
    read_at: Version,
    content: Seq<char>,
    written: Result<(), Seq<char>>,
    renamed: Result<(), Seq<char>>,
    t: Times,
) -> State {
    let (mid, out) = model::authorization(h, holder, read_at, content, written, t);
    match out {
        Err(_) => mid,
        Ok(write) => model::application(mid, write, renamed, t).0,
    }
}

/// A write that is authorized leaves nothing held, and under the write-only span so does every write
/// that got the lock.
proof fn lemma_frees(
    h: State,
    holder: Seq<char>,
    read_at: Version,
    content: Seq<char>,
    written: Result<(), Seq<char>>,
    renamed: Result<(), Seq<char>>,
    t: Times,
)
    requires
        steps::sane(h),
        undoubled(h.lock, h.resource),
        h.lock.room(2),
        !h.lock.faults.drop_release.contains(holder),
        model::attempted(h, holder, read_at, content, t).1 is Ok,
        h.cfg.span == Span::WriteOnly || model::authorization(
            h,
            holder,
            read_at,
            content,
            written,
            t,
        ).1 is Ok,
    ensures
        written_through(h, holder, read_at, content, written, renamed, t).lock.resource(
            h.resource,
        ).held.len() == 0,
{
    let r = h.resource;
    let (begun, attempt) = model::attempted(h, holder, read_at, content, t);
    steps::lemma_attempted(h, holder, read_at, content, t);
    let a = attempt->Ok_0;
    let (mid, out) = model::authorized(begun, a, written, t);
    steps::lemma_authorized(begun, a, written, t);
    lemma_authorization(h, holder, read_at, content, written, t);
    assert forall|u: Ticket| #[trigger] table::holds(mid.lock.resource(r).held, u) implies u
        == a.holding.ticket by {
        if h.cfg.span == Span::WriteOnly {
            laws::grant_needs_free_lock(h.lock, h.log, t.acquire, r, holder);
            assert(begun.lock == model::acquired(h, t.acquire, holder).state);
            assert(table::holds(begun.lock.resource(r).held, u));
        }
    }
    let b = written_through(h, holder, read_at, content, written, renamed, t);
    match out {
        Err(_) => {
            crate::run::laws::unauthorized_write_gives_lock_back(begun, a, written, t);
        },
        Ok(write) => {
            lemma_application(mid, write, renamed, t);
            crate::run::laws::finished_write_gives_lock_back(mid, write, renamed, t);
        },
    }
    lemma_held(b.lock, r);
    if b.lock.resource(r).held.len() == 1 {
        let u = b.lock.resource(r).held[0].ticket;
        assert(table::holds(b.lock.resource(r).held, u));
        assert(table::holds(mid.lock.resource(r).held, u));
    }
}

/// The same of the step of a run.
pub(crate) proof fn lemma_write_frees(
    w: World,
    holder: Seq<char>,
    read_at: Version,
    content: Seq<char>,
    written: Result<(), Seq<char>>,
    renamed: Result<(), Seq<char>>,
    t: Times,
)
    requires
        steps::sane(w.h),
        undoubled(w.h.lock, w.h.resource),
        w.h.lock.room(2),
        !w.h.lock.faults.drop_release.contains(holder),
        model::attempted(w.h, holder, read_at, content, t).1 is Ok,
        w.h.cfg.span == Span::WriteOnly || model::authorization(
            w.h,
            holder,
            read_at,
            content,
            written,
            t,
        ).1 is Ok,
    ensures
        ({
            let s = Step::Write { holder, read_at, content, written, renamed, t };
            model::after(w, s).h.lock.resource(w.h.resource).held.len() == 0
        }),
{
    lemma_frees(w.h, holder, read_at, content, written, renamed, t);
    reveal(model::after);
}

/// The ticket of the lock that the step authorizes a write under, if it gets as far as asking.
pub open spec fn write_ticket(h: State, s: Step) -> Option<Ticket> {
    let attempt = match s {
        Step::Write { holder, read_at, content, t, .. } => Some(
            model::attempted(h, holder, read_at, content, t).1,
        ),
        Step::Authorize { holder, read_at, content, t, .. } => Some(
            model::attempted(h, holder, read_at, content, t).1,
        ),
        _ => None,
    };
    match attempt {
        Some(Ok(a)) => Some(a.holding.ticket),
        _ => None,
    }
}

/// The step does not make the service grant `r` twice or repeat tickets.
pub open spec fn keeps_order(s: Step, r: Seq<char>) -> bool {
    s matches Step::SetFaults { faults } ==> !faults.non_monotonic_tickets
        && !faults.grant_twice.contains(r)
}

proof fn lemma_step(w: World, s: Step)
    requires
        exclusion::exclusive(w),
        undoubled(w.h.lock, w.h.resource),
        model::possible(w, s),
        keeps_order(s, w.h.resource),
    ensures
        ({
            let next = model::after(w, s);
            &&& next.h.resource == w.h.resource
            &&& wanes(w.h.lock, next.h.lock, w.h.resource)
            &&& steps::version(next.h) != steps::version(w.h) ==> {
                &&& write_ticket(w.h, s) matches Some(ticket)
                &&& forall|u: Ticket| #[trigger]
                    table::holds(next.h.lock.resource(w.h.resource).held, u) ==> u == ticket
            }
        }),
{
    reveal(model::after);
    let next = model::after(w, s);
    let h = w.h;
    let r = h.resource;
    tables::lemma_room(h.lock, r, 1);
    tables::lemma_room(h.lock, r, 2);
    lemma_held(h.lock, r);
    assert(wanes(h.lock, h.lock, r));
    match s {
        Step::Read { holder, failed, t } => {
            steps::lemma_read(h, holder, t);
            let mid = model::read_begun(h, holder, t).0;
            if h.cfg.span == Span::Full {
                let grant = model::acquired(h, t.acquire, holder);
                lemma_acquire(h.lock, h.log, t.acquire, r, holder);
                let own = HoldingView { resource: r, holder, ticket: Ticket(0) };
                lemma_others(grant.state, grant.log, t.version, r, own, r);
                assert(wanes(grant.state, mid.lock, r) || mid.lock == grant.state);
                lemma_waned(h.lock, grant.state, mid.lock, r);
            } else {
                let own = HoldingView { resource: r, holder, ticket: Ticket(0) };
                lemma_others(h.lock, h.log, t.version, r, own, r);
                assert(mid.lock == model::told_version(h, t.version).state);
            }
            assert(mid.resource == r);
            lemma_ended(mid, holder, t);
            assert(next.h.lock == mid.lock || next.h == model::abandoned(mid, holder, t));
            lemma_waned(h.lock, mid.lock, next.h.lock, r);
        },
        Step::Progress { holder, t } => {
            steps::lemma_progressed(h, holder, t);
            if h.open.contains_key(holder) {
                lemma_others(h.lock, h.log, t.renew, r, h.open[holder].holding, r);
            }
        },
        Step::Authorize { holder, read_at, content, written, t } => {
            lemma_authorization(h, holder, read_at, content, written, t);
        },
        Step::Apply { which, landed, renamed, t } => {
            assert(w.pending[which].write.holding.resource == r);
            lemma_application(h, w.pending[which].write, renamed, t);
        },
        Step::Write { holder, read_at, content, written, renamed, t } => {
            lemma_written(h, holder, read_at, content, written, renamed, t);
            assert(next.h == written_through(h, holder, read_at, content, written, renamed, t));
        },
        Step::Abandon { holder, t } => {
            lemma_ended(h, holder, t);
        },
        Step::ForceRelease { t } => {
            steps::lemma_revoked(h, t);
            tables::lemma_force_release(h.lock, h.log, t.revoke, r);
        },
        Step::Ask { now } => {
            steps::lemma_told_version(h, now);
            let own = HoldingView { resource: r, holder: r, ticket: Ticket(0) };
            lemma_others(h.lock, h.log, now, r, own, r);
        },
        Step::ForceExpire { resource, now } => {
            steps::lemma_expired(h, resource, now);
            let own = HoldingView { resource: r, holder: r, ticket: Ticket(0) };
            lemma_others(h.lock, h.log, now, r, own, resource);
        },
        Step::Note { at_ms, event } => {},
        Step::SetFaults { faults } => {
            tables::lemma_single(h.lock, r);
            tables::lemma_single(next.h.lock, r);
        },
    }
}

/// A read that is abandoned, or that failed.
proof fn lemma_ended(h: State, holder: Seq<char>, t: Times)
    requires
        steps::sane(h),
        undoubled(h.lock, h.resource),
    ensures
        wanes(h.lock, model::abandoned(h, holder, t).lock, h.resource),
        model::abandoned(h, holder, t).resource == h.resource,
        steps::version(model::abandoned(h, holder, t)) == steps::version(h),
{
    steps::lemma_abandoned(h, holder, t);
    lemma_held(h.lock, h.resource);
    if h.open.contains_key(holder) {
        lemma_others(
            h.lock,
            h.log,
            t.release,
            h.resource,
            h.open[holder].holding,
            h.resource,
        );
    }
}

/// A write in one piece.
proof fn lemma_written(
    h: State,
    holder: Seq<char>,
    read_at: Version,
    content: Seq<char>,
    written: Result<(), Seq<char>>,
    renamed: Result<(), Seq<char>>,
    t: Times,
)
    requires
        steps::sane(h),
        undoubled(h.lock, h.resource),
        h.lock.room(2),
    ensures
        ({
            let b = written_through(h, holder, read_at, content, written, renamed, t);
            &&& b.resource == h.resource
            &&& wanes(h.lock, b.lock, h.resource)
            &&& steps::version(b) != steps::version(h) ==> {
                &&& model::attempted(h, holder, read_at, content, t).1 matches Ok(a)
                &&& forall|u: Ticket| #[trigger]
                    table::holds(b.lock.resource(h.resource).held, u) ==> u == a.holding.ticket
            }
        }),
{
    let r = h.resource;
    let (mid, out) = model::authorization(h, holder, read_at, content, written, t);
    lemma_authorization(h, holder, read_at, content, written, t);
    match out {
        Err(_) => {},
        Ok(write) => {
            let b = model::application(mid, write, renamed, t).0;
            lemma_application(mid, write, renamed, t);
            steps::lemma_application(mid, write, renamed, t);
            lemma_waned(h.lock, mid.lock, b.lock, r);
        },
    }
}

/// Nothing in the run makes the service grant the resource twice or repeat tickets.
pub open spec fn in_order(w: World, run: Seq<Step>) -> bool {
    &&& !w.h.lock.faults.non_monotonic_tickets
    &&& !w.h.lock.faults.grant_twice.contains(w.h.resource)
    &&& forall|i: int| 0 <= i < run.len() ==> keeps_order(#[trigger] run[i], w.h.resource)
}

pub(crate) proof fn lemma_run(w: World, run: Seq<Step>)
    requires
        model::begins(w),
        model::possible_all(w, run),
        in_order(w, run),
    ensures
        undoubled(model::after_all(w, run).h.lock, w.h.resource),
        model::after_all(w, run).h.resource == w.h.resource,
    decreases run.len(),
{
    if run.len() > 0 {
        let first = run.drop_last();
        assert forall|i: int| 0 <= i < first.len() implies keeps_order(
            #[trigger] first[i],
            w.h.resource,
        ) by {
            assert(first[i] == run[i]);
        }
        lemma_run(w, first);
        exclusion::lemma_run(w, first);
        assert(run[run.len() - 1] == run.last());
        lemma_step(model::after_all(w, first), run.last());
    } else {
        tables::lemma_single(w.h.lock, w.h.resource);
    }
}

/// **At most one agent holds the lock.** In a run in which the service is not told to grant twice or
/// to repeat tickets, there is never more than one hold, whatever the clocks say and whatever the
/// agents do.
pub proof fn one_holder_at_a_time(w: World, run: Seq<Step>)
    requires
        model::begins(w),
        model::possible_all(w, run),
        in_order(w, run),
    ensures
        model::after_all(w, run).h.lock.resource(w.h.resource).held.len() <= 1,
{
    lemma_run(w, run);
}

/// **Whoever fails can start over at once.** Under the write-only span a write that got the lock
/// leaves it free, however the write ends: accepted, refused, superseded, or failed in the file
/// system. Whoever asks next is granted the lock, without waiting for any lease; unless the service
/// is told to drop the writer's releases.
pub proof fn write_leaves_lock_free(
    w: World,
    run: Seq<Step>,
    holder: Seq<char>,
    read_at: Version,
    content: Seq<char>,
    written: Result<(), Seq<char>>,
    renamed: Result<(), Seq<char>>,
    t: Times,
    now: u128,
    next: Seq<char>,
)
    requires
        model::begins(w),
        w.h.cfg.span == Span::WriteOnly,
        model::possible_all(w, run),
        in_order(w, run),
        ({
            let at = model::after_all(w, run);
            &&& model::possible(
                at,
                Step::Write { holder, read_at, content, written, renamed, t },
            )
            &&& !at.h.lock.faults.drop_release.contains(holder)
            &&& model::attempted(at.h, holder, read_at, content, t).1 is Ok
        }),
    ensures
        ({
            let at = model::after_all(w, run);
            let end = model::after(
                at,
                Step::Write { holder, read_at, content, written, renamed, t },
            ).h;
            &&& end.lock.resource(w.h.resource).held.len() == 0
            &&& model::acquired(end, now, next).reply is Ok
        }),
{
    lemma_run(w, run);
    exclusion::lemma_run(w, run);
    crate::run::laws::write_only_holds_nothing_open(w, run);
    let at = model::after_all(w, run);
    let s = Step::Write { holder, read_at, content, written, renamed, t };
    lemma_write_frees(at, holder, read_at, content, written, renamed, t);
    lemma_step(at, s);
    let end = model::after(at, s).h;
    laws::grant_needs_free_lock(end.lock, end.log, now, w.h.resource, next);
}

/// No step of the run from position `n` on writes under the lock on `ticket`.
pub open spec fn no_write_on(w: World, run: Seq<Step>, n: int, ticket: Ticket) -> bool {
    forall|i: int|
        n <= i < run.len() ==> write_ticket(
            model::after_all(w, run.take(i)).h,
            #[trigger] run[i],
        ) != Some(ticket)
}

/// Some hold of the resource is on `ticket` after the run.
pub open spec fn holds_after(w: World, run: Seq<Step>, ticket: Ticket) -> bool {
    table::holds(model::after_all(w, run).h.lock.resource(w.h.resource).held, ticket)
}

proof fn lemma_first(w: World, run: Seq<Step>, n: int)
    requires
        0 <= n < run.len(),
        model::possible_all(w, run),
        in_order(w, run),
    ensures
        run.drop_last().take(n) == run.take(n),
        model::possible_all(w, run.drop_last()),
        in_order(w, run.drop_last()),
        keeps_order(run.last(), w.h.resource),
{
    let first = run.drop_last();
    assert(first.take(n) =~= run.take(n));
    assert forall|i: int| 0 <= i < first.len() implies keeps_order(
        #[trigger] first[i],
        w.h.resource,
    ) by {
        assert(first[i] == run[i]);
    }
    assert(run[run.len() - 1] == run.last());
}

proof fn lemma_tickets_rise(w: World, run: Seq<Step>, n: int)
    requires
        model::begins(w),
        model::possible_all(w, run),
        in_order(w, run),
        0 <= n <= run.len(),
    ensures
        model::after_all(w, run.take(n)).h.lock.next_ticket <= model::after_all(
            w,
            run,
        ).h.lock.next_ticket,
        undoubled(model::after_all(w, run.take(n)).h.lock, w.h.resource),
    decreases run.len(),
{
    lemma_run(w, run);
    if n == run.len() {
        assert(run.take(n) =~= run);
    } else {
        let first = run.drop_last();
        lemma_first(w, run, n);
        lemma_tickets_rise(w, first, n);
        lemma_run(w, first);
        exclusion::lemma_run(w, first);
        lemma_step(model::after_all(w, first), run.last());
    }
}

/// **While the lock is kept, the version stands.** If an agent holds the lock on the same ticket at
/// two points of a run, as under the full span from its read to its write, then nobody else changed
/// the content in between: the version is the same, unless a write went under that very lock. It is
/// so in every run in which the service is not told to grant twice or to repeat tickets.
pub proof fn version_stands_while_lock_is_kept(w: World, run: Seq<Step>, n: int, ticket: Ticket)
    requires
        model::begins(w),
        model::possible_all(w, run),
        in_order(w, run),
        0 <= n <= run.len(),
        holds_after(w, run.take(n), ticket),
        holds_after(w, run, ticket),
        no_write_on(w, run, n, ticket),
    ensures
        steps::version(model::after_all(w, run).h) == steps::version(
            model::after_all(w, run.take(n)).h,
        ),
    decreases run.len(),
{
    if n == run.len() {
        assert(run.take(n) =~= run);
    } else {
        let first = run.drop_last();
        let before = model::after_all(w, first);
        lemma_first(w, run, n);
        lemma_tickets_rise(w, first, n);
        lemma_held(model::after_all(w, run.take(n)).h.lock, w.h.resource);
        lemma_run(w, first);
        exclusion::lemma_run(w, first);
        lemma_step(before, run.last());
        assert(holds_after(w, first, ticket));
        assert forall|i: int| n <= i < first.len() implies write_ticket(
            model::after_all(w, first.take(i)).h,
            #[trigger] first[i],
        ) != Some(ticket) by {
            assert(first[i] == run[i]);
            assert(first.take(i) =~= run.take(i));
        }
        version_stands_while_lock_is_kept(w, first, n, ticket);
        let last = run.len() - 1;
        assert(run[last] == run.last());
        assert(run.take(last) =~= first);
    }
}

} // verus!
