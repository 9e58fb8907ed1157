//! No hold is unbounded.
//!
//! Renewal never goes on past the hold ceiling. So however healthy an agent is, and however often it
//! reports progress, the lock that it keeps is lost at the latest one ceiling and one lease after it
//! was taken.

use crate::harness;
use crate::harness::{AuthorizedView, HarnessView};
use crate::history::Log;
use crate::lock::laws;
use crate::lock::table;
use crate::lock::table::{HeldView, ResView, TableView};
use crate::run::exclusion;
use crate::run::laws::good_holds;
use crate::run::model;
use crate::run::model::{State, Step, Times, World};
use crate::run::steps;
use crate::run::tables;
use crate::types::{HoldingView, LockError, Span, Ticket, Version};
use vstd::prelude::*;

verus! {

/// The lock service reads its clock at most `d` ahead of the harness: when it grants the lock to a
/// reader, and when it renews a hold. What `d` stands for is how much earlier its clock was started,
/// and how long a request takes.
pub open spec fn is_timely(s: Step, d: int) -> bool {
    match s {
        Step::Read { t, .. } => t.acquire <= t.taken + d,
        Step::Progress { t, .. } => t.renew <= t.checked + d,
        _ => true,
    }
}

/// Every hold after is one from before.
spec fn none_new(a: Seq<HeldView>, b: Seq<HeldView>) -> bool {
    forall|i: int| 0 <= i < b.len() ==> a.contains(#[trigger] b[i])
}

/// Every lock that is kept across an agent's thinking is on a ticket of its own, and was renewed at
/// the latest one ceiling after it was taken.
spec fn is_bounded(h: State, d: int) -> bool {
    let held = h.lock.resource(h.resource).held;
    &&& steps::sane(h)
    &&& !h.lock.faults.non_monotonic_tickets
    &&& forall|i: int| 0 <= i < held.len() ==> (#[trigger] held[i]).ticket.0 < h.lock.next_ticket
    &&& forall|u: Seq<char>| #[trigger]
        h.open.contains_key(u) ==> h.open[u].holding.ticket.0 < h.lock.next_ticket
    &&& forall|u: Seq<char>, v: Seq<char>| #[trigger]
        h.open.contains_key(u) && #[trigger] h.open.contains_key(v) && u != v
            ==> h.open[u].holding.ticket != h.open[v].holding.ticket
    &&& forall|u: Seq<char>, i: int| #[trigger]
        h.open.contains_key(u) && 0 <= i < held.len() && (#[trigger] held[i]).ticket
            == h.open[u].holding.ticket ==> held[i].renewed_at <= h.open[u].taken_at
            + h.cfg.hold_ceiling.nanos + d
}

/// Nothing new is held, and nothing new is kept.
spec fn fades(a: State, b: State) -> bool {
    &&& steps::frame(a, b)
    &&& a.lock.next_ticket <= b.lock.next_ticket
    &&& none_new(a.lock.resource(a.resource).held, b.lock.resource(a.resource).held)
    &&& forall|u: Seq<char>| #[trigger]
        b.open.contains_key(u) ==> a.open.contains_key(u) && b.open[u] == a.open[u]
}

proof fn lemma_fades(a: State, b: State, d: int)
    requires
        is_bounded(a, d),
        fades(a, b),
    ensures
        is_bounded(b, d),
{
    let before = a.lock.resource(a.resource).held;
    let held = b.lock.resource(a.resource).held;
    assert forall|i: int| 0 <= i < held.len() implies (#[trigger] held[i]).ticket.0
        < b.lock.next_ticket by {
        let j = choose|j: int| 0 <= j < before.len() && before[j] == held[i];
        assert(before[j].ticket.0 < a.lock.next_ticket);
    }
    assert forall|u: Seq<char>, i: int| #[trigger]
        b.open.contains_key(u) && 0 <= i < held.len() && (#[trigger] held[i]).ticket
            == b.open[u].holding.ticket implies held[i].renewed_at <= b.open[u].taken_at
        + b.cfg.hold_ceiling.nanos + d by {
        let j = choose|j: int| 0 <= j < before.len() && before[j] == held[i];
        assert(a.open.contains_key(u));
        assert(before[j].ticket == a.open[u].holding.ticket);
    }
}

proof fn lemma_live(held: Seq<HeldView>, lease: crate::clock::Duration, now: u128)
    ensures
        none_new(held, table::live(held, lease, now)),
    decreases held.len(),
{
    if held.len() > 0 {
        let first = held.drop_last();
        let kept = table::live(first, lease, now);
        let out = table::live(held, lease, now);
        lemma_live(first, lease, now);
        assert forall|i: int| 0 <= i < out.len() implies held.contains(#[trigger] out[i]) by {
            if i < kept.len() {
                assert(out[i] == kept[i]);
                let j = choose|j: int| 0 <= j < first.len() && first[j] == kept[i];
                assert(held[j] == out[i]);
            } else {
                assert(held[held.len() - 1] == out[i]);
            }
        }
    }
}

proof fn lemma_without(held: Seq<HeldView>, ticket: Ticket)
    ensures
        none_new(held, table::without_ticket(held, ticket)),
    decreases held.len(),
{
    if held.len() > 0 {
        let first = held.drop_last();
        let kept = table::without_ticket(first, ticket);
        let out = table::without_ticket(held, ticket);
        lemma_without(first, ticket);
        assert forall|i: int| 0 <= i < out.len() implies held.contains(#[trigger] out[i]) by {
            if i < kept.len() {
                assert(out[i] == kept[i]);
                let j = choose|j: int| 0 <= j < first.len() && first[j] == kept[i];
                assert(held[j] == out[i]);
            } else {
                assert(held[held.len() - 1] == out[i]);
            }
        }
    }
}

proof fn lemma_none_new(a: Seq<HeldView>, b: Seq<HeldView>, c: Seq<HeldView>)
    requires
        none_new(a, b),
        none_new(b, c),
    ensures
        none_new(a, c),
{
    assert forall|i: int| 0 <= i < c.len() implies a.contains(#[trigger] c[i]) by {
        let j = choose|j: int| 0 <= j < b.len() && b[j] == c[i];
        assert(a.contains(b[j]));
    }
}

proof fn lemma_release(t: TableView, log: Log, now: u128, r: Seq<char>, h: HoldingView)
    requires
        tables::single(t, r),
        h.resource == r,
    ensures
        none_new(t.resource(r).held, table::release_outcome(t, log, now, h).0.resource(r).held),
        table::release_outcome(t, log, now, h).0.next_ticket == t.next_ticket,
{
    let s = table::swept(t, now);
    let held = t.resource(r).held;
    tables::lemma_release(t, log, now, r, h);
    tables::lemma_swept(t, log, now, r);
    tables::lemma_single(s, r);
    let res = s.resource(r);
    lemma_live(held, t.lease, now);
    lemma_without(res.held, h.ticket);
    lemma_none_new(held, res.held, table::without_ticket(res.held, h.ticket));
    tables::lemma_with(s, r, ResView { held: table::without_ticket(res.held, h.ticket), ..res });
}

proof fn lemma_force_expire(t: TableView, log: Log, now: u128, r: Seq<char>, resource: Seq<char>)
    requires
        tables::single(t, r),
    ensures
        none_new(
            t.resource(r).held,
            table::force_expire_outcome(t, log, now, resource).0.resource(r).held,
        ),
        table::force_expire_outcome(t, log, now, resource).0.next_ticket == t.next_ticket,
{
    tables::lemma_force_expire(t, log, now, r, resource);
    tables::lemma_single(t, r);
    let held = t.resource(r).held;
    assert(none_new(held, held)) by {
        assert forall|i: int| 0 <= i < held.len() implies held.contains(#[trigger] held[i]) by {}
    }
    if resource == r {
        tables::lemma_with(t, r, ResView { held: Seq::empty(), ..t.resource(r) });
    } else {
        assert(forall|i: int| !table::is_at(t.resources, resource, i));
    }
}

/// Taking the lock adds one hold at most, on a ticket that nobody had before.
proof fn lemma_acquired(h: State, now: u128, holder: Seq<char>, d: int)
    requires
        is_bounded(h, d),
        h.lock.room(1),
    ensures
        is_bounded(h.answered(model::acquired(h, now, holder)), d),
        model::acquired(h, now, holder).reply matches Ok(holding) ==> {
            let b = h.answered(model::acquired(h, now, holder));
            let held = b.lock.resource(h.resource).held;
            &&& holding.ticket.0 == h.lock.next_ticket
            &&& forall|i: int|
                0 <= i < held.len() && (#[trigger] held[i]).ticket == holding.ticket
                    ==> held[i].renewed_at == now
            &&& forall|u: Seq<char>| #[trigger]
                h.open.contains_key(u) ==> h.open[u].holding.ticket != holding.ticket
            &&& holding.ticket.0 < b.lock.next_ticket
        },
{
    let r = h.resource;
    let grant = model::acquired(h, now, holder);
    let b = h.answered(grant);
    let before = h.lock.resource(r).held;
    let left = table::live(before, h.lock.lease, now);
    let held = b.lock.resource(r).held;
    steps::lemma_acquired(h, now, holder);
    tables::lemma_room(h.lock, r, 1);
    tables::lemma_acquire(h.lock, h.log, now, r, holder);
    laws::grant_needs_free_lock(h.lock, h.log, now, r, holder);
    lemma_live(before, h.lock.lease, now);
    assert forall|i: int| 0 <= i < left.len() implies (#[trigger] left[i]).ticket.0
        < h.lock.next_ticket by {
        let j = choose|j: int| 0 <= j < before.len() && before[j] == left[i];
        assert(before[j].ticket.0 < h.lock.next_ticket);
    }
    if grant.reply is Ok {
        assert forall|i: int| 0 <= i < held.len() implies (#[trigger] held[i]).ticket.0
            < b.lock.next_ticket by {
            if i < left.len() {
                assert(held[i] == left[i]);
            }
        }
        assert forall|i: int|
            0 <= i < held.len() && (#[trigger] held[i]).ticket.0
                == h.lock.next_ticket implies held[i].renewed_at == now by {
            if i < left.len() {
                assert(held[i] == left[i]);
            }
        }
    } else {
        assert(held == left);
    }
    assert forall|u: Seq<char>, i: int| #[trigger]
        b.open.contains_key(u) && 0 <= i < held.len() && (#[trigger] held[i]).ticket
            == b.open[u].holding.ticket implies held[i].renewed_at <= b.open[u].taken_at
        + b.cfg.hold_ceiling.nanos + d by {
        assert(h.open.contains_key(u));
        assert(i < left.len());
        assert(held[i] == left[i]);
        let j = choose|j: int| 0 <= j < before.len() && before[j] == left[i];
        assert(before[j].ticket == h.open[u].holding.ticket);
    }
}

proof fn lemma_told_version(h: State, now: u128)
    requires
        steps::sane(h),
    ensures
        fades(h, h.answered(model::told_version(h, now))),
{
    steps::lemma_told_version(h, now);
    lemma_live(h.lock.resource(h.resource).held, h.lock.lease, now);
}

proof fn lemma_given_back(h: State, now: u128, holding: HoldingView)
    requires
        steps::sane(h),
        holding.resource == h.resource,
    ensures
        fades(h, h.answered(model::given_back(h, now, holding))),
{
    steps::lemma_given_back(h, now, holding);
    lemma_release(h.lock, h.log, now, h.resource, holding);
}

proof fn lemma_read(h: State, holder: Seq<char>, t: Times, d: int)
    requires
        is_bounded(h, d),
        h.lock.room(1),
        t.acquire <= t.taken + d,
    ensures
        is_bounded(model::read_begun(h, holder, t).0, d),
{
    let (b, out) = model::read_begun(h, holder, t);
    if h.cfg.span == Span::Full {
        let grant = model::acquired(h, t.acquire, holder);
        let mid = h.answered(grant);
        lemma_acquired(h, t.acquire, holder, d);
        match grant.reply {
            Err(_) => {
                assert(b == mid);
            },
            Ok(holding) => {
                steps::lemma_acquired(h, t.acquire, holder);
                let told = model::told_version(mid, t.version);
                let asked = mid.answered(told);
                lemma_told_version(mid, t.version);
                lemma_fades(mid, asked, d);
                let open = harness::OpenView { holding, taken_at: t.taken };
                assert(b == HarnessView { open: h.open.insert(holder, open), ..asked });
                steps::lemma_read(h, holder, t);
                let before = mid.lock.resource(h.resource).held;
                let held = b.lock.resource(h.resource).held;
                assert forall|u: Seq<char>, i: int| #[trigger]
                    b.open.contains_key(u) && 0 <= i < held.len() && (#[trigger] held[i]).ticket
                        == b.open[u].holding.ticket implies held[i].renewed_at
                    <= b.open[u].taken_at + b.cfg.hold_ceiling.nanos + d by {
                    if u == holder {
                        assert(before.contains(held[i]));
                        let j = choose|j: int| 0 <= j < before.len() && before[j] == held[i];
                        assert(before[j].ticket == holding.ticket);
                    } else {
                        assert(asked.open.contains_key(u));
                    }
                }
                assert forall|u: Seq<char>, v: Seq<char>| #[trigger]
                    b.open.contains_key(u) && #[trigger] b.open.contains_key(v) && u
                        != v implies b.open[u].holding.ticket != b.open[v].holding.ticket by {
                    assert(u == holder || h.open.contains_key(u));
                    assert(v == holder || h.open.contains_key(v));
                }
                assert forall|u: Seq<char>| #[trigger] b.open.contains_key(u) implies b.open[u].holding.ticket.0
                    < b.lock.next_ticket by {
                    assert(u == holder || asked.open.contains_key(u));
                }
            },
        }
    } else {
        lemma_told_version(h, t.version);
        lemma_fades(h, b, d);
    }
}

proof fn lemma_progressed(h: State, holder: Seq<char>, t: Times, d: int)
    requires
        is_bounded(h, d),
        t.renew <= t.checked + d,
    ensures
        is_bounded(model::progressed(h, holder, t).0, d),
{
    let b = model::progressed(h, holder, t).0;
    steps::lemma_progressed(h, holder, t);
    let r = h.resource;
    let before = h.lock.resource(r).held;
    assert(none_new(before, before)) by {
        assert forall|i: int| 0 <= i < before.len() implies before.contains(
            #[trigger] before[i],
        ) by {}
    }
    if h.open.contains_key(holder) && !harness::past_ceiling(
        h.open[holder].taken_at,
        t.checked,
        h.cfg.hold_ceiling,
    ) {
        let holding = h.open[holder].holding;
        let s = table::swept(h.lock, t.renew);
        tables::lemma_keepalive(h.lock, h.log, t.renew, r, holding);
        tables::lemma_swept(h.lock, h.log, t.renew, r);
        tables::lemma_single(s, r);
        let res = s.resource(r);
        let left = res.held;
        let held = b.lock.resource(r).held;
        lemma_live(before, h.lock.lease, t.renew);
        let swept = HarnessView { lock: s, ..h };
        assert(fades(h, swept));
        lemma_fades(h, swept, d);
        if !h.lock.faults.swallow_keepalive.contains(holding.holder) && table::holds(
            left,
            holding.ticket,
        ) {
            table::lemma_has_first(left, holding.ticket);
            let k = choose|k: int| table::is_first(left, holding.ticket, k);
            assert(table::is_first(left, holding.ticket, k));
            tables::lemma_with(
                s,
                r,
                ResView { held: table::renewed(left, holding.ticket, t.renew), ..res },
            );
            assert(held == table::renewed(left, holding.ticket, t.renew));
            assert forall|i: int| 0 <= i < held.len() implies (#[trigger] held[i]).ticket.0
                < b.lock.next_ticket by {
                assert(left[i].ticket == held[i].ticket);
            }
            assert forall|u: Seq<char>, i: int| #[trigger]
                b.open.contains_key(u) && 0 <= i < held.len() && (#[trigger] held[i]).ticket
                    == b.open[u].holding.ticket implies held[i].renewed_at <= b.open[u].taken_at
                + b.cfg.hold_ceiling.nanos + d by {
                assert(h.open.contains_key(u));
                assert(left[i].ticket == held[i].ticket);
                if i == k {
                    assert(u == holder);
                } else {
                    assert(held[i] == left[i]);
                }
            }
        } else {
            assert(b.lock == s);
            assert(is_bounded(b, d));
        }
    } else {
        assert(b.lock == h.lock);
        lemma_fades(h, b, d);
    }
}

/// Authorizing a write, both halves.
proof fn lemma_authorization(
    h: State,
    holder: Seq<char>,
    read_at: Version,
    content: Seq<char>,
    written: Result<(), Seq<char>>,
    t: Times,
    d: int,
)
    requires
        is_bounded(h, d),
        h.lock.room(2),
    ensures
        ({
            let (b, out) = model::authorization(h, holder, read_at, content, written, t);
            &&& is_bounded(b, d)
            &&& b.resource == h.resource
            &&& out matches Ok(write) ==> write.holding.resource == h.resource
        }),
{
    let r = h.resource;
    tables::lemma_room(h.lock, r, 1);
    tables::lemma_room(h.lock, r, 2);
    let (begun, attempt) = model::attempted(h, holder, read_at, content, t);
    steps::lemma_attempted(h, holder, read_at, content, t);
    if h.cfg.span == Span::WriteOnly {
        let asked = h.answered(model::acquired(h, t.acquire, holder));
        lemma_acquired(h, t.acquire, holder, d);
        lemma_same_lock(asked, begun, d);
    } else {
        lemma_same_lock(h, begun, d);
    }
    match attempt {
        Err(_) => {},
        Ok(a) => {
            let (b, out) = model::authorized(begun, a, written, t);
            steps::lemma_authorized(begun, a, written, t);
            if crate::store::staged(h.fail_at, written) is Ok {
                let ruling = model::ruled(begun, t.commit, a);
                let hash = crate::store::hash_of(content);
                tables::lemma_commit(begun.lock, begun.log, t.commit, r, a.holding, read_at, hash);
                lemma_live(begun.lock.resource(r).held, begun.lock.lease, t.commit);
                let mid = begun.answered(ruling);
                lemma_fades(begun, mid, d);
                match ruling.reply {
                    Ok(_) => {
                        assert(b == mid);
                    },
                    Err(reason) => {
                        let refused = harness::ruled_against(begun, a, ruling, t.refused);
                        steps::lemma_refused(
                            mid,
                            crate::clock::millis(t.refused),
                            a.holder,
                            reason,
                            a.content,
                        );
                        lemma_same_lock(mid, refused, d);
                        if h.cfg.span == Span::WriteOnly {
                            lemma_given_back(refused, t.release, a.holding);
                            lemma_fades(refused, b, d);
                        } else {
                            assert(b == refused);
                        }
                    },
                }
            } else {
                if h.cfg.span == Span::WriteOnly {
                    lemma_given_back(begun, t.release, a.holding);
                    lemma_fades(begun, b, d);
                } else {
                    lemma_same_lock(begun, b, d);
                }
            }
        },
    }
}

/// Something was recorded, or something is no longer kept, and the lock service was not asked.
proof fn lemma_same_lock(a: State, b: State, d: int)
    requires
        is_bounded(a, d),
        steps::sane(b),
        b.resource == a.resource,
        b.cfg == a.cfg,
        b.lock == a.lock,
        forall|u: Seq<char>| #[trigger]
            b.open.contains_key(u) ==> a.open.contains_key(u) && b.open[u] == a.open[u],
    ensures
        is_bounded(b, d),
{
}

/// Applying a write, both halves.
proof fn lemma_application(
    h: State,
    w: AuthorizedView,
    renamed: Result<(), Seq<char>>,
    t: Times,
    d: int,
)
    requires
        is_bounded(h, d),
        w.holding.resource == h.resource,
    ensures
        is_bounded(model::application(h, w, renamed, t).0, d),
        model::application(h, w, renamed, t).0.resource == h.resource,
{
    let (b, out) = model::application(h, w, renamed, t);
    let current = model::told_version(h, t.version);
    let mid = h.answered(current);
    steps::lemma_application(h, w, renamed, t);
    steps::lemma_told_version(h, t.version);
    lemma_told_version(h, t.version);
    lemma_fades(h, mid, d);
    let over = harness::overtaken(h, w, current, t.refused);
    assert(steps::sane(over)) by {
        assert(over.lock == mid.lock);
        assert forall|u: Seq<char>| #[trigger] over.open.contains_key(u) implies over.open[u].holding.resource
            == over.resource && over.open[u].holding.holder == u by {
            assert(mid.open.contains_key(u));
        }
    }
    lemma_same_lock(mid, over, d);
    lemma_given_back(over, t.release, w.holding);
    lemma_fades(over, over.answered(model::given_back(over, t.release, w.holding)), d);
    let done = harness::published(mid, w, t.accepted);
    assert(steps::sane(done)) by {
        assert(done.lock == mid.lock);
        assert forall|u: Seq<char>| #[trigger] done.open.contains_key(u) implies done.open[u].holding.resource
            == done.resource && done.open[u].holding.holder == u by {
            assert(mid.open.contains_key(u));
        }
    }
    lemma_same_lock(mid, done, d);
    lemma_given_back(done, t.release, w.holding);
    lemma_fades(done, done.answered(model::given_back(done, t.release, w.holding)), d);
    lemma_given_back(mid, t.release, w.holding);
    let given = mid.answered(model::given_back(mid, t.release, w.holding));
    lemma_fades(mid, given, d);
    if out is Err && current.reply == Ok::<Version, LockError>(w.new_version) {
        assert(b == given.closed_for(w.holding.holder));
        lemma_same_lock(given, b, d);
    } else {
        assert(b == over.answered(model::given_back(over, t.release, w.holding)) || b
            == done.answered(model::given_back(done, t.release, w.holding)));
    }
}

proof fn lemma_step(w: World, s: Step, d: int)
    requires
        exclusion::exclusive(w),
        is_bounded(w.h, d),
        model::possible(w, s),
        is_timely(s, d),
        s matches Step::SetFaults { faults } ==> !faults.non_monotonic_tickets,
    ensures
        is_bounded(model::after(w, s).h, d),
        model::after(w, s).h.cfg == w.h.cfg,
        model::after(w, s).h.resource == w.h.resource,
        model::after(w, s).h.lock.lease == w.h.lock.lease,
{
    reveal(model::after);
    let next = model::after(w, s);
    let h = w.h;
    let r = h.resource;
    tables::lemma_room(h.lock, r, 1);
    tables::lemma_room(h.lock, r, 2);
    match s {
        Step::Read { holder, failed, t } => {
            let (mid, out) = model::read_begun(h, holder, t);
            steps::lemma_read(h, holder, t);
            lemma_read(h, holder, t, d);
            match out {
                Err(_) => {},
                Ok(reading) => {
                    let content = match failed {
                        Some(reason) => Err(reason),
                        None => Ok(w.disk),
                    };
                    steps::lemma_read_done(mid, reading, content, t);
                    match content {
                        Err(_) => {
                            lemma_abandoned(mid, reading.holder, t, d);
                        },
                        Ok(_) => {
                            lemma_same_lock(mid, next.h, d);
                        },
                    }
                },
            }
        },
        Step::Progress { holder, t } => {
            steps::lemma_progressed(h, holder, t);
            lemma_progressed(h, holder, t, d);
        },
        Step::Authorize { holder, read_at, content, written, t } => {
            lemma_authorization(h, holder, read_at, content, written, t, d);
            lemma_written_frame(w, s);
        },
        Step::Apply { which, landed, renamed, t } => {
            assert(w.pending[which].write.holding.resource == r);
            lemma_application(h, w.pending[which].write, renamed, t, d);
            steps::lemma_application(h, w.pending[which].write, renamed, t);
        },
        Step::Write { holder, read_at, content, written, renamed, t } => {
            lemma_authorization(h, holder, read_at, content, written, t, d);
            let (mid, out) = model::authorization(h, holder, read_at, content, written, t);
            match out {
                Err(_) => {},
                Ok(write) => {
                    lemma_application(mid, write, renamed, t, d);
                },
            }
            lemma_written_frame(w, s);
        },
        Step::Abandon { holder, t } => {
            steps::lemma_abandoned(h, holder, t);
            if h.open.contains_key(holder) {
                lemma_given_back(h, t.release, h.open[holder].holding);
            }
            lemma_abandoned(h, holder, t, d);
        },
        Step::ForceRelease { t } => {
            steps::lemma_revoked(h, t);
            tables::lemma_force_release(h.lock, h.log, t.revoke, r);
            lemma_fades(h, next.h, d);
        },
        Step::Ask { now } => {
            lemma_told_version(h, now);
            lemma_fades(h, next.h, d);
        },
        Step::ForceExpire { resource, now } => {
            steps::lemma_expired(h, resource, now);
            lemma_force_expire(h.lock, h.log, now, r, resource);
            lemma_fades(h, next.h, d);
        },
        Step::Note { at_ms, event } => {
            steps::lemma_noted(h, at_ms, event);
            lemma_same_lock(h, next.h, d);
        },
        Step::SetFaults { faults } => {
            tables::lemma_single(h.lock, r);
            tables::lemma_single(next.h.lock, r);
        },
    }
}

proof fn lemma_abandoned(h: State, holder: Seq<char>, t: Times, d: int)
    requires
        is_bounded(h, d),
    ensures
        is_bounded(model::abandoned(h, holder, t), d),
{
    let b = model::abandoned(h, holder, t);
    steps::lemma_abandoned(h, holder, t);
    if h.open.contains_key(holder) {
        lemma_given_back(h, t.release, h.open[holder].holding);
        let mid = h.answered(model::given_back(h, t.release, h.open[holder].holding));
        lemma_fades(h, mid, d);
        lemma_same_lock(mid, b, d);
    } else {
        assert(b == h);
    }
}

/// A write keeps the settings, both where it is only authorized and where it is also applied.
proof fn lemma_written_frame(w: World, s: Step)
    requires
        steps::sane(w.h),
        w.h.lock.room(2),
        s is Write || s is Authorize,
    ensures
        model::after(w, s).h.cfg == w.h.cfg,
        model::after(w, s).h.resource == w.h.resource,
        model::after(w, s).h.lock.lease == w.h.lock.lease,
{
    reveal(model::after);
    let (holder, read_at, content, written, t) = match s {
        Step::Write { holder, read_at, content, written, t, .. } => (
            holder,
            read_at,
            content,
            written,
            t,
        ),
        Step::Authorize { holder, read_at, content, written, t } => (
            holder,
            read_at,
            content,
            written,
            t,
        ),
        _ => arbitrary(),
    };
    let (begun, attempt) = model::attempted(w.h, holder, read_at, content, t);
    steps::lemma_attempted(w.h, holder, read_at, content, t);
    match attempt {
        Err(_) => {},
        Ok(a) => {
            steps::lemma_authorized(begun, a, written, t);
            let (mid, out) = model::authorized(begun, a, written, t);
            match (s, out) {
                (Step::Write { renamed, .. }, Ok(write)) => {
                    steps::lemma_application(mid, write, renamed, t);
                },
                _ => {},
            }
        },
    }
}

/// Every step of the run is timely, and tickets are never made to repeat.
pub open spec fn is_timely_run(w: World, run: Seq<Step>, d: int) -> bool {
    &&& !w.h.lock.faults.non_monotonic_tickets
    &&& forall|i: int|
        0 <= i < run.len() ==> is_timely(#[trigger] run[i], d) && (
        run[i] matches Step::SetFaults { faults } ==> !faults.non_monotonic_tickets)
}

proof fn lemma_run(w: World, run: Seq<Step>, d: int)
    requires
        model::begins(w),
        model::possible_all(w, run),
        is_timely_run(w, run, d),
    ensures
        is_bounded(model::after_all(w, run).h, d),
        model::after_all(w, run).h.cfg == w.h.cfg,
        model::after_all(w, run).h.lock.lease == w.h.lock.lease,
    decreases run.len(),
{
    if run.len() > 0 {
        let first = run.drop_last();
        assert forall|i: int| 0 <= i < first.len() implies is_timely(#[trigger] first[i], d) && (
        first[i] matches Step::SetFaults { faults } ==> !faults.non_monotonic_tickets) by {
            assert(first[i] == run[i]);
        }
        assert(run[run.len() - 1] == run.last());
        lemma_run(w, first, d);
        exclusion::lemma_run(w, first);
        lemma_step(model::after_all(w, first), run.last(), d);
    } else {
        tables::lemma_single(w.h.lock, w.h.resource);
    }
}

/// **No hold is unbounded.** Whatever an agent does, however healthy it is and however often it
/// reports progress: the lock that it keeps across its thinking is lost once the hold ceiling and
/// one lease have passed since it was taken. `d` allows for the two clocks, which were not started
/// together, and for how long a request takes. It is so in every run in which tickets do not repeat,
/// with any other faults.
pub proof fn no_hold_is_unbounded(
    w: World,
    run: Seq<Step>,
    d: int,
    holder: Seq<char>,
    now: u128,
)
    requires
        model::begins(w),
        model::possible_all(w, run),
        is_timely_run(w, run, d),
        model::after_all(w, run).h.open.contains_key(holder),
        model::after_all(w, run).h.open[holder].taken_at + w.h.cfg.hold_ceiling.nanos
            + w.h.lock.lease.nanos + d <= now,
    ensures
        ({
            let end = model::after_all(w, run).h;
            !table::holds(good_holds(end, now), end.open[holder].holding.ticket)
        }),
{
    lemma_run(w, run, d);
    let end = model::after_all(w, run).h;
    let held = end.lock.resource(end.resource).held;
    let ticket = end.open[holder].holding.ticket;
    let left = good_holds(end, now);
    if table::holds(left, ticket) {
        let i = choose|i: int| 0 <= i < left.len() && (#[trigger] left[i]).ticket == ticket;
        lemma_live(held, end.lock.lease, now);
        lemma_not_lapsed(held, end.lock.lease, now);
        let j = choose|j: int| 0 <= j < held.len() && held[j] == left[i];
        assert(held[j].ticket == ticket);
        assert(!table::lapsed(left[i], end.lock.lease, now));
    }
}

proof fn lemma_not_lapsed(held: Seq<HeldView>, lease: crate::clock::Duration, now: u128)
    ensures
        forall|i: int|
            0 <= i < table::live(held, lease, now).len() ==> !table::lapsed(
                #[trigger] table::live(held, lease, now)[i],
                lease,
                now,
            ),
    decreases held.len(),
{
    if held.len() > 0 {
        let kept = table::live(held.drop_last(), lease, now);
        let out = table::live(held, lease, now);
        lemma_not_lapsed(held.drop_last(), lease, now);
        assert forall|i: int| 0 <= i < out.len() implies !table::lapsed(
            #[trigger] out[i],
            lease,
            now,
        ) by {
            if i < kept.len() {
                assert(out[i] == kept[i]);
            }
        }
    }
}

} // verus!
