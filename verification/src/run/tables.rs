//! What the operations of the lock service keep, where only one resource is ever asked for.

use crate::checker;
use crate::clock;
use crate::clock::Duration;
use crate::history;
use crate::history::{EventView, Log};
use crate::lock::table;
use crate::lock::table::{HeldView, ResView, TableView};
use crate::run::logs;
use crate::types::{HoldingView, Ticket, Version};
use vstd::prelude::*;

verus! {

/// The service knows no other resource than `r`.
pub open spec fn single(t: TableView, r: Seq<char>) -> bool {
    t.resources.len() <= 1 && (t.resources.len() == 1 ==> t.resources[0].name == r)
}

/// The history mirrors the service's tickets, and shows nothing wrong with them.
pub open spec fn in_tune(t: TableView, log: Log, r: Seq<char>) -> bool {
    &&& single(t, r)
    &&& !t.faults.non_monotonic_tickets
    &&& logs::mirrored(t.resource(r).held, t.next_ticket, log, r)
    &&& logs::tickets_clean(log)
}

pub(crate) proof fn lemma_single(t: TableView, r: Seq<char>)
    requires
        single(t, r),
    ensures
        t.resources.len() == 1 ==> table::position(t.resources, r) == Some(0int) && t.resource(r)
            == t.resources[0],
        t.resources.len() == 0 ==> table::position(t.resources, r) is None && t.resource(r)
            == table::fresh(r),
        t.resource(r).name == r,
{
    if t.resources.len() == 1 {
        assert(table::is_at(t.resources, r, 0));
        let i = choose|i: int| table::is_at(t.resources, r, i);
        assert(table::is_at(t.resources, r, i));
    } else {
        assert(forall|i: int| !table::is_at(t.resources, r, i));
    }
}

/// How much room there is.
pub(crate) proof fn lemma_room(t: TableView, r: Seq<char>, n: nat)
    requires
        single(t, r),
        n <= 2,
    ensures
        t.room(n) <==> t.next_ticket + n <= u64::MAX && t.resource(r).version + n <= u64::MAX,
{
    lemma_single(t, r);
    if t.room(n) && t.resources.len() == 1 {
        assert(t.resources[0].version + n <= u64::MAX);
    }
}

/// Replacing what is known of the one resource.
pub(crate) proof fn lemma_with(t: TableView, r: Seq<char>, res: ResView)
    requires
        single(t, r),
        res.name == r,
    ensures
        single(t.with_resource(res), r),
        t.with_resource(res).resource(r) == res,
        single(t.with_known(res), r),
        t.with_known(res).resource(r) == (if t.resources.len() == 1 {
            res
        } else {
            table::fresh(r)
        }),
{
    lemma_single(t, r);
    let a = t.with_resource(res);
    assert(a.resources.len() == 1);
    assert(a.resources[0] == res);
    lemma_single(a, r);
    lemma_single(t.with_known(res), r);
}

proof fn lemma_expiries_quiet(name: Seq<char>, held: Seq<HeldView>, lease: Duration, now: u128)
    ensures
        forall|i: int|
            0 <= i < table::expiries(name, held, lease, now).len() ==> logs::is_quiet(
                #[trigger] table::expiries(name, held, lease, now)[i],
            ),
    decreases held.len(),
{
    if held.len() > 0 {
        lemma_expiries_quiet(name, held.drop_last(), lease, now);
        let before = table::expiries(name, held.drop_last(), lease, now);
        let all = table::expiries(name, held, lease, now);
        assert forall|i: int| 0 <= i < all.len() implies logs::is_quiet(#[trigger] all[i]) by {
            if i < before.len() {
                assert(all[i] == before[i]);
            }
        }
    }
}

/// What a sweep leaves of the service, and what it says of writes.
pub(crate) proof fn lemma_swept(t: TableView, log: Log, now: u128, r: Seq<char>)
    requires
        single(t, r),
    ensures
        single(table::swept(t, now), r),
        table::swept(t, now).resources.len() == t.resources.len(),
        table::swept(t, now).resource(r) == table::swept_resource(t.resource(r), t.lease, now),
        table::swept_log(t.resources, log, t.lease, now) == history::record_all(
            log,
            clock::millis(now),
            table::expiries(r, t.resource(r).held, t.lease, now),
        ),
        logs::same_writes(log, table::swept_log(t.resources, log, t.lease, now)),
{
    let s = table::swept(t, now);
    lemma_single(t, r);
    lemma_single(s, r);
    lemma_expiries_quiet(r, t.resource(r).held, t.lease, now);
    logs::lemma_quiet_all(
        log,
        clock::millis(now),
        table::expiries(r, t.resource(r).held, t.lease, now),
    );
    if t.resources.len() == 1 {
        assert(t.resources.drop_last() =~= Seq::empty());
        reveal_with_fuel(table::swept_log, 2);
    } else {
        assert(s.resource(r).held =~= table::live(t.resource(r).held, t.lease, now));
    }
}

/// What a sweep reports of tickets.
proof fn lemma_expiries(
    name: Seq<char>,
    held: Seq<HeldView>,
    lease: Duration,
    now: u128,
    log: Log,
    at_ms: u64,
)
    ensures
        ({
            let after = history::record_all(log, at_ms, table::expiries(name, held, lease, now));
            &&& forall|u: Ticket| #[trigger]
                checker::held_tickets(after).contains(u) <==> checker::held_tickets(log).contains(u)
                    && !logs::has_lapsed(held, lease, now, u)
            &&& checker::highest_issued(after) == checker::highest_issued(log)
            &&& checker::latest_revocation(after) == checker::latest_revocation(log)
            &&& checker::p2_violations(after) == checker::p2_violations(log)
            &&& checker::p8_violations(after) == checker::p8_violations(log)
            &&& forall|u: Ticket, res: Seq<char>| #[trigger]
                logs::has_grant(checker::outstanding(after), u, res) <==> logs::has_grant(
                    checker::outstanding(log),
                    u,
                    res,
                ) && !(res == name && logs::has_lapsed(held, lease, now, u))
        }),
    decreases held.len(),
{
    let events = table::expiries(name, held, lease, now);
    let after = history::record_all(log, at_ms, events);
    if held.len() > 0 {
        let first = held.drop_last();
        lemma_expiries(name, first, lease, now, log, at_ms);
        let mid = history::record_all(log, at_ms, table::expiries(name, first, lease, now));
        let h = held.last();
        assert forall|u: Ticket|
            logs::has_lapsed(held, lease, now, u) <==> #[trigger] logs::has_lapsed(
                first,
                lease,
                now,
                u,
            ) || (h.ticket == u && table::lapsed(h, lease, now)) by {
            logs::lemma_has_lapsed(held, lease, now, u);
        }
        if table::lapsed(h, lease, now) {
            let e = EventView::LeaseExpired { holder: h.holder, resource: name, ticket: h.ticket };
            assert(events.drop_last() =~= table::expiries(name, first, lease, now));
            assert(after == history::record(mid, at_ms, e));
            logs::lemma_record(mid, at_ms, e);
            logs::lemma_without_grant(checker::outstanding(mid), h.ticket, name);
            assert forall|u: Ticket| #[trigger]
                checker::held_tickets(after).contains(u) <==> checker::held_tickets(log).contains(u)
                    && !logs::has_lapsed(held, lease, now, u) by {
                assert(checker::held_tickets(mid).contains(u) <==> checker::held_tickets(
                    log,
                ).contains(u) && !logs::has_lapsed(first, lease, now, u));
            }
            assert forall|u: Ticket, res: Seq<char>| #[trigger]
                logs::has_grant(checker::outstanding(after), u, res) <==> logs::has_grant(
                    checker::outstanding(log),
                    u,
                    res,
                ) && !(res == name && logs::has_lapsed(held, lease, now, u)) by {
                assert(logs::has_grant(checker::outstanding(mid), u, res) <==> logs::has_grant(
                    checker::outstanding(log),
                    u,
                    res,
                ) && !(res == name && logs::has_lapsed(first, lease, now, u)));
            }
        } else {
            assert(events == table::expiries(name, first, lease, now));
            assert forall|u: Ticket| #[trigger]
                checker::held_tickets(after).contains(u) <==> checker::held_tickets(log).contains(u)
                    && !logs::has_lapsed(held, lease, now, u) by {
                assert(checker::held_tickets(mid).contains(u) <==> checker::held_tickets(
                    log,
                ).contains(u) && !logs::has_lapsed(first, lease, now, u));
            }
            assert forall|u: Ticket, res: Seq<char>| #[trigger]
                logs::has_grant(checker::outstanding(after), u, res) <==> logs::has_grant(
                    checker::outstanding(log),
                    u,
                    res,
                ) && !(res == name && logs::has_lapsed(held, lease, now, u)) by {
                assert(logs::has_grant(checker::outstanding(mid), u, res) <==> logs::has_grant(
                    checker::outstanding(log),
                    u,
                    res,
                ) && !(res == name && logs::has_lapsed(first, lease, now, u)));
            }
        }
    }
}

/// A sweep keeps the history and the service in tune.
pub(crate) proof fn lemma_swept_tune(t: TableView, log: Log, now: u128, r: Seq<char>)
    requires
        in_tune(t, log, r),
    ensures
        in_tune(
            table::swept(t, now),
            table::swept_log(t.resources, log, t.lease, now),
            r,
        ),
{
    let s = table::swept(t, now);
    let held = t.resource(r).held;
    let left = table::live(held, t.lease, now);
    let after = table::swept_log(t.resources, log, t.lease, now);
    lemma_swept(t, log, now, r);
    lemma_expiries(r, held, t.lease, now, log, clock::millis(now));
    logs::lemma_live(held, t.lease, now);
    assert(s.resource(r).held == left);
    assert forall|i: int| 0 <= i < left.len() implies (#[trigger] left[i]).ticket.0
        < t.next_ticket by {
        assert(held.contains(left[i]));
        let k = choose|k: int| 0 <= k < held.len() && held[k] == left[i];
        assert(held[k].ticket.0 < t.next_ticket);
    }
    assert forall|u: Ticket| #[trigger]
        checker::held_tickets(after).contains(u) <==> table::holds(left, u) by {
        assert(checker::held_tickets(log).contains(u) <==> table::holds(held, u));
    }
    assert forall|u: Ticket, res: Seq<char>| #[trigger]
        logs::has_grant(checker::outstanding(after), u, res) <==> res == r && table::holds(
            left,
            u,
        ) by {
        assert(logs::has_grant(checker::outstanding(log), u, res) <==> res == r && table::holds(
            held,
            u,
        ));
        assert(table::holds(left, u) <==> table::holds(held, u) && !logs::has_lapsed(
            held,
            t.lease,
            now,
            u,
        ));
    }
    match checker::latest_revocation(log) {
        Some((_, Some(barrier))) => {
            assert forall|i: int| 0 <= i < left.len() implies barrier.0 <= (
            #[trigger] left[i]).ticket.0 by {
                assert(held.contains(left[i]));
                let k = choose|k: int| 0 <= k < held.len() && held[k] == left[i];
                assert(barrier.0 <= held[k].ticket.0);
            }
        },
        _ => {},
    }
    assert(logs::mirrored(left, t.next_ticket, after, r));
}

/// What every operation keeps: only one resource is known, the faults and the lease stay, and so
/// does what the history says of writes.
pub open spec fn keeps(t: TableView, log: Log, after: TableView, log_after: Log, r: Seq<char>) -> bool {
    &&& single(after, r)
    &&& after.faults == t.faults
    &&& after.lease == t.lease
    &&& logs::same_writes(log, log_after)
}

pub(crate) proof fn lemma_acquire(t: TableView, log: Log, now: u128, r: Seq<char>, holder: Seq<char>)
    requires
        single(t, r),
    ensures
        ({
            let (after, log_after, out) = table::acquire_outcome(t, log, now, r, holder);
            &&& keeps(t, log, after, log_after, r)
            &&& after.resource(r).version == t.resource(r).version
            &&& after.resource(r).content_hash == t.resource(r).content_hash
            &&& t.next_ticket < u64::MAX ==> t.next_ticket <= after.next_ticket <= t.next_ticket
                + 1
            &&& match out {
                Ok(h) => {
                    &&& h.resource == r
                    &&& h.holder == holder
                    &&& table::holds(after.resource(r).held, h.ticket)
                    &&& !t.faults.non_monotonic_tickets && t.next_ticket < u64::MAX
                        ==> after.next_ticket == t.next_ticket + 1
                },
                Err(_) => true,
            }
        }),
{
    let ms = clock::millis(now);
    let s = table::swept(t, now);
    let swept_log = table::swept_log(t.resources, log, t.lease, now);
    lemma_swept(t, log, now, r);
    lemma_single(s, r);
    let e1 = EventView::TakeRequested { holder, resource: r };
    logs::lemma_quiet(swept_log, ms, e1);
    let asked = history::record(swept_log, ms, e1);
    lemma_with(s, r, s.resource(r));
    let known = s.with_resource(s.resource(r));
    if !(known.resource(r).held.len() > 0 && !t.faults.grant_twice.contains(r)) {
        let ticket = table::next_issue(known);
        let issued = table::after_issue(known);
        assert(single(issued, r));
        lemma_single(issued, r);
        lemma_single(known, r);
        let res = issued.resource(r);
        let new = HeldView { holder, ticket, renewed_at: now };
        let res2 = ResView { held: res.held.push(new), ..res };
        lemma_with(issued, r, res2);
        assert(res2.held[res.held.len() as int].ticket == ticket);
        let e2 = EventView::TicketIssued { resource: r, ticket };
        let e3 = EventView::TakeGranted { holder, resource: r, ticket };
        logs::lemma_quiet(asked, ms, e2);
        logs::lemma_quiet(history::record(asked, ms, e2), ms, e3);
    }
}

pub(crate) proof fn lemma_acquire_tune(
    t: TableView,
    log: Log,
    now: u128,
    r: Seq<char>,
    holder: Seq<char>,
)
    requires
        in_tune(t, log, r),
        t.next_ticket < u64::MAX,
    ensures
        ({
            let (after, log_after, out) = table::acquire_outcome(t, log, now, r, holder);
            in_tune(after, log_after, r)
        }),
{
    let ms = clock::millis(now);
    let s = table::swept(t, now);
    let swept_log = table::swept_log(t.resources, log, t.lease, now);
    lemma_swept(t, log, now, r);
    lemma_swept_tune(t, log, now, r);
    lemma_single(s, r);
    let e1 = EventView::TakeRequested { holder, resource: r };
    logs::lemma_keeps_tickets(swept_log, ms, e1);
    let asked = history::record(swept_log, ms, e1);
    lemma_with(s, r, s.resource(r));
    let known = s.with_resource(s.resource(r));
    assert(known.resource(r) == s.resource(r));
    if !(known.resource(r).held.len() > 0 && !t.faults.grant_twice.contains(r)) {
        let ticket = table::next_issue(known);
        let issued = table::after_issue(known);
        assert(single(issued, r));
        lemma_single(issued, r);
        lemma_single(known, r);
        let res = issued.resource(r);
        let held = res.held;
        let new = HeldView { holder, ticket, renewed_at: now };
        let res2 = ResView { held: held.push(new), ..res };
        lemma_with(issued, r, res2);
        let e2 = EventView::TicketIssued { resource: r, ticket };
        let e3 = EventView::TakeGranted { holder, resource: r, ticket };
        let log2 = history::record(asked, ms, e2);
        let log3 = history::record(log2, ms, e3);
        logs::lemma_record(asked, ms, e2);
        assert(checker::held_tickets(log2) == checker::held_tickets(asked));
        assert(checker::outstanding(log2) == checker::outstanding(asked));
        assert(checker::latest_revocation(log2) == checker::latest_revocation(asked));
        assert(checker::highest_issued(log2) == Some(ticket));
        assert(logs::tickets_clean(log2));
        logs::lemma_record(log2, ms, e3);
        let out = res2.held;
        let next = issued.next_ticket;
        assert(ticket.0 == t.next_ticket && next == t.next_ticket + 1);
        assert(logs::mirrored(held, t.next_ticket, asked, r));
        assert forall|u: Ticket| #[trigger]
            table::holds(out, u) <==> table::holds(held, u) || u == ticket by {
            if table::holds(held, u) {
                let k = choose|k: int| 0 <= k < held.len() && (#[trigger] held[k]).ticket == u;
                assert(out[k].ticket == u);
            }
            assert(out[held.len() as int].ticket == ticket);
            if table::holds(out, u) {
                let k = choose|k: int| 0 <= k < out.len() && (#[trigger] out[k]).ticket == u;
                if k < held.len() {
                    assert(held[k].ticket == u);
                }
            }
        }
        assert forall|i: int, j: int| 0 <= i < j < out.len() implies (#[trigger] out[i]).ticket != (
        #[trigger] out[j]).ticket by {
            assert(out[i] == held[i]);
            if j < held.len() {
                assert(out[j] == held[j]);
            }
        }
        assert forall|i: int| 0 <= i < out.len() implies (#[trigger] out[i]).ticket.0 < next by {
            if i < held.len() {
                assert(out[i] == held[i]);
            }
        }
        assert forall|u: Ticket| #[trigger]
            checker::held_tickets(log3).contains(u) <==> table::holds(out, u) by {
            assert(checker::held_tickets(asked).contains(u) <==> table::holds(held, u));
        }
        assert forall|u: Ticket, q: Seq<char>| #[trigger]
            logs::has_grant(checker::outstanding(log3), u, q) <==> q == r && table::holds(
                out,
                u,
            ) by {
            let before = checker::outstanding(asked);
            logs::lemma_without_grant(before, ticket, r);
            logs::lemma_pushed_grant(
                checker::without_grant(before, ticket, r),
                checker::GrantView { ticket, resource: r, holder, seq: log2.len() },
                u,
                q,
            );
            assert(logs::has_grant(before, u, q) <==> q == r && table::holds(held, u));
        }
        match checker::latest_revocation(asked) {
            Some((_, Some(barrier))) => {
                assert forall|i: int| 0 <= i < out.len() implies barrier.0 <= (
                #[trigger] out[i]).ticket.0 by {
                    if i < held.len() {
                        assert(out[i] == held[i]);
                    }
                }
            },
            _ => {},
        }
        assert(logs::mirrored(out, next, log3, r));
    }
}

pub(crate) proof fn lemma_release(t: TableView, log: Log, now: u128, r: Seq<char>, h: HoldingView)
    requires
        single(t, r),
        h.resource == r,
    ensures
        ({
            let (after, log_after) = table::release_outcome(t, log, now, h);
            &&& keeps(t, log, after, log_after, r)
            &&& after.resource(r).version == t.resource(r).version
            &&& after.resource(r).content_hash == t.resource(r).content_hash
            &&& after.next_ticket == t.next_ticket
        }),
{
    let s = table::swept(t, now);
    let seen = table::swept_log(t.resources, log, t.lease, now);
    lemma_swept(t, log, now, r);
    lemma_single(s, r);
    if !t.faults.drop_release.contains(h.holder) {
        let res = s.resource(r);
        lemma_with(s, r, ResView { held: table::without_ticket(res.held, h.ticket), ..res });
        logs::lemma_quiet(
            seen,
            clock::millis(now),
            EventView::GiveBack { holder: h.holder, resource: r, ticket: h.ticket },
        );
    }
}

pub(crate) proof fn lemma_release_tune(
    t: TableView,
    log: Log,
    now: u128,
    r: Seq<char>,
    h: HoldingView,
)
    requires
        in_tune(t, log, r),
        h.resource == r,
    ensures
        ({
            let (after, log_after) = table::release_outcome(t, log, now, h);
            in_tune(after, log_after, r)
        }),
{
    let ms = clock::millis(now);
    let s = table::swept(t, now);
    let seen = table::swept_log(t.resources, log, t.lease, now);
    lemma_swept(t, log, now, r);
    lemma_swept_tune(t, log, now, r);
    lemma_single(s, r);
    if !t.faults.drop_release.contains(h.holder) {
        let res = s.resource(r);
        let held = res.held;
        let out = table::without_ticket(held, h.ticket);
        lemma_with(s, r, ResView { held: out, ..res });
        let e = EventView::GiveBack { holder: h.holder, resource: r, ticket: h.ticket };
        let log2 = history::record(seen, ms, e);
        logs::lemma_record(seen, ms, e);
        logs::lemma_without_ticket(held, h.ticket);
        logs::lemma_without_grant(checker::outstanding(seen), h.ticket, r);
        let after = s.with_known(ResView { held: out, ..res });
        assert(after.resource(r).held =~= out);
        assert forall|u: Ticket| #[trigger]
            checker::held_tickets(log2).contains(u) <==> table::holds(out, u) by {
            assert(checker::held_tickets(seen).contains(u) <==> table::holds(held, u));
        }
        assert forall|u: Ticket, q: Seq<char>| #[trigger]
            logs::has_grant(checker::outstanding(log2), u, q) <==> q == r && table::holds(
                out,
                u,
            ) by {
            assert(logs::has_grant(checker::outstanding(seen), u, q) <==> q == r && table::holds(
                held,
                u,
            ));
            assert(table::holds(out, u) <==> u != h.ticket && table::holds(held, u));
        }
        lemma_mirrored_part(held, out, s.next_ticket, seen, log2, r);
    }
}

/// Fewer holds are still below the next ticket, and above the barrier.
proof fn lemma_mirrored_part(
    held: Seq<HeldView>,
    out: Seq<HeldView>,
    next: u64,
    log: Log,
    after: Log,
    r: Seq<char>,
)
    requires
        logs::mirrored(held, next, log, r),
        forall|i: int| 0 <= i < out.len() ==> held.contains(#[trigger] out[i]),
        logs::distinct_tickets(out),
        checker::highest_issued(after) == checker::highest_issued(log),
        checker::latest_revocation(after) == checker::latest_revocation(log),
        forall|u: Ticket| #[trigger]
            checker::held_tickets(after).contains(u) <==> table::holds(out, u),
        forall|u: Ticket, q: Seq<char>| #[trigger]
            logs::has_grant(checker::outstanding(after), u, q) <==> q == r && table::holds(out, u),
    ensures
        logs::mirrored(out, next, after, r),
{
    assert forall|i: int| 0 <= i < out.len() implies (#[trigger] out[i]).ticket.0 < next by {
        assert(held.contains(out[i]));
        let k = choose|k: int| 0 <= k < held.len() && held[k] == out[i];
        assert(held[k].ticket.0 < next);
    }
    match checker::latest_revocation(log) {
        Some((_, Some(barrier))) => {
            assert forall|i: int| 0 <= i < out.len() implies barrier.0 <= (
            #[trigger] out[i]).ticket.0 by {
                assert(held.contains(out[i]));
                let k = choose|k: int| 0 <= k < held.len() && held[k] == out[i];
                assert(barrier.0 <= held[k].ticket.0);
            }
        },
        _ => {},
    }
}

pub(crate) proof fn lemma_keepalive(t: TableView, log: Log, now: u128, r: Seq<char>, h: HoldingView)
    requires
        single(t, r),
        h.resource == r,
    ensures
        ({
            let (after, log_after, out) = table::keepalive_outcome(t, log, now, h);
            &&& keeps(t, log, after, log_after, r)
            &&& after.resource(r).version == t.resource(r).version
            &&& after.resource(r).content_hash == t.resource(r).content_hash
            &&& after.next_ticket == t.next_ticket
            &&& in_tune(t, log, r) ==> in_tune(after, log_after, r)
        }),
{
    let s = table::swept(t, now);
    let seen = table::swept_log(t.resources, log, t.lease, now);
    lemma_swept(t, log, now, r);
    lemma_single(s, r);
    if in_tune(t, log, r) {
        lemma_swept_tune(t, log, now, r);
    }
    let res = s.resource(r);
    let held = res.held;
    if !t.faults.swallow_keepalive.contains(h.holder) && table::holds(held, h.ticket) {
        let out = table::renewed(held, h.ticket, now);
        table::lemma_has_first(held, h.ticket);
        lemma_with(s, r, ResView { held: out, ..res });
        if in_tune(t, log, r) {
            assert(out.len() == held.len());
            assert forall|i: int| 0 <= i < held.len() implies (#[trigger] out[i]).ticket
                == held[i].ticket by {}
            assert forall|u: Ticket| #[trigger] table::holds(out, u) <==> table::holds(held, u) by {
                if table::holds(held, u) {
                    let k = choose|k: int| 0 <= k < held.len() && (#[trigger] held[k]).ticket == u;
                    assert(out[k].ticket == u);
                }
                if table::holds(out, u) {
                    let k = choose|k: int| 0 <= k < out.len() && (#[trigger] out[k]).ticket == u;
                    assert(held[k].ticket == u);
                }
            }
            assert forall|i: int, j: int| 0 <= i < j < out.len() implies (#[trigger] out[i]).ticket
                != (#[trigger] out[j]).ticket by {
                assert(held[i].ticket != held[j].ticket);
            }
            assert forall|i: int| 0 <= i < out.len() implies (#[trigger] out[i]).ticket.0
                < s.next_ticket by {
                assert(held[i].ticket.0 < s.next_ticket);
            }
            assert forall|u: Ticket| #[trigger]
                checker::held_tickets(seen).contains(u) <==> table::holds(out, u) by {
                assert(table::holds(out, u) <==> table::holds(held, u));
            }
            assert forall|u: Ticket, q: Seq<char>| #[trigger]
                logs::has_grant(checker::outstanding(seen), u, q) <==> q == r && table::holds(
                    out,
                    u,
                ) by {
                assert(table::holds(out, u) <==> table::holds(held, u));
            }
            match checker::latest_revocation(seen) {
                Some((_, Some(barrier))) => {
                    assert forall|i: int| 0 <= i < out.len() implies barrier.0 <= (
                    #[trigger] out[i]).ticket.0 by {
                        assert(barrier.0 <= held[i].ticket.0);
                    }
                },
                _ => {},
            }
            assert(logs::mirrored(out, s.next_ticket, seen, r));
        }
    }
}

pub(crate) proof fn lemma_force_release(t: TableView, log: Log, now: u128, r: Seq<char>)
    requires
        single(t, r),
        t.next_ticket < u64::MAX,
    ensures
        ({
            let (after, log_after, out) = table::force_release_outcome(t, log, now, r);
            &&& keeps(t, log, after, log_after, r)
            &&& after.resource(r).version == t.resource(r).version
            &&& after.resource(r).content_hash == t.resource(r).content_hash
            &&& after.resource(r).held.len() == 0
            &&& after.next_ticket == t.next_ticket + 1
            &&& in_tune(t, log, r) ==> in_tune(after, log_after, r)
        }),
{
    let ms = clock::millis(now);
    let s = table::swept(t, now);
    let seen = table::swept_log(t.resources, log, t.lease, now);
    lemma_swept(t, log, now, r);
    lemma_single(s, r);
    let res = s.resource(r);
    let cleared = ResView { held: Seq::empty(), ..res };
    lemma_with(s, r, cleared);
    let barrier = Ticket((t.next_ticket + 1) as u64);
    let mid = s.with_known(cleared);
    let after = TableView { next_ticket: barrier.0, ..mid };
    assert(single(after, r));
    lemma_single(mid, r);
    lemma_single(after, r);
    let e = EventView::Revoked { resource: r, by: "preemptor"@, new_ticket: Some(barrier) };
    let log2 = history::record(seen, ms, e);
    logs::lemma_quiet(seen, ms, e);
    if in_tune(t, log, r) {
        lemma_swept_tune(t, log, now, r);
        logs::lemma_record(seen, ms, e);
        let held = res.held;
        let out = after.resource(r).held;
        assert(out =~= Seq::empty());
        match checker::in_force(checker::held_tickets(seen)) {
            Some(top) => {
                assert(checker::is_highest(checker::held_tickets(seen), top));
                assert(checker::held_tickets(seen).contains(top));
                assert(table::holds(held, top));
                let k = choose|k: int| 0 <= k < held.len() && (#[trigger] held[k]).ticket == top;
                assert(held[k].ticket.0 < s.next_ticket);
            },
            None => {},
        }
        logs::lemma_without_resource(checker::outstanding(seen), r);
        assert forall|u: Ticket, q: Seq<char>| #[trigger]
            logs::has_grant(checker::outstanding(log2), u, q) <==> q == r && table::holds(
                out,
                u,
            ) by {
            assert(logs::has_grant(checker::outstanding(seen), u, q) <==> q == r && table::holds(
                held,
                u,
            ));
        }
        assert(logs::mirrored(out, after.next_ticket, log2, r));
    }
}

/// Ending every hold of a resource on the spot.
pub(crate) proof fn lemma_force_expire(
    t: TableView,
    log: Log,
    now: u128,
    r: Seq<char>,
    resource: Seq<char>,
)
    requires
        single(t, r),
    ensures
        ({
            let (after, log_after) = table::force_expire_outcome(t, log, now, resource);
            &&& keeps(t, log, after, log_after, r)
            &&& after.resource(r).version == t.resource(r).version
            &&& after.resource(r).content_hash == t.resource(r).content_hash
            &&& after.next_ticket == t.next_ticket
            &&& in_tune(t, log, r) ==> in_tune(after, log_after, r)
        }),
{
    let ms = clock::millis(now);
    let held = t.resource(resource).held;
    let events = table::all_expired(resource, held);
    assert forall|i: int| 0 <= i < events.len() implies logs::is_quiet(#[trigger] events[i]) by {}
    logs::lemma_quiet_all(log, ms, events);
    lemma_single(t, r);
    if resource == r {
        lemma_with(t, r, ResView { held: Seq::empty(), ..t.resource(r) });
        if in_tune(t, log, r) {
            lemma_all_expired(r, held, log, ms);
            let after_log = history::record_all(log, ms, events);
            let out = Seq::<HeldView>::empty();
            assert forall|u: Ticket| #[trigger]
                checker::held_tickets(after_log).contains(u) <==> table::holds(out, u) by {
                assert(checker::held_tickets(log).contains(u) <==> table::holds(held, u));
            }
            assert forall|u: Ticket, q: Seq<char>| #[trigger]
                logs::has_grant(checker::outstanding(after_log), u, q) <==> q == r && table::holds(
                    out,
                    u,
                ) by {
                assert(logs::has_grant(checker::outstanding(log), u, q) <==> q == r
                    && table::holds(held, u));
            }
            lemma_mirrored_part(held, out, t.next_ticket, log, after_log, r);
            let after = table::force_expire_outcome(t, log, now, resource).0;
            assert(after.resource(r).held =~= out);
        }
    } else {
        assert(forall|i: int| !table::is_at(t.resources, resource, i)) by {
            if t.resources.len() == 1 {
                assert(t.resources[0].name == r);
            }
        }
        assert(events =~= Seq::empty());
    }
}

/// What is reported of tickets when every hold is ended on the spot.
proof fn lemma_all_expired(name: Seq<char>, held: Seq<HeldView>, log: Log, at_ms: u64)
    ensures
        ({
            let after = history::record_all(log, at_ms, table::all_expired(name, held));
            &&& forall|u: Ticket| #[trigger]
                checker::held_tickets(after).contains(u) <==> checker::held_tickets(log).contains(u)
                    && !table::holds(held, u)
            &&& checker::highest_issued(after) == checker::highest_issued(log)
            &&& checker::latest_revocation(after) == checker::latest_revocation(log)
            &&& checker::p2_violations(after) == checker::p2_violations(log)
            &&& checker::p8_violations(after) == checker::p8_violations(log)
            &&& forall|u: Ticket, res: Seq<char>| #[trigger]
                logs::has_grant(checker::outstanding(after), u, res) <==> logs::has_grant(
                    checker::outstanding(log),
                    u,
                    res,
                ) && !(res == name && table::holds(held, u))
        }),
    decreases held.len(),
{
    let events = table::all_expired(name, held);
    let after = history::record_all(log, at_ms, events);
    if held.len() > 0 {
        let first = held.drop_last();
        let h = held.last();
        lemma_all_expired(name, first, log, at_ms);
        assert(events.drop_last() =~= table::all_expired(name, first));
        let mid = history::record_all(log, at_ms, table::all_expired(name, first));
        let e = EventView::LeaseExpired { holder: h.holder, resource: name, ticket: h.ticket };
        assert(after == history::record(mid, at_ms, e));
        logs::lemma_record(mid, at_ms, e);
        logs::lemma_without_grant(checker::outstanding(mid), h.ticket, name);
        assert forall|u: Ticket|
            table::holds(held, u) <==> #[trigger] table::holds(first, u) || h.ticket == u by {
            if table::holds(first, u) {
                let k = choose|k: int| 0 <= k < first.len() && (#[trigger] first[k]).ticket == u;
                assert(held[k].ticket == u);
            }
            assert(held[held.len() - 1].ticket == h.ticket);
            if table::holds(held, u) {
                let k = choose|k: int| 0 <= k < held.len() && (#[trigger] held[k]).ticket == u;
                if k < first.len() {
                    assert(first[k].ticket == u);
                }
            }
        }
        assert forall|u: Ticket| #[trigger]
            checker::held_tickets(after).contains(u) <==> checker::held_tickets(log).contains(u)
                && !table::holds(held, u) by {
            assert(checker::held_tickets(mid).contains(u) <==> checker::held_tickets(log).contains(
                u,
            ) && !table::holds(first, u));
        }
        assert forall|u: Ticket, res: Seq<char>| #[trigger]
            logs::has_grant(checker::outstanding(after), u, res) <==> logs::has_grant(
                checker::outstanding(log),
                u,
                res,
            ) && !(res == name && table::holds(held, u)) by {
            assert(logs::has_grant(checker::outstanding(mid), u, res) <==> logs::has_grant(
                checker::outstanding(log),
                u,
                res,
            ) && !(res == name && table::holds(first, u)));
            assert(table::holds(held, u) <==> table::holds(first, u) || h.ticket == u);
        }
    }
}

/// Asking for the version, the ticket or a hold sweeps and changes nothing else.
pub(crate) proof fn lemma_ask(t: TableView, log: Log, now: u128, r: Seq<char>)
    requires
        single(t, r),
    ensures
        ({
            let (after, log_after, out) = table::current_version_outcome(t, log, now, r);
            &&& keeps(t, log, after, log_after, r)
            &&& after == table::swept(t, now)
            &&& after.resource(r) == table::swept_resource(t.resource(r), t.lease, now)
            &&& out == Version(t.resource(r).version)
            &&& in_tune(t, log, r) ==> in_tune(after, log_after, r)
        }),
{
    lemma_swept(t, log, now, r);
    if in_tune(t, log, r) {
        lemma_swept_tune(t, log, now, r);
    }
}

pub(crate) proof fn lemma_commit(
    t: TableView,
    log: Log,
    now: u128,
    r: Seq<char>,
    h: HoldingView,
    expected: Version,
    hash: u64,
)
    requires
        single(t, r),
        h.resource == r,
        t.room(1),
    ensures
        ({
            let (after, log_after, out) = table::commit_outcome(t, log, now, h, expected, hash);
            &&& keeps(t, log, after, log_after, r)
            &&& after.next_ticket == t.next_ticket
            &&& after.resource(r).held == table::live(t.resource(r).held, t.lease, now)
            &&& in_tune(t, log, r) ==> in_tune(after, log_after, r)
            &&& match out {
                Ok(v) => {
                    &&& v.0 == t.resource(r).version + 1
                    &&& after.resource(r).version == v.0
                    &&& after.resource(r).content_hash == hash
                    &&& expected == Version(t.resource(r).version)
                    &&& table::in_force(after.resource(r).held) == Some(h.ticket)
                },
                Err(_) => {
                    &&& after.resource(r).version == t.resource(r).version
                    &&& after.resource(r).content_hash == t.resource(r).content_hash
                },
            }
        }),
{
    let s = table::swept(t, now);
    lemma_swept(t, log, now, r);
    lemma_single(t, r);
    lemma_single(s, r);
    if in_tune(t, log, r) {
        lemma_swept_tune(t, log, now, r);
    }
    let res = s.resource(r);
    let version = (res.version + 1) as u64;
    lemma_with(s, r, ResView { version, content_hash: hash, ..res });
}

/// The ticket in force on the service's side is the one in force on the history's side.
pub(crate) proof fn lemma_in_force(t: TableView, log: Log, r: Seq<char>)
    requires
        in_tune(t, log, r),
    ensures
        checker::in_force(checker::held_tickets(log)) == table::in_force(t.resource(r).held),
{
    let held = t.resource(r).held;
    let set = checker::held_tickets(log);
    if held.len() == 0 {
        assert forall|u: Ticket| !(#[trigger] set.contains(u)) by {
            assert(set.contains(u) <==> table::holds(held, u));
        }
        assert(forall|u: Ticket| !checker::is_highest(set, u));
    } else {
        table::lemma_has_highest(held);
        let top = choose|u: Ticket| table::is_highest(held, u);
        assert(table::is_highest(held, top));
        assert(table::holds(held, top));
        assert(set.contains(top));
        assert forall|u: Ticket| #[trigger] set.contains(u) implies u.0 <= top.0 by {
            assert(table::holds(held, u));
            let k = choose|k: int| 0 <= k < held.len() && (#[trigger] held[k]).ticket == u;
            assert(held[k].ticket.0 <= top.0);
        }
        checker::lemma_in_force(set, top);
    }
}

} // verus!
