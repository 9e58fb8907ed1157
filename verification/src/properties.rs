//! What the eight properties say, without the bookkeeping by which they are checked.
//!
//! For each property the checker computes the list of its violations. Here each of those lists is
//! proved to be empty exactly if a plain statement about the history is true.

use crate::checker;
use crate::checker::{Property, SeenView, ViolationView, WindowView};
use crate::history;
use crate::history::{EventView, Log};
use crate::types::{Ticket, Version};
use vstd::prelude::*;

verus! {

/// The event is an attempt of `holder` to write, or what became of one.
pub open spec fn is_write_of(e: EventView, holder: Seq<char>) -> bool {
    match e {
        EventView::WriteAttempted { holder: h, .. } => h == holder,
        EventView::WriteAccepted { holder: h, .. } => h == holder,
        EventView::WriteRefused { holder: h, .. } => h == holder,
        _ => false,
    }
}

/// `holder` attempted a write at `a` that nothing has become of by position `b`.
pub open spec fn is_open(log: Log, holder: Seq<char>, a: int, b: int) -> bool {
    &&& 0 <= a < b
    &&& log[a].event matches EventView::WriteAttempted { holder: h, .. } && h == holder
    &&& forall|k: int| a < k < b ==> !is_write_of((#[trigger] log[k]).event, holder)
}

/// A write by `holder` was attempted at `a` and accepted at `b`.
pub open spec fn is_window(log: Log, holder: Seq<char>, a: int, b: int) -> bool {
    &&& b < log.len()
    &&& is_open(log, holder, a, b)
    &&& log[b].event matches EventView::WriteAccepted { holder: h, .. } && h == holder
}

/// No two windows of different holders overlap.
pub open spec fn mutual_exclusion(log: Log) -> bool {
    forall|h1: Seq<char>, a1: int, b1: int, h2: Seq<char>, a2: int, b2: int|
        #![trigger is_window(log, h1, a1, b1), is_window(log, h2, a2, b2)]
        is_window(log, h1, a1, b1) && is_window(log, h2, a2, b2) && h1 != h2 ==> b1 < a2 || b2 < a1
}

proof fn lemma_open_attempt(log: Log, holder: Seq<char>)
    requires
        history::numbered(log),
    ensures
        match checker::open_attempt(log, holder) {
            Some(a) => is_open(log, holder, a as int, log.len() as int),
            None => forall|a: int| !is_open(log, holder, a, log.len() as int),
        },
    decreases log.len(),
{
    if log.len() > 0 {
        let first = log.drop_last();
        let n = log.len() as int;
        assert forall|i: int| 0 <= i < first.len() implies (#[trigger] first[i]).seq == i by {
            assert(first[i] == log[i]);
        }
        lemma_open_attempt(first, holder);
        assert(log[n - 1] == log.last());
        if is_write_of(log.last().event, holder) {
            assert forall|a: int| a < n - 1 implies !is_open(log, holder, a, n) by {
                if is_open(log, holder, a, n) {
                    assert(!is_write_of(log[n - 1].event, holder));
                }
            }
        } else {
            assert forall|a: int| is_open(first, holder, a, n - 1) <==> is_open(log, holder, a, n) by {
                if is_open(first, holder, a, n - 1) {
                    assert(first[a] == log[a]);
                    assert forall|k: int| a < k < n implies !is_write_of(
                        (#[trigger] log[k]).event,
                        holder,
                    ) by {
                        if k < n - 1 {
                            assert(first[k] == log[k]);
                        }
                    }
                }
                if is_open(log, holder, a, n) && a < n - 1 {
                    assert(first[a] == log[a]);
                    assert forall|k: int| a < k < n - 1 implies !is_write_of(
                        (#[trigger] first[k]).event,
                        holder,
                    ) by {
                        assert(first[k] == log[k]);
                    }
                }
            }
        }
    }
}

/// Entry `i` of the checker's windows is a window from `a` to `b`.
pub(crate) open spec fn lists(ws: Seq<WindowView>, i: int, holder: Seq<char>, a: int, b: int) -> bool {
    0 <= i < ws.len() && ws[i].holder == holder && ws[i].start == a && ws[i].end == b
}

pub(crate) proof fn lemma_windows(log: Log)
    requires
        history::numbered(log),
    ensures
        forall|i: int|
            0 <= i < checker::windows(log).len() ==> is_window(
                log,
                (#[trigger] checker::windows(log)[i]).holder,
                checker::windows(log)[i].start as int,
                checker::windows(log)[i].end as int,
            ),
        forall|h: Seq<char>, a: int, b: int| #[trigger]
            is_window(log, h, a, b) ==> exists|i: int|
                #![trigger checker::windows(log)[i]]
                lists(checker::windows(log), i, h, a, b),
    decreases log.len(),
{
    if log.len() > 0 {
        let first = log.drop_last();
        let n = log.len() as int;
        let ws = checker::windows(log);
        let before = checker::windows(first);
        assert forall|i: int| 0 <= i < first.len() implies (#[trigger] first[i]).seq == i by {
            assert(first[i] == log[i]);
        }
        assert(log[n - 1].seq == n - 1);
        lemma_windows(first);
        assert forall|h: Seq<char>, a: int, b: int| b < n - 1 implies (#[trigger] is_window(
            first,
            h,
            a,
            b,
        ) <==> is_window(log, h, a, b)) by {
            lemma_same_window(log, h, a, b);
        }
        match log.last().event {
            EventView::WriteAccepted { holder, .. } => {
                lemma_open_attempt(first, holder);
                match checker::open_attempt(first, holder) {
                    Some(start) => {
                        lemma_same_open(log, holder, start as int, n - 1);
                        assert(is_window(log, holder, start as int, n - 1));
                    },
                    None => {},
                }
            },
            _ => {},
        }
        assert forall|i: int| 0 <= i < ws.len() implies is_window(
            log,
            (#[trigger] ws[i]).holder,
            ws[i].start as int,
            ws[i].end as int,
        ) by {
            if i < before.len() {
                assert(ws[i] == before[i]);
                assert(is_window(
                    first,
                    before[i].holder,
                    before[i].start as int,
                    before[i].end as int,
                ));
            }
        }
        assert forall|h: Seq<char>, a: int, b: int| #[trigger] is_window(log, h, a, b) implies exists|
            i: int,
        |
            #![trigger ws[i]]
            lists(ws, i, h, a, b) by {
            if b < n - 1 {
                assert(is_window(first, h, a, b));
                let i = choose|i: int| #![trigger before[i]] lists(before, i, h, a, b);
                assert(ws[i] == before[i]);
                assert(lists(ws, i, h, a, b));
            } else {
                lemma_same_open(log, h, a, n - 1);
                assert(is_open(first, h, a, n - 1));
                lemma_open_attempt(first, h);
                let start = checker::open_attempt(first, h)->Some_0 as int;
                lemma_one_open(first, h, a, start);
                assert(lists(ws, before.len() as int, h, a, b));
            }
        }
    }
}

proof fn lemma_same_open(log: Log, h: Seq<char>, a: int, b: int)
    requires
        log.len() > 0,
        b < log.len(),
    ensures
        is_open(log.drop_last(), h, a, b) <==> is_open(log, h, a, b),
{
    let first = log.drop_last();
    if is_open(log, h, a, b) {
        assert(first[a] == log[a]);
        assert forall|k: int| a < k < b implies !is_write_of((#[trigger] first[k]).event, h) by {
            assert(first[k] == log[k]);
        }
    }
    if is_open(first, h, a, b) {
        assert(first[a] == log[a]);
        assert forall|k: int| a < k < b implies !is_write_of((#[trigger] log[k]).event, h) by {
            assert(first[k] == log[k]);
        }
    }
}

proof fn lemma_same_window(log: Log, h: Seq<char>, a: int, b: int)
    requires
        log.len() > 0,
        b < log.len() - 1,
    ensures
        is_window(log.drop_last(), h, a, b) <==> is_window(log, h, a, b),
{
    lemma_same_open(log, h, a, b);
    if 0 <= b {
        assert(log.drop_last()[b] == log[b]);
    }
}

proof fn lemma_one_open(log: Log, h: Seq<char>, a: int, b: int)
    requires
        is_open(log, h, a, log.len() as int),
        is_open(log, h, b, log.len() as int),
    ensures
        a == b,
{
    if a < b {
        assert(!is_write_of(log[b].event, h));
    }
    if b < a {
        assert(!is_write_of(log[a].event, h));
    }
}

proof fn lemma_clashes_of(ws: Seq<WindowView>, i: int, j: int)
    requires
        0 <= i < ws.len(),
        j <= ws.len(),
    ensures
        checker::clashes_of(ws, i, j).len() == 0 <==> forall|k: int|
            i < k < j ==> !checker::clash(ws[i], #[trigger] ws[k]),
    decreases j - i,
{
    if j > i + 1 {
        lemma_clashes_of(ws, i, j - 1);
        assert(ws[j - 1] == ws[j - 1]);
    }
}

/// No two of the first `n` windows and those after them clash.
spec fn no_clash(ws: Seq<WindowView>, n: int) -> bool {
    forall|i: int, j: int|
        0 <= i < n && i < j < ws.len() ==> !checker::clash(#[trigger] ws[i], #[trigger] ws[j])
}

proof fn lemma_clashes(ws: Seq<WindowView>, n: int)
    requires
        0 <= n <= ws.len(),
    ensures
        checker::clashes(ws, n).len() == 0 <==> no_clash(ws, n),
    decreases n,
{
    if n > 0 {
        lemma_clashes(ws, n - 1);
        lemma_clashes_of(ws, n - 1, ws.len() as int);
        let row = checker::clashes_of(ws, n - 1, ws.len() as int);
        assert(checker::clashes(ws, n).len() == checker::clashes(ws, n - 1).len() + row.len());
        if no_clash(ws, n - 1) && row.len() == 0 {
            assert forall|i: int, j: int| 0 <= i < n && i < j < ws.len() implies !checker::clash(
                #[trigger] ws[i],
                #[trigger] ws[j],
            ) by {}
        }
        if no_clash(ws, n) {
            assert(no_clash(ws, n - 1));
            assert forall|k: int| n - 1 < k < ws.len() implies !checker::clash(
                ws[n - 1],
                #[trigger] ws[k],
            ) by {}
        }
    }
}

/// **Mutual exclusion is what the checker checks.** It reports no violation exactly if no two
/// accepted writes by different holders overlap, from attempt to acceptance.
pub proof fn p1_means_mutual_exclusion(log: Log)
    requires
        history::numbered(log),
    ensures
        checker::p1_violations(log).len() == 0 <==> mutual_exclusion(log),
{
    let ws = checker::windows(log);
    let n = ws.len() as int;
    lemma_windows(log);
    lemma_clashes(ws, n);
    if mutual_exclusion(log) {
        assert forall|i: int, j: int| 0 <= i < n && i < j < ws.len() implies !checker::clash(
            #[trigger] ws[i],
            #[trigger] ws[j],
        ) by {
            assert(is_window(log, ws[i].holder, ws[i].start as int, ws[i].end as int));
            assert(is_window(log, ws[j].holder, ws[j].start as int, ws[j].end as int));
        }
    }
    if no_clash(ws, n) {
        assert forall|h1: Seq<char>, a1: int, b1: int, h2: Seq<char>, a2: int, b2: int|
            #![trigger is_window(log, h1, a1, b1), is_window(log, h2, a2, b2)]
            is_window(log, h1, a1, b1) && is_window(log, h2, a2, b2) && h1 != h2 implies b1 < a2
            || b2 < a1 by {
            let i = choose|i: int| #![trigger ws[i]] lists(ws, i, h1, a1, b1);
            let j = choose|j: int| #![trigger ws[j]] lists(ws, j, h2, a2, b2);
            if i < j {
                assert(!checker::clash(ws[i], ws[j]));
            } else {
                assert(!checker::clash(ws[j], ws[i]));
            }
        }
    }
}

/// At position `j`, the hold on `ticket` that was granted at `i` is still there.
pub open spec fn is_held_since(log: Log, i: int, j: int, ticket: Ticket) -> bool {
    &&& 0 <= i < j
    &&& log[i].event matches EventView::TakeGranted { ticket: t, .. } && t == ticket
    &&& forall|k: int| i < k < j ==> !ends_ticket((#[trigger] log[k]).event, ticket)
}

/// The event ends a hold on `ticket`.
pub open spec fn ends_ticket(e: EventView, ticket: Ticket) -> bool {
    match e {
        EventView::GiveBack { ticket: t, .. } => t == ticket,
        EventView::LeaseExpired { ticket: t, .. } => t == ticket,
        EventView::Revoked { .. } => true,
        _ => false,
    }
}

/// At position `j`, `ticket` is held.
pub open spec fn is_held_at(log: Log, j: int, ticket: Ticket) -> bool {
    exists|i: int| is_held_since(log, i, j, ticket)
}

/// At position `j`, `ticket` is held and no higher one is.
pub open spec fn is_in_force_at(log: Log, j: int, ticket: Ticket) -> bool {
    is_held_at(log, j, ticket) && forall|t: Ticket| #[trigger] is_held_at(log, j, t) ==> t.0
        <= ticket.0
}

/// Entry `j` keeps to the rules on tickets: a ticket that is issued is above all issued before, the
/// barrier of a revocation is above every ticket held, and an accepted write has the ticket in
/// force.
pub open spec fn tickets_valid_at(log: Log, j: int) -> bool {
    match log[j].event {
        EventView::TicketIssued { ticket, .. } => forall|i: int|
            0 <= i < j ==> ((#[trigger] log[i]).event matches EventView::TicketIssued {
                ticket: t,
                ..
            } ==> t.0 < ticket.0),
        EventView::Revoked { new_ticket, .. } => match new_ticket {
            Some(barrier) => forall|t: Ticket| #[trigger] is_held_at(log, j, t) ==> t.0 < barrier.0,
            None => true,
        },
        EventView::WriteAccepted { ticket, .. } => is_in_force_at(log, j, ticket),
        _ => true,
    }
}

/// Every entry keeps to the rules on tickets.
pub open spec fn ticket_validity(log: Log) -> bool {
    forall|j: int| 0 <= j < log.len() ==> #[trigger] tickets_valid_at(log, j)
}

proof fn lemma_held_tickets(log: Log, n: int, ticket: Ticket)
    requires
        0 <= n <= log.len(),
    ensures
        checker::held_tickets(log.take(n)).contains(ticket) <==> is_held_at(log, n, ticket),
        checker::held_tickets(log.take(n)).finite(),
    decreases n,
{
    if n > 0 {
        lemma_held_tickets(log, n - 1, ticket);
        assert(log.take(n).drop_last() =~= log.take(n - 1));
        assert(log.take(n).last() == log[n - 1]);
        let e = log[n - 1].event;
        let m = n - 1;
        let granted = e matches EventView::TakeGranted { ticket: t, .. } && t == ticket;
        if granted {
            assert(is_held_since(log, n - 1, n, ticket));
        } else {
            if is_held_at(log, n - 1, ticket) && !ends_ticket(e, ticket) {
                let i = choose|i: int| is_held_since(log, i, m, ticket);
                assert(is_held_since(log, i, n, ticket));
            }
            if is_held_at(log, n, ticket) {
                let i = choose|i: int| is_held_since(log, i, n, ticket);
                assert(is_held_since(log, i, n, ticket));
                assert(i < n - 1);
                assert(is_held_since(log, i, n - 1, ticket));
                assert(!ends_ticket(log[n - 1].event, ticket));
            }
        }
    } else {
        assert(forall|i: int| !is_held_since(log, i, 0, ticket));
    }
}

proof fn lemma_has_highest(held: Set<Ticket>)
    requires
        held.finite(),
        exists|t: Ticket| held.contains(t),
    ensures
        exists|t: Ticket| checker::is_highest(held, t),
    decreases held.len(),
{
    let x = choose|t: Ticket| held.contains(t);
    let rest = held.remove(x);
    if exists|t: Ticket| rest.contains(t) {
        lemma_has_highest(rest);
        let y = choose|t: Ticket| checker::is_highest(rest, t);
        assert(checker::is_highest(rest, y));
        let top = if x.0 > y.0 {
            x
        } else {
            y
        };
        assert forall|u: Ticket| #[trigger] held.contains(u) implies u.0 <= top.0 by {
            if u != x {
                assert(rest.contains(u));
            }
        }
        assert(checker::is_highest(held, top));
    } else {
        assert forall|u: Ticket| #[trigger] held.contains(u) implies u.0 <= x.0 by {
            if u != x {
                assert(rest.contains(u));
            }
        }
        assert(checker::is_highest(held, x));
    }
}

/// What the checker takes for the ticket in force is the ticket in force.
proof fn lemma_in_force(log: Log, n: int)
    requires
        0 <= n <= log.len(),
    ensures
        match checker::in_force(checker::held_tickets(log.take(n))) {
            Some(t) => is_in_force_at(log, n, t),
            None => forall|t: Ticket| !is_held_at(log, n, t),
        },
{
    let held = checker::held_tickets(log.take(n));
    assert forall|t: Ticket| #[trigger] held.contains(t) <==> is_held_at(log, n, t) by {
        lemma_held_tickets(log, n, t);
    }
    lemma_held_tickets(log, n, Ticket(0));
    if exists|t: Ticket| held.contains(t) {
        lemma_has_highest(held);
        let top = choose|t: Ticket| checker::is_highest(held, t);
        assert(checker::is_highest(held, top));
        assert forall|u: Ticket| #[trigger] is_held_at(log, n, u) implies u.0 <= top.0 by {
            assert(held.contains(u));
        }
    } else {
        assert(forall|t: Ticket| !checker::is_highest(held, t));
        assert forall|t: Ticket| !is_held_at(log, n, t) by {
            assert(!held.contains(t));
        }
    }
}

proof fn lemma_highest_issued(log: Log, n: int)
    requires
        0 <= n <= log.len(),
    ensures
        match checker::highest_issued(log.take(n)) {
            Some(h) => {
                &&& exists|i: int|
                    0 <= i < n && ((#[trigger] log[i]).event matches EventView::TicketIssued {
                        ticket: t,
                        ..
                    } && t == h)
                &&& forall|i: int|
                    0 <= i < n ==> ((#[trigger] log[i]).event matches EventView::TicketIssued {
                        ticket: t,
                        ..
                    } ==> t.0 <= h.0)
            },
            None => forall|i: int|
                0 <= i < n ==> !((#[trigger] log[i]).event is TicketIssued),
        },
    decreases n,
{
    if n > 0 {
        lemma_highest_issued(log, n - 1);
        assert(log.take(n).drop_last() =~= log.take(n - 1));
        assert(log.take(n).last() == log[n - 1]);
    }
}

pub(crate) proof fn lemma_p2_at(log: Log, j: int)
    requires
        0 <= j < log.len(),
    ensures
        checker::p2_at(log.take(j), log[j]) is None <==> tickets_valid_at(log, j),
{
    match log[j].event {
        EventView::TicketIssued { ticket, .. } => {
            lemma_highest_issued(log, j);
        },
        EventView::Revoked { new_ticket, .. } => {
            lemma_in_force(log, j);
        },
        EventView::WriteAccepted { ticket, .. } => {
            lemma_in_force(log, j);
            match checker::in_force(checker::held_tickets(log.take(j))) {
                Some(t) => {
                    assert(is_in_force_at(log, j, t));
                    if is_in_force_at(log, j, ticket) {
                        assert(is_held_at(log, j, t) && is_held_at(log, j, ticket));
                        assert(t.0 == ticket.0);
                    }
                },
                None => {},
            }
        },
        _ => {},
    }
}

proof fn lemma_p2(log: Log, n: int)
    requires
        0 <= n <= log.len(),
    ensures
        checker::p2_violations(log.take(n)).len() == 0 <==> forall|j: int|
            0 <= j < n ==> #[trigger] tickets_valid_at(log, j),
    decreases n,
{
    if n > 0 {
        lemma_p2(log, n - 1);
        lemma_p2_at(log, n - 1);
        assert(log.take(n).drop_last() =~= log.take(n - 1));
        assert(log.take(n).last() == log[n - 1]);
        if checker::p2_violations(log.take(n)).len() == 0 {
            assert(checker::p2_violations(log.take(n - 1)).len() == 0);
        }
        if forall|j: int| 0 <= j < n ==> #[trigger] tickets_valid_at(log, j) {
            assert(tickets_valid_at(log, n - 1));
        }
    }
}

/// **Ticket validity is what the checker checks.** It reports no violation exactly if issued tickets
/// only rise, every revocation's barrier is above every ticket held at that point, and every
/// accepted write has the ticket in force at that point.
pub proof fn p2_means_ticket_validity(log: Log)
    ensures
        checker::p2_violations(log).len() == 0 <==> ticket_validity(log),
{
    lemma_p2(log, log.len() as int);
    assert(log.take(log.len() as int) =~= log);
}

/// **A ticket source that does not rise is detected.** If a ticket is issued that is not above one
/// issued before, the checker reports a violation of ticket validity.
pub proof fn repeated_ticket_is_detected(log: Log, i: int, j: int, first: Ticket, second: Ticket)
    requires
        0 <= i < j < log.len(),
        log[i].event matches EventView::TicketIssued { ticket, .. } && ticket == first,
        log[j].event matches EventView::TicketIssued { ticket, .. } && ticket == second,
        second.0 <= first.0,
    ensures
        checker::p2_violations(log).len() > 0,
{
    p2_means_ticket_validity(log);
    assert(!tickets_valid_at(log, j));
}

/// The accepted write at `j` is the last one.
pub open spec fn is_last_accepted(log: Log, j: int) -> bool {
    &&& 0 <= j < log.len()
    &&& log[j].event is WriteAccepted
    &&& forall|k: int| j < k < log.len() ==> !((#[trigger] log[k]).event is WriteAccepted)
}

/// The final content is that of the last accepted write, or the initial one if none was accepted.
pub open spec fn no_lost_write(log: Log, final_content: Seq<char>, initial: Seq<char>) -> bool {
    &&& forall|j: int| #[trigger]
        is_last_accepted(log, j) ==> log[j].event->WriteAccepted_content == final_content
    &&& (forall|j: int| 0 <= j < log.len() ==> !((#[trigger] log[j]).event is WriteAccepted))
        ==> final_content == initial
}

proof fn lemma_latest_accepted(log: Log)
    ensures
        match checker::latest_accepted(log) {
            Some((_, content)) => exists|j: int| #[trigger]
                is_last_accepted(log, j) && log[j].event->WriteAccepted_content == content,
            None => forall|j: int| 0 <= j < log.len() ==> !((
            #[trigger] log[j]).event is WriteAccepted),
        },
    decreases log.len(),
{
    if log.len() > 0 {
        let first = log.drop_last();
        let n = log.len() as int;
        lemma_latest_accepted(first);
        assert(log[n - 1] == log.last());
        if log.last().event is WriteAccepted {
            assert(is_last_accepted(log, n - 1));
        } else {
            match checker::latest_accepted(first) {
                Some((_, content)) => {
                    let j = choose|j: int| #[trigger]
                        is_last_accepted(first, j) && first[j].event->WriteAccepted_content
                            == content;
                    assert(first[j] == log[j]);
                    assert forall|k: int| j < k < n implies !((
                    #[trigger] log[k]).event is WriteAccepted) by {
                        if k < n - 1 {
                            assert(first[k] == log[k]);
                        }
                    }
                    assert(is_last_accepted(log, j));
                },
                None => {
                    assert forall|j: int| 0 <= j < n implies !((
                    #[trigger] log[j]).event is WriteAccepted) by {
                        if j < n - 1 {
                            assert(first[j] == log[j]);
                        }
                    }
                },
            }
        }
    }
}

/// **No lost write is what the checker checks.** It reports no violation exactly if the final
/// content is that of the last accepted write, or the initial one if no write was accepted.
pub proof fn p3_means_no_lost_write(log: Log, final_content: Seq<char>, initial: Seq<char>)
    ensures
        checker::p3_violations(log, final_content, initial).len() == 0 <==> no_lost_write(
            log,
            final_content,
            initial,
        ),
{
    lemma_latest_accepted(log);
    match checker::latest_accepted(log) {
        Some((_, content)) => {
            let j = choose|j: int| #[trigger]
                is_last_accepted(log, j) && log[j].event->WriteAccepted_content == content;
            assert forall|k: int| #[trigger] is_last_accepted(log, k) implies k == j by {
                if k < j {
                    assert(!(log[j].event is WriteAccepted));
                }
                if j < k {
                    assert(!(log[k].event is WriteAccepted));
                }
            }
        },
        None => {},
    }
}

/// Entry `i` is an accepted write with this content.
pub open spec fn accepts_at(log: Log, i: int, content: Seq<char>) -> bool {
    &&& 0 <= i < log.len()
    &&& log[i].event is WriteAccepted
    &&& log[i].event->WriteAccepted_content == content
}

/// Entry `i` is a refused write with this content, whatever the reason.
pub open spec fn refuses_at(log: Log, i: int, content: Seq<char>) -> bool {
    &&& 0 <= i < log.len()
    &&& log[i].event is WriteRefused
    &&& log[i].event->WriteRefused_content == content
}

/// The final content is the initial one or that of an accepted write, and whatever was refused and
/// is there all the same was also accepted.
pub open spec fn no_phantom_write(log: Log, final_content: Seq<char>, initial: Seq<char>) -> bool {
    &&& final_content == initial || exists|i: int| accepts_at(log, i, final_content)
    &&& forall|j: int| #[trigger]
        refuses_at(log, j, final_content) ==> exists|i: int| accepts_at(log, i, final_content)
}

pub(crate) proof fn lemma_accepts(log: Log, content: Seq<char>)
    ensures
        checker::was_accepted(log, content) <==> exists|i: int| accepts_at(log, i, content),
{
    if checker::was_accepted(log, content) {
        let i = choose|i: int|
            0 <= i < log.len() && ((#[trigger] log[i]).event matches EventView::WriteAccepted {
                content: c,
                ..
            } && c == content);
        assert(accepts_at(log, i, content));
    }
    if exists|i: int| accepts_at(log, i, content) {
        let i = choose|i: int| accepts_at(log, i, content);
        assert(log[i].event is WriteAccepted);
    }
}

proof fn lemma_refused_yet_there(log: Log, n: int, final_content: Seq<char>)
    requires
        0 <= n <= log.len(),
    ensures
        checker::refused_yet_there(log, log.take(n), final_content).len() == 0 <==> forall|i: int|
            0 <= i < n ==> ((#[trigger] log[i]).event matches EventView::WriteRefused {
                content,
                ..
            } ==> content != final_content || checker::was_accepted(log, final_content)),
    decreases n,
{
    if n > 0 {
        lemma_refused_yet_there(log, n - 1, final_content);
        assert(log.take(n).drop_last() =~= log.take(n - 1));
        assert(log.take(n).last() == log[n - 1]);
    }
}

/// **No phantom write is what the checker checks.** It reports no violation exactly if the final
/// content is the initial one or an accepted write, and no refused write is there that was never
/// accepted.
pub proof fn p4_means_no_phantom_write(log: Log, final_content: Seq<char>, initial: Seq<char>)
    ensures
        checker::p4_violations(log, final_content, initial).len() == 0 <==> no_phantom_write(
            log,
            final_content,
            initial,
        ),
{
    lemma_refused_yet_there(log, log.len() as int, final_content);
    assert(log.take(log.len() as int) =~= log);
    lemma_accepts(log, final_content);
    if no_phantom_write(log, final_content, initial) {
        assert forall|i: int| 0 <= i < log.len() implies ((
        #[trigger] log[i]).event matches EventView::WriteRefused { content, .. } ==> content
            != final_content || checker::was_accepted(log, final_content)) by {
            if log[i].event is WriteRefused && log[i].event->WriteRefused_content == final_content {
                assert(refuses_at(log, i, final_content));
            }
        }
    }
}

/// The event ends a hold of `resource` on `ticket`.
pub open spec fn ends_hold(e: EventView, ticket: Ticket, resource: Seq<char>) -> bool {
    match e {
        EventView::GiveBack { ticket: t, resource: r, .. } => t == ticket && r == resource,
        EventView::LeaseExpired { ticket: t, resource: r, .. } => t == ticket && r == resource,
        EventView::Revoked { resource: r, .. } => r == resource,
        _ => false,
    }
}

/// Something before position `n` ends the hold of `resource` on `ticket` that was granted at `i`.
pub open spec fn is_ended(
    log: Log,
    i: int,
    n: int,
    ticket: Ticket,
    resource: Seq<char>,
) -> bool {
    exists|j: int| i < j < n && ends_hold((#[trigger] log[j]).event, ticket, resource)
}

/// Every grant is later given back, expires, or is revoked.
pub open spec fn no_leaked_lock(log: Log) -> bool {
    forall|i: int|
        0 <= i < log.len() ==> ((#[trigger] log[i]).event matches EventView::TakeGranted {
            resource,
            ticket,
            ..
        } ==> is_ended(log, i, log.len() as int, ticket, resource))
}

/// A grant of `resource` on `ticket` before position `n` that nothing before `n` ends.
spec fn is_loose(log: Log, i: int, n: int, ticket: Ticket, resource: Seq<char>) -> bool {
    &&& 0 <= i < n
    &&& log[i].event matches EventView::TakeGranted { ticket: t, resource: r, .. } && t == ticket
        && r == resource
    &&& !is_ended(log, i, n, ticket, resource)
}

proof fn lemma_is_ended(log: Log, i: int, n: int, ticket: Ticket, resource: Seq<char>)
    requires
        0 <= i < n < log.len(),
    ensures
        is_ended(log, i, n + 1, ticket, resource) <==> is_ended(log, i, n, ticket, resource)
            || ends_hold(log[n].event, ticket, resource),
{
    if is_ended(log, i, n, ticket, resource) {
        let j = choose|j: int| i < j < n && ends_hold((#[trigger] log[j]).event, ticket, resource);
        assert(i < j < n + 1 && ends_hold(log[j].event, ticket, resource));
    }
    if is_ended(log, i, n + 1, ticket, resource) {
        let j = choose|j: int|
            i < j < n + 1 && ends_hold((#[trigger] log[j]).event, ticket, resource);
        if j < n {
            assert(i < j < n && ends_hold(log[j].event, ticket, resource));
        }
    }
}

proof fn lemma_outstanding(log: Log, n: int, ticket: Ticket, resource: Seq<char>)
    requires
        0 <= n <= log.len(),
    ensures
        crate::run::logs::has_grant(checker::outstanding(log.take(n)), ticket, resource)
            <==> exists|i: int| is_loose(log, i, n, ticket, resource),
    decreases n,
{
    if n > 0 {
        let m = n - 1;
        lemma_outstanding(log, m, ticket, resource);
        assert(log.take(n).drop_last() =~= log.take(m));
        assert(log.take(n).last() == log[m]);
        let before = checker::outstanding(log.take(m));
        let e = log[m].event;
        match e {
            EventView::TakeGranted { holder, resource: r, ticket: t } => {
                crate::run::logs::lemma_without_grant(before, t, r);
                crate::run::logs::lemma_pushed_grant(
                    checker::without_grant(before, t, r),
                    checker::GrantView { ticket: t, resource: r, holder, seq: log[m].seq },
                    ticket,
                    resource,
                );
            },
            EventView::GiveBack { resource: r, ticket: t, .. } => {
                crate::run::logs::lemma_without_grant(before, t, r);
            },
            EventView::LeaseExpired { resource: r, ticket: t, .. } => {
                crate::run::logs::lemma_without_grant(before, t, r);
            },
            EventView::Revoked { resource: r, .. } => {
                crate::run::logs::lemma_without_resource(before, r);
            },
            _ => {},
        }
        let granted = e matches EventView::TakeGranted { ticket: t, resource: r, .. } && t == ticket
            && r == resource;
        if granted {
            assert(is_loose(log, m, n, ticket, resource)) by {
                assert(!is_ended(log, m, n, ticket, resource));
            }
        }
        if exists|i: int| is_loose(log, i, m, ticket, resource) {
            let i = choose|i: int| is_loose(log, i, m, ticket, resource);
            lemma_is_ended(log, i, m, ticket, resource);
            if !ends_hold(e, ticket, resource) {
                assert(is_loose(log, i, n, ticket, resource));
            }
        }
        if exists|i: int| is_loose(log, i, n, ticket, resource) {
            let i = choose|i: int| is_loose(log, i, n, ticket, resource);
            assert(is_loose(log, i, n, ticket, resource));
            if i < m {
                lemma_is_ended(log, i, m, ticket, resource);
                assert(is_loose(log, i, m, ticket, resource));
            }
        }
    } else {
        assert(forall|i: int| !is_loose(log, i, 0, ticket, resource));
        assert(log.take(0).len() == 0);
    }
}

/// **No leaked lock is what the checker checks.** It reports no violation exactly if every grant is
/// later given back, expires, or is revoked.
pub proof fn p5_means_no_leaked_lock(log: Log)
    ensures
        checker::p5_violations(log).len() == 0 <==> no_leaked_lock(log),
{
    let n = log.len() as int;
    let grants = checker::outstanding(log);
    assert(log.take(n) =~= log);
    if grants.len() == 0 {
        assert forall|i: int| 0 <= i < n implies ((
        #[trigger] log[i]).event matches EventView::TakeGranted { resource, ticket, .. }
            ==> is_ended(log, i, n, ticket, resource)) by {
            match log[i].event {
                EventView::TakeGranted { resource, ticket, .. } => {
                    lemma_outstanding(log, n, ticket, resource);
                    if !is_ended(log, i, n, ticket, resource) {
                        assert(is_loose(log, i, n, ticket, resource));
                    }
                },
                _ => {},
            }
        }
    } else {
        let g = grants[0];
        assert(grants[0].ticket == g.ticket);
        assert(crate::run::logs::has_grant(grants, g.ticket, g.resource));
        lemma_outstanding(log, n, g.ticket, g.resource);
        let i = choose|i: int| is_loose(log, i, n, g.ticket, g.resource);
        assert(is_loose(log, i, n, g.ticket, g.resource));
        assert(log[i].event is TakeGranted);
    }
}

/// At position `j`, `version` is in force: it is that of the latest accepted write, or zero if there
/// is none.
pub open spec fn is_version_at(log: Log, j: int, version: Version) -> bool {
    ||| exists|k: int| #[trigger] is_latest_accepted_at(log, k, j) && log[k].event->WriteAccepted_version
        == version
    ||| (forall|k: int| 0 <= k < j ==> !((#[trigger] log[k]).event is WriteAccepted)) && version
        == Version(0)
}

/// The accepted write at `k` is the latest before position `j`.
pub open spec fn is_latest_accepted_at(log: Log, k: int, j: int) -> bool {
    &&& 0 <= k < j
    &&& log[k].event is WriteAccepted
    &&& forall|m: int| k < m < j ==> !((#[trigger] log[m]).event is WriteAccepted)
}

/// The event begins or ends a write of `holder` that may land.
pub open spec fn rebases(e: EventView, holder: Seq<char>) -> bool {
    match e {
        EventView::WriteAttempted { holder: h, .. } => h == holder,
        EventView::WriteAccepted { holder: h, .. } => h == holder,
        _ => false,
    }
}

/// At position `j`, `holder`'s write rests on its attempt at `i`.
pub open spec fn is_based_at(log: Log, holder: Seq<char>, i: int, j: int) -> bool {
    &&& 0 <= i < j
    &&& log[i].event matches EventView::WriteAttempted { holder: h, .. } && h == holder
    &&& forall|k: int| i < k < j ==> !rebases((#[trigger] log[k]).event, holder)
}

/// If entry `j` is an accepted write, the attempt that it rests on expected the version in force.
pub open spec fn is_fresh_at(log: Log, j: int) -> bool {
    log[j].event matches EventView::WriteAccepted { holder, .. } ==> exists|i: int| #[trigger]
        is_based_at(log, holder, i, j) && is_version_at(
            log,
            j,
            log[i].event->WriteAttempted_expected_version,
        )
}

/// Every accepted write was based on the version in force when it was accepted.
pub open spec fn freshness(log: Log) -> bool {
    forall|j: int| 0 <= j < log.len() ==> #[trigger] is_fresh_at(log, j)
}

proof fn lemma_version_in_force(log: Log, n: int)
    requires
        0 <= n <= log.len(),
    ensures
        is_version_at(log, n, checker::version_in_force(log.take(n))),
        forall|v: Version| #[trigger]
            is_version_at(log, n, v) ==> v == checker::version_in_force(log.take(n)),
    decreases n,
{
    let v = checker::version_in_force(log.take(n));
    if n > 0 {
        let m = n - 1;
        lemma_version_in_force(log, m);
        assert(log.take(n).drop_last() =~= log.take(m));
        assert(log.take(n).last() == log[m]);
        if log[m].event is WriteAccepted {
            assert(is_latest_accepted_at(log, m, n));
            assert forall|u: Version| #[trigger] is_version_at(log, n, u) implies u == v by {
                if exists|k: int| #[trigger]
                    is_latest_accepted_at(log, k, n) && log[k].event->WriteAccepted_version == u {
                    let k = choose|k: int| #[trigger]
                        is_latest_accepted_at(log, k, n) && log[k].event->WriteAccepted_version
                            == u;
                    if k < m {
                        assert(!(log[m].event is WriteAccepted));
                    }
                }
            }
        } else {
            let before = checker::version_in_force(log.take(m));
            assert(v == before);
            if exists|k: int| #[trigger]
                is_latest_accepted_at(log, k, m) && log[k].event->WriteAccepted_version == before {
                let k = choose|k: int| #[trigger]
                    is_latest_accepted_at(log, k, m) && log[k].event->WriteAccepted_version
                        == before;
                assert(is_latest_accepted_at(log, k, n));
            }
            assert forall|u: Version| #[trigger] is_version_at(log, n, u) implies u == v by {
                if exists|k: int| #[trigger]
                    is_latest_accepted_at(log, k, n) && log[k].event->WriteAccepted_version == u {
                    let k = choose|k: int| #[trigger]
                        is_latest_accepted_at(log, k, n) && log[k].event->WriteAccepted_version
                            == u;
                    assert(is_latest_accepted_at(log, k, m));
                    assert(is_version_at(log, m, u));
                } else {
                    assert(is_version_at(log, m, u));
                }
            }
        }
    }
}

proof fn lemma_basis(log: Log, n: int, holder: Seq<char>)
    requires
        0 <= n <= log.len(),
    ensures
        match checker::basis(log.take(n), holder) {
            Some(v) => {
                &&& exists|i: int| #[trigger] is_based_at(log, holder, i, n)
                &&& forall|i: int| #[trigger]
                    is_based_at(log, holder, i, n)
                        ==> log[i].event->WriteAttempted_expected_version == v
            },
            None => forall|i: int| !(#[trigger] is_based_at(log, holder, i, n)),
        },
    decreases n,
{
    if n > 0 {
        let m = n - 1;
        lemma_basis(log, m, holder);
        assert(log.take(n).drop_last() =~= log.take(m));
        assert(log.take(n).last() == log[m]);
        if rebases(log[m].event, holder) {
            assert forall|i: int| #[trigger] is_based_at(log, holder, i, n) implies i == m by {
                if i < m {
                    assert(!rebases(log[m].event, holder));
                }
            }
            if log[m].event is WriteAttempted {
                assert(is_based_at(log, holder, m, n));
            }
        } else {
            assert forall|i: int| #[trigger] is_based_at(log, holder, i, n) <==> is_based_at(
                log,
                holder,
                i,
                m,
            ) by {}
            if exists|i: int| is_based_at(log, holder, i, m) {
                let i = choose|i: int| is_based_at(log, holder, i, m);
                assert(is_based_at(log, holder, i, n));
            }
        }
    }
}

pub(crate) proof fn lemma_fresh_at(log: Log, j: int)
    requires
        0 <= j < log.len(),
    ensures
        is_fresh_at(log, j) <==> (log[j].event matches EventView::WriteAccepted { holder, .. }
            ==> checker::basis(log.take(j), holder) == Some(
            checker::version_in_force(log.take(j)),
        )),
{
    match log[j].event {
        EventView::WriteAccepted { holder, .. } => {
            let v = checker::version_in_force(log.take(j));
            lemma_version_in_force(log, j);
            lemma_basis(log, j, holder);
            if checker::basis(log.take(j), holder) == Some(v) {
                let i = choose|i: int| #[trigger] is_based_at(log, holder, i, j);
                assert(is_based_at(log, holder, i, j));
                assert(is_version_at(log, j, log[i].event->WriteAttempted_expected_version));
            }
            if is_fresh_at(log, j) {
                let i = choose|i: int| #[trigger]
                    is_based_at(log, holder, i, j) && is_version_at(
                        log,
                        j,
                        log[i].event->WriteAttempted_expected_version,
                    );
                assert(is_based_at(log, holder, i, j));
            }
        },
        _ => {},
    }
}

proof fn lemma_p6(log: Log, n: int)
    requires
        0 <= n <= log.len(),
    ensures
        checker::p6_violations(log.take(n)).len() == 0 <==> forall|j: int|
            0 <= j < n ==> #[trigger] is_fresh_at(log, j),
    decreases n,
{
    if n > 0 {
        lemma_p6(log, n - 1);
        lemma_fresh_at(log, n - 1);
        assert(log.take(n).drop_last() =~= log.take(n - 1));
        assert(log.take(n).last() == log[n - 1]);
        if forall|j: int| 0 <= j < n ==> #[trigger] is_fresh_at(log, j) {
            assert(is_fresh_at(log, n - 1));
        }
    }
}

/// **Freshness is what the checker checks.** It reports no violation exactly if every accepted write
/// was based on the version in force when it was accepted.
pub proof fn p6_means_freshness(log: Log)
    ensures
        checker::p6_violations(log).len() == 0 <==> freshness(log),
{
    lemma_p6(log, log.len() as int);
    assert(log.take(log.len() as int) =~= log);
}

/// Entry `i` is about `holder`: it did something, or something became of it.
pub open spec fn mentions_at(log: Log, i: int, holder: Seq<char>) -> bool {
    &&& 0 <= i < log.len()
    &&& {
        let e = log[i].event;
        ||| e is TakeRequested && e->TakeRequested_holder == holder
        ||| e is TakeGranted && e->TakeGranted_holder == holder
        ||| e is Read && e->Read_holder == holder
        ||| e is WriteAttempted && e->WriteAttempted_holder == holder
        ||| e is WriteAccepted && e->WriteAccepted_holder == holder
        ||| e is WriteRefused && e->WriteRefused_holder == holder
        ||| e is GiveBack && e->GiveBack_holder == holder
        ||| e is LeaseExpired && e->LeaseExpired_holder == holder
        ||| e is PhaseTimeout && e->PhaseTimeout_holder == holder
        ||| e is CeilingReached && e->CeilingReached_holder == holder
        ||| e is AgentFinished && e->AgentFinished_holder == holder
        ||| e is AgentWedged && e->AgentWedged_holder == holder
    }
}

/// Entry `i` says that `holder` finished, or that it is wedged.
pub open spec fn settles_at(log: Log, i: int, holder: Seq<char>) -> bool {
    &&& 0 <= i < log.len()
    &&& log[i].event == (EventView::AgentFinished { holder }) || log[i].event == (
    EventView::AgentWedged { holder })
}

/// Every agent that the history speaks of finished, or is known to be wedged.
pub open spec fn liveness(log: Log) -> bool {
    forall|i: int, holder: Seq<char>| #[trigger]
        mentions_at(log, i, holder) ==> exists|j: int| settles_at(log, j, holder)
}

pub(crate) proof fn lemma_mentions(log: Log, i: int, holder: Seq<char>)
    requires
        0 <= i < log.len(),
    ensures
        mentions_at(log, i, holder) <==> checker::concerns(log[i].event) == Some(holder),
{
}

pub(crate) proof fn lemma_settles(log: Log, holder: Seq<char>)
    ensures
        checker::is_accounted_for(log, holder) <==> exists|i: int| settles_at(log, i, holder),
{
    if checker::is_accounted_for(log, holder) {
        let i = choose|i: int|
            0 <= i < log.len() && checker::is_terminal((#[trigger] log[i]).event, holder);
        assert(settles_at(log, i, holder));
    }
    if exists|i: int| settles_at(log, i, holder) {
        let i = choose|i: int| settles_at(log, i, holder);
        assert(checker::is_terminal(log[i].event, holder));
    }
}

pub(crate) proof fn lemma_agents(log: Log, n: int)
    requires
        0 <= n <= log.len(),
    ensures
        forall|h: Seq<char>| #[trigger]
            checker::is_seen(checker::agents(log.take(n)), h) <==> exists|i: int|
                0 <= i < n && checker::concerns((#[trigger] log[i]).event) == Some(h),
    decreases n,
{
    let now = checker::agents(log.take(n));
    if n > 0 {
        let m = n - 1;
        lemma_agents(log, m);
        assert(log.take(n).drop_last() =~= log.take(m));
        assert(log.take(n).last() == log[m]);
        let before = checker::agents(log.take(m));
        assert forall|h: Seq<char>| #[trigger] checker::is_seen(now, h) <==> exists|i: int|
            0 <= i < n && checker::concerns((#[trigger] log[i]).event) == Some(h) by {
            if checker::is_seen(before, h) {
                let k = choose|k: int| 0 <= k < before.len() && (#[trigger] before[k]).holder == h;
                assert(now[k].holder == h);
                let i = choose|i: int|
                    0 <= i < m && checker::concerns((#[trigger] log[i]).event) == Some(h);
                assert(0 <= i < n && checker::concerns(log[i].event) == Some(h));
            }
            if checker::concerns(log[m].event) == Some(h) && !checker::is_seen(before, h) {
                assert(now[before.len() as int].holder == h);
            }
            if checker::is_seen(now, h) && !checker::is_seen(before, h) {
                let k = choose|k: int| 0 <= k < now.len() && (#[trigger] now[k]).holder == h;
                if k < before.len() {
                    assert(before[k].holder == h);
                }
                assert(checker::concerns(log[m].event) == Some(h));
            }
            if exists|i: int| 0 <= i < n && checker::concerns((#[trigger] log[i]).event) == Some(
                h,
            ) {
                let i = choose|i: int|
                    0 <= i < n && checker::concerns((#[trigger] log[i]).event) == Some(h);
                if i < m {
                    assert(checker::is_seen(before, h));
                }
            }
        }
    }
}

proof fn lemma_silences(log: Log, seen: Seq<SeenView>)
    ensures
        checker::silences(log, seen).len() == 0 <==> forall|i: int|
            0 <= i < seen.len() ==> checker::is_accounted_for(log, (#[trigger] seen[i]).holder),
    decreases seen.len(),
{
    if seen.len() > 0 {
        let first = seen.drop_last();
        lemma_silences(log, first);
        assert(seen[seen.len() - 1] == seen.last());
        assert forall|i: int| 0 <= i < first.len() implies #[trigger] first[i] == seen[i] by {}
        if checker::silences(log, seen).len() == 0 {
            assert forall|i: int| 0 <= i < seen.len() implies checker::is_accounted_for(
                log,
                (#[trigger] seen[i]).holder,
            ) by {
                if i < first.len() {
                    assert(checker::is_accounted_for(log, first[i].holder));
                }
            }
        }
    }
}

/// **Liveness is what the checker checks.** It reports no violation exactly if every agent that the
/// history speaks of finished, or is known to be wedged.
pub proof fn p7_means_liveness(log: Log)
    ensures
        checker::p7_violations(log).len() == 0 <==> liveness(log),
{
    let n = log.len() as int;
    let seen = checker::agents(log);
    assert(log.take(n) =~= log);
    lemma_agents(log, n);
    lemma_silences(log, seen);
    if checker::p7_violations(log).len() == 0 {
        assert forall|i: int, holder: Seq<char>| #[trigger]
            mentions_at(log, i, holder) implies exists|j: int| settles_at(log, j, holder) by {
            lemma_mentions(log, i, holder);
            assert(checker::concerns(log[i].event) == Some(holder));
            assert(checker::is_seen(seen, holder));
            let k = choose|k: int| 0 <= k < seen.len() && (#[trigger] seen[k]).holder == holder;
            assert(checker::is_accounted_for(log, seen[k].holder));
            lemma_settles(log, holder);
        }
    }
    if liveness(log) {
        assert forall|k: int| 0 <= k < seen.len() implies checker::is_accounted_for(
            log,
            (#[trigger] seen[k]).holder,
        ) by {
            let holder = seen[k].holder;
            assert(checker::is_seen(seen, holder));
            let i = choose|i: int|
                0 <= i < n && checker::concerns((#[trigger] log[i]).event) == Some(holder);
            lemma_mentions(log, i, holder);
            assert(mentions_at(log, i, holder));
            lemma_settles(log, holder);
        }
    }
}

/// The revocation at `i` is the latest before position `j`.
pub open spec fn is_latest_revocation_at(log: Log, i: int, j: int) -> bool {
    &&& 0 <= i < j
    &&& log[i].event is Revoked
    &&& forall|k: int| i < k < j ==> !((#[trigger] log[k]).event is Revoked)
}

/// `ticket` was issued, or the lock granted on it, before position `i`.
pub open spec fn is_issued_before(log: Log, i: int, ticket: Ticket) -> bool {
    exists|k: int|
        0 <= k < i && match (#[trigger] log[k]).event {
            EventView::TicketIssued { ticket: t, .. } => t == ticket,
            EventView::TakeGranted { ticket: t, .. } => t == ticket,
            _ => false,
        }
}

/// If entry `j` is an accepted write, its ticket is from after the latest revocation: not below the
/// barrier that it raised, and if it raised none, not among the tickets issued by then.
pub open spec fn is_past_barrier_at(log: Log, j: int) -> bool {
    log[j].event matches EventView::WriteAccepted { ticket, .. } ==> forall|i: int| #[trigger]
        is_latest_revocation_at(log, i, j) ==> (match log[i].event->new_ticket {
        Some(barrier) => barrier.0 <= ticket.0,
        None => !is_issued_before(log, i, ticket),
    })
}

/// No write lands on a ticket that the latest revocation took the lock away from.
pub open spec fn preemptibility(log: Log) -> bool {
    forall|j: int| 0 <= j < log.len() ==> #[trigger] is_past_barrier_at(log, j)
}

pub(crate) proof fn lemma_latest_revocation(log: Log, n: int)
    requires
        0 <= n <= log.len(),
    ensures
        match checker::latest_revocation(log.take(n)) {
            Some((_, barrier)) => {
                &&& exists|i: int| #[trigger] is_latest_revocation_at(log, i, n)
                &&& forall|i: int| #[trigger]
                    is_latest_revocation_at(log, i, n) ==> log[i].event->new_ticket == barrier
                        && checker::before_revocation(log.take(n)) == log.take(i)
            },
            None => forall|i: int| !(#[trigger] is_latest_revocation_at(log, i, n)),
        },
    decreases n,
{
    if n > 0 {
        let m = n - 1;
        lemma_latest_revocation(log, m);
        assert(log.take(n).drop_last() =~= log.take(m));
        assert(log.take(n).last() == log[m]);
        if log[m].event is Revoked {
            assert(is_latest_revocation_at(log, m, n));
            assert forall|i: int| #[trigger] is_latest_revocation_at(log, i, n) implies i == m by {
                if i < m {
                    assert(!(log[m].event is Revoked));
                }
            }
        } else {
            assert forall|i: int| is_latest_revocation_at(log, i, m) <==> #[trigger]
                is_latest_revocation_at(log, i, n) by {}
            match checker::latest_revocation(log.take(m)) {
                Some((_, barrier)) => {
                    let i = choose|i: int| is_latest_revocation_at(log, i, m);
                    assert(is_latest_revocation_at(log, i, n));
                },
                None => {
                    assert forall|i: int| !(#[trigger] is_latest_revocation_at(log, i, n)) by {
                        assert(!is_latest_revocation_at(log, i, m));
                    }
                },
            }
        }
    }
}

pub(crate) proof fn lemma_issued_before(log: Log, i: int, ticket: Ticket)
    requires
        0 <= i <= log.len(),
    ensures
        checker::was_issued(log.take(i), ticket) <==> is_issued_before(log, i, ticket),
{
    let first = log.take(i);
    if is_issued_before(log, i, ticket) {
        let k = choose|k: int|
            0 <= k < i && checker::brings_out((#[trigger] log[k]).event, ticket);
        assert(checker::brings_out(first[k].event, ticket));
    }
    if checker::was_issued(first, ticket) {
        let k = choose|k: int|
            0 <= k < first.len() && checker::brings_out((#[trigger] first[k]).event, ticket);
        assert(log[k] == first[k]);
    }
}

proof fn lemma_p8(log: Log, n: int)
    requires
        0 <= n <= log.len(),
    ensures
        checker::p8_violations(log.take(n)).len() == 0 <==> forall|j: int|
            0 <= j < n ==> #[trigger] is_past_barrier_at(log, j),
    decreases n,
{
    if n > 0 {
        let m = n - 1;
        lemma_p8(log, m);
        lemma_latest_revocation(log, m);
        assert(log.take(n).drop_last() =~= log.take(m));
        assert(log.take(n).last() == log[m]);
        match checker::latest_revocation(log.take(m)) {
            Some(_) => {
                let i = choose|i: int| #[trigger] is_latest_revocation_at(log, i, m);
                assert(is_latest_revocation_at(log, i, m));
                match log[m].event {
                    EventView::WriteAccepted { ticket, .. } => {
                        lemma_issued_before(log, i, ticket);
                    },
                    _ => {},
                }
            },
            None => {},
        }
        if forall|j: int| 0 <= j < n ==> #[trigger] is_past_barrier_at(log, j) {
            assert(is_past_barrier_at(log, m));
        }
    }
}

/// **Preemptibility is what the checker checks.** It reports no violation exactly if no write lands
/// on a ticket that the latest revocation before it took the lock away from.
pub proof fn p8_means_preemptibility(log: Log)
    ensures
        checker::p8_violations(log).len() == 0 <==> preemptibility(log),
{
    lemma_p8(log, log.len() as int);
    assert(log.take(log.len() as int) =~= log);
}

/// Every violation is one of `p`.
spec fn all_of(vs: Seq<ViolationView>, p: Property) -> bool {
    forall|i: int| 0 <= i < vs.len() ==> (#[trigger] vs[i]).property == p
}

proof fn lemma_p1_only(ws: Seq<WindowView>, n: int)
    ensures
        all_of(checker::clashes(ws, n), Property::P1MutualExclusion),
    decreases n,
{
    if n > 0 {
        lemma_p1_only(ws, n - 1);
        lemma_p1_row_only(ws, n - 1, ws.len() as int);
        let a = checker::clashes(ws, n - 1);
        let b = checker::clashes_of(ws, n - 1, ws.len() as int);
        assert forall|i: int| 0 <= i < (a + b).len() implies (#[trigger] (a + b)[i]).property
            == Property::P1MutualExclusion by {
            if i < a.len() {
                assert((a + b)[i] == a[i]);
            } else {
                assert((a + b)[i] == b[i - a.len()]);
            }
        }
    }
}

proof fn lemma_p1_row_only(ws: Seq<WindowView>, i: int, j: int)
    ensures
        all_of(checker::clashes_of(ws, i, j), Property::P1MutualExclusion),
    decreases j - i,
{
    if j > i + 1 {
        lemma_p1_row_only(ws, i, j - 1);
    }
}

proof fn lemma_p2_only(log: Log)
    ensures
        all_of(checker::p2_violations(log), Property::P2TicketValidity),
    decreases log.len(),
{
    if log.len() > 0 {
        lemma_p2_only(log.drop_last());
    }
}

proof fn lemma_p4_only(log: Log, first: Log, final_content: Seq<char>)
    ensures
        all_of(
            checker::refused_yet_there(log, first, final_content),
            Property::P4NoPhantomWrite,
        ),
    decreases first.len(),
{
    if first.len() > 0 {
        lemma_p4_only(log, first.drop_last(), final_content);
    }
}

proof fn lemma_p6_only(log: Log)
    ensures
        all_of(checker::p6_violations(log), Property::P6Freshness),
    decreases log.len(),
{
    if log.len() > 0 {
        lemma_p6_only(log.drop_last());
    }
}

proof fn lemma_p7_only(log: Log, seen: Seq<SeenView>)
    ensures
        all_of(checker::silences(log, seen), Property::P7Liveness),
    decreases seen.len(),
{
    if seen.len() > 0 {
        lemma_p7_only(log, seen.drop_last());
    }
}

proof fn lemma_p8_only(log: Log)
    ensures
        all_of(checker::p8_violations(log), Property::P8Preemptibility),
    decreases log.len(),
{
    if log.len() > 0 {
        lemma_p8_only(log.drop_last());
    }
}

proof fn lemma_only(p: Property, log: Log, final_content: Seq<char>, initial: Seq<char>)
    ensures
        all_of(checker::violations_of(p, log, final_content, initial), p),
{
    match p {
        Property::P1MutualExclusion => {
            lemma_p1_only(checker::windows(log), checker::windows(log).len() as int);
        },
        Property::P2TicketValidity => {
            lemma_p2_only(log);
        },
        Property::P3NoLostWrite => {},
        Property::P4NoPhantomWrite => {
            lemma_p4_only(log, log, final_content);
        },
        Property::P5NoLeakedLock => {},
        Property::P6Freshness => {
            lemma_p6_only(log);
        },
        Property::P7Liveness => {
            lemma_p7_only(log, checker::agents(log));
        },
        Property::P8Preemptibility => {
            lemma_p8_only(log);
        },
    }
}

/// **A report passes exactly if every property that was checked holds.**
pub proof fn report_passes_if_all_hold(
    props: Seq<Property>,
    log: Log,
    final_content: Seq<char>,
    initial: Seq<char>,
)
    ensures
        checker::all_violations(props, log, final_content, initial).len() == 0 <==> forall|i: int|
            0 <= i < props.len() ==> checker::violations_of(
                #[trigger] props[i],
                log,
                final_content,
                initial,
            ).len() == 0,
    decreases props.len(),
{
    if props.len() > 0 {
        let first = props.drop_last();
        report_passes_if_all_hold(first, log, final_content, initial);
        assert(props[props.len() - 1] == props.last());
        assert forall|i: int| 0 <= i < first.len() implies #[trigger] first[i] == props[i] by {}
        if checker::all_violations(props, log, final_content, initial).len() == 0 {
            assert forall|i: int| 0 <= i < props.len() implies checker::violations_of(
                #[trigger] props[i],
                log,
                final_content,
                initial,
            ).len() == 0 by {
                if i < first.len() {
                    assert(checker::violations_of(first[i], log, final_content, initial).len()
                        == 0);
                }
            }
        }
    }
}

/// A violation of `p` is among `vs`.
pub open spec fn names(vs: Seq<ViolationView>, p: Property) -> bool {
    exists|i: int| 0 <= i < vs.len() && (#[trigger] vs[i]).property == p
}

/// **A report names a property as violated exactly if it was checked and does not hold.**
pub proof fn report_names_what_is_violated(
    props: Seq<Property>,
    log: Log,
    final_content: Seq<char>,
    initial: Seq<char>,
    p: Property,
)
    ensures
        names(checker::all_violations(props, log, final_content, initial), p)
            <==> props.contains(p) && checker::violations_of(
            p,
            log,
            final_content,
            initial,
        ).len() > 0,
    decreases props.len(),
{
    if props.len() > 0 {
        let first = props.drop_last();
        let last = props.last();
        report_names_what_is_violated(first, log, final_content, initial, p);
        lemma_only(last, log, final_content, initial);
        let a = checker::all_violations(first, log, final_content, initial);
        let b = checker::violations_of(last, log, final_content, initial);
        let all = checker::all_violations(props, log, final_content, initial);
        assert(all == a + b);
        if names(a, p) {
            let i = choose|i: int| 0 <= i < a.len() && (#[trigger] a[i]).property == p;
            assert(all[i] == a[i]);
        }
        if last == p && b.len() > 0 {
            assert(all[a.len() as int] == b[0]);
        }
        if names(all, p) {
            let i = choose|i: int| 0 <= i < all.len() && (#[trigger] all[i]).property == p;
            if i < a.len() {
                assert(all[i] == a[i]);
            } else {
                assert(all[i] == b[i - a.len()]);
            }
        }
        if props.contains(p) {
            let k = choose|k: int| 0 <= k < props.len() && props[k] == p;
            if k < first.len() {
                assert(first[k] == p);
            }
        }
        if first.contains(p) {
            let k = choose|k: int| 0 <= k < first.len() && first[k] == p;
            assert(props[k] == p);
        }
        assert(props[props.len() - 1] == last);
    }
}

/// The two histories record the same events under the same numbers, though perhaps at other times.
pub open spec fn same_but_times(a: Log, b: Log) -> bool {
    a.len() == b.len() && forall|i: int|
        0 <= i < a.len() ==> (#[trigger] a[i]).seq == b[i].seq && a[i].event == b[i].event
}

proof fn lemma_same_first(a: Log, b: Log)
    requires
        same_but_times(a, b),
        a.len() > 0,
    ensures
        same_but_times(a.drop_last(), b.drop_last()),
        a.last().seq == b.last().seq,
        a.last().event == b.last().event,
{
    let (x, y) = (a.drop_last(), b.drop_last());
    assert forall|i: int| 0 <= i < x.len() implies (#[trigger] x[i]).seq == y[i].seq && x[i].event
        == y[i].event by {
        assert(a[i] == x[i]);
    }
    assert(a[a.len() - 1] == a.last());
}

proof fn lemma_same_attempts(a: Log, b: Log, holder: Seq<char>)
    requires
        same_but_times(a, b),
    ensures
        checker::open_attempt(a, holder) == checker::open_attempt(b, holder),
        checker::basis(a, holder) == checker::basis(b, holder),
    decreases a.len(),
{
    if a.len() > 0 {
        lemma_same_first(a, b);
        lemma_same_attempts(a.drop_last(), b.drop_last(), holder);
    }
}

proof fn lemma_same_writes(a: Log, b: Log)
    requires
        same_but_times(a, b),
    ensures
        checker::windows(a) == checker::windows(b),
        checker::version_in_force(a) == checker::version_in_force(b),
        checker::p6_violations(a) == checker::p6_violations(b),
        checker::latest_accepted(a) == checker::latest_accepted(b),
    decreases a.len(),
{
    if a.len() > 0 {
        let (x, y) = (a.drop_last(), b.drop_last());
        lemma_same_first(a, b);
        lemma_same_writes(x, y);
        match a.last().event {
            EventView::WriteAccepted { holder, .. } => {
                lemma_same_attempts(x, y, holder);
            },
            _ => {},
        }
    }
}

proof fn lemma_same_tickets(a: Log, b: Log)
    requires
        same_but_times(a, b),
    ensures
        checker::highest_issued(a) == checker::highest_issued(b),
        checker::held_tickets(a) == checker::held_tickets(b),
        checker::outstanding(a) == checker::outstanding(b),
        checker::agents(a) == checker::agents(b),
        checker::latest_revocation(a) == checker::latest_revocation(b),
        same_but_times(checker::before_revocation(a), checker::before_revocation(b)),
    decreases a.len(),
{
    if a.len() > 0 {
        lemma_same_first(a, b);
        lemma_same_tickets(a.drop_last(), b.drop_last());
    }
}

proof fn lemma_same_issued(a: Log, b: Log, ticket: Ticket)
    requires
        same_but_times(a, b),
    ensures
        checker::was_issued(a, ticket) == checker::was_issued(b, ticket),
{
    if checker::was_issued(a, ticket) {
        let k = choose|k: int|
            0 <= k < a.len() && checker::brings_out((#[trigger] a[k]).event, ticket);
        assert(checker::brings_out(b[k].event, ticket));
    }
    if checker::was_issued(b, ticket) {
        let k = choose|k: int|
            0 <= k < b.len() && checker::brings_out((#[trigger] b[k]).event, ticket);
        assert(checker::brings_out(a[k].event, ticket));
    }
}

proof fn lemma_same_revocations(a: Log, b: Log)
    requires
        same_but_times(a, b),
    ensures
        checker::p2_violations(a) == checker::p2_violations(b),
        checker::p8_violations(a) == checker::p8_violations(b),
    decreases a.len(),
{
    if a.len() > 0 {
        let (x, y) = (a.drop_last(), b.drop_last());
        lemma_same_first(a, b);
        lemma_same_revocations(x, y);
        lemma_same_tickets(x, y);
        match a.last().event {
            EventView::WriteAccepted { ticket, .. } => {
                lemma_same_issued(
                    checker::before_revocation(x),
                    checker::before_revocation(y),
                    ticket,
                );
            },
            _ => {},
        }
        assert(checker::p2_at(x, a.last()) == checker::p2_at(y, b.last()));
    }
}

proof fn lemma_same_accepted(a: Log, b: Log, content: Seq<char>)
    requires
        same_but_times(a, b),
    ensures
        checker::was_accepted(a, content) ==> checker::was_accepted(b, content),
{
    if checker::was_accepted(a, content) {
        let k = choose|k: int|
            0 <= k < a.len() && ((#[trigger] a[k]).event matches EventView::WriteAccepted {
                content: c,
                ..
            } && c == content);
        assert(b[k].event == a[k].event);
    }
}

proof fn lemma_same_refused(a: Log, b: Log, x: Log, y: Log, content: Seq<char>)
    requires
        same_but_times(a, b),
        same_but_times(x, y),
    ensures
        checker::refused_yet_there(a, x, content) == checker::refused_yet_there(b, y, content),
    decreases x.len(),
{
    if x.len() > 0 {
        lemma_same_first(x, y);
        lemma_same_refused(a, b, x.drop_last(), y.drop_last(), content);
        lemma_same_accepted(a, b, content);
        lemma_same_accepted(b, a, content);
    }
}

proof fn lemma_same_silences(a: Log, b: Log, seen: Seq<SeenView>)
    requires
        same_but_times(a, b),
    ensures
        checker::silences(a, seen) == checker::silences(b, seen),
    decreases seen.len(),
{
    if seen.len() > 0 {
        lemma_same_silences(a, b, seen.drop_last());
        let holder = seen.last().holder;
        if checker::is_accounted_for(a, holder) {
            let k = choose|k: int|
                0 <= k < a.len() && checker::is_terminal((#[trigger] a[k]).event, holder);
            assert(checker::is_terminal(b[k].event, holder));
        }
        if checker::is_accounted_for(b, holder) {
            let k = choose|k: int|
                0 <= k < b.len() && checker::is_terminal((#[trigger] b[k]).event, holder);
            assert(checker::is_terminal(a[k].event, holder));
        }
    }
}

/// **What is reported does not depend on the times.** Two histories that record the same events under
/// the same numbers are reported on alike, whatever the clock said at each of them.
pub proof fn report_ignores_times(
    props: Seq<Property>,
    a: Log,
    b: Log,
    final_content: Seq<char>,
    initial: Seq<char>,
)
    requires
        same_but_times(a, b),
    ensures
        checker::all_violations(props, a, final_content, initial) == checker::all_violations(
            props,
            b,
            final_content,
            initial,
        ),
    decreases props.len(),
{
    if props.len() > 0 {
        report_ignores_times(props.drop_last(), a, b, final_content, initial);
        match props.last() {
            Property::P1MutualExclusion => {
                lemma_same_writes(a, b);
            },
            Property::P2TicketValidity => {
                lemma_same_revocations(a, b);
            },
            Property::P3NoLostWrite => {
                lemma_same_writes(a, b);
            },
            Property::P4NoPhantomWrite => {
                lemma_same_refused(a, b, a, b, final_content);
                lemma_same_accepted(a, b, final_content);
                lemma_same_accepted(b, a, final_content);
            },
            Property::P5NoLeakedLock => {
                lemma_same_tickets(a, b);
            },
            Property::P6Freshness => {
                lemma_same_writes(a, b);
            },
            Property::P7Liveness => {
                lemma_same_tickets(a, b);
                lemma_same_silences(a, b, checker::agents(a));
            },
            Property::P8Preemptibility => {
                lemma_same_revocations(a, b);
            },
        }
    }
}

} // verus!
