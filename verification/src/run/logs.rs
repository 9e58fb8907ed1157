//! How the readings that the checker takes of a history change as the history grows.

use crate::checker;
use crate::clock::Duration;
use crate::history;
use crate::history::{EntryView, EventView, Log};
use crate::lock::table;
use crate::lock::table::HeldView;
use crate::types::Ticket;
use vstd::prelude::*;

verus! {

/// Appending one event.
pub(crate) proof fn lemma_record(log: Log, at_ms: u64, event: EventView)
    ensures
        history::record(log, at_ms, event).drop_last() == log,
        history::record(log, at_ms, event).last() == (EntryView { seq: log.len(), at_ms, event }),
        history::record(log, at_ms, event).len() == log.len() + 1,
        history::numbered(log) ==> history::numbered(history::record(log, at_ms, event)),
{
    assert(history::record(log, at_ms, event).drop_last() =~= log);
}

/// The event says nothing of any write.
pub open spec fn is_quiet(e: EventView) -> bool {
    !(e is WriteAttempted || e is WriteAccepted || e is WriteRefused)
}

/// Some refused write has this content.
pub open spec fn was_refused(log: Log, content: Seq<char>) -> bool {
    exists|i: int|
        0 <= i < log.len() && ((#[trigger] log[i]).event matches EventView::WriteRefused {
            content: c,
            ..
        } && c == content)
}

/// The accepted writes of the history, in order.
pub open spec fn accepted(log: Log) -> Seq<EventView>
    decreases log.len(),
{
    if log.len() == 0 {
        Seq::empty()
    } else if log.last().event is WriteAccepted {
        accepted(log.drop_last()).push(log.last().event)
    } else {
        accepted(log.drop_last())
    }
}

/// The two histories say the same of every write.
pub open spec fn same_writes(a: Log, b: Log) -> bool {
    &&& a.len() <= b.len()
    &&& history::numbered(a) ==> history::numbered(b)
    &&& checker::windows(a) == checker::windows(b)
    &&& forall|h: Seq<char>| #[trigger] checker::open_attempt(b, h) == checker::open_attempt(a, h)
    &&& forall|h: Seq<char>| #[trigger] checker::basis(b, h) == checker::basis(a, h)
    &&& checker::version_in_force(a) == checker::version_in_force(b)
    &&& checker::p6_violations(a) == checker::p6_violations(b)
    &&& checker::latest_accepted(a) == checker::latest_accepted(b)
    &&& accepted(a) == accepted(b)
    &&& forall|c: Seq<char>| #[trigger] was_refused(b, c) == was_refused(a, c)
}

/// A quiet event leaves what is said of writes as it was.
pub(crate) proof fn lemma_quiet(log: Log, at_ms: u64, event: EventView)
    requires
        is_quiet(event),
    ensures
        same_writes(log, history::record(log, at_ms, event)),
{
    let b = history::record(log, at_ms, event);
    lemma_record(log, at_ms, event);
    assert forall|c: Seq<char>| #[trigger] was_refused(b, c) == was_refused(log, c) by {
        lemma_was_refused(log, at_ms, event, c);
    }
}

/// Which contents were refused after one more event.
pub(crate) proof fn lemma_was_refused(log: Log, at_ms: u64, event: EventView, c: Seq<char>)
    ensures
        was_refused(history::record(log, at_ms, event), c) <==> was_refused(log, c) || (
        event matches EventView::WriteRefused { content, .. } && content == c),
{
    let b = history::record(log, at_ms, event);
    if was_refused(log, c) {
        let i = choose|i: int|
            0 <= i < log.len() && ((#[trigger] log[i]).event matches EventView::WriteRefused {
                content: d,
                ..
            } && d == c);
        assert(b[i] == log[i]);
    }
    if was_refused(b, c) {
        let i = choose|i: int|
            0 <= i < b.len() && ((#[trigger] b[i]).event matches EventView::WriteRefused {
                content: d,
                ..
            } && d == c);
        if i < log.len() {
            assert(b[i] == log[i]);
        }
    }
    assert(b[log.len() as int].event == event);
}

/// Quiet events leave what is said of writes as it was.
pub(crate) proof fn lemma_quiet_all(log: Log, at_ms: u64, events: Seq<EventView>)
    requires
        forall|i: int| 0 <= i < events.len() ==> is_quiet(#[trigger] events[i]),
    ensures
        same_writes(log, history::record_all(log, at_ms, events)),
    decreases events.len(),
{
    if events.len() > 0 {
        assert forall|i: int| 0 <= i < events.drop_last().len() implies is_quiet(
            #[trigger] events.drop_last()[i],
        ) by {
            assert(events.drop_last()[i] == events[i]);
        }
        lemma_quiet_all(log, at_ms, events.drop_last());
        assert(is_quiet(events[events.len() - 1]));
        lemma_quiet(history::record_all(log, at_ms, events.drop_last()), at_ms, events.last());
    }
}

/// No two holds are on one ticket.
pub open spec fn distinct_tickets(held: Seq<HeldView>) -> bool {
    forall|i: int, j: int|
        0 <= i < j < held.len() ==> (#[trigger] held[i]).ticket != (#[trigger] held[j]).ticket
}

/// The grant of `resource` on `ticket` is among `grants`.
pub open spec fn has_grant(
    grants: Seq<checker::GrantView>,
    ticket: Ticket,
    resource: Seq<char>,
) -> bool {
    exists|i: int|
        0 <= i < grants.len() && (#[trigger] grants[i]).ticket == ticket && grants[i].resource
            == resource
}

/// The history says of the tickets of `resource` what the lock service says: `held` are the holds
/// that the service has, `next` is the next ticket that it will issue.
pub open spec fn mirrored(held: Seq<HeldView>, next: u64, log: Log, resource: Seq<char>) -> bool {
    &&& distinct_tickets(held)
    &&& forall|i: int| 0 <= i < held.len() ==> (#[trigger] held[i]).ticket.0 < next
    &&& forall|t: Ticket| #[trigger]
        checker::held_tickets(log).contains(t) <==> table::holds(held, t)
    &&& match checker::highest_issued(log) {
        Some(h) => h.0 < next,
        None => true,
    }
    &&& match checker::latest_revocation(log) {
        Some((_, Some(barrier))) => barrier.0 <= next && forall|i: int|
            0 <= i < held.len() ==> barrier.0 <= (#[trigger] held[i]).ticket.0,
        Some((_, None)) => false,
        None => true,
    }
    &&& forall|t: Ticket, r: Seq<char>| #[trigger]
        has_grant(checker::outstanding(log), t, r) <==> r == resource && table::holds(held, t)
}

/// The history shows nothing wrong with the tickets, nor with the revocations.
pub open spec fn tickets_clean(log: Log) -> bool {
    &&& checker::p2_violations(log).len() == 0
    &&& checker::p8_violations(log).len() == 0
}

/// What is said of tickets is the same in both histories.
pub open spec fn same_tickets(a: Log, b: Log) -> bool {
    &&& checker::held_tickets(a) == checker::held_tickets(b)
    &&& checker::highest_issued(a) == checker::highest_issued(b)
    &&& checker::latest_revocation(a) == checker::latest_revocation(b)
    &&& checker::outstanding(a) == checker::outstanding(b)
}

/// The event says nothing of any ticket changing hands, and is no accepted write.
pub open spec fn keeps_tickets(e: EventView) -> bool {
    !(e is TicketIssued || e is TakeGranted || e is GiveBack || e is LeaseExpired || e is Revoked
        || e is WriteAccepted)
}

/// Such an event leaves what is said of tickets as it was.
pub(crate) proof fn lemma_keeps_tickets(log: Log, at_ms: u64, event: EventView)
    requires
        keeps_tickets(event),
    ensures
        same_tickets(log, history::record(log, at_ms, event)),
        tickets_clean(log) ==> tickets_clean(history::record(log, at_ms, event)),
{
    lemma_record(log, at_ms, event);
}

/// Which holds are left once one ticket is dropped.
pub(crate) proof fn lemma_without_ticket(held: Seq<HeldView>, t: Ticket)
    ensures
        forall|u: Ticket| #[trigger]
            table::holds(table::without_ticket(held, t), u) <==> u != t && table::holds(held, u),
        forall|i: int|
            0 <= i < table::without_ticket(held, t).len() ==> held.contains(
                #[trigger] table::without_ticket(held, t)[i],
            ),
        distinct_tickets(held) ==> distinct_tickets(table::without_ticket(held, t)),
    decreases held.len(),
{
    if held.len() > 0 {
        lemma_without_ticket(held.drop_last(), t);
        lemma_kept(
            held,
            table::without_ticket(held.drop_last(), t),
            table::without_ticket(held, t),
            held.last().ticket != t,
        );
        assert forall|u: Ticket| #[trigger]
            table::holds(table::without_ticket(held, t), u) <==> u != t && table::holds(
                held,
                u,
            ) by {
            assert(table::holds(table::without_ticket(held.drop_last(), t), u) <==> u != t
                && table::holds(held.drop_last(), u));
        }
    }
}

/// One step of going through holds and keeping some: `kept` are those kept of all but the last,
/// `out` those kept of all, and `keep` says whether the last is among them.
proof fn lemma_kept(held: Seq<HeldView>, kept: Seq<HeldView>, out: Seq<HeldView>, keep: bool)
    requires
        held.len() > 0,
        out == (if keep {
            kept.push(held.last())
        } else {
            kept
        }),
        forall|i: int| 0 <= i < kept.len() ==> held.drop_last().contains(#[trigger] kept[i]),
        distinct_tickets(held.drop_last()) ==> distinct_tickets(kept),
    ensures
        forall|i: int| 0 <= i < out.len() ==> held.contains(#[trigger] out[i]),
        distinct_tickets(held) ==> distinct_tickets(out),
        forall|u: Ticket| #[trigger]
            table::holds(out, u) <==> table::holds(kept, u) || (keep && held.last().ticket == u),
        forall|u: Ticket| #[trigger]
            table::holds(held, u) <==> table::holds(held.drop_last(), u) || held.last().ticket == u,
{
    let first = held.drop_last();
    assert forall|i: int| 0 <= i < out.len() implies held.contains(#[trigger] out[i]) by {
        if i < kept.len() {
            assert(first.contains(kept[i]));
            let k = choose|k: int| 0 <= k < first.len() && first[k] == kept[i];
            assert(held[k] == out[i]);
        } else {
            assert(held[held.len() - 1] == out[i]);
        }
    }
    if distinct_tickets(held) {
        assert forall|i: int, j: int| 0 <= i < j < first.len() implies (#[trigger] first[i]).ticket
            != (#[trigger] first[j]).ticket by {
            assert(held[i].ticket != held[j].ticket);
        }
        assert forall|i: int, j: int| 0 <= i < j < out.len() implies (#[trigger] out[i]).ticket
            != (#[trigger] out[j]).ticket by {
            if j < kept.len() {
                assert(kept[i].ticket != kept[j].ticket);
            } else {
                assert(first.contains(kept[i]));
                let k = choose|k: int| 0 <= k < first.len() && first[k] == kept[i];
                assert(held[k].ticket != held[held.len() - 1].ticket);
            }
        }
    }
    assert forall|u: Ticket| #[trigger] table::holds(out, u) <==> table::holds(kept, u) || (keep
        && held.last().ticket == u) by {
        if table::holds(kept, u) {
            let k = choose|k: int| 0 <= k < kept.len() && (#[trigger] kept[k]).ticket == u;
            assert(out[k].ticket == u);
        }
        if keep && held.last().ticket == u {
            assert(out[kept.len() as int].ticket == u);
        }
        if table::holds(out, u) {
            let k = choose|k: int| 0 <= k < out.len() && (#[trigger] out[k]).ticket == u;
            if k < kept.len() {
                assert(kept[k].ticket == u);
            }
        }
    }
    assert forall|u: Ticket| #[trigger] table::holds(held, u) <==> table::holds(first, u)
        || held.last().ticket == u by {
        if table::holds(first, u) {
            let k = choose|k: int| 0 <= k < first.len() && (#[trigger] first[k]).ticket == u;
            assert(held[k].ticket == u);
        }
        if held.last().ticket == u {
            assert(held[held.len() - 1].ticket == u);
        }
        if table::holds(held, u) {
            let k = choose|k: int| 0 <= k < held.len() && (#[trigger] held[k]).ticket == u;
            if k < first.len() {
                assert(first[k].ticket == u);
            }
        }
    }
}

/// Some hold on ticket `t` has lapsed.
pub open spec fn has_lapsed(held: Seq<HeldView>, lease: Duration, now: u128, t: Ticket) -> bool {
    exists|i: int|
        0 <= i < held.len() && (#[trigger] held[i]).ticket == t && table::lapsed(
            held[i],
            lease,
            now,
        )
}

/// Which holds are still good, where no two are on one ticket.
pub(crate) proof fn lemma_live(held: Seq<HeldView>, lease: Duration, now: u128)
    requires
        distinct_tickets(held),
    ensures
        forall|u: Ticket| #[trigger]
            table::holds(table::live(held, lease, now), u) <==> table::holds(held, u)
                && !has_lapsed(held, lease, now, u),
        forall|i: int|
            0 <= i < table::live(held, lease, now).len() ==> held.contains(
                #[trigger] table::live(held, lease, now)[i],
            ),
        distinct_tickets(table::live(held, lease, now)),
    decreases held.len(),
{
    if held.len() > 0 {
        let first = held.drop_last();
        assert forall|i: int, j: int| 0 <= i < j < first.len() implies (#[trigger] first[i]).ticket
            != (#[trigger] first[j]).ticket by {
            assert(held[i].ticket != held[j].ticket);
        }
        lemma_live(first, lease, now);
        let gone = table::lapsed(held.last(), lease, now);
        lemma_kept(held, table::live(first, lease, now), table::live(held, lease, now), !gone);
        assert forall|u: Ticket| #[trigger]
            table::holds(table::live(held, lease, now), u) <==> table::holds(held, u)
                && !has_lapsed(held, lease, now, u) by {
            lemma_has_lapsed(held, lease, now, u);
            assert(table::holds(table::live(first, lease, now), u) <==> table::holds(first, u)
                && !has_lapsed(first, lease, now, u));
            if held.last().ticket == u && table::holds(first, u) {
                let k = choose|k: int| 0 <= k < first.len() && (#[trigger] first[k]).ticket == u;
                assert(held[k].ticket != held[held.len() - 1].ticket);
            }
            if held.last().ticket == u && has_lapsed(first, lease, now, u) {
                let k = choose|k: int|
                    0 <= k < first.len() && (#[trigger] first[k]).ticket == u && table::lapsed(
                        first[k],
                        lease,
                        now,
                    );
                assert(held[k].ticket != held[held.len() - 1].ticket);
            }
        }
    }
}

pub(crate) proof fn lemma_has_lapsed(held: Seq<HeldView>, lease: Duration, now: u128, u: Ticket)
    requires
        held.len() > 0,
    ensures
        has_lapsed(held, lease, now, u) <==> has_lapsed(held.drop_last(), lease, now, u) || (
        held.last().ticket == u && table::lapsed(held.last(), lease, now)),
{
    let first = held.drop_last();
    if has_lapsed(first, lease, now, u) {
        let k = choose|k: int|
            0 <= k < first.len() && (#[trigger] first[k]).ticket == u && table::lapsed(
                first[k],
                lease,
                now,
            );
        assert(held[k].ticket == u);
    }
    if held.last().ticket == u && table::lapsed(held.last(), lease, now) {
        assert(held[held.len() - 1].ticket == u);
    }
    if has_lapsed(held, lease, now, u) {
        let k = choose|k: int|
            0 <= k < held.len() && (#[trigger] held[k]).ticket == u && table::lapsed(
                held[k],
                lease,
                now,
            );
        if k < first.len() {
            assert(first[k].ticket == u);
        }
    }
}

/// Which grants are left once one is ended.
pub(crate) proof fn lemma_without_grant(
    grants: Seq<checker::GrantView>,
    ticket: Ticket,
    resource: Seq<char>,
)
    ensures
        forall|t: Ticket, r: Seq<char>| #[trigger]
            has_grant(checker::without_grant(grants, ticket, resource), t, r) <==> has_grant(
                grants,
                t,
                r,
            ) && !(t == ticket && r == resource),
{
    let keep = |g: checker::GrantView| !(g.ticket == ticket && g.resource == resource);
    let out = checker::without_grant(grants, ticket, resource);
    assert forall|t: Ticket, r: Seq<char>| #[trigger] has_grant(out, t, r) <==> has_grant(
        grants,
        t,
        r,
    ) && !(t == ticket && r == resource) by {
        lemma_filtered_grants(grants, keep, t, r, !(t == ticket && r == resource));
    }
}

/// Which grants are left once those of one resource are ended.
pub(crate) proof fn lemma_without_resource(grants: Seq<checker::GrantView>, resource: Seq<char>)
    ensures
        forall|t: Ticket, r: Seq<char>| #[trigger]
            has_grant(checker::without_resource(grants, resource), t, r) <==> has_grant(
                grants,
                t,
                r,
            ) && r != resource,
{
    let keep = |g: checker::GrantView| g.resource != resource;
    let out = checker::without_resource(grants, resource);
    assert forall|t: Ticket, r: Seq<char>| #[trigger] has_grant(out, t, r) <==> has_grant(
        grants,
        t,
        r,
    ) && r != resource by {
        lemma_filtered_grants(grants, keep, t, r, r != resource);
    }
}

proof fn lemma_filtered_grants(
    grants: Seq<checker::GrantView>,
    keep: spec_fn(checker::GrantView) -> bool,
    t: Ticket,
    r: Seq<char>,
    kept: bool,
)
    requires
        forall|g: checker::GrantView| g.ticket == t && g.resource == r ==> #[trigger] keep(g) == kept,
    ensures
        has_grant(grants.filter(keep), t, r) <==> has_grant(grants, t, r) && kept,
    decreases grants.len(),
{
    reveal(Seq::filter);
    let out = grants.filter(keep);
    if grants.len() > 0 {
        let first = grants.drop_last();
        let last = grants.last();
        lemma_filtered_grants(first, keep, t, r, kept);
        lemma_pushed_grant(first, last, t, r);
        assert(first.push(last) =~= grants);
        if keep(last) {
            lemma_pushed_grant(first.filter(keep), last, t, r);
            assert(out == first.filter(keep).push(last));
        } else {
            assert(out == first.filter(keep));
        }
    }
}

/// Which grants there are after one more.
pub(crate) proof fn lemma_pushed_grant(
    grants: Seq<checker::GrantView>,
    g: checker::GrantView,
    t: Ticket,
    r: Seq<char>,
)
    ensures
        has_grant(grants.push(g), t, r) <==> has_grant(grants, t, r) || (g.ticket == t
            && g.resource == r),
{
    let out = grants.push(g);
    if has_grant(grants, t, r) {
        let k = choose|k: int|
            0 <= k < grants.len() && (#[trigger] grants[k]).ticket == t && grants[k].resource == r;
        assert(out[k].ticket == t);
    }
    if g.ticket == t && g.resource == r {
        assert(out[grants.len() as int].ticket == t);
    }
    if has_grant(out, t, r) {
        let k = choose|k: int|
            0 <= k < out.len() && (#[trigger] out[k]).ticket == t && out[k].resource == r;
        if k < grants.len() {
            assert(grants[k].ticket == t);
        }
    }
}

} // verus!
