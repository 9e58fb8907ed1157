//! The history speaks only of agents that took a step, and so every agent is accounted for if what
//! became of each of them was recorded.

use crate::checker;
use crate::checker::ViolationView;
use crate::clock;
use crate::clock::Duration;
use crate::harness;
use crate::harness::{AttemptView, AuthorizedView, HarnessView};
use crate::history;
use crate::history::{EventView, Log};
use crate::lock::table;
use crate::lock::table::{HeldView, ResView, TableView};
use crate::properties;
use crate::run::laws;
use crate::run::logs;
use crate::run::model;
use crate::run::model::{State, Step, Times, World};
use crate::run::steps;
use crate::run::tables;
use crate::types::{HoldingView, Refusal, Span, Ticket, Version};
use vstd::prelude::*;

verus! {

/// Who takes the step, or whom it is about.
pub open spec fn actor(s: Step) -> Option<Seq<char>> {
    match s {
        Step::Read { holder, .. } => Some(holder),
        Step::Progress { holder, .. } => Some(holder),
        Step::Authorize { holder, .. } => Some(holder),
        Step::Write { holder, .. } => Some(holder),
        Step::Abandon { holder, .. } => Some(holder),
        Step::Note { event, .. } => checker::concerns(event),
        _ => None,
    }
}

/// The event is about one of `people`, or about no agent.
spec fn about(e: EventView, people: Set<Seq<char>>) -> bool {
    checker::concerns(e) matches Some(u) ==> people.contains(u)
}

/// The history speaks only of `people`.
spec fn speaks_of(log: Log, people: Set<Seq<char>>) -> bool {
    forall|i: int| 0 <= i < log.len() ==> about((#[trigger] log[i]).event, people)
}

/// Only `people` hold anything.
spec fn held_by(held: Seq<HeldView>, people: Set<Seq<char>>) -> bool {
    forall|i: int| 0 <= i < held.len() ==> people.contains((#[trigger] held[i]).holder)
}

/// Only `people` have anything to do with the lock service and the history.
spec fn served(t: TableView, log: Log, r: Seq<char>, people: Set<Seq<char>>) -> bool {
    &&& tables::single(t, r)
    &&& speaks_of(log, people)
    &&& held_by(t.resource(r).held, people)
}

/// Only `people` have anything to do with the harness.
spec fn cast(h: State, people: Set<Seq<char>>) -> bool {
    &&& steps::sane(h)
    &&& served(h.lock, h.log, h.resource, people)
    &&& forall|u: Seq<char>| #[trigger] h.open.contains_key(u) ==> people.contains(u)
}

proof fn lemma_says(log: Log, at_ms: u64, event: EventView, people: Set<Seq<char>>)
    requires
        speaks_of(log, people),
        about(event, people),
    ensures
        speaks_of(history::record(log, at_ms, event), people),
{
    let b = history::record(log, at_ms, event);
    assert forall|i: int| 0 <= i < b.len() implies about((#[trigger] b[i]).event, people) by {
        if i < log.len() {
            assert(b[i] == log[i]);
        }
    }
}

proof fn lemma_says_all(log: Log, at_ms: u64, events: Seq<EventView>, people: Set<Seq<char>>)
    requires
        speaks_of(log, people),
        forall|i: int| 0 <= i < events.len() ==> about(#[trigger] events[i], people),
    ensures
        speaks_of(history::record_all(log, at_ms, events), people),
    decreases events.len(),
{
    if events.len() > 0 {
        let first = events.drop_last();
        assert forall|i: int| 0 <= i < first.len() implies about(#[trigger] first[i], people) by {
            assert(first[i] == events[i]);
        }
        lemma_says_all(log, at_ms, first, people);
        assert(about(events[events.len() - 1], people));
        lemma_says(history::record_all(log, at_ms, first), at_ms, events.last(), people);
    }
}

proof fn lemma_expiries(
    name: Seq<char>,
    held: Seq<HeldView>,
    lease: Duration,
    now: u128,
    people: Set<Seq<char>>,
)
    requires
        held_by(held, people),
    ensures
        held_by(table::live(held, lease, now), people),
        forall|i: int|
            0 <= i < table::expiries(name, held, lease, now).len() ==> about(
                #[trigger] table::expiries(name, held, lease, now)[i],
                people,
            ),
    decreases held.len(),
{
    if held.len() > 0 {
        let first = held.drop_last();
        assert forall|i: int| 0 <= i < first.len() implies people.contains(
            (#[trigger] first[i]).holder,
        ) by {
            assert(first[i] == held[i]);
        }
        lemma_expiries(name, first, lease, now, people);
        assert(people.contains(held[held.len() - 1].holder));
        let before = table::expiries(name, first, lease, now);
        let all = table::expiries(name, held, lease, now);
        assert forall|i: int| 0 <= i < all.len() implies about(#[trigger] all[i], people) by {
            if i < before.len() {
                assert(all[i] == before[i]);
            }
        }
        let kept = table::live(first, lease, now);
        let out = table::live(held, lease, now);
        assert forall|i: int| 0 <= i < out.len() implies people.contains(
            (#[trigger] out[i]).holder,
        ) by {
            if i < kept.len() {
                assert(out[i] == kept[i]);
            }
        }
    }
}

proof fn lemma_swept(t: TableView, log: Log, now: u128, r: Seq<char>, people: Set<Seq<char>>)
    requires
        served(t, log, r, people),
    ensures
        served(
            table::swept(t, now),
            table::swept_log(t.resources, log, t.lease, now),
            r,
            people,
        ),
{
    tables::lemma_swept(t, log, now, r);
    let held = t.resource(r).held;
    lemma_expiries(r, held, t.lease, now, people);
    lemma_says_all(
        log,
        clock::millis(now),
        table::expiries(r, held, t.lease, now),
        people,
    );
}

proof fn lemma_acquired(h: State, now: u128, holder: Seq<char>, people: Set<Seq<char>>)
    requires
        cast(h, people),
        people.contains(holder),
        h.lock.room(1),
    ensures
        cast(h.answered(model::acquired(h, now, holder)), people),
{
    let t = h.lock;
    let r = h.resource;
    let ms = clock::millis(now);
    steps::lemma_acquired(h, now, holder);
    lemma_swept(t, h.log, now, r, people);
    tables::lemma_single(t, r);
    tables::lemma_swept(t, h.log, now, r);
    crate::lock::laws::grant_needs_free_lock(t, h.log, now, r, holder);
    let s = table::swept(t, now);
    let seen = table::swept_log(t.resources, h.log, t.lease, now);
    let e1 = EventView::TakeRequested { holder, resource: r };
    lemma_says(seen, ms, e1, people);
    let asked = history::record(seen, ms, e1);
    tables::lemma_single(s, r);
    tables::lemma_with(s, r, s.resource(r));
    let known = s.with_resource(s.resource(r));
    let ticket = table::next_issue(known);
    let e2 = EventView::TicketIssued { resource: r, ticket };
    let e3 = EventView::TakeGranted { holder, resource: r, ticket };
    lemma_says(asked, ms, e2, people);
    lemma_says(history::record(asked, ms, e2), ms, e3, people);
    let left = s.resource(r).held;
    let out = left.push(HeldView { holder, ticket: table::next_issue(t), renewed_at: now });
    assert forall|i: int| 0 <= i < out.len() implies people.contains((#[trigger] out[i]).holder) by {
        if i < left.len() {
            assert(out[i] == left[i]);
        }
    }
}

proof fn lemma_given_back(h: State, now: u128, holding: HoldingView, people: Set<Seq<char>>)
    requires
        cast(h, people),
        holding.resource == h.resource,
        people.contains(holding.holder),
    ensures
        cast(h.answered(model::given_back(h, now, holding)), people),
{
    let t = h.lock;
    let r = h.resource;
    steps::lemma_given_back(h, now, holding);
    lemma_swept(t, h.log, now, r, people);
    tables::lemma_swept(t, h.log, now, r);
    let s = table::swept(t, now);
    let seen = table::swept_log(t.resources, h.log, t.lease, now);
    tables::lemma_single(s, r);
    if !t.faults.drop_release.contains(holding.holder) {
        let res = s.resource(r);
        let out = table::without_ticket(res.held, holding.ticket);
        tables::lemma_with(s, r, ResView { held: out, ..res });
        logs::lemma_without_ticket(res.held, holding.ticket);
        assert forall|i: int| 0 <= i < out.len() implies people.contains(
            (#[trigger] out[i]).holder,
        ) by {
            assert(res.held.contains(out[i]));
            let k = choose|k: int| 0 <= k < res.held.len() && res.held[k] == out[i];
            assert(people.contains(res.held[k].holder));
        }
        lemma_says(
            seen,
            clock::millis(now),
            EventView::GiveBack { holder: holding.holder, resource: r, ticket: holding.ticket },
            people,
        );
        let after = s.with_known(ResView { held: out, ..res });
        assert(after.resource(r).held =~= out);
    }
}

proof fn lemma_told_version(h: State, now: u128, people: Set<Seq<char>>)
    requires
        cast(h, people),
    ensures
        cast(h.answered(model::told_version(h, now)), people),
{
    steps::lemma_told_version(h, now);
    lemma_swept(h.lock, h.log, now, h.resource, people);
}

proof fn lemma_noted(h: State, at_ms: u64, event: EventView, people: Set<Seq<char>>)
    requires
        cast(h, people),
        about(event, people),
    ensures
        cast(HarnessView { log: history::record(h.log, at_ms, event), ..h }, people),
{
    lemma_says(h.log, at_ms, event, people);
}

proof fn lemma_closed(h: State, holder: Seq<char>, people: Set<Seq<char>>)
    requires
        cast(h, people),
    ensures
        cast(h.closed_for(holder), people),
{
    let b = h.closed_for(holder);
    assert forall|u: Seq<char>| #[trigger] b.open.contains_key(u) implies people.contains(u)
        && b.open[u].holding.resource == b.resource && b.open[u].holding.holder == u by {
        assert(h.open.contains_key(u));
    }
}

proof fn lemma_read(h: State, holder: Seq<char>, t: Times, people: Set<Seq<char>>)
    requires
        cast(h, people),
        people.contains(holder),
        h.lock.room(1),
    ensures
        cast(model::read_begun(h, holder, t).0, people),
        match model::read_begun(h, holder, t).1 {
            Ok(reading) => reading.holder == holder,
            Err(_) => true,
        },
{
    steps::lemma_read(h, holder, t);
    let grant = model::acquired(h, t.acquire, holder);
    if h.cfg.span == Span::Full {
        lemma_acquired(h, t.acquire, holder, people);
        let mid = h.answered(grant);
        lemma_told_version(mid, t.version, people);
        let out = model::read_begun(h, holder, t).0;
        assert forall|u: Seq<char>| #[trigger] out.open.contains_key(u) implies people.contains(
            u,
        ) by {
            if u != holder {
                assert(h.open.contains_key(u));
            }
        }
    } else {
        lemma_told_version(h, t.version, people);
    }
}

proof fn lemma_abandoned(h: State, holder: Seq<char>, t: Times, people: Set<Seq<char>>)
    requires
        cast(h, people),
    ensures
        cast(model::abandoned(h, holder, t), people),
{
    if h.open.contains_key(holder) {
        lemma_given_back(h, t.release, h.open[holder].holding, people);
        let given = h.answered(model::given_back(h, t.release, h.open[holder].holding));
        lemma_closed(given, holder, people);
        assert(model::abandoned(h, holder, t) == given.closed_for(holder));
    }
}

proof fn lemma_progressed(h: State, holder: Seq<char>, t: Times, people: Set<Seq<char>>)
    requires
        cast(h, people),
        people.contains(holder),
    ensures
        cast(model::progressed(h, holder, t).0, people),
{
    steps::lemma_progressed(h, holder, t);
    if h.open.contains_key(holder) {
        if harness::past_ceiling(h.open[holder].taken_at, t.checked, h.cfg.hold_ceiling) {
            lemma_noted(
                h,
                clock::millis(t.noted),
                EventView::CeilingReached { holder, resource: h.resource },
                people,
            );
        } else {
            let r = h.resource;
            let holding = h.open[holder].holding;
            lemma_swept(h.lock, h.log, t.renew, r, people);
            let s = table::swept(h.lock, t.renew);
            tables::lemma_single(s, r);
            let res = s.resource(r);
            if table::holds(res.held, holding.ticket) {
                let out = table::renewed(res.held, holding.ticket, t.renew);
                table::lemma_has_first(res.held, holding.ticket);
                tables::lemma_with(s, r, ResView { held: out, ..res });
                assert forall|i: int| 0 <= i < out.len() implies people.contains(
                    (#[trigger] out[i]).holder,
                ) by {
                    assert(people.contains(res.held[i].holder));
                }
            }
        }
    }
}

proof fn lemma_authorization(
    h: State,
    holder: Seq<char>,
    read_at: Version,
    content: Seq<char>,
    written: Result<(), Seq<char>>,
    t: Times,
    people: Set<Seq<char>>,
)
    requires
        cast(h, people),
        people.contains(holder),
        h.lock.room(2),
    ensures
        cast(model::authorization(h, holder, read_at, content, written, t).0, people),
        match model::authorization(h, holder, read_at, content, written, t).1 {
            Ok(write) => write.holding.resource == h.resource && people.contains(
                write.holding.holder,
            ),
            Err(_) => true,
        },
{
    steps::lemma_attempted(h, holder, read_at, content, t);
    tables::lemma_room(h.lock, h.resource, 1);
    tables::lemma_room(h.lock, h.resource, 2);
    let grant = model::acquired(h, t.acquire, holder);
    let asked = if h.cfg.span == Span::WriteOnly {
        h.answered(grant)
    } else {
        h
    };
    if h.cfg.span == Span::WriteOnly {
        lemma_acquired(h, t.acquire, holder, people);
    }
    assert(cast(asked, people));
    let (begun, attempt) = model::attempted(h, holder, read_at, content, t);
    match attempt {
        Err(_) => {},
        Ok(a) => {
            let e = EventView::WriteAttempted {
                holder,
                resource: h.resource,
                ticket: a.holding.ticket,
                expected_version: read_at,
            };
            lemma_noted(asked, clock::millis(t.noted), e, people);
            assert(cast(begun, people));
            lemma_authorized(begun, a, written, t, people);
        },
    }
}

proof fn lemma_authorized(
    h: State,
    a: AttemptView,
    written: Result<(), Seq<char>>,
    t: Times,
    people: Set<Seq<char>>,
)
    requires
        cast(h, people),
        people.contains(a.holder),
        people.contains(a.holding.holder),
        a.holding.resource == h.resource,
        h.lock.room(1),
    ensures
        cast(model::authorized(h, a, written, t).0, people),
{
    steps::lemma_authorized(h, a, written, t);
    if crate::store::staged(h.fail_at, written) is Ok {
        let r = h.resource;
        let ruling = model::ruled(h, t.commit, a);
        let hash = crate::store::hash_of(a.content);
        tables::lemma_commit(h.lock, h.log, t.commit, r, a.holding, a.read_at, hash);
        lemma_swept(h.lock, h.log, t.commit, r, people);
        tables::lemma_swept(h.lock, h.log, t.commit, r);
        let mid = h.answered(ruling);
        assert(ruling.log == table::swept_log(h.lock.resources, h.log, h.lock.lease, t.commit));
        assert(cast(mid, people));
        match ruling.reply {
            Ok(_) => {},
            Err(reason) => {
                let refused = harness::ruled_against(h, a, ruling, t.refused);
                lemma_noted(
                    mid,
                    clock::millis(t.refused),
                    EventView::WriteRefused {
                        holder: a.holder,
                        resource: r,
                        reason,
                        content: a.content,
                    },
                    people,
                );
                assert(cast(refused, people));
                lemma_given_back(refused, t.release, a.holding, people);
            },
        }
    } else {
        lemma_given_back(h, t.release, a.holding, people);
    }
}

proof fn lemma_application(
    h: State,
    write: AuthorizedView,
    renamed: Result<(), Seq<char>>,
    t: Times,
    people: Set<Seq<char>>,
)
    requires
        cast(h, people),
        people.contains(write.holding.holder),
        write.holding.resource == h.resource,
    ensures
        cast(model::application(h, write, renamed, t).0, people),
{
    let holder = write.holding.holder;
    let current = model::told_version(h, t.version);
    lemma_told_version(h, t.version, people);
    steps::lemma_told_version(h, t.version);
    let mid = h.answered(current);
    let refusal = EventView::WriteRefused {
        holder,
        resource: h.resource,
        reason: Refusal::StaleVersion {
            read: write.new_version,
            current: current.reply->Ok_0,
        },
        content: write.content,
    };
    lemma_noted(mid, clock::millis(t.refused), refusal, people);
    let noted = HarnessView {
        log: history::record(mid.log, clock::millis(t.refused), refusal),
        ..mid
    };
    lemma_closed(noted, holder, people);
    let over = harness::overtaken(h, write, current, t.refused);
    assert(over == noted.closed_for(holder));
    lemma_given_back(over, t.release, write.holding, people);
    let acceptance = EventView::WriteAccepted {
        holder,
        resource: h.resource,
        ticket: write.holding.ticket,
        version: write.new_version,
        content: write.content,
    };
    lemma_noted(mid, clock::millis(t.accepted), acceptance, people);
    let landed = HarnessView {
        log: history::record(mid.log, clock::millis(t.accepted), acceptance),
        ..mid
    };
    lemma_closed(landed, holder, people);
    let done = harness::published(mid, write, t.accepted);
    assert(done == landed.closed_for(holder));
    lemma_given_back(done, t.release, write.holding, people);
    lemma_given_back(mid, t.release, write.holding, people);
    let given = mid.answered(model::given_back(mid, t.release, write.holding));
    lemma_closed(given, holder, people);
}

/// What is true throughout a run whose steps are taken by `people`.
spec fn peopled(w: World, people: Set<Seq<char>>) -> bool {
    &&& cast(w.h, people)
    &&& forall|k: int|
        0 <= k < w.pending.len() ==> (#[trigger] w.pending[k]).write.holding.resource
            == w.h.resource && people.contains(w.pending[k].write.holding.holder)
}

proof fn lemma_step(w: World, s: Step, people: Set<Seq<char>>)
    requires
        peopled(w, people),
        model::possible(w, s),
        actor(s) matches Some(u) ==> people.contains(u),
    ensures
        peopled(model::after(w, s), people),
{
    reveal(model::after);
    let next = model::after(w, s);
    let h = w.h;
    let r = h.resource;
    tables::lemma_room(h.lock, r, 1);
    tables::lemma_room(h.lock, r, 2);
    match s {
        Step::Read { holder, failed, t } => {
            let (mid, out) = model::read_begun(h, holder, t);
            lemma_read(h, holder, t, people);
            match out {
                Err(_) => {
                    assert(next == World { h: mid, ..w });
                },
                Ok(reading) => {
                    lemma_noted(
                        mid,
                        clock::millis(t.noted),
                        EventView::Read { holder, resource: mid.resource, version: reading.version },
                        people,
                    );
                    lemma_abandoned(mid, reading.holder, t, people);
                    assert(cast(next.h, people));
                },
            }
        },
        Step::Progress { holder, t } => {
            lemma_progressed(h, holder, t, people);
        },
        Step::Authorize { holder, read_at, content, written, t } => {
            lemma_authorization(h, holder, read_at, content, written, t, people);
        },
        Step::Apply { which, landed, renamed, t } => {
            lemma_application(h, w.pending[which].write, renamed, t, people);
            let rest = w.pending.remove(which);
            assert forall|k: int| 0 <= k < rest.len() implies (
            #[trigger] rest[k]).write.holding.resource == r && people.contains(
                rest[k].write.holding.holder,
            ) by {
                if k < which {
                    assert(rest[k] == w.pending[k]);
                } else {
                    assert(rest[k] == w.pending[k + 1]);
                }
            }
        },
        Step::Write { holder, read_at, content, written, renamed, t } => {
            lemma_authorization(h, holder, read_at, content, written, t, people);
            let (mid, out) = model::authorization(h, holder, read_at, content, written, t);
            match out {
                Err(_) => {},
                Ok(write) => {
                    lemma_application(mid, write, renamed, t, people);
                },
            }
        },
        Step::Abandon { holder, t } => {
            lemma_abandoned(h, holder, t, people);
        },
        Step::ForceRelease { t } => {
            steps::lemma_revoked(h, t);
            tables::lemma_force_release(h.lock, h.log, t.revoke, r);
            lemma_swept(h.lock, h.log, t.revoke, r, people);
            lemma_says(
                table::swept_log(h.lock.resources, h.log, h.lock.lease, t.revoke),
                clock::millis(t.revoke),
                EventView::Revoked {
                    resource: r,
                    by: "preemptor"@,
                    new_ticket: Some(Ticket((h.lock.next_ticket + 1) as u64)),
                },
                people,
            );
        },
        Step::Ask { now } => {
            lemma_told_version(h, now, people);
        },
        Step::ForceExpire { resource, now } => {
            steps::lemma_expired(h, resource, now);
            lemma_force_expired(h, resource, now, people);
        },
        Step::Note { at_ms, event } => {
            lemma_noted(h, at_ms, event, people);
        },
        Step::SetFaults { faults } => {
            tables::lemma_single(h.lock, r);
            tables::lemma_single(next.h.lock, r);
        },
    }
}

proof fn lemma_force_expired(h: State, resource: Seq<char>, now: u128, people: Set<Seq<char>>)
    requires
        cast(h, people),
    ensures
        ({
            let (lock, log) = table::force_expire_outcome(h.lock, h.log, now, resource);
            cast(HarnessView { lock, log, ..h }, people)
        }),
{
    let r = h.resource;
    let t = h.lock;
    steps::lemma_expired(h, resource, now);
    tables::lemma_single(t, r);
    let held = t.resource(resource).held;
    let events = table::all_expired(resource, held);
    if resource == r {
        assert forall|i: int| 0 <= i < events.len() implies about(#[trigger] events[i], people) by {
            assert(people.contains(held[i].holder));
        }
        tables::lemma_with(t, r, ResView { held: Seq::empty(), ..t.resource(r) });
    } else {
        assert(forall|i: int| !table::is_at(t.resources, resource, i)) by {
            if t.resources.len() == 1 {
                assert(t.resources[0].name == r);
            }
        }
        assert(events =~= Seq::empty());
    }
    lemma_says_all(h.log, clock::millis(now), events, people);
}

/// Everyone who takes a step of the run.
pub open spec fn takes_part(run: Seq<Step>, u: Seq<char>) -> bool {
    exists|i: int| 0 <= i < run.len() && actor(#[trigger] run[i]) == Some(u)
}

proof fn lemma_beginning(w: World, people: Set<Seq<char>>)
    requires
        model::begins(w),
    ensures
        peopled(w, people),
{
    tables::lemma_single(w.h.lock, w.h.resource);
}

proof fn lemma_part(run: Seq<Step>, people: Set<Seq<char>>)
    requires
        run.len() > 0,
        forall|u: Seq<char>| #[trigger] takes_part(run, u) ==> people.contains(u),
    ensures
        forall|u: Seq<char>| #[trigger] takes_part(run.drop_last(), u) ==> people.contains(u),
        actor(run.last()) matches Some(u) ==> people.contains(u),
{
    let before = run.drop_last();
    assert forall|u: Seq<char>| #[trigger] takes_part(before, u) implies people.contains(u) by {
        let i = choose|i: int| 0 <= i < before.len() && actor(#[trigger] before[i]) == Some(u);
        assert(run[i] == before[i]);
        assert(takes_part(run, u));
    }
    match actor(run.last()) {
        Some(u) => {
            assert(actor(run[run.len() - 1]) == Some(u));
            assert(takes_part(run, u));
        },
        None => {},
    }
}

proof fn lemma_run(w: World, run: Seq<Step>, people: Set<Seq<char>>)
    requires
        model::begins(w),
        model::possible_all(w, run),
        forall|u: Seq<char>| #[trigger] takes_part(run, u) ==> people.contains(u),
    ensures
        peopled(model::after_all(w, run), people),
    decreases run.len(),
{
    if run.len() > 0 {
        lemma_part(run, people);
        lemma_run(w, run.drop_last(), people);
        lemma_step(model::after_all(w, run.drop_last()), run.last(), people);
    } else {
        lemma_beginning(w, people);
    }
}

/// **The history speaks only of agents that took part.** Whatever a run goes through, every agent
/// that an entry is about took a step of the run, or had one taken about it.
pub proof fn only_participants_are_recorded(w: World, run: Seq<Step>, i: int, u: Seq<char>)
    requires
        model::begins(w),
        model::possible_all(w, run),
        properties::mentions_at(model::after_all(w, run).h.log, i, u),
    ensures
        takes_part(run, u),
{
    let people = Set::new(|u: Seq<char>| takes_part(run, u));
    lemma_run(w, run, people);
    properties::lemma_mentions(model::after_all(w, run).h.log, i, u);
    assert(about(model::after_all(w, run).h.log[i].event, people));
}

/// It was recorded that `u` finished or is wedged.
pub open spec fn has_ended(run: Seq<Step>, u: Seq<char>) -> bool {
    exists|i: int|
        0 <= i < run.len() && ((#[trigger] run[i]) matches Step::Note { event, .. } && (event == (
        EventView::AgentFinished { holder: u }) || event == (EventView::AgentWedged { holder: u })))
}

proof fn lemma_still_accounted_for(w: World, s: Step, u: Seq<char>)
    requires
        checker::is_accounted_for(w.h.log, u),
    ensures
        checker::is_accounted_for(model::after(w, s).h.log, u),
{
    let before = w.h.log;
    let log = model::after(w, s).h.log;
    laws::history_only_grows(w, s);
    let k = choose|k: int|
        0 <= k < before.len() && checker::is_terminal((#[trigger] before[k]).event, u);
    assert(log[k] == before[k]);
}

proof fn lemma_noted_end(w: World, at_ms: u64, event: EventView, u: Seq<char>)
    requires
        checker::is_terminal(event, u),
    ensures
        checker::is_accounted_for(model::after(w, Step::Note { at_ms, event }).h.log, u),
{
    reveal(model::after);
    let log = history::record(w.h.log, at_ms, event);
    let k = w.h.log.len() as int;
    assert(checker::is_terminal(log[k].event, u));
}

proof fn lemma_noted_stays(w: World, run: Seq<Step>, u: Seq<char>)
    requires
        has_ended(run, u),
    ensures
        checker::is_accounted_for(model::after_all(w, run).h.log, u),
    decreases run.len(),
{
    let before = run.drop_last();
    let i = choose|i: int|
        0 <= i < run.len() && ((#[trigger] run[i]) matches Step::Note { event, .. } && (event == (
        EventView::AgentFinished { holder: u }) || event == (EventView::AgentWedged { holder: u })));
    if i < before.len() {
        assert(before[i] == run[i]);
        lemma_noted_stays(w, before, u);
        lemma_still_accounted_for(model::after_all(w, before), run.last(), u);
    } else {
        match run[i] {
            Step::Note { at_ms, event } => {
                lemma_noted_end(model::after_all(w, before), at_ms, event, u);
            },
            _ => {},
        }
    }
}

/// **Liveness holds of every run in which each agent's end was recorded.** If for everyone who took
/// part it was recorded that they finished or are wedged, the checker finds nobody missing.
pub proof fn liveness_holds(w: World, run: Seq<Step>)
    requires
        model::begins(w),
        model::possible_all(w, run),
        forall|u: Seq<char>| #[trigger] takes_part(run, u) ==> has_ended(run, u),
    ensures
        checker::p7_violations(model::after_all(w, run).h.log) == Seq::<ViolationView>::empty(),
{
    let log = model::after_all(w, run).h.log;
    assert forall|i: int, u: Seq<char>| #[trigger] properties::mentions_at(log, i, u) implies exists|
        j: int,
    | properties::settles_at(log, j, u) by {
        only_participants_are_recorded(w, run, i, u);
        lemma_noted_stays(w, run, u);
        properties::lemma_settles(log, u);
    }
    properties::p7_means_liveness(log);
}

} // verus!
