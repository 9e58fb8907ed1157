//! The properties that hold of every run in which each write goes through in one piece.
//!
//! In such a run nothing comes between the authorization of a write and its application, and the
//! hold that a write was authorized on has not lapsed by the time it is applied. Everything else is
//! open: the clocks, the faults other than repeating tickets, failing file-system calls, and what
//! the agents do in between.

use crate::checker;
use crate::checker::ViolationView;
use crate::lock::table;
use crate::run::logs;
use crate::run::model;
use crate::run::model::{State, Step, Times, World};
use crate::run::steps;
use crate::run::tables;
use crate::types::{Ticket, Version};
use vstd::prelude::*;

verus! {

/// The step leaves no write half done, and does not make tickets repeat.
pub open spec fn is_whole(w: World, s: Step) -> bool {
    match s {
        Step::Authorize { .. } => false,
        Step::Apply { .. } => false,
        Step::SetFaults { faults } => !faults.non_monotonic_tickets,
        Step::Write { holder, read_at, content, written, renamed, t } => {
            let (mid, out) = model::authorization(w.h, holder, read_at, content, written, t);
            match out {
                Ok(write) => steps::keeps_hold(mid, write.holding.ticket, t),
                Err(_) => true,
            }
        },
        _ => true,
    }
}

/// Every step of the run can be taken, and leaves no write half done.
pub open spec fn is_whole_run(w: World, run: Seq<Step>) -> bool
    decreases run.len(),
{
    if run.len() == 0 {
        model::begins(w) && !w.h.lock.faults.non_monotonic_tickets
    } else {
        let before = model::after_all(w, run.drop_last());
        &&& is_whole_run(w, run.drop_last())
        &&& model::possible(before, run.last())
        &&& is_whole(before, run.last())
    }
}

/// If the step is a write and it is authorized, it is also applied.
pub open spec fn lands(w: World, s: Step) -> bool {
    match s {
        Step::Write { renamed, .. } => renamed is Ok && crate::store::may_rename(w.h.fail_at) is Ok,
        _ => true,
    }
}

/// Every write of the run that is authorized is also applied.
pub open spec fn all_land(w: World, run: Seq<Step>) -> bool {
    forall|i: int| 0 <= i < run.len() ==> lands(w, #[trigger] run[i])
}

/// The version of the latest accepted write is the version in force, and every accepted write was
/// fresh.
pub open spec fn is_fresh(h: State) -> bool {
    &&& checker::version_in_force(h.log) == Version(steps::version(h))
    &&& checker::p6_violations(h.log).len() == 0
}

/// Once something was written, the hash that the lock service keeps is that of the resource.
pub open spec fn hash_agrees(w: World) -> bool {
    steps::version(w.h) > 0 ==> steps::content_hash(w.h) == crate::store::hash_of(w.disk)
}

/// What a step does to what a whole run keeps true.
proof fn lemma_step(w: World, s: Step)
    requires
        steps::sane(w.h),
        steps::in_tune(w.h),
        model::possible(w, s),
        is_whole(w, s),
    ensures
        ({
            let next = model::after(w, s);
            &&& steps::sane(next.h)
            &&& steps::in_tune(next.h)
            &&& next.h.resource == w.h.resource
            &&& next.h.fail_at == w.h.fail_at
            &&& next.h.cfg == w.h.cfg
            &&& is_fresh(w.h) && lands(w, s) ==> is_fresh(next.h)
            &&& hash_agrees(w) && lands(w, s) ==> hash_agrees(next)
        }),
{
    reveal(model::after);
    let next = model::after(w, s);
    tables::lemma_room(w.h.lock, w.h.resource, 1);
    tables::lemma_room(w.h.lock, w.h.resource, 2);
    match s {
        Step::Read { holder, failed, t } => {
            let (mid, out) = model::read_begun(w.h, holder, t);
            steps::lemma_read(w.h, holder, t);
            match out {
                Err(_) => {
                    assert(next == World { h: mid, ..w });
                },
                Ok(reading) => {
                    let content = match failed {
                        Some(reason) => Err(reason),
                        None => Ok(w.disk),
                    };
                    let h = model::read_done(mid, reading, content, t).0;
                    steps::lemma_read_done(mid, reading, content, t);
                    assert(next == World { h, ..w });
                },
            }
        },
        Step::Progress { holder, t } => {
            steps::lemma_progressed(w.h, holder, t);
        },
        Step::Authorize { .. } => {},
        Step::Apply { .. } => {},
        Step::Write { holder, read_at, content, written, renamed, t } => {
            lemma_write(w, holder, read_at, content, written, renamed, t);
        },
        Step::Abandon { holder, t } => {
            steps::lemma_abandoned(w.h, holder, t);
        },
        Step::ForceRelease { t } => {
            steps::lemma_revoked(w.h, t);
        },
        Step::Ask { now } => {
            steps::lemma_told_version(w.h, now);
        },
        Step::ForceExpire { resource, now } => {
            steps::lemma_expired(w.h, resource, now);
        },
        Step::Note { at_ms, event } => {
            steps::lemma_noted(w.h, at_ms, event);
        },
        Step::SetFaults { faults } => {
            tables::lemma_single(w.h.lock, w.h.resource);
            tables::lemma_single(next.h.lock, w.h.resource);
        },
    }
}

proof fn lemma_write(
    w: World,
    holder: Seq<char>,
    read_at: Version,
    content: Seq<char>,
    written: Result<(), Seq<char>>,
    renamed: Result<(), Seq<char>>,
    t: Times,
)
    requires
        steps::sane(w.h),
        steps::in_tune(w.h),
        w.h.lock.room(2),
        is_whole(w, Step::Write { holder, read_at, content, written, renamed, t }),
    ensures
        ({
            let s = Step::Write { holder, read_at, content, written, renamed, t };
            let next = model::after(w, s);
            &&& steps::sane(next.h)
            &&& steps::in_tune(next.h)
            &&& next.h.resource == w.h.resource
            &&& next.h.fail_at == w.h.fail_at
            &&& next.h.cfg == w.h.cfg
            &&& is_fresh(w.h) && lands(w, s) ==> is_fresh(next.h)
            &&& hash_agrees(w) && lands(w, s) ==> hash_agrees(next)
        }),
{
    reveal(model::after);
    let s = Step::Write { holder, read_at, content, written, renamed, t };
    let next = model::after(w, s);
    let (begun, attempt) = model::attempted(w.h, holder, read_at, content, t);
    steps::lemma_attempted(w.h, holder, read_at, content, t);
    match attempt {
        Err(_) => {
            assert(next == World { h: begun, ..w });
        },
        Ok(a) => {
            let (mid, authorized) = model::authorized(begun, a, written, t);
            steps::lemma_authorized(begun, a, written, t);
            match authorized {
                Err(_) => {
                    assert(next == World { h: mid, ..w });
                },
                Ok(write) => {
                    let (h, out) = model::application(mid, write, renamed, t);
                    steps::lemma_application(mid, write, renamed, t);
                    assert(next.h == h);
                    assert(out is Err ==> logs::same_writes(mid.log, h.log));
                    assert(checker::basis(mid.log, holder) == checker::basis(begun.log, holder));
                    assert(checker::version_in_force(mid.log) == checker::version_in_force(
                        w.h.log,
                    ));
                },
            }
        },
    }
}

pub(crate) proof fn lemma_run(w: World, run: Seq<Step>)
    requires
        is_whole_run(w, run),
    ensures
        ({
            let end = model::after_all(w, run);
            &&& steps::sane(end.h)
            &&& steps::in_tune(end.h)
            &&& end.h.resource == w.h.resource
            &&& end.h.fail_at == w.h.fail_at
        }),
    decreases run.len(),
{
    if run.len() > 0 {
        lemma_run(w, run.drop_last());
        lemma_step(model::after_all(w, run.drop_last()), run.last());
    } else {
        lemma_beginning(w);
    }
}

proof fn lemma_beginning(w: World)
    requires
        model::begins(w),
        !w.h.lock.faults.non_monotonic_tickets,
    ensures
        steps::sane(w.h),
        steps::in_tune(w.h),
        is_fresh(w.h),
        hash_agrees(w),
{
    tables::lemma_single(w.h.lock, w.h.resource);
}

/// **Every accepted write held the ticket in force.** In a run of whole writes no ticket moves
/// backwards, no revocation fails to rise above what it revoked, and every write that is accepted
/// holds the ticket in force at that point. So a holder whose lease lapsed, or whose lock was taken
/// away, is refused, however firmly it believes that it holds the lock.
pub proof fn ticket_validity_holds(w: World, run: Seq<Step>)
    requires
        is_whole_run(w, run),
    ensures
        checker::p2_violations(model::after_all(w, run).h.log) == Seq::<ViolationView>::empty(),
{
    lemma_run(w, run);
}

/// **A revocation takes the lock away.** In a run of whole writes, no write lands on a ticket from
/// before the latest revocation.
pub proof fn preemptibility_holds(w: World, run: Seq<Step>)
    requires
        is_whole_run(w, run),
    ensures
        checker::p8_violations(model::after_all(w, run).h.log) == Seq::<ViolationView>::empty(),
{
    lemma_run(w, run);
}

pub(crate) proof fn lemma_fresh_run(w: World, run: Seq<Step>)
    requires
        is_whole_run(w, run),
        all_land(w, run),
    ensures
        is_fresh(model::after_all(w, run).h),
        hash_agrees(model::after_all(w, run)),
    decreases run.len(),
{
    if run.len() > 0 {
        let before = run.drop_last();
        assert forall|i: int| 0 <= i < before.len() implies lands(w, #[trigger] before[i]) by {
            assert(before[i] == run[i]);
        }
        lemma_fresh_run(w, before);
        lemma_run(w, before);
        assert(run[run.len() - 1] == run.last());
        lemma_step(model::after_all(w, before), run.last());
    } else {
        lemma_beginning(w);
    }
}

/// **Every accepted write was fresh.** In a run of whole writes in which no rename fails, every
/// accepted write was based on the version in force when it committed.
pub proof fn freshness_holds(w: World, run: Seq<Step>)
    requires
        is_whole_run(w, run),
        all_land(w, run),
    ensures
        checker::p6_violations(model::after_all(w, run).h.log) == Seq::<ViolationView>::empty(),
{
    lemma_fresh_run(w, run);
}

/// **The lock service knows what was written.** In a run of whole writes in which no rename fails,
/// the hash that the lock service keeps is that of what the resource holds, from the first write
/// on. So content that got there another way shows, unless it has the same hash.
pub proof fn service_knows_the_content(w: World, run: Seq<Step>)
    requires
        is_whole_run(w, run),
        all_land(w, run),
    ensures
        ({
            let end = model::after_all(w, run);
            steps::version(end.h) > 0 ==> steps::content_hash(end.h) == crate::store::hash_of(
                end.disk,
            )
        }),
{
    lemma_fresh_run(w, run);
}

/// **A leak is reported exactly if the lock service still has a hold.** In a run of whole writes the
/// history can be replayed into the state of the lock service.
pub proof fn leaks_are_what_is_held(w: World, run: Seq<Step>)
    requires
        is_whole_run(w, run),
    ensures
        ({
            let end = model::after_all(w, run).h;
            &&& checker::p5_violations(end.log).len() == 0 <==> end.lock.resource(
                end.resource,
            ).held.len() == 0
            &&& forall|t: Ticket| #[trigger]
                checker::held_tickets(end.log).contains(t) <==> table::holds(
                    end.lock.resource(end.resource).held,
                    t,
                )
        }),
{
    lemma_run(w, run);
    lemma_leaks(model::after_all(w, run).h);
}

proof fn lemma_leaks(h: State)
    requires
        steps::in_tune(h),
    ensures
        checker::p5_violations(h.log).len() == 0 <==> h.lock.resource(h.resource).held.len() == 0,
{
    let held = h.lock.resource(h.resource).held;
    let grants = checker::outstanding(h.log);
    if held.len() > 0 {
        assert(held[0].ticket == held[0].ticket);
        assert(table::holds(held, held[0].ticket));
        assert(logs::has_grant(grants, held[0].ticket, h.resource));
    }
    if grants.len() > 0 {
        assert(grants[0].ticket == grants[0].ticket);
        assert(logs::has_grant(grants, grants[0].ticket, grants[0].resource));
    }
}

/// Every hold has lapsed at `now`.
pub open spec fn all_lapsed(h: State, now: u128) -> bool {
    let held = h.lock.resource(h.resource).held;
    forall|i: int| 0 <= i < held.len() ==> table::lapsed(#[trigger] held[i], h.lock.lease, now)
}

proof fn lemma_none_live(held: Seq<table::HeldView>, lease: crate::clock::Duration, now: u128)
    requires
        forall|i: int| 0 <= i < held.len() ==> table::lapsed(#[trigger] held[i], lease, now),
    ensures
        table::live(held, lease, now).len() == 0,
    decreases held.len(),
{
    if held.len() > 0 {
        let first = held.drop_last();
        assert forall|i: int| 0 <= i < first.len() implies table::lapsed(
            #[trigger] first[i],
            lease,
            now,
        ) by {
            assert(first[i] == held[i]);
        }
        lemma_none_live(first, lease, now);
        assert(table::lapsed(held[held.len() - 1], lease, now));
    }
}

/// **Every lock is released or expires.** Once every lease has lapsed, and the lock service is asked
/// anything at all, no leak is left, whoever is wedged and whichever releases were dropped.
pub proof fn no_lock_is_leaked(w: World, run: Seq<Step>, now: u128)
    requires
        is_whole_run(w, run),
        all_lapsed(model::after_all(w, run).h, now),
    ensures
        checker::p5_violations(
            model::after(model::after_all(w, run), Step::Ask { now }).h.log,
        ) == Seq::<ViolationView>::empty(),
{
    lemma_run(w, run);
    lemma_swept_world(model::after_all(w, run), now);
}

proof fn lemma_swept_world(w: World, now: u128)
    requires
        steps::sane(w.h),
        steps::in_tune(w.h),
        all_lapsed(w.h, now),
    ensures
        checker::p5_violations(model::after(w, Step::Ask { now }).h.log) == Seq::<
            ViolationView,
        >::empty(),
{
    reveal(model::after);
    lemma_swept_clean(w.h, now);
}

proof fn lemma_swept_clean(h: State, now: u128)
    requires
        steps::sane(h),
        steps::in_tune(h),
        all_lapsed(h, now),
    ensures
        checker::p5_violations(h.answered(model::told_version(h, now)).log) == Seq::<
            ViolationView,
        >::empty(),
{
    let asked = h.answered(model::told_version(h, now));
    steps::lemma_told_version(h, now);
    lemma_none_live(h.lock.resource(h.resource).held, h.lock.lease, now);
    lemma_leaks(asked);
}

} // verus!
