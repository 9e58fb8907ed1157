//! What can be relied on of single operations of a harness in front of the in-memory lock service.

use crate::checker;
use crate::clock;
use crate::clock::Duration;
use crate::harness;
use crate::harness::{
    Answer, AttemptView, AuthorizedView, HarnessView, ReadingView, SnapshotView, WriteErrorView,
};
use crate::history;
use crate::history::{EventView, Log};
use crate::lock::table;
use crate::lock::table::{HeldView, ResView};
use crate::run::content;
use crate::run::exclusion;
use crate::run::model;
use crate::run::model::{State, Step, Times, World};
use crate::run::steps;
use crate::run::tables;
use crate::run::whole;
use crate::types::{HoldingView, LockError, Refusal, Span, Ticket, Version};
use vstd::prelude::*;

verus! {

/// The holds of the resource that are still good at `now`.
pub open spec fn good_holds(h: State, now: u128) -> Seq<HeldView> {
    table::live(h.lock.resource(h.resource).held, h.lock.lease, now)
}

/// **Reading takes no lock under the write-only span.** Afterwards the holds are those that were
/// there, without the lapsed ones, and the read always goes on.
pub proof fn write_only_read_takes_no_lock(h: State, holder: Seq<char>, t: Times)
    requires
        steps::sane(h),
        h.cfg.span == Span::WriteOnly,
    ensures
        ({
            let (after, out) = model::read_begun(h, holder, t);
            &&& out == Ok::<ReadingView, WriteErrorView>(
                ReadingView { holder, version: Version(steps::version(h)) },
            )
            &&& after.lock.resource(h.resource).held == good_holds(h, t.version)
            &&& after.open == h.open
        }),
{
    steps::lemma_told_version(h, t.version);
}

/// **Reading keeps the lock under the full span.** A read succeeds exactly if nobody else holds the
/// lock, or the service grants this resource twice; and then it is kept for the reader.
pub proof fn full_read_keeps_lock(h: State, holder: Seq<char>, t: Times)
    requires
        steps::sane(h),
        h.lock.room(1),
        h.cfg.span == Span::Full,
    ensures
        ({
            let (after, out) = model::read_begun(h, holder, t);
            let free = good_holds(h, t.acquire).len() == 0 || h.lock.faults.grant_twice.contains(
                h.resource,
            );
            &&& free ==> {
                &&& out == Ok::<ReadingView, WriteErrorView>(
                    ReadingView { holder, version: Version(steps::version(h)) },
                )
                &&& after.open == h.open.insert(
                    holder,
                    harness::OpenView {
                        holding: HoldingView {
                            resource: h.resource,
                            holder,
                            ticket: table::next_issue(h.lock),
                        },
                        taken_at: t.taken,
                    },
                )
            }
            &&& !free ==> {
                &&& out == Err::<ReadingView, WriteErrorView>(
                    WriteErrorView::Lock(LockError::Contended),
                )
                &&& after.open == h.open
            }
        }),
{
    let grant = model::acquired(h, t.acquire, holder);
    steps::lemma_acquired(h, t.acquire, holder);
    tables::lemma_single(h.lock, h.resource);
    crate::lock::laws::grant_needs_free_lock(h.lock, h.log, t.acquire, h.resource, holder);
    steps::lemma_told_version(h.answered(grant), t.version);
}

/// **A read returns what the latest accepted write wrote.** After any run, a read that goes through
/// returns the content of the latest accepted write, or the initial content if there is none; and if
/// every write went through in one piece and no rename failed, the version of that write.
pub proof fn read_returns_latest_write(
    w: World,
    run: Seq<Step>,
    holder: Seq<char>,
    t: Times,
)
    requires
        model::begins(w),
        model::possible_all(w, run),
        content::all_land_own(w, run),
        model::after_all(w, run).h.lock.room(1),
    ensures
        ({
            let end = model::after_all(w, run);
            let (mid, begun) = model::read_begun(end.h, holder, t);
            match begun {
                Err(_) => true,
                Ok(reading) => {
                    let (_, out) = model::read_done(mid, reading, Ok(end.disk), t);
                    &&& out is Ok
                    &&& out->Ok_0.content == (match checker::latest_accepted(end.h.log) {
                        Some((_, content)) => content,
                        None => w.disk,
                    })
                    &&& whole::is_whole_run(w, run) && whole::all_land(w, run)
                        ==> out->Ok_0.version == checker::version_in_force(end.h.log)
                },
            }
        }),
{
    let end = model::after_all(w, run);
    exclusion::lemma_run(w, run);
    content::lemma_run(w, run);
    if whole::is_whole_run(w, run) && whole::all_land(w, run) {
        whole::lemma_fresh_run(w, run);
    }
    lemma_read_version(end.h, holder, t);
}

proof fn lemma_read_version(h: State, holder: Seq<char>, t: Times)
    requires
        steps::sane(h),
        h.lock.room(1),
    ensures
        match model::read_begun(h, holder, t).1 {
            Ok(reading) => reading == (ReadingView {
                holder,
                version: Version(steps::version(h)),
            }),
            Err(_) => true,
        },
{
    if h.cfg.span == Span::WriteOnly {
        write_only_read_takes_no_lock(h, holder, t);
    } else {
        full_read_keeps_lock(h, holder, t);
    }
}

/// **Renewal never goes on past the hold ceiling.** Once a hold is as old as it may get, reporting
/// progress asks nothing of the lock service, records that the ceiling was reached, and says so.
pub proof fn progress_stops_at_ceiling<S>(
    h: HarnessView<S>,
    holder: Seq<char>,
    checked_at: u128,
    noted_at: u128,
    renewal: Answer<S, Result<(), LockError>>,
)
    requires
        h.open.contains_key(holder),
        harness::past_ceiling(h.open[holder].taken_at, checked_at, h.cfg.hold_ceiling),
    ensures
        ({
            let (after, out) = harness::progress_outcome(h, holder, checked_at, noted_at, renewal);
            &&& out == Err::<(), WriteErrorView>(WriteErrorView::CeilingExceeded)
            &&& after.lock == h.lock
            &&& after.log == history::record(
                h.log,
                clock::millis(noted_at),
                EventView::CeilingReached { holder, resource: h.resource },
            )
        }),
{
}

/// **No write goes under a hold past its ceiling.** Under the full span such an attempt is answered
/// with the ceiling, and nothing at all changes.
pub proof fn write_stops_at_ceiling(
    h: State,
    holder: Seq<char>,
    read_at: Version,
    content: Seq<char>,
    t: Times,
)
    requires
        h.cfg.span == Span::Full,
        h.open.contains_key(holder),
        harness::past_ceiling(h.open[holder].taken_at, t.checked, h.cfg.hold_ceiling),
    ensures
        model::attempted(h, holder, read_at, content, t) == (
            h,
            Err::<AttemptView, WriteErrorView>(WriteErrorView::CeilingExceeded),
        ),
{
}

/// **Abandoning gives the lock back.** Afterwards the agent holds nothing across its thinking; and
/// unless the service is told to drop its releases, nothing is held on its ticket.
pub proof fn abandon_gives_lock_back(h: State, holder: Seq<char>, t: Times)
    requires
        steps::sane(h),
        h.open.contains_key(holder),
    ensures
        ({
            let after = model::abandoned(h, holder, t);
            &&& !after.open.contains_key(holder)
            &&& !h.lock.faults.drop_release.contains(holder) ==> !table::holds(
                after.lock.resource(h.resource).held,
                h.open[holder].holding.ticket,
            )
        }),
{
    tables::lemma_single(h.lock, h.resource);
    let holding = h.open[holder].holding;
    if !h.lock.faults.drop_release.contains(holder) {
        crate::lock::laws::release_ends_hold(h.lock, h.log, t.release, holding);
    }
}

/// **A revoked lock can be taken at once.** Whoever held it, and at whatever time, the next request
/// after a revocation succeeds.
pub proof fn revoked_lock_is_free(h: State, t: Times, now: u128, holder: Seq<char>)
    requires
        steps::sane(h),
        h.lock.room(2),
    ensures
        model::acquired(model::revoked(h, t), now, holder).reply is Ok,
{
    tables::lemma_room(h.lock, h.resource, 1);
    tables::lemma_room(h.lock, h.resource, 2);
    tables::lemma_force_release(h.lock, h.log, t.revoke, h.resource);
    let after = model::revoked(h, t);
    tables::lemma_single(after.lock, h.resource);
    crate::lock::laws::lapsed_lease_frees_lock(after.lock, after.log, now, h.resource, holder);
}

/// **A holder that lost the lock is refused.** If its ticket is not the one in force when the write
/// is to be authorized, because its lease lapsed, because the lock was taken away, or because another
/// was granted it too, then the write is refused on the ticket, and the version stays.
pub proof fn lost_lock_is_refused(h: State, a: AttemptView, t: Times)
    requires
        steps::sane(h),
        h.lock.room(1),
        a.holding.resource == h.resource,
        crate::store::staged(h.fail_at, Ok(())) is Ok,
        table::in_force(good_holds(h, t.commit)) != Some(a.holding.ticket),
    ensures
        ({
            let (after, out) = model::authorized(h, a, Ok(()), t);
            &&& out == Err::<AuthorizedView, WriteErrorView>(
                WriteErrorView::Refused(
                    Refusal::StaleTicket {
                        held: a.holding.ticket,
                        current: table::in_force(good_holds(h, t.commit)),
                    },
                ),
            )
            &&& steps::version(after) == steps::version(h)
            &&& harness::discards(out->Err_0)
        }),
{
    steps::lemma_authorized(h, a, Ok(()), t);
    crate::lock::laws::commit_needs_ticket_and_version(
        h.lock,
        h.log,
        t.commit,
        a.holding,
        a.read_at,
        crate::store::hash_of(a.content),
    );
}

/// **A stale write is refused.** A write that was decided from another version than the current one
/// is refused on the version, even if its lock discipline is flawless.
pub proof fn stale_write_is_refused(h: State, a: AttemptView, t: Times)
    requires
        steps::sane(h),
        h.lock.room(1),
        a.holding.resource == h.resource,
        crate::store::staged(h.fail_at, Ok(())) is Ok,
        table::in_force(good_holds(h, t.commit)) == Some(a.holding.ticket),
        a.read_at != Version(steps::version(h)),
    ensures
        ({
            let (after, out) = model::authorized(h, a, Ok(()), t);
            &&& out == Err::<AuthorizedView, WriteErrorView>(
                WriteErrorView::Refused(
                    Refusal::StaleVersion {
                        read: a.read_at,
                        current: Version(steps::version(h)),
                    },
                ),
            )
            &&& steps::version(after) == steps::version(h)
            &&& harness::discards(out->Err_0)
        }),
{
    steps::lemma_authorized(h, a, Ok(()), t);
    crate::lock::laws::commit_needs_ticket_and_version(
        h.lock,
        h.log,
        t.commit,
        a.holding,
        a.read_at,
        crate::store::hash_of(a.content),
    );
}

/// **A revoked holder is refused.** Whatever it has prepared, and however healthy it is, a write
/// under a lock that was taken away is refused on its ticket; a revocation that was wrong costs
/// work, and never changes the content.
pub proof fn revoked_holder_is_refused(h: State, revoked: Times, a: AttemptView, t: Times)
    requires
        steps::sane(h),
        h.lock.room(2),
        a.holding.resource == h.resource,
        crate::store::staged(h.fail_at, Ok(())) is Ok,
    ensures
        ({
            let taken = model::revoked(h, revoked);
            let (after, out) = model::authorized(taken, a, Ok(()), t);
            &&& out == Err::<AuthorizedView, WriteErrorView>(
                WriteErrorView::Refused(
                    Refusal::StaleTicket { held: a.holding.ticket, current: None },
                ),
            )
            &&& steps::version(after) == steps::version(h)
        }),
{
    tables::lemma_room(h.lock, h.resource, 1);
    tables::lemma_room(h.lock, h.resource, 2);
    steps::lemma_revoked(h, revoked);
    tables::lemma_force_release(h.lock, h.log, revoked.revoke, h.resource);
    let taken = model::revoked(h, revoked);
    tables::lemma_room(taken.lock, h.resource, 1);
    assert(good_holds(taken, t.commit).len() == 0);
    lost_lock_is_refused(taken, a, t);
}

/// **A write that is not authorized gives the lock back under the write-only span.** Whether it is
/// refused or could not be staged, whoever made it can start over at once, and leaks nothing; unless
/// the service is told to drop its releases.
pub proof fn unauthorized_write_gives_lock_back(
    h: State,
    a: AttemptView,
    written: Result<(), Seq<char>>,
    t: Times,
)
    requires
        steps::sane(h),
        h.lock.room(1),
        a.holding.resource == h.resource,
        h.cfg.span == Span::WriteOnly,
        !h.lock.faults.drop_release.contains(a.holding.holder),
        model::authorized(h, a, written, t).1 is Err,
    ensures
        !table::holds(
            model::authorized(h, a, written, t).0.lock.resource(h.resource).held,
            a.holding.ticket,
        ),
{
    if crate::store::staged(h.fail_at, written) is Ok {
        let ruling = model::ruled(h, t.commit, a);
        let refused = harness::ruled_against(h, a, ruling, t.refused);
        tables::lemma_commit(
            h.lock,
            h.log,
            t.commit,
            h.resource,
            a.holding,
            a.read_at,
            crate::store::hash_of(a.content),
        );
        crate::lock::laws::release_ends_hold(refused.lock, refused.log, t.release, a.holding);
    } else {
        crate::lock::laws::release_ends_hold(h.lock, h.log, t.release, a.holding);
    }
}

/// **A write that was authorized gives the lock back, however it ends.** Whether it is applied, is
/// superseded or cannot be put in place, its holder afterwards holds nothing across its thinking; and
/// unless the service is told to drop its releases, nothing is held on its ticket.
pub proof fn finished_write_gives_lock_back(
    h: State,
    write: AuthorizedView,
    renamed: Result<(), Seq<char>>,
    t: Times,
)
    requires
        steps::sane(h),
        write.holding.resource == h.resource,
    ensures
        ({
            let after = model::application(h, write, renamed, t).0;
            &&& !after.open.contains_key(write.holding.holder)
            &&& !h.lock.faults.drop_release.contains(write.holding.holder) ==> !table::holds(
                after.lock.resource(h.resource).held,
                write.holding.ticket,
            )
        }),
{
    let current = model::told_version(h, t.version);
    steps::lemma_told_version(h, t.version);
    let mid = h.answered(current);
    let over = harness::overtaken(h, write, current, t.refused);
    let done = harness::published(mid, write, t.accepted);
    if !h.lock.faults.drop_release.contains(write.holding.holder) {
        crate::lock::laws::release_ends_hold(over.lock, over.log, t.release, write.holding);
        crate::lock::laws::release_ends_hold(done.lock, done.log, t.release, write.holding);
        crate::lock::laws::release_ends_hold(mid.lock, mid.log, t.release, write.holding);
    }
}

/// **A read that fails keeps no lock.** If the file cannot be read, the agent holds nothing across
/// its thinking; and unless the service is told to drop its releases, nothing is held on the ticket
/// that it had.
pub proof fn failed_read_keeps_no_lock(
    h: State,
    reading: ReadingView,
    reason: Seq<char>,
    t: Times,
)
    requires
        steps::sane(h),
    ensures
        ({
            let (after, out) = model::read_done(h, reading, Err(reason), t);
            &&& out == Err::<SnapshotView, WriteErrorView>(WriteErrorView::Io(reason))
            &&& !after.open.contains_key(reading.holder)
            &&& h.open.contains_key(reading.holder) && !h.lock.faults.drop_release.contains(
                reading.holder,
            ) ==> !table::holds(
                after.lock.resource(h.resource).held,
                h.open[reading.holder].holding.ticket,
            )
        }),
{
    if h.open.contains_key(reading.holder) {
        abandon_gives_lock_back(h, reading.holder, t);
    }
}

/// What a write in one piece answers.
pub open spec fn write_reply(
    h: State,
    holder: Seq<char>,
    read_at: Version,
    content: Seq<char>,
    written: Result<(), Seq<char>>,
    renamed: Result<(), Seq<char>>,
    t: Times,
) -> Result<Version, WriteErrorView> {
    let (mid, authorized) = model::authorization(h, holder, read_at, content, written, t);
    match authorized {
        Err(e) => Err(e),
        Ok(write) => model::application(mid, write, renamed, t).1,
    }
}

/// **A write changes the resource exactly if it answers with a version.** A write that is refused,
/// superseded, or fails for any other reason leaves the resource as it was.
pub proof fn failed_write_changes_nothing(
    w: World,
    holder: Seq<char>,
    read_at: Version,
    content: Seq<char>,
    written: Result<(), Seq<char>>,
    renamed: Result<(), Seq<char>>,
    t: Times,
)
    ensures
        model::after(w, Step::Write { holder, read_at, content, written, renamed, t }).disk == (
        if write_reply(w.h, holder, read_at, content, written, renamed, t) is Ok {
            content
        } else {
            w.disk
        }),
{
    reveal(model::after);
}

/// **A crash leaves the old content.** If a crash is injected, at whichever point, no write changes
/// the resource.
pub proof fn crash_leaves_old_content(
    w: World,
    holder: Seq<char>,
    read_at: Version,
    content: Seq<char>,
    written: Result<(), Seq<char>>,
    renamed: Result<(), Seq<char>>,
    t: Times,
)
    requires
        steps::sane(w.h),
        w.h.lock.room(2),
        w.h.fail_at is Some,
    ensures
        model::after(w, Step::Write { holder, read_at, content, written, renamed, t }).disk
            == w.disk,
        write_reply(w.h, holder, read_at, content, written, renamed, t) is Err,
{
    reveal(model::after);
    let (begun, attempt) = model::attempted(w.h, holder, read_at, content, t);
    steps::lemma_attempted(w.h, holder, read_at, content, t);
    match attempt {
        Err(_) => {},
        Ok(a) => {
            let (mid, authorized) = model::authorized(begun, a, written, t);
            steps::lemma_authorized(begun, a, written, t);
            match authorized {
                Err(_) => {},
                Ok(write) => {
                    steps::lemma_told_version(mid, t.version);
                    assert(w.h.fail_at == Some(crate::store::CrashPoint::DuringRename)) by {
                        assert(crate::store::staged(begun.fail_at, written) is Ok);
                        match w.h.fail_at->Some_0 {
                            crate::store::CrashPoint::AfterTempWritten => {},
                            crate::store::CrashPoint::DuringRename => {},
                        }
                    }
                    assert(crate::store::may_rename(mid.fail_at) is Err);
                    assert(model::cleared(mid, write, t).1 is Err);
                    assert(model::application(mid, write, renamed, t).1 is Err);
                },
            }
        },
    }
}

/// **Reporting progress without a hold does nothing.** There is no lease to keep alive.
pub proof fn progress_without_hold_does_nothing(h: State, holder: Seq<char>, t: Times)
    requires
        !h.open.contains_key(holder),
    ensures
        model::progressed(h, holder, t) == (h, Ok::<(), WriteErrorView>(())),
{
}

/// **Under the write-only span nothing is held while an agent thinks.** After any number of steps no
/// lock is held across anyone's thinking.
pub proof fn write_only_holds_nothing_open(w: World, run: Seq<Step>)
    requires
        model::begins(w),
        w.h.cfg.span == Span::WriteOnly,
    ensures
        model::after_all(w, run).h.open == Map::<Seq<char>, harness::OpenView>::empty(),
        model::after_all(w, run).h.cfg == w.h.cfg,
    decreases run.len(),
{
    if run.len() > 0 {
        write_only_holds_nothing_open(w, run.drop_last());
        lemma_nothing_opened(model::after_all(w, run.drop_last()), run.last());
    }
}

proof fn lemma_nothing_opened(w: World, s: Step)
    requires
        w.h.cfg.span == Span::WriteOnly,
        w.h.open == Map::<Seq<char>, harness::OpenView>::empty(),
    ensures
        model::after(w, s).h.open == Map::<Seq<char>, harness::OpenView>::empty(),
        model::after(w, s).h.cfg == w.h.cfg,
{
    reveal(model::after);
    assert(forall|u: Seq<char>| w.h.open.remove(u) =~= w.h.open);
}

/// **A rename that fails leaves a trace.** A write that was authorized and then could not be put in
/// place leaves the old content, but the lock service has moved on: it keeps the version and the hash
/// of the write that is missing.
pub proof fn failed_rename_leaves_trace(
    w: World,
    holder: Seq<char>,
    read_at: Version,
    content: Seq<char>,
    written: Result<(), Seq<char>>,
    renamed: Result<(), Seq<char>>,
    t: Times,
)
    requires
        steps::sane(w.h),
        w.h.lock.room(2),
        model::authorization(w.h, holder, read_at, content, written, t).1 is Ok,
        renamed is Err || crate::store::may_rename(w.h.fail_at) is Err,
    ensures
        ({
            let next = model::after(
                w,
                Step::Write { holder, read_at, content, written, renamed, t },
            );
            &&& next.disk == w.disk
            &&& steps::version(next.h) == steps::version(w.h) + 1
            &&& steps::content_hash(next.h) == crate::store::hash_of(content)
        }),
{
    reveal(model::after);
    let (begun, attempt) = model::attempted(w.h, holder, read_at, content, t);
    steps::lemma_attempted(w.h, holder, read_at, content, t);
    let a = attempt->Ok_0;
    let (mid, authorized) = model::authorized(begun, a, written, t);
    steps::lemma_authorized(begun, a, written, t);
    let write = authorized->Ok_0;
    steps::lemma_application(mid, write, renamed, t);
    steps::lemma_told_version(mid, t.version);
    assert(model::application(mid, write, renamed, t).1 is Err);
}

/// One hold that is still good is left as it is.
proof fn lemma_one_live(hold: HeldView, lease: Duration, now: u128)
    requires
        !table::lapsed(hold, lease, now),
    ensures
        table::live(seq![hold], lease, now) == seq![hold],
        table::in_force(seq![hold]) == Some(hold.ticket),
{
    let held = seq![hold];
    reveal_with_fuel(table::live, 2);
    assert(held.drop_last() =~= Seq::empty());
    assert(table::live(held, lease, now) =~= held);
    assert(held[0].ticket == hold.ticket);
    assert(table::is_highest(held, hold.ticket));
    table::lemma_in_force(held, hold.ticket);
}

/// **An undisturbed write lands.** Under the write-only span, if nobody holds the lock, the write was
/// decided from the current version, the file system does its part, and the lease does not run out
/// before the commit, then it answers with the next version, and the resource holds its content.
pub proof fn undisturbed_write_lands(
    w: World,
    holder: Seq<char>,
    content: Seq<char>,
    t: Times,
)
    requires
        steps::sane(w.h),
        w.h.lock.room(2),
        w.h.fail_at is None,
        w.h.cfg.span == Span::WriteOnly,
        good_holds(w.h, t.acquire).len() == 0,
        t.commit < t.acquire + w.h.lock.lease.nanos,
    ensures
        ({
            let read_at = Version(steps::version(w.h));
            let next = model::after(
                w,
                Step::Write { holder, read_at, content, written: Ok(()), renamed: Ok(()), t },
            );
            let new = Version((steps::version(w.h) + 1) as u64);
            &&& write_reply(w.h, holder, read_at, content, Ok(()), Ok(()), t) == Ok::<
                Version,
                WriteErrorView,
            >(new)
            &&& next.disk == content
            &&& steps::version(next.h) == new.0
        }),
{
    reveal(model::after);
    let h = w.h;
    let r = h.resource;
    let read_at = Version(steps::version(h));
    tables::lemma_single(h.lock, r);
    tables::lemma_room(h.lock, r, 1);
    tables::lemma_room(h.lock, r, 2);
    let grant = model::acquired(h, t.acquire, holder);
    crate::lock::laws::grant_needs_free_lock(h.lock, h.log, t.acquire, r, holder);
    let ticket = table::next_issue(h.lock);
    let hold = HeldView { holder, ticket, renewed_at: t.acquire };
    let (begun, attempt) = model::attempted(h, holder, read_at, content, t);
    steps::lemma_attempted(h, holder, read_at, content, t);
    assert(attempt is Ok);
    let a = attempt->Ok_0;
    assert(begun.lock == grant.state);
    assert(begun.lock.resource(r).held =~= seq![hold]);
    lemma_one_live(hold, h.lock.lease, t.commit);
    let (mid, authorized) = model::authorized(begun, a, Ok(()), t);
    steps::lemma_authorized(begun, a, Ok(()), t);
    crate::lock::laws::commit_needs_ticket_and_version(
        begun.lock,
        begun.log,
        t.commit,
        a.holding,
        read_at,
        crate::store::hash_of(content),
    );
    assert(authorized is Ok);
    steps::lemma_application(mid, authorized->Ok_0, Ok(()), t);
}

/// **An undisturbed write lands under the full span, too.** If the lock that the agent kept since its
/// read is still in force at the commit and not past its ceiling, the write was decided from the
/// current version, and the file system does its part, then it answers with the next version, the
/// resource holds its content, and the agent holds nothing any more.
pub proof fn undisturbed_full_write_lands(
    w: World,
    holder: Seq<char>,
    content: Seq<char>,
    t: Times,
)
    requires
        steps::sane(w.h),
        w.h.lock.room(2),
        w.h.fail_at is None,
        w.h.cfg.span == Span::Full,
        w.h.open.contains_key(holder),
        !harness::past_ceiling(w.h.open[holder].taken_at, t.checked, w.h.cfg.hold_ceiling),
        table::in_force(good_holds(w.h, t.commit)) == Some(w.h.open[holder].holding.ticket),
    ensures
        ({
            let read_at = Version(steps::version(w.h));
            let next = model::after(
                w,
                Step::Write { holder, read_at, content, written: Ok(()), renamed: Ok(()), t },
            );
            let new = Version((steps::version(w.h) + 1) as u64);
            &&& write_reply(w.h, holder, read_at, content, Ok(()), Ok(()), t) == Ok::<
                Version,
                WriteErrorView,
            >(new)
            &&& next.disk == content
            &&& steps::version(next.h) == new.0
            &&& !next.h.open.contains_key(holder)
        }),
{
    reveal(model::after);
    let h = w.h;
    let read_at = Version(steps::version(h));
    tables::lemma_room(h.lock, h.resource, 1);
    tables::lemma_room(h.lock, h.resource, 2);
    let (begun, attempt) = model::attempted(h, holder, read_at, content, t);
    steps::lemma_attempted(h, holder, read_at, content, t);
    let a = attempt->Ok_0;
    assert(begun.lock == h.lock);
    let (mid, authorized) = model::authorized(begun, a, Ok(()), t);
    steps::lemma_authorized(begun, a, Ok(()), t);
    crate::lock::laws::commit_needs_ticket_and_version(
        begun.lock,
        begun.log,
        t.commit,
        a.holding,
        read_at,
        crate::store::hash_of(content),
    );
    assert(authorized is Ok);
    let write = authorized->Ok_0;
    steps::lemma_application(mid, write, Ok(()), t);
    assert(model::application(mid, write, Ok(()), t).1 is Ok);
    finished_write_gives_lock_back(mid, write, Ok(()), t);
}

/// `b` begins with `a`.
pub open spec fn extends(a: Log, b: Log) -> bool {
    a.len() <= b.len() && forall|i: int| 0 <= i < a.len() ==> #[trigger] b[i] == a[i]
}

proof fn lemma_extended(log: Log, at_ms: u64, event: EventView)
    ensures
        extends(log, history::record(log, at_ms, event)),
        history::numbered(log) ==> history::numbered(history::record(log, at_ms, event)),
{
}

proof fn lemma_extended_all(log: Log, at_ms: u64, events: Seq<EventView>)
    ensures
        extends(log, history::record_all(log, at_ms, events)),
        history::numbered(log) ==> history::numbered(history::record_all(log, at_ms, events)),
    decreases events.len(),
{
    if events.len() > 0 {
        lemma_extended_all(log, at_ms, events.drop_last());
        let mid = history::record_all(log, at_ms, events.drop_last());
        lemma_extended(mid, at_ms, events.last());
    }
}

proof fn lemma_extended_swept(rs: Seq<ResView>, log: Log, lease: Duration, now: u128)
    ensures
        extends(log, table::swept_log(rs, log, lease, now)),
        history::numbered(log) ==> history::numbered(table::swept_log(rs, log, lease, now)),
    decreases rs.len(),
{
    if rs.len() > 0 {
        lemma_extended_swept(rs.drop_last(), log, lease, now);
        let mid = table::swept_log(rs.drop_last(), log, lease, now);
        lemma_extended_all(
            mid,
            clock::millis(now),
            table::expiries(rs.last().name, rs.last().held, lease, now),
        );
    }
}

/// One history follows from another.
spec fn follows(a: Log, b: Log) -> bool {
    extends(a, b) && (history::numbered(a) ==> history::numbered(b))
}

proof fn lemma_acquired_follows(h: State, now: u128, holder: Seq<char>)
    ensures
        follows(h.log, model::acquired(h, now, holder).log),
{
    let ms = clock::millis(now);
    let seen = table::swept_log(h.lock.resources, h.log, h.lock.lease, now);
    lemma_extended_swept(h.lock.resources, h.log, h.lock.lease, now);
    let e1 = EventView::TakeRequested { holder, resource: h.resource };
    lemma_extended(seen, ms, e1);
    let asked = history::record(seen, ms, e1);
    let s = table::swept(h.lock, now);
    let ticket = table::next_issue(s.with_resource(s.resource(h.resource)));
    let e2 = EventView::TicketIssued { resource: h.resource, ticket };
    lemma_extended(asked, ms, e2);
    let e3 = EventView::TakeGranted { holder, resource: h.resource, ticket };
    lemma_extended(history::record(asked, ms, e2), ms, e3);
}

proof fn lemma_given_back_follows(h: State, now: u128, holding: HoldingView)
    ensures
        follows(h.log, model::given_back(h, now, holding).log),
{
    let seen = table::swept_log(h.lock.resources, h.log, h.lock.lease, now);
    lemma_extended_swept(h.lock.resources, h.log, h.lock.lease, now);
    lemma_extended(
        seen,
        clock::millis(now),
        EventView::GiveBack {
            holder: holding.holder,
            resource: holding.resource,
            ticket: holding.ticket,
        },
    );
}

proof fn lemma_authorization_follows(
    h: State,
    holder: Seq<char>,
    read_at: Version,
    content: Seq<char>,
    written: Result<(), Seq<char>>,
    t: Times,
)
    ensures
        follows(h.log, model::authorization(h, holder, read_at, content, written, t).0.log),
{
    let grant = model::acquired(h, t.acquire, holder);
    lemma_acquired_follows(h, t.acquire, holder);
    let (begun, attempt) = model::attempted(h, holder, read_at, content, t);
    match harness::write_lock(h, holder, t.checked, grant) {
        Err(_) => {},
        Ok(holding) => {
            let e = EventView::WriteAttempted {
                holder,
                resource: h.resource,
                ticket: holding.ticket,
                expected_version: read_at,
            };
            lemma_extended(h.log, clock::millis(t.noted), e);
            lemma_extended(grant.log, clock::millis(t.noted), e);
        },
    }
    assert(follows(h.log, begun.log));
    match attempt {
        Err(_) => {},
        Ok(a) => {
            lemma_given_back_follows(begun, t.release, a.holding);
            let ruling = model::ruled(begun, t.commit, a);
            lemma_extended_swept(begun.lock.resources, begun.log, begun.lock.lease, t.commit);
            assert(follows(begun.log, ruling.log));
            match ruling.reply {
                Ok(_) => {},
                Err(reason) => {
                    let refused = harness::ruled_against(begun, a, ruling, t.refused);
                    lemma_extended(
                        ruling.log,
                        clock::millis(t.refused),
                        EventView::WriteRefused {
                            holder: a.holder,
                            resource: h.resource,
                            reason,
                            content: a.content,
                        },
                    );
                    lemma_given_back_follows(refused, t.release, a.holding);
                },
            }
        },
    }
}

proof fn lemma_application_follows(
    h: State,
    write: AuthorizedView,
    renamed: Result<(), Seq<char>>,
    t: Times,
)
    ensures
        follows(h.log, model::application(h, write, renamed, t).0.log),
{
    let current = model::told_version(h, t.version);
    lemma_extended_swept(h.lock.resources, h.log, h.lock.lease, t.version);
    assert(follows(h.log, current.log));
    let over = harness::overtaken(h, write, current, t.refused);
    lemma_extended(
        current.log,
        clock::millis(t.refused),
        EventView::WriteRefused {
            holder: write.holding.holder,
            resource: h.resource,
            reason: Refusal::StaleVersion { read: write.new_version, current: current.reply->Ok_0 },
            content: write.content,
        },
    );
    lemma_given_back_follows(over, t.release, write.holding);
    let mid = h.answered(current);
    let done = harness::published(mid, write, t.accepted);
    lemma_extended(
        current.log,
        clock::millis(t.accepted),
        EventView::WriteAccepted {
            holder: write.holding.holder,
            resource: h.resource,
            ticket: write.holding.ticket,
            version: write.new_version,
            content: write.content,
        },
    );
    lemma_given_back_follows(done, t.release, write.holding);
    lemma_given_back_follows(mid, t.release, write.holding);
}

/// **The history only grows.** No step of a run changes or removes anything that was recorded, and
/// every entry carries its own position if all did before.
pub proof fn history_only_grows(w: World, s: Step)
    ensures
        extends(w.h.log, model::after(w, s).h.log),
        history::numbered(w.h.log) ==> history::numbered(model::after(w, s).h.log),
{
    reveal(model::after);
    let h = w.h;
    match s {
        Step::Read { holder, failed, t } => {
            let grant = model::acquired(h, t.acquire, holder);
            lemma_acquired_follows(h, t.acquire, holder);
            lemma_extended_swept(h.lock.resources, h.log, h.lock.lease, t.version);
            lemma_extended_swept(
                grant.state.resources,
                grant.log,
                grant.state.lease,
                t.version,
            );
            let (mid, out) = model::read_begun(h, holder, t);
            assert(follows(h.log, mid.log));
            match out {
                Err(_) => {},
                Ok(reading) => {
                    lemma_extended(
                        mid.log,
                        clock::millis(t.noted),
                        EventView::Read {
                            holder: reading.holder,
                            resource: h.resource,
                            version: reading.version,
                        },
                    );
                    lemma_given_back_follows(mid, t.release, mid.open[reading.holder].holding);
                },
            }
        },
        Step::Progress { holder, t } => {
            lemma_extended(
                h.log,
                clock::millis(t.noted),
                EventView::CeilingReached { holder, resource: h.resource },
            );
            lemma_extended_swept(h.lock.resources, h.log, h.lock.lease, t.renew);
        },
        Step::Authorize { holder, read_at, content, written, t } => {
            lemma_authorization_follows(h, holder, read_at, content, written, t);
        },
        Step::Apply { which, landed, renamed, t } => {
            lemma_application_follows(h, w.pending[which].write, renamed, t);
        },
        Step::Write { holder, read_at, content, written, renamed, t } => {
            lemma_authorization_follows(h, holder, read_at, content, written, t);
            let (mid, out) = model::authorization(h, holder, read_at, content, written, t);
            match out {
                Err(_) => {},
                Ok(write) => {
                    lemma_application_follows(mid, write, renamed, t);
                },
            }
        },
        Step::Abandon { holder, t } => {
            lemma_given_back_follows(h, t.release, h.open[holder].holding);
        },
        Step::ForceRelease { t } => {
            let seen = table::swept_log(h.lock.resources, h.log, h.lock.lease, t.revoke);
            lemma_extended_swept(h.lock.resources, h.log, h.lock.lease, t.revoke);
            lemma_extended(
                seen,
                clock::millis(t.revoke),
                EventView::Revoked {
                    resource: h.resource,
                    by: "preemptor"@,
                    new_ticket: Some(Ticket((h.lock.next_ticket + 1) as u64)),
                },
            );
        },
        Step::Ask { now } => {
            lemma_extended_swept(h.lock.resources, h.log, h.lock.lease, now);
        },
        Step::ForceExpire { resource, now } => {
            lemma_extended_all(
                h.log,
                clock::millis(now),
                table::all_expired(resource, h.lock.resource(resource).held),
            );
        },
        Step::Note { at_ms, event } => {
            lemma_extended(h.log, at_ms, event);
        },
        Step::SetFaults { faults } => {},
    }
}

/// **Every entry of a run carries its own position.**
pub proof fn history_is_numbered(w: World, run: Seq<Step>)
    requires
        model::begins(w),
    ensures
        history::numbered(model::after_all(w, run).h.log),
    decreases run.len(),
{
    if run.len() > 0 {
        history_is_numbered(w, run.drop_last());
        history_only_grows(model::after_all(w, run.drop_last()), run.last());
    }
}

} // verus!
