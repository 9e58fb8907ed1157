//! What the resource holds, in every run.
//!
//! It does not matter here how long an authorized write waits before it is applied, what else comes
//! in between, which faults are injected or which file-system calls fail. All that is asked is that a
//! rename puts in place what was staged for it.

use crate::checker;
use crate::checker::ViolationView;
use crate::harness::AuthorizedView;
use crate::history::{EventView, Log};
use crate::run::exclusion;
use crate::run::logs;
use crate::run::model;
use crate::run::model::{State, Step, Times, World};
use crate::run::steps;
use crate::run::tables;
use crate::types::Version;
use vstd::prelude::*;

verus! {

/// If the step applies a pending write, and the rename is made, it puts in place what the write was
/// authorized with.
pub open spec fn lands_own(w: World, s: Step) -> bool {
    s matches Step::Apply { which, landed, renamed, t } ==> model::application(
        w.h,
        w.pending[which].write,
        renamed,
        t,
    ).1 is Ok ==> landed == w.pending[which].write.content
}

/// Every pending write of the run that is applied puts its own content in place.
pub open spec fn all_land_own(w: World, run: Seq<Step>) -> bool
    decreases run.len(),
{
    run.len() > 0 ==> all_land_own(w, run.drop_last()) && lands_own(
        model::after_all(w, run.drop_last()),
        run.last(),
    )
}

/// The step attempts to write this content.
pub open spec fn writes(s: Step, content: Seq<char>) -> bool {
    match s {
        Step::Write { content: c, .. } => c == content,
        Step::Authorize { content: c, .. } => c == content,
        _ => false,
    }
}

/// No step of the run attempts to write this content.
pub open spec fn never_writes(run: Seq<Step>, content: Seq<char>) -> bool {
    forall|i: int| 0 <= i < run.len() ==> !writes(#[trigger] run[i], content)
}

/// The resource holds the latest accepted write, or what it held at the beginning.
pub open spec fn disk_agrees(w: World, initial: Seq<char>) -> bool {
    match checker::latest_accepted(w.h.log) {
        Some((_, content)) => w.disk == content,
        None => w.disk == initial,
    }
}

/// No write with this content was refused, and none waits to be applied.
spec fn is_free_of(w: World, content: Seq<char>) -> bool {
    &&& !logs::was_refused(w.h.log, content)
    &&& forall|k: int|
        0 <= k < w.pending.len() ==> (#[trigger] w.pending[k]).write.content != content
}

/// Authorizing a write: nothing is accepted yet, and if anything is refused, it is this write.
proof fn lemma_authorization(
    h: State,
    holder: Seq<char>,
    read_at: Version,
    content: Seq<char>,
    written: Result<(), Seq<char>>,
    t: Times,
    c: Seq<char>,
)
    requires
        steps::sane(h),
        h.lock.room(2),
    ensures
        ({
            let (b, out) = model::authorization(h, holder, read_at, content, written, t);
            &&& steps::sane(b)
            &&& b.resource == h.resource
            &&& checker::latest_accepted(b.log) == checker::latest_accepted(h.log)
            &&& logs::was_refused(b.log, c) ==> logs::was_refused(h.log, c) || c == content
            &&& out matches Ok(write) ==> write.content == content && write.holding.resource
                == h.resource
        }),
{
    let (begun, attempt) = model::attempted(h, holder, read_at, content, t);
    steps::lemma_attempted(h, holder, read_at, content, t);
    assert(logs::was_refused(begun.log, c) == logs::was_refused(h.log, c));
    match attempt {
        Err(_) => {},
        Ok(a) => {
            steps::lemma_authorized(begun, a, written, t);
            let b = model::authorized(begun, a, written, t).0;
            assert(logs::was_refused(b.log, c) ==> logs::was_refused(begun.log, c) || c == content);
        },
    }
}

/// Applying a write: it is accepted exactly if the answer is a version, and if anything is refused,
/// it is this write.
proof fn lemma_application(
    h: State,
    write: AuthorizedView,
    renamed: Result<(), Seq<char>>,
    t: Times,
    c: Seq<char>,
)
    requires
        steps::sane(h),
        write.holding.resource == h.resource,
    ensures
        ({
            let (b, out) = model::application(h, write, renamed, t);
            &&& if out is Ok {
                checker::latest_accepted(b.log) matches Some((_, content)) && content
                    == write.content
            } else {
                checker::latest_accepted(b.log) == checker::latest_accepted(h.log)
            }
            &&& logs::was_refused(b.log, c) ==> logs::was_refused(h.log, c) || c == write.content
        }),
{
    steps::lemma_application(h, write, renamed, t);
    let b = model::application(h, write, renamed, t).0;
    assert(logs::was_refused(b.log, c) ==> logs::was_refused(h.log, c) || c == write.content);
}

proof fn lemma_step(w: World, s: Step, initial: Seq<char>, c: Seq<char>)
    requires
        exclusion::exclusive(w),
        disk_agrees(w, initial),
        model::possible(w, s),
        lands_own(w, s),
    ensures
        disk_agrees(model::after(w, s), initial),
        is_free_of(w, c) && !writes(s, c) ==> is_free_of(model::after(w, s), c),
{
    reveal(model::after);
    let next = model::after(w, s);
    tables::lemma_room(w.h.lock, w.h.resource, 1);
    tables::lemma_room(w.h.lock, w.h.resource, 2);
    match s {
        Step::Read { holder, failed, t } => {
            let (mid, out) = model::read_begun(w.h, holder, t);
            steps::lemma_read(w.h, holder, t);
            assert(logs::was_refused(mid.log, c) == logs::was_refused(w.h.log, c));
            match out {
                Err(_) => {},
                Ok(reading) => {
                    let content = match failed {
                        Some(reason) => Err(reason),
                        None => Ok(w.disk),
                    };
                    steps::lemma_read_done(mid, reading, content, t);
                    assert(logs::was_refused(next.h.log, c) == logs::was_refused(mid.log, c));
                },
            }
        },
        Step::Progress { holder, t } => {
            steps::lemma_progressed(w.h, holder, t);
            assert(logs::was_refused(next.h.log, c) == logs::was_refused(w.h.log, c));
        },
        Step::Authorize { holder, read_at, content, written, t } => {
            lemma_authorization(w.h, holder, read_at, content, written, t, c);
            if is_free_of(w, c) && content != c {
                assert forall|k: int| 0 <= k < next.pending.len() implies (
                #[trigger] next.pending[k]).write.content != c by {
                    if k < w.pending.len() {
                        assert(next.pending[k] == w.pending[k]);
                    }
                }
            }
        },
        Step::Apply { which, landed, renamed, t } => {
            let p = w.pending[which];
            assert(p.write.holding.resource == w.h.resource);
            lemma_application(w.h, p.write, renamed, t, c);
            if is_free_of(w, c) {
                assert forall|k: int| 0 <= k < next.pending.len() implies (
                #[trigger] next.pending[k]).write.content != c by {
                    let m = if k < which {
                        k
                    } else {
                        k + 1
                    };
                    assert(next.pending[k] == w.pending[m]);
                }
            }
        },
        Step::Write { holder, read_at, content, written, renamed, t } => {
            lemma_authorization(w.h, holder, read_at, content, written, t, c);
            let (mid, out) = model::authorization(w.h, holder, read_at, content, written, t);
            match out {
                Err(_) => {},
                Ok(write) => {
                    lemma_application(mid, write, renamed, t, c);
                },
            }
        },
        Step::Abandon { holder, t } => {
            steps::lemma_abandoned(w.h, holder, t);
            assert(logs::was_refused(next.h.log, c) == logs::was_refused(w.h.log, c));
        },
        Step::ForceRelease { t } => {
            steps::lemma_revoked(w.h, t);
            assert(logs::was_refused(next.h.log, c) == logs::was_refused(w.h.log, c));
        },
        Step::Ask { now } => {
            steps::lemma_told_version(w.h, now);
            assert(logs::was_refused(next.h.log, c) == logs::was_refused(w.h.log, c));
        },
        Step::ForceExpire { resource, now } => {
            steps::lemma_expired(w.h, resource, now);
            assert(logs::was_refused(next.h.log, c) == logs::was_refused(w.h.log, c));
        },
        Step::Note { at_ms, event } => {
            steps::lemma_noted(w.h, at_ms, event);
            assert(logs::was_refused(next.h.log, c) == logs::was_refused(w.h.log, c));
        },
        Step::SetFaults { faults } => {},
    }
}

pub(crate) proof fn lemma_run(w: World, run: Seq<Step>)
    requires
        model::begins(w),
        model::possible_all(w, run),
        all_land_own(w, run),
    ensures
        disk_agrees(model::after_all(w, run), w.disk),
    decreases run.len(),
{
    if run.len() > 0 {
        let first = run.drop_last();
        lemma_run(w, first);
        exclusion::lemma_run(w, first);
        lemma_step(model::after_all(w, first), run.last(), w.disk, w.disk);
    }
}

proof fn lemma_free_run(w: World, run: Seq<Step>, c: Seq<char>)
    requires
        model::begins(w),
        model::possible_all(w, run),
        all_land_own(w, run),
        never_writes(run, c),
    ensures
        is_free_of(model::after_all(w, run), c),
    decreases run.len(),
{
    if run.len() > 0 {
        let first = run.drop_last();
        assert forall|i: int| 0 <= i < first.len() implies !writes(#[trigger] first[i], c) by {
            assert(first[i] == run[i]);
        }
        assert(run[run.len() - 1] == run.last());
        lemma_free_run(w, first, c);
        lemma_run(w, first);
        exclusion::lemma_run(w, first);
        lemma_step(model::after_all(w, first), run.last(), w.disk, c);
    }
}

/// **No accepted write is lost.** In every run the resource always holds the latest accepted write,
/// or what it held at the beginning: whichever faults are injected, whichever file-system calls
/// fail, and however long an authorized write waits before it is applied.
pub proof fn no_write_is_lost(w: World, run: Seq<Step>)
    requires
        model::begins(w),
        model::possible_all(w, run),
        all_land_own(w, run),
    ensures
        ({
            let end = model::after_all(w, run);
            checker::p3_violations(end.h.log, end.disk, w.disk) == Seq::<ViolationView>::empty()
        }),
{
    lemma_run(w, run);
}

proof fn lemma_latest_was_accepted(log: Log)
    ensures
        match checker::latest_accepted(log) {
            Some((_, content)) => checker::was_accepted(log, content),
            None => true,
        },
    decreases log.len(),
{
    if log.len() > 0 {
        let first = log.drop_last();
        lemma_latest_was_accepted(first);
        match log.last().event {
            EventView::WriteAccepted { content, .. } => {
                assert(log[log.len() - 1].event == log.last().event);
            },
            _ => {
                match checker::latest_accepted(first) {
                    Some((_, content)) => {
                        let i = choose|i: int|
                            0 <= i < first.len() && ((
                            #[trigger] first[i]).event matches EventView::WriteAccepted {
                                content: c,
                                ..
                            } && c == content);
                        assert(log[i] == first[i]);
                    },
                    None => {},
                }
            },
        }
    }
}

proof fn lemma_none_refused(log: Log, n: int, content: Seq<char>)
    requires
        0 <= n <= log.len(),
        checker::was_accepted(log, content) || !logs::was_refused(log, content),
    ensures
        checker::refused_yet_there(log, log.take(n), content).len() == 0,
    decreases n,
{
    if n > 0 {
        lemma_none_refused(log, n - 1, content);
        assert(log.take(n).drop_last() =~= log.take(n - 1));
        assert(log.take(n).last() == log[n - 1]);
    }
}

proof fn lemma_no_phantom(w: World, initial: Seq<char>)
    requires
        disk_agrees(w, initial),
        !logs::was_refused(w.h.log, initial),
    ensures
        checker::p4_violations(w.h.log, w.disk, initial) == Seq::<ViolationView>::empty(),
{
    let log = w.h.log;
    lemma_latest_was_accepted(log);
    assert(log.take(log.len() as int) =~= log);
    lemma_none_refused(log, log.len() as int, w.disk);
    assert(checker::p4_violations(log, w.disk, initial) =~= Seq::empty());
}

/// **Nothing else reaches the resource.** In every run in which nobody attempts to write back what
/// the resource held at the beginning, what it holds at the end is that or an accepted write, and no
/// refused write.
pub proof fn no_phantom_write_appears(w: World, run: Seq<Step>)
    requires
        model::begins(w),
        model::possible_all(w, run),
        all_land_own(w, run),
        never_writes(run, w.disk),
    ensures
        ({
            let end = model::after_all(w, run);
            checker::p4_violations(end.h.log, end.disk, w.disk) == Seq::<ViolationView>::empty()
        }),
{
    lemma_run(w, run);
    lemma_free_run(w, run, w.disk);
    lemma_no_phantom(model::after_all(w, run), w.disk);
}

} // verus!
