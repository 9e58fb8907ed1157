//! Mutual exclusion holds of every run: whatever the clocks say, whatever the lock service is told
//! to get wrong, whichever file-system calls fail, and however long an authorized write waits before
//! it is applied.
//!
//! It does not rest on the tickets. Every authorization moves the version on, and a write is applied
//! only while its own authorization is the latest one. So when a write is applied, everything that
//! was applied before was applied before this one was even attempted.

use crate::checker;
use crate::run::logs;
use crate::run::model;
use crate::run::model::{Pending, State, Step, World};
use crate::run::steps;
use crate::run::tables;
use crate::types::Version;
use vstd::prelude::*;

verus! {

/// Each window of an accepted write ends before the next one begins.
pub open spec fn in_turn(ws: Seq<checker::WindowView>) -> bool {
    forall|i: int, j: int|
        0 <= i < j < ws.len() ==> (#[trigger] ws[i]).end < (#[trigger] ws[j]).start
}

/// Every window ended before position `n`.
pub open spec fn ended_by(ws: Seq<checker::WindowView>, n: nat) -> bool {
    forall|i: int| 0 <= i < ws.len() ==> (#[trigger] ws[i]).end < n
}

/// A write that waits was attempted after everything that was applied so far, if it is the latest
/// authorized one.
pub open spec fn may_still_land(h: State, p: Pending) -> bool {
    p.write.new_version == Version(steps::version(h)) ==> {
        &&& ended_by(checker::windows(h.log), p.mark)
        &&& match checker::open_attempt(h.log, p.write.holding.holder) {
            Some(start) => p.mark <= start,
            None => true,
        }
    }
}

/// What is true throughout a run.
pub open spec fn exclusive(w: World) -> bool {
    &&& steps::sane(w.h)
    &&& in_turn(checker::windows(w.h.log))
    &&& ended_by(checker::windows(w.h.log), w.h.log.len())
    &&& forall|k: int|
        0 <= k < w.pending.len() ==> {
            &&& (#[trigger] w.pending[k]).write.holding.resource == w.h.resource
            &&& w.pending[k].write.new_version.0 <= steps::version(w.h)
            &&& may_still_land(w.h, w.pending[k])
        }
    &&& forall|k: int, l: int|
        0 <= k < l < w.pending.len() ==> (#[trigger] w.pending[k]).write.new_version != (
        #[trigger] w.pending[l]).write.new_version
}

/// An operation after which the same windows are there, and whoever has an attempt open has the
/// same one, or a new one, or none.
spec fn no_window(a: State, b: State) -> bool {
    &&& steps::frame(a, b)
    &&& checker::windows(b.log) == checker::windows(a.log)
    &&& forall|u: Seq<char>|
        match #[trigger] checker::open_attempt(b.log, u) {
            Some(start) => checker::open_attempt(a.log, u) == Some(start) || start >= a.log.len(),
            None => true,
        }
}

proof fn lemma_calm(a: State, b: State)
    requires
        steps::frame(a, b),
        logs::same_writes(a.log, b.log),
    ensures
        no_window(a, b),
{
}

proof fn lemma_refusal(a: State, b: State, holder: Seq<char>, content: Seq<char>)
    requires
        steps::frame(a, b),
        steps::refused_in(a.log, b.log, holder, content),
    ensures
        no_window(a, b),
{
    assert forall|u: Seq<char>|
        (match #[trigger] checker::open_attempt(b.log, u) {
            Some(start) => checker::open_attempt(a.log, u) == Some(start) || start >= a.log.len(),
            None => true,
        }) by {
        if u != holder {
            assert(checker::open_attempt(b.log, u) == checker::open_attempt(a.log, u));
        }
    }
}

/// No new window and no new version: what was true stays true.
proof fn lemma_stays(w: World, h: State)
    requires
        exclusive(w),
        forall|k: int| 0 <= k < w.pending.len() ==> (#[trigger] w.pending[k]).mark <= w.h.log.len(),
        no_window(w.h, h),
        steps::version(h) == steps::version(w.h),
    ensures
        exclusive(World { h, ..w }),
{
    assert forall|k: int| 0 <= k < w.pending.len() implies may_still_land(
        h,
        #[trigger] w.pending[k],
    ) by {
        assert(may_still_land(w.h, w.pending[k]));
        let u = w.pending[k].write.holding.holder;
        match checker::open_attempt(h.log, u) {
            Some(start) => {
                assert(checker::open_attempt(w.h.log, u) == Some(start) || start
                    >= w.h.log.len());
            },
            None => {},
        }
    }
}

/// Every mark lies within the history.
pub open spec fn marked(w: World) -> bool {
    forall|k: int| 0 <= k < w.pending.len() ==> (#[trigger] w.pending[k]).mark <= w.h.log.len()
}

proof fn lemma_authorize(
    w: World,
    holder: Seq<char>,
    read_at: Version,
    content: Seq<char>,
    written: Result<(), Seq<char>>,
    t: model::Times,
)
    requires
        exclusive(w),
        marked(w),
        w.h.lock.room(2),
    ensures
        ({
            let (h, out) = model::authorization(w.h, holder, read_at, content, written, t);
            let next = match out {
                Err(_) => World { h, ..w },
                Ok(write) => World {
                    h,
                    pending: w.pending.push(Pending { write, mark: w.h.log.len() }),
                    ..w
                },
            };
            exclusive(next) && marked(next)
        }),
{
    let (mid, attempt) = model::attempted(w.h, holder, read_at, content, t);
    steps::lemma_attempted(w.h, holder, read_at, content, t);
    match attempt {
        Err(_) => {
            lemma_calm(w.h, mid);
            lemma_stays(w, mid);
        },
        Ok(a) => {
            assert forall|u: Seq<char>|
                (match #[trigger] checker::open_attempt(mid.log, u) {
                    Some(start) => checker::open_attempt(w.h.log, u) == Some(start) || start
                        >= w.h.log.len(),
                    None => true,
                }) by {
                if u != holder {
                    assert(checker::open_attempt(mid.log, u) == checker::open_attempt(w.h.log, u));
                }
            }
            assert(no_window(w.h, mid));
            lemma_stays(w, mid);
            let wm = World { h: mid, ..w };
            steps::lemma_authorized(mid, a, written, t);
            let (h, out) = model::authorized(mid, a, written, t);
            match out {
                Err(_) => {
                    if logs::same_writes(mid.log, h.log) {
                        lemma_calm(mid, h);
                    } else {
                        lemma_refusal(mid, h, a.holder, a.content);
                    }
                    lemma_stays(wm, h);
                },
                Ok(write) => {
                    let p = Pending { write, mark: w.h.log.len() };
                    let next = World { h, pending: w.pending.push(p), ..w };
                    assert(checker::open_attempt(h.log, holder) == checker::open_attempt(
                        mid.log,
                        holder,
                    ));
                    assert(may_still_land(h, p));
                    assert forall|k: int| 0 <= k < next.pending.len() implies {
                        &&& (#[trigger] next.pending[k]).write.holding.resource == h.resource
                        &&& next.pending[k].write.new_version.0 <= steps::version(h)
                        &&& may_still_land(h, next.pending[k])
                    } by {
                        if k < w.pending.len() {
                            assert(next.pending[k] == w.pending[k]);
                            assert(w.pending[k].write.new_version.0 <= steps::version(w.h));
                        }
                    }
                    assert forall|k: int, l: int| 0 <= k < l < next.pending.len() implies (
                    #[trigger] next.pending[k]).write.new_version != (
                    #[trigger] next.pending[l]).write.new_version by {
                        assert(next.pending[k] == w.pending[k]);
                        if l < w.pending.len() {
                            assert(next.pending[l] == w.pending[l]);
                        }
                        assert(w.pending[k].write.new_version.0 <= steps::version(w.h));
                    }
                },
            }
        },
    }
}

proof fn lemma_apply(w: World, which: int, renamed: Result<(), Seq<char>>, t: model::Times)
    requires
        exclusive(w),
        marked(w),
        0 <= which < w.pending.len(),
    ensures
        ({
            let (h, out) = model::application(w.h, w.pending[which].write, renamed, t);
            let next = World { h, pending: w.pending.remove(which), ..w };
            exclusive(next) && marked(next)
        }),
{
    let p = w.pending[which];
    let (h, out) = model::application(w.h, p.write, renamed, t);
    steps::lemma_application(w.h, p.write, renamed, t);
    let rest = w.pending.remove(which);
    let left = World { pending: rest, ..w };
    assert forall|k: int| 0 <= k < rest.len() implies w.pending.contains(#[trigger] rest[k]) by {
        if k < which {
            assert(rest[k] == w.pending[k]);
        } else {
            assert(rest[k] == w.pending[k + 1]);
        }
    }
    assert forall|k: int| 0 <= k < rest.len() implies {
        &&& (#[trigger] rest[k]).write.holding.resource == w.h.resource
        &&& rest[k].write.new_version.0 <= steps::version(w.h)
        &&& may_still_land(w.h, rest[k])
        &&& rest[k].mark <= w.h.log.len()
        &&& rest[k].write.new_version != p.write.new_version
    } by {
        let m = if k < which {
            k
        } else {
            k + 1
        };
        assert(rest[k] == w.pending[m]);
        if m < which {
            assert(w.pending[m].write.new_version != w.pending[which].write.new_version);
        } else {
            assert(w.pending[which].write.new_version != w.pending[m].write.new_version);
        }
    }
    assert forall|k: int, l: int| 0 <= k < l < rest.len() implies (
    #[trigger] rest[k]).write.new_version != (#[trigger] rest[l]).write.new_version by {
        let m = if k < which {
            k
        } else {
            k + 1
        };
        let n = if l < which {
            l
        } else {
            l + 1
        };
        assert(rest[k] == w.pending[m] && rest[l] == w.pending[n]);
    }
    assert(exclusive(left) && marked(left));
    match out {
        Err(_) => {
            if logs::same_writes(w.h.log, h.log) {
                lemma_calm(w.h, h);
            } else {
                lemma_refusal(w.h, h, p.write.holding.holder, p.write.content);
            }
            lemma_stays(left, h);
        },
        Ok(_) => {
            let before = checker::windows(w.h.log);
            let ws = checker::windows(h.log);
            let holder = p.write.holding.holder;
            assert(may_still_land(w.h, p));
            match checker::open_attempt(w.h.log, holder) {
                Some(start) => {
                    let end = choose|end: nat|
                        w.h.log.len() <= end < h.log.len() && ws == #[trigger] before.push(
                            checker::WindowView { holder, start, end },
                        );
                    let window = checker::WindowView { holder, start, end };
                    assert(ws == before.push(window));
                    assert forall|i: int, j: int| 0 <= i < j < ws.len() implies (
                    #[trigger] ws[i]).end < (#[trigger] ws[j]).start by {
                        assert(ws[i] == before[i]);
                        if j < before.len() {
                            assert(ws[j] == before[j]);
                        }
                    }
                    assert forall|i: int| 0 <= i < ws.len() implies (#[trigger] ws[i]).end
                        < h.log.len() by {
                        if i < before.len() {
                            assert(ws[i] == before[i]);
                        }
                    }
                },
                None => {},
            }
            let next = World { h, pending: rest, ..w };
            assert forall|k: int| 0 <= k < rest.len() implies may_still_land(
                h,
                #[trigger] rest[k],
            ) by {
                assert(rest[k].write.new_version != p.write.new_version);
            }
        },
    }
}

/// The content of the resource does not matter here.
proof fn lemma_disk(w: World, disk: Seq<char>)
    requires
        exclusive(w),
        marked(w),
    ensures
        exclusive(World { disk, ..w }),
        marked(World { disk, ..w }),
{
}

proof fn lemma_step(w: World, s: Step)
    requires
        exclusive(w),
        marked(w),
        model::possible(w, s),
    ensures
        exclusive(model::after(w, s)),
        marked(model::after(w, s)),
{
    reveal(model::after);
    let next = model::after(w, s);
    tables::lemma_room(w.h.lock, w.h.resource, 1);
    tables::lemma_room(w.h.lock, w.h.resource, 2);
    match s {
        Step::Read { holder, failed, t } => {
            let (mid, out) = model::read_begun(w.h, holder, t);
            steps::lemma_read(w.h, holder, t);
            lemma_calm(w.h, mid);
            lemma_stays(w, mid);
            match out {
                Err(_) => {
                    assert(next == World { h: mid, ..w });
                },
                Ok(reading) => {
                    let content = match failed {
                        Some(reason) => Err(reason),
                        None => Ok(w.disk),
                    };
                    let h = model::read_done(mid, reading, content, t).0;
                    steps::lemma_read_done(mid, reading, content, t);
                    lemma_calm(mid, h);
                    lemma_stays(World { h: mid, ..w }, h);
                    assert(next == World { h, ..w });
                },
            }
        },
        Step::Progress { holder, t } => {
            steps::lemma_progressed(w.h, holder, t);
            lemma_calm(w.h, next.h);
            lemma_stays(w, next.h);
        },
        Step::Authorize { holder, read_at, content, written, t } => {
            lemma_authorize(w, holder, read_at, content, written, t);
        },
        Step::Apply { which, landed, renamed, t } => {
            lemma_apply(w, which, renamed, t);
            let (h, out) = model::application(w.h, w.pending[which].write, renamed, t);
            lemma_disk(World { h, pending: w.pending.remove(which), ..w }, next.disk);
            assert(next == World { h, disk: next.disk, pending: w.pending.remove(which) });
        },
        Step::Write { holder, read_at, content, written, renamed, t } => {
            lemma_authorize(w, holder, read_at, content, written, t);
            let (mid, authorized) = model::authorization(
                w.h,
                holder,
                read_at,
                content,
                written,
                t,
            );
            match authorized {
                Err(_) => {},
                Ok(write) => {
                    let p = Pending { write, mark: w.h.log.len() };
                    let waiting = World { h: mid, pending: w.pending.push(p), ..w };
                    let which = w.pending.len() as int;
                    lemma_apply(waiting, which, renamed, t);
                    assert(waiting.pending[which] == p);
                    assert(waiting.pending.remove(which) =~= w.pending);
                    let (h, out) = model::application(mid, write, renamed, t);
                    lemma_disk(World { h, ..w }, next.disk);
                    assert(next == World { h, disk: next.disk, ..w });
                },
            }
        },
        Step::Abandon { holder, t } => {
            steps::lemma_abandoned(w.h, holder, t);
            lemma_calm(w.h, next.h);
            lemma_stays(w, next.h);
        },
        Step::ForceRelease { t } => {
            steps::lemma_revoked(w.h, t);
            lemma_calm(w.h, next.h);
            lemma_stays(w, next.h);
        },
        Step::Ask { now } => {
            steps::lemma_told_version(w.h, now);
            lemma_calm(w.h, next.h);
            lemma_stays(w, next.h);
        },
        Step::ForceExpire { resource, now } => {
            steps::lemma_expired(w.h, resource, now);
            lemma_calm(w.h, next.h);
            lemma_stays(w, next.h);
        },
        Step::Note { at_ms, event } => {
            steps::lemma_noted(w.h, at_ms, event);
            lemma_calm(w.h, next.h);
            lemma_stays(w, next.h);
        },
        Step::SetFaults { faults } => {
            tables::lemma_single(w.h.lock, w.h.resource);
            tables::lemma_single(next.h.lock, w.h.resource);
            assert forall|k: int| 0 <= k < next.pending.len() implies may_still_land(
                next.h,
                #[trigger] next.pending[k],
            ) by {
                assert(may_still_land(w.h, w.pending[k]));
            }
        },
    }
}

pub(crate) proof fn lemma_run(w: World, run: Seq<Step>)
    requires
        model::begins(w),
        model::possible_all(w, run),
    ensures
        exclusive(model::after_all(w, run)),
        marked(model::after_all(w, run)),
    decreases run.len(),
{
    if run.len() > 0 {
        lemma_run(w, run.drop_last());
        lemma_step(model::after_all(w, run.drop_last()), run.last());
    }
}

proof fn lemma_no_clash_of(ws: Seq<checker::WindowView>, i: int, j: int)
    requires
        in_turn(ws),
        0 <= i < ws.len(),
        j <= ws.len(),
    ensures
        checker::clashes_of(ws, i, j).len() == 0,
    decreases j - i,
{
    if j > i + 1 {
        lemma_no_clash_of(ws, i, j - 1);
        assert(ws[i].end < ws[j - 1].start);
    }
}

proof fn lemma_no_clash(ws: Seq<checker::WindowView>, n: int)
    requires
        in_turn(ws),
        n <= ws.len(),
    ensures
        checker::clashes(ws, n).len() == 0,
    decreases n,
{
    if n > 0 {
        lemma_no_clash(ws, n - 1);
        lemma_no_clash_of(ws, n - 1, ws.len() as int);
    }
}

/// **No run breaks mutual exclusion.** After any number of steps, with any faults injected, at any
/// readings of the clocks, with any file-system failures, and with any waiting between authorizing
/// a write and applying it, the checker finds no two accepted writes whose windows overlap.
pub proof fn mutual_exclusion_holds(w: World, run: Seq<Step>)
    requires
        model::begins(w),
        model::possible_all(w, run),
    ensures
        checker::p1_violations(model::after_all(w, run).h.log) == Seq::<
            checker::ViolationView,
        >::empty(),
{
    lemma_run(w, run);
    let ws = checker::windows(model::after_all(w, run).h.log);
    lemma_no_clash(ws, ws.len() as int);
}

/// **A write that was overtaken is never applied.** If the version has moved on since a write was
/// authorized, applying it answers that it was superseded; nothing is accepted, and neither the
/// windows of accepted writes nor the latest accepted content change.
pub proof fn overtaken_write_is_discarded(
    h: State,
    write: crate::harness::AuthorizedView,
    renamed: Result<(), Seq<char>>,
    t: model::Times,
)
    requires
        steps::sane(h),
        write.holding.resource == h.resource,
        write.new_version != Version(steps::version(h)),
    ensures
        ({
            let (after, out) = model::application(h, write, renamed, t);
            &&& out == Err::<Version, crate::harness::WriteErrorView>(
                crate::harness::WriteErrorView::Superseded {
                    authorized: write.new_version,
                    current: Version(steps::version(h)),
                },
            )
            &&& checker::windows(after.log) == checker::windows(h.log)
            &&& checker::latest_accepted(after.log) == checker::latest_accepted(h.log)
            &&& steps::version(after) == steps::version(h)
        }),
{
    steps::lemma_application(h, write, renamed, t);
    steps::lemma_told_version(h, t.version);
}

} // verus!
