//! From the answer of a write to the next read.

use crate::harness::{ReadingView, SnapshotView, WriteErrorView};
use crate::history::EventView;
use crate::run::exclusion;
use crate::run::kept;
use crate::run::laws;
use crate::run::logs;
use crate::run::model;
use crate::run::model::{State, Step, Times, World};
use crate::run::steps;
use crate::run::tables;
use crate::types::{Span, Ticket, Version};
use vstd::prelude::*;

verus! {

/// What a read answers. `content` is what reading the file gives.
pub open spec fn read_reply(h: State, holder: Seq<char>, content: Seq<char>, t: Times) -> Result<
    SnapshotView,
    WriteErrorView,
> {
    let (mid, begun) = model::read_begun(h, holder, t);
    match begun {
        Err(e) => Err(e),
        Ok(reading) => model::read_done(mid, reading, Ok(content), t).1,
    }
}

/// A write that is answered with a version was decided from the version before, and is the one write
/// that has been accepted since.
proof fn lemma_answered(
    w: World,
    holder: Seq<char>,
    read_at: Version,
    content: Seq<char>,
    written: Result<(), Seq<char>>,
    renamed: Result<(), Seq<char>>,
    t: Times,
)
    requires
        steps::sane(w.h),
        w.h.lock.room(2),
    ensures
        ({
            let s = Step::Write { holder, read_at, content, written, renamed, t };
            let next = model::after(w, s);
            &&& steps::sane(next.h)
            &&& next.h.resource == w.h.resource
            &&& next.h.cfg == w.h.cfg
            &&& match laws::write_reply(w.h, holder, read_at, content, written, renamed, t) {
                Ok(v) => {
                    &&& v.0 == read_at.0 + 1
                    &&& steps::version(next.h) == v.0
                    &&& next.disk == content
                    &&& exists|ticket: Ticket|
                        logs::accepted(next.h.log) == #[trigger] logs::accepted(w.h.log).push(
                            EventView::WriteAccepted {
                                holder,
                                resource: w.h.resource,
                                ticket,
                                version: v,
                                content,
                            },
                        )
                },
                Err(_) => {
                    &&& next.disk == w.disk
                    &&& logs::accepted(next.h.log) == logs::accepted(w.h.log)
                },
            }
        }),
{
    reveal(model::after);
    let next = model::after(w, Step::Write { holder, read_at, content, written, renamed, t });
    let (begun, attempt) = model::attempted(w.h, holder, read_at, content, t);
    steps::lemma_attempted(w.h, holder, read_at, content, t);
    match attempt {
        Err(_) => {},
        Ok(a) => {
            let (mid, authorized) = model::authorized(begun, a, written, t);
            steps::lemma_authorized(begun, a, written, t);
            match authorized {
                Err(_) => {},
                Ok(write) => {
                    let (b, out) = model::application(mid, write, renamed, t);
                    steps::lemma_application(mid, write, renamed, t);
                    assert(next.h == b);
                    if out is Ok {
                        let e = EventView::WriteAccepted {
                            holder,
                            resource: w.h.resource,
                            ticket: write.holding.ticket,
                            version: write.new_version,
                            content,
                        };
                        assert(steps::acceptance(write) == e);
                        assert(logs::accepted(b.log) == logs::accepted(w.h.log).push(e));
                    }
                },
            }
        },
    }
}

/// **What is written is what is read.** Take any run in which the lock service neither grants twice
/// nor repeats tickets, and then a write in one piece whose holder's releases are not dropped.
///
/// If the write answers with a version, that is the one after the version it was decided from; the
/// resource holds its content; exactly one more write has been accepted, and it is this one; nobody
/// holds the lock; and whoever reads next gets that content at that version. If it answers anything
/// else, the resource holds what it held, and nothing more has been accepted.
pub proof fn written_is_read_back(
    w: World,
    run: Seq<Step>,
    holder: Seq<char>,
    read_at: Version,
    content: Seq<char>,
    written: Result<(), Seq<char>>,
    renamed: Result<(), Seq<char>>,
    t: Times,
    reader: Seq<char>,
    later: Times,
)
    requires
        model::begins(w),
        model::possible_all(w, run),
        kept::in_order(w, run),
        ({
            let at = model::after_all(w, run);
            let s = Step::Write { holder, read_at, content, written, renamed, t };
            &&& model::possible(at, s)
            &&& !at.h.lock.faults.drop_release.contains(holder)
            &&& model::possible(
                model::after(at, s),
                Step::Read { holder: reader, failed: None, t: later },
            )
        }),
    ensures
        ({
            let at = model::after_all(w, run);
            let next = model::after(
                at,
                Step::Write { holder, read_at, content, written, renamed, t },
            );
            match laws::write_reply(at.h, holder, read_at, content, written, renamed, t) {
                Ok(v) => {
                    &&& v.0 == read_at.0 + 1
                    &&& next.disk == content
                    &&& exists|ticket: Ticket|
                        logs::accepted(next.h.log) == #[trigger] logs::accepted(at.h.log).push(
                            EventView::WriteAccepted {
                                holder,
                                resource: w.h.resource,
                                ticket,
                                version: v,
                                content,
                            },
                        )
                    &&& next.h.lock.resource(w.h.resource).held.len() == 0
                    &&& read_reply(next.h, reader, next.disk, later) == Ok::<
                        SnapshotView,
                        WriteErrorView,
                    >(SnapshotView { content, version: v })
                },
                Err(_) => {
                    &&& next.disk == at.disk
                    &&& logs::accepted(next.h.log) == logs::accepted(at.h.log)
                },
            }
        }),
{
    kept::lemma_run(w, run);
    exclusion::lemma_run(w, run);
    let at = model::after_all(w, run);
    lemma_answered(at, holder, read_at, content, written, renamed, t);
    if laws::write_reply(at.h, holder, read_at, content, written, renamed, t) is Ok {
        kept::lemma_write_frees(at, holder, read_at, content, written, renamed, t);
        let next = model::after(
            at,
            Step::Write { holder, read_at, content, written, renamed, t },
        );
        lemma_free_read(next.h, reader, next.disk, later);
    }
}

/// While nobody holds the lock, every read goes through.
proof fn lemma_free_read(h: State, holder: Seq<char>, content: Seq<char>, t: Times)
    requires
        steps::sane(h),
        h.lock.room(2),
        h.lock.resource(h.resource).held.len() == 0,
    ensures
        read_reply(h, holder, content, t) == Ok::<SnapshotView, WriteErrorView>(
            SnapshotView { content, version: Version(steps::version(h)) },
        ),
{
    tables::lemma_room(h.lock, h.resource, 1);
    tables::lemma_room(h.lock, h.resource, 2);
    assert(laws::good_holds(h, t.acquire).len() == 0);
    if h.cfg.span == Span::WriteOnly {
        laws::write_only_read_takes_no_lock(h, holder, t);
    } else {
        laws::full_read_keeps_lock(h, holder, t);
    }
    assert(model::read_begun(h, holder, t).1 == Ok::<ReadingView, WriteErrorView>(
        ReadingView { holder, version: Version(steps::version(h)) },
    ));
}

} // verus!
