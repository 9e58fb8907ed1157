//! What single operations of a harness do in front of any lock service: what they ask of it, what they
//! answer, what they record, and at which reading of the clock.
//!
//! How long a hold may last is counted from a reading of the harness's own watch to a later reading of
//! the same watch.

use crate::clock::Duration;
use crate::harness;
use crate::harness::{
    Answer, AttemptView, AuthorizedView, HarnessView, ReadingView, SnapshotView, WriteErrorView,
};
use crate::history::{EventView, Log};
use crate::lock::LockService;
use crate::store;
use crate::types::{HoldingView, LockError, Refusal, Span, Version};
use crate::watch;
use crate::watch::WatchView;
use vstd::prelude::*;

verus! {

/// One reading of the clock, and no more, lies between `a` and `b`; and the watch shows it, unless it
/// is behind what the watch showed before.
pub open spec fn one_reading(a: WatchView, b: WatchView) -> bool {
    &&& b.raw.len() == a.raw.len() + 1
    &&& b.raw.drop_last() == a.raw
    &&& a.last <= b.last
    &&& b.raw.last() >= a.last ==> b.last == b.raw.last()
    &&& b.raw.last() < a.last ==> b.last == a.last
}

proof fn lemma_one_reading(a: WatchView, b: WatchView)
    requires
        watch::ticks(a, b),
    ensures
        one_reading(a, b),
{
    assert(b.raw.drop_last() =~= a.raw);
}

/// `b` is `a` with one more entry, which says what happened at `now`.
pub open spec fn says_at(a: Log, b: Log, now: u128, event: EventView) -> bool {
    &&& b.len() == a.len() + 1
    &&& b.drop_last() == a
    &&& b.last().seq == a.len()
    &&& b.last().event == event
    &&& now < 0x1_0000_0000_0000_0000 * 1_000_000 ==> b.last().at_ms * 1_000_000 <= now < (
    b.last().at_ms + 1) * 1_000_000
}

proof fn lemma_says<S>(h: HarnessView<S>, now: u128, event: EventView)
    ensures
        says_at(h.log, h.noted(now, event).log, now, event),
{
    let b = h.noted(now, event).log;
    assert(b.drop_last() =~= h.log);
    crate::clock::millis_are_whole(now);
}

/// **A hold is counted from the reading at which it was taken.** A read under the full span that goes
/// through leaves the reader a lock of its own, on the ticket that the service granted. It counts from
/// the one reading of the clock that the call took. Nobody else's hold changes.
pub proof fn hold_counts_from_its_reading<L: LockService>(
    pre: HarnessView<L::V>,
    before: WatchView,
    holder: Seq<char>,
    post: HarnessView<L::V>,
    after: WatchView,
    out: Result<ReadingView, WriteErrorView>,
)
    requires
        harness::begins_read::<L>(pre, before, holder, post, after, out),
        pre.cfg.span == Span::Full,
        out is Ok,
    ensures
        one_reading(before, after),
        post.open.contains_key(holder),
        post.open[holder].taken_at == after.last,
        exists|state: L::V, log: Log| #[trigger]
            L::acquires(
                pre.lock,
                pre.log,
                pre.resource,
                holder,
                state,
                log,
                Ok(post.open[holder].holding),
            ),
        forall|u: Seq<char>|
            u != holder ==> (#[trigger] post.open.contains_key(u) <==> pre.open.contains_key(u)),
        forall|u: Seq<char>|
            u != holder && pre.open.contains_key(u) ==> #[trigger] post.open[u] == pre.open[u],
        post.cfg == pre.cfg,
        post.resource == pre.resource,
{
    lemma_one_reading(before, after);
    let (grant, version, given) = choose|
        grant: Answer<L::V, Result<HoldingView, LockError>>,
        version: Answer<L::V, Result<Version, LockError>>,
        given: Answer<L::V, Result<(), LockError>>,
    |
        harness::begin_read_asks::<L>(pre, holder, grant, version, given) && (post, out)
            == #[trigger] harness::begin_read_outcome(
            pre,
            holder,
            after.last,
            grant,
            version,
            given,
        );
    assert(L::acquires(
        pre.lock,
        pre.log,
        pre.resource,
        holder,
        grant.state,
        grant.log,
        Ok(post.open[holder].holding),
    ));
}

/// **A hold can be counted from an earlier time.** Begun with a time given, a read under the full span
/// that goes through leaves a hold that counts from that time.
pub proof fn hold_counts_from_what_is_given<L: LockService>(
    pre: HarnessView<L::V>,
    holder: Seq<char>,
    taken_at: u128,
    post: HarnessView<L::V>,
    out: Result<ReadingView, WriteErrorView>,
)
    requires
        harness::begins_read_at::<L>(pre, holder, taken_at, post, out),
        pre.cfg.span == Span::Full,
        out is Ok,
    ensures
        post.open.contains_key(holder),
        post.open[holder].taken_at == taken_at,
        post.cfg == pre.cfg,
{
}

/// **Progress is judged at its own reading.** Reporting progress takes a reading of the clock. Once
/// that is a whole ceiling past the reading from which the hold counts, nothing is asked of the lock
/// service, and it is recorded that the ceiling was reached. Until then exactly the hold's own renewal
/// is asked for, and the answer is what the service said.
pub proof fn progress_is_judged_at_its_reading<L: LockService>(
    pre: HarnessView<L::V>,
    before: WatchView,
    holder: Seq<char>,
    post: HarnessView<L::V>,
    after: WatchView,
    out: Result<(), WriteErrorView>,
)
    requires
        harness::progresses::<L>(pre, before, holder, post, after, out),
        pre.open.contains_key(holder),
    ensures
        post.open == pre.open,
        post.cfg == pre.cfg,
        exists|read: WatchView| #[trigger]
            one_reading(before, read) && {
                let held = read.last - pre.open[holder].taken_at;
                if held >= pre.cfg.hold_ceiling.nanos || pre.cfg.hold_ceiling.nanos == 0 {
                    &&& out == Err::<(), WriteErrorView>(WriteErrorView::CeilingExceeded)
                    &&& post.lock == pre.lock
                    &&& one_reading(read, after)
                    &&& says_at(
                        pre.log,
                        post.log,
                        after.last,
                        EventView::CeilingReached { holder, resource: pre.resource },
                    )
                } else {
                    &&& after == read
                    &&& out != Err::<(), WriteErrorView>(WriteErrorView::CeilingExceeded)
                    &&& L::renews(
                        pre.lock,
                        pre.log,
                        pre.open[holder].holding,
                        post.lock,
                        post.log,
                        match out {
                            Ok(()) => Ok(()),
                            Err(e) => Err(e->Lock_0),
                        },
                    )
                }
            },
{
    let read = choose|read: WatchView| #[trigger]
        watch::ticks(before, read) && harness::progresses_at::<L>(
            pre,
            read,
            holder,
            read.last,
            post,
            after,
            out,
        );
    lemma_one_reading(before, read);
    let renewal = choose|renewal: Answer<L::V, Result<(), LockError>>|
        harness::progress_asks::<L>(pre, holder, read.last, renewal) && (post, out)
            == #[trigger] harness::progress_outcome(pre, holder, read.last, after.last, renewal);
    if harness::past_ceiling(pre.open[holder].taken_at, read.last, pre.cfg.hold_ceiling) {
        lemma_one_reading(read, after);
        lemma_says(pre, after.last, EventView::CeilingReached { holder, resource: pre.resource });
    } else {
        match renewal.reply {
            Ok(u) => {
                assert(u == ());
            },
            Err(_) => {},
        }
        assert(renewal.reply == (match out {
            Ok(()) => Ok::<(), LockError>(()),
            Err(e) => Err(e->Lock_0),
        }));
    }
    assert(one_reading(before, read));
}

/// **A write under a kept lock is judged at its own reading.** Under the full span an attempt takes a
/// reading of the clock, and asks nothing of the lock service. Without a kept lock it is answered that
/// the lock is lost. Once the reading is a whole ceiling past the one from which the hold counts, it
/// is answered that the ceiling was reached. Until then the attempt is recorded, and it goes under the
/// kept lock.
pub proof fn write_is_judged_at_its_reading<L: LockService>(
    pre: HarnessView<L::V>,
    before: WatchView,
    holder: Seq<char>,
    read_at: Version,
    content: Seq<char>,
    post: HarnessView<L::V>,
    after: WatchView,
    out: Result<AttemptView, WriteErrorView>,
)
    requires
        harness::begins_write::<L>(pre, before, holder, read_at, content, post, after, out),
        pre.cfg.span == Span::Full,
    ensures
        post.open == pre.open,
        post.lock == pre.lock,
        exists|read: WatchView| #[trigger]
            one_reading(before, read) && {
                let kept = pre.open[holder];
                if !pre.open.contains_key(holder) {
                    &&& out == Err::<AttemptView, WriteErrorView>(
                        WriteErrorView::Lock(LockError::Expired),
                    )
                    &&& post.log == pre.log
                    &&& after == read
                } else if read.last - kept.taken_at >= pre.cfg.hold_ceiling.nanos
                    || pre.cfg.hold_ceiling.nanos == 0 {
                    &&& out == Err::<AttemptView, WriteErrorView>(WriteErrorView::CeilingExceeded)
                    &&& post.log == pre.log
                    &&& after == read
                } else {
                    &&& out == Ok::<AttemptView, WriteErrorView>(
                        AttemptView { holder, holding: kept.holding, read_at, content },
                    )
                    &&& one_reading(read, after)
                    &&& says_at(
                        pre.log,
                        post.log,
                        after.last,
                        EventView::WriteAttempted {
                            holder,
                            resource: pre.resource,
                            ticket: kept.holding.ticket,
                            expected_version: read_at,
                        },
                    )
                }
            },
{
    let read = choose|read: WatchView| #[trigger]
        watch::ticks(before, read) && harness::begins_write_at::<L>(
            pre,
            read,
            holder,
            read_at,
            content,
            read.last,
            post,
            after,
            out,
        );
    lemma_one_reading(before, read);
    if out is Ok {
        lemma_one_reading(read, after);
        lemma_says(
            pre,
            after.last,
            EventView::WriteAttempted {
                holder,
                resource: pre.resource,
                ticket: pre.open[holder].holding.ticket,
                expected_version: read_at,
            },
        );
    }
    assert(one_reading(before, read));
}

/// **The ceiling is counted from the read.** Whatever happens after a read under the full span, as long
/// as its hold stays: a report of progress is told that the ceiling was reached if and only if the
/// clock showed, at that report, a whole ceiling more than at the read.
pub proof fn ceiling_is_counted_from_the_read<L: LockService>(
    begun: HarnessView<L::V>,
    start: WatchView,
    holder: Seq<char>,
    opened: HarnessView<L::V>,
    taken: WatchView,
    reading: Result<ReadingView, WriteErrorView>,
    pre: HarnessView<L::V>,
    before: WatchView,
    post: HarnessView<L::V>,
    after: WatchView,
    out: Result<(), WriteErrorView>,
)
    requires
        harness::begins_read::<L>(begun, start, holder, opened, taken, reading),
        begun.cfg.span == Span::Full,
        reading is Ok,
        pre.open.contains_key(holder),
        pre.open[holder] == opened.open[holder],
        pre.cfg == opened.cfg,
        taken.last <= before.last,
        harness::progresses::<L>(pre, before, holder, post, after, out),
    ensures
        exists|read: WatchView| #[trigger]
            one_reading(before, read) && (out == Err::<(), WriteErrorView>(
                WriteErrorView::CeilingExceeded,
            ) <==> read.last - taken.last >= begun.cfg.hold_ceiling.nanos),
{
    hold_counts_from_its_reading::<L>(begun, start, holder, opened, taken, reading);
    progress_is_judged_at_its_reading::<L>(pre, before, holder, post, after, out);
    let ceiling: Duration = begun.cfg.hold_ceiling;
    let read = choose|read: WatchView| #[trigger]
        one_reading(before, read) && {
            let held = read.last - pre.open[holder].taken_at;
            if held >= pre.cfg.hold_ceiling.nanos || pre.cfg.hold_ceiling.nanos == 0 {
                &&& out == Err::<(), WriteErrorView>(WriteErrorView::CeilingExceeded)
                &&& post.lock == pre.lock
                &&& one_reading(read, after)
                &&& says_at(
                    pre.log,
                    post.log,
                    after.last,
                    EventView::CeilingReached { holder, resource: pre.resource },
                )
            } else {
                &&& after == read
                &&& out != Err::<(), WriteErrorView>(WriteErrorView::CeilingExceeded)
                &&& L::renews(
                    pre.lock,
                    pre.log,
                    pre.open[holder].holding,
                    post.lock,
                    post.log,
                    match out {
                        Ok(()) => Ok(()),
                        Err(e) => Err(e->Lock_0),
                    },
                )
            }
        };
    assert(one_reading(before, read));
    assert(out == Err::<(), WriteErrorView>(WriteErrorView::CeilingExceeded) <==> read.last
        - taken.last >= ceiling.nanos);
}

/// **A read that goes through is recorded at its reading.** It returns the content that was there, at
/// the version that the read began with, and asks nothing of the lock service. A read without content
/// says why, and leaves its reader no lock.
pub proof fn read_is_recorded_at_its_reading<L: LockService>(
    pre: HarnessView<L::V>,
    before: WatchView,
    reading: ReadingView,
    content: Result<Seq<char>, Seq<char>>,
    post: HarnessView<L::V>,
    after: WatchView,
    out: Result<SnapshotView, WriteErrorView>,
)
    requires
        harness::reads::<L>(pre, before, reading, content, post, after, out),
    ensures
        one_reading(before, after),
        content matches Ok(text) ==> {
            &&& out is Ok
            &&& out->Ok_0.content == text
            &&& out->Ok_0.version == reading.version
            &&& post.lock == pre.lock
            &&& post.open == pre.open
            &&& says_at(
                pre.log,
                post.log,
                after.last,
                EventView::Read {
                    holder: reading.holder,
                    resource: pre.resource,
                    version: reading.version,
                },
            )
        },
        content matches Err(reason) ==> {
            &&& out == Err::<SnapshotView, WriteErrorView>(WriteErrorView::Io(reason))
            &&& post.open == pre.open.remove(reading.holder)
            &&& if pre.open.contains_key(reading.holder) {
                exists|reply: Result<(), LockError>| #[trigger]
                    L::releases(
                        pre.lock,
                        pre.log,
                        pre.open[reading.holder].holding,
                        post.lock,
                        post.log,
                        reply,
                    )
            } else {
                post.lock == pre.lock && post.log == pre.log
            }
        },
{
    lemma_one_reading(before, after);
    let given = choose|given: Answer<L::V, Result<(), LockError>>|
        harness::read_asks::<L>(pre, reading, content, given) && (post, out)
            == #[trigger] harness::read_outcome(pre, reading, content, after.last, given);
    match content {
        Ok(_) => {
            lemma_says(
                pre,
                after.last,
                EventView::Read {
                    holder: reading.holder,
                    resource: pre.resource,
                    version: reading.version,
                },
            );
        },
        Err(_) => {
            if pre.open.contains_key(reading.holder) {
                assert(L::releases(
                    pre.lock,
                    pre.log,
                    pre.open[reading.holder].holding,
                    post.lock,
                    post.log,
                    given.reply,
                ));
            } else {
                assert(pre.open.remove(reading.holder) =~= pre.open);
            }
        },
    }
}

/// **A write that locks only its commit asks for the lock first.** Under that span an attempt goes on if
/// and only if the service grants it the lock, and then it is recorded at its own reading; otherwise
/// the answer is what the service said.
pub proof fn write_only_attempt_asks_for_the_lock<L: LockService>(
    pre: HarnessView<L::V>,
    before: WatchView,
    holder: Seq<char>,
    read_at: Version,
    content: Seq<char>,
    post: HarnessView<L::V>,
    after: WatchView,
    out: Result<AttemptView, WriteErrorView>,
)
    requires
        harness::begins_write::<L>(pre, before, holder, read_at, content, post, after, out),
        pre.cfg.span == Span::WriteOnly,
    ensures
        post.open == pre.open,
        before.last <= after.last,
        exists|log: Log, reply: Result<HoldingView, LockError>| #[trigger]
            L::acquires(pre.lock, pre.log, pre.resource, holder, post.lock, log, reply)
                && match reply {
                Err(e) => {
                    &&& out == Err::<AttemptView, WriteErrorView>(WriteErrorView::Lock(e))
                    &&& post.log == log
                },
                Ok(holding) => {
                    &&& out == Ok::<AttemptView, WriteErrorView>(
                        AttemptView { holder, holding, read_at, content },
                    )
                    &&& after.raw.len() == before.raw.len() + 2
                    &&& says_at(
                        log,
                        post.log,
                        after.last,
                        EventView::WriteAttempted {
                            holder,
                            resource: pre.resource,
                            ticket: holding.ticket,
                            expected_version: read_at,
                        },
                    )
                },
            },
{
    let read = choose|read: WatchView| #[trigger]
        watch::ticks(before, read) && harness::begins_write_at::<L>(
            pre,
            read,
            holder,
            read_at,
            content,
            read.last,
            post,
            after,
            out,
        );
    lemma_one_reading(before, read);
    let grant = choose|grant: Answer<L::V, Result<HoldingView, LockError>>|
        harness::begin_write_asks::<L>(pre, holder, grant) && (post, out)
            == #[trigger] harness::begin_write_outcome(
            pre,
            holder,
            read_at,
            content,
            read.last,
            grant,
            after.last,
        );
    if let Ok(holding) = grant.reply {
        lemma_one_reading(read, after);
        lemma_says(
            pre.answered(grant),
            after.last,
            EventView::WriteAttempted {
                holder,
                resource: pre.resource,
                ticket: holding.ticket,
                expected_version: read_at,
            },
        );
    }
    assert(L::acquires(
        pre.lock,
        pre.log,
        pre.resource,
        holder,
        post.lock,
        grant.log,
        grant.reply,
    ));
}

/// **What could not be staged is not asked about.** The attempt fails with what the file system said,
/// or with the injected crash; a lock that was taken for this write alone is given back, and one that
/// is kept across the thinking stays. Nothing is to be removed.
pub proof fn unstaged_write_is_not_asked_about<L: LockService>(
    pre: HarnessView<L::V>,
    before: WatchView,
    a: AttemptView,
    written: Result<(), Seq<char>>,
    post: HarnessView<L::V>,
    after: WatchView,
    out: Result<AuthorizedView, WriteErrorView>,
)
    requires
        harness::authorizes::<L>(pre, before, a, written, post, after, out),
        store::staged(pre.fail_at, written) is Err,
    ensures
        out == Err::<AuthorizedView, WriteErrorView>(
            WriteErrorView::Io(store::staged(pre.fail_at, written)->Err_0),
        ),
        !harness::discards(out->Err_0),
        post.open == pre.open,
        after == before,
        if pre.cfg.span == Span::WriteOnly {
            exists|reply: Result<(), LockError>| #[trigger]
                L::releases(pre.lock, pre.log, a.holding, post.lock, post.log, reply)
        } else {
            post == pre
        },
{
    let (ruling, given) = choose|
        ruling: Answer<L::V, Result<Version, Refusal>>,
        given: Answer<L::V, Result<(), LockError>>,
    |
        harness::authorize_asks::<L>(pre, a, written, ruling, after.last, given) && (post, out)
            == #[trigger] harness::authorize_outcome(pre, a, written, ruling, after.last, given);
    if pre.cfg.span == Span::WriteOnly {
        assert(L::releases(pre.lock, pre.log, a.holding, post.lock, post.log, given.reply));
    }
}

/// **What is staged is ruled on by the lock service.** The service is asked to commit the attempt's own
/// hold, version and content. If it agrees, the write goes on at the version that it named, and the
/// lock stays. If it refuses, that is recorded at its own reading and answered, the staged file is to
/// be removed, and a lock that was taken for this write alone is given back.
pub proof fn staged_write_is_ruled_on<L: LockService>(
    pre: HarnessView<L::V>,
    before: WatchView,
    a: AttemptView,
    written: Result<(), Seq<char>>,
    post: HarnessView<L::V>,
    after: WatchView,
    out: Result<AuthorizedView, WriteErrorView>,
)
    requires
        harness::authorizes::<L>(pre, before, a, written, post, after, out),
        store::staged(pre.fail_at, written) is Ok,
    ensures
        post.open == pre.open,
        exists|state: L::V, log: Log, reply: Result<Version, Refusal>| #[trigger]
            L::commits(
                pre.lock,
                pre.log,
                a.holding,
                a.read_at,
                store::hash_of(a.content),
                state,
                log,
                reply,
            ) && match reply {
                Ok(version) => {
                    &&& out is Ok
                    &&& out->Ok_0.holding == a.holding
                    &&& out->Ok_0.new_version == version
                    &&& out->Ok_0.content == a.content
                    &&& post.lock == state
                    &&& post.log == log
                    &&& after == before
                },
                Err(reason) => {
                    &&& out == Err::<AuthorizedView, WriteErrorView>(
                        WriteErrorView::Refused(reason),
                    )
                    &&& harness::discards(out->Err_0)
                    &&& one_reading(before, after)
                    &&& exists|noted: Log| #[trigger]
                        says_at(
                            log,
                            noted,
                            after.last,
                            EventView::WriteRefused {
                                holder: a.holder,
                                resource: pre.resource,
                                reason,
                                content: a.content,
                            },
                        ) && if pre.cfg.span == Span::WriteOnly {
                            exists|given: Result<(), LockError>| #[trigger]
                                L::releases(state, noted, a.holding, post.lock, post.log, given)
                        } else {
                            post.lock == state && post.log == noted
                        }
                },
            },
{
    let (ruling, given) = choose|
        ruling: Answer<L::V, Result<Version, Refusal>>,
        given: Answer<L::V, Result<(), LockError>>,
    |
        harness::authorize_asks::<L>(pre, a, written, ruling, after.last, given) && (post, out)
            == #[trigger] harness::authorize_outcome(pre, a, written, ruling, after.last, given);
    if let Err(reason) = ruling.reply {
        lemma_one_reading(before, after);
        let event = EventView::WriteRefused {
            holder: a.holder,
            resource: pre.resource,
            reason,
            content: a.content,
        };
        let refused = harness::ruled_against(pre, a, ruling, after.last);
        lemma_says(pre.answered(ruling), after.last, event);
        assert(says_at(ruling.log, refused.log, after.last, event));
        if pre.cfg.span == Span::WriteOnly {
            assert(L::releases(
                ruling.state,
                refused.log,
                a.holding,
                post.lock,
                post.log,
                given.reply,
            ));
        }
    }
    assert(L::commits(
        pre.lock,
        pre.log,
        a.holding,
        a.read_at,
        store::hash_of(a.content),
        ruling.state,
        ruling.log,
        ruling.reply,
    ));
}

/// **A write is applied only at the version that it was authorized for.** Before the rename the service
/// is asked for its version. If that is the authorized one, and no crash is injected, the write goes
/// on unchanged, and its lock stays.
pub proof fn write_is_applied_at_its_version<L: LockService>(
    pre: HarnessView<L::V>,
    before: WatchView,
    a: AuthorizedView,
    post: HarnessView<L::V>,
    after: WatchView,
    out: Result<AuthorizedView, WriteErrorView>,
)
    requires
        harness::begins_apply::<L>(pre, before, a, post, after, out),
    ensures
        exists|state: L::V, log: Log, reply: Result<Version, LockError>| #[trigger]
            L::tells_version(pre.lock, pre.log, pre.resource, state, log, reply) && {
                &&& out is Ok <==> reply == Ok::<Version, LockError>(a.new_version)
                    && store::may_rename(pre.fail_at) is Ok
                &&& out is Ok ==> out->Ok_0 == a && post.lock == state && post.log == log
                    && post.open == pre.open && after == before
            },
{
    let (current, given) = choose|
        current: Answer<L::V, Result<Version, LockError>>,
        given: Answer<L::V, Result<(), LockError>>,
    |
        harness::begin_apply_asks::<L>(pre, a, current, after.last, given) && (post, out)
            == #[trigger] harness::begin_apply_outcome(pre, a, current, after.last, given);
    assert(L::tells_version(
        pre.lock,
        pre.log,
        pre.resource,
        current.state,
        current.log,
        current.reply,
    ));
}

/// **A write that is not applied gives its lock back.** If the service could not tell its version, or
/// named another, or a crash is injected, the write fails with that, its lock is given back, and its
/// holder keeps none. That another write was in between is recorded at its own reading, and then, and
/// only then, the staged file is to be removed.
pub proof fn unapplied_write_gives_its_lock_back<L: LockService>(
    pre: HarnessView<L::V>,
    before: WatchView,
    a: AuthorizedView,
    post: HarnessView<L::V>,
    after: WatchView,
    out: Result<AuthorizedView, WriteErrorView>,
)
    requires
        harness::begins_apply::<L>(pre, before, a, post, after, out),
        out is Err,
    ensures
        post.open == pre.open.remove(a.holding.holder),
        exists|state: L::V, log: Log, reply: Result<Version, LockError>| #[trigger]
            L::tells_version(pre.lock, pre.log, pre.resource, state, log, reply) && {
                let overtaken = reply is Ok && reply->Ok_0 != a.new_version;
                &&& out->Err_0 == (match reply {
                    Err(e) => WriteErrorView::Lock(e),
                    Ok(current) => if current != a.new_version {
                        WriteErrorView::Superseded { authorized: a.new_version, current }
                    } else {
                        WriteErrorView::Io(store::may_rename(pre.fail_at)->Err_0)
                    },
                })
                &&& harness::discards(out->Err_0) <==> overtaken
                &&& overtaken ==> one_reading(before, after)
                &&& !overtaken ==> after == before
                &&& exists|noted: Log, given: Result<(), LockError>| #[trigger]
                    L::releases(state, noted, a.holding, post.lock, post.log, given) && (
                    if overtaken {
                        says_at(
                            log,
                            noted,
                            after.last,
                            EventView::WriteRefused {
                                holder: a.holding.holder,
                                resource: pre.resource,
                                reason: Refusal::StaleVersion {
                                    read: a.new_version,
                                    current: reply->Ok_0,
                                },
                                content: a.content,
                            },
                        )
                    } else {
                        noted == log
                    })
            },
{
    let (current, given) = choose|
        current: Answer<L::V, Result<Version, LockError>>,
        given: Answer<L::V, Result<(), LockError>>,
    |
        harness::begin_apply_asks::<L>(pre, a, current, after.last, given) && (post, out)
            == #[trigger] harness::begin_apply_outcome(pre, a, current, after.last, given);
    if current.reply is Ok && current.reply->Ok_0 != a.new_version {
        lemma_one_reading(before, after);
        let event = EventView::WriteRefused {
            holder: a.holding.holder,
            resource: pre.resource,
            reason: Refusal::StaleVersion { read: a.new_version, current: current.reply->Ok_0 },
            content: a.content,
        };
        lemma_says(pre.answered(current), after.last, event);
        let refused = harness::overtaken(pre, a, current, after.last);
        assert(says_at(current.log, refused.log, after.last, event));
        assert(L::releases(
            current.state,
            refused.log,
            a.holding,
            post.lock,
            post.log,
            given.reply,
        ));
    } else {
        assert(L::releases(
            current.state,
            current.log,
            a.holding,
            post.lock,
            post.log,
            given.reply,
        ));
    }
    assert(L::tells_version(
        pre.lock,
        pre.log,
        pre.resource,
        current.state,
        current.log,
        current.reply,
    ));
}

/// **A write is accepted exactly if its rename went through.** Then it is recorded at its own reading,
/// with its own ticket, version and content, and its version is the answer; a rename that failed
/// records nothing, and is answered. Either way the lock is given back, and its holder keeps none.
pub proof fn renamed_write_is_accepted<L: LockService>(
    pre: HarnessView<L::V>,
    before: WatchView,
    a: AuthorizedView,
    renamed: Result<(), Seq<char>>,
    post: HarnessView<L::V>,
    after: WatchView,
    out: Result<Version, WriteErrorView>,
)
    requires
        harness::applies::<L>(pre, before, a, renamed, post, after, out),
    ensures
        post.open == pre.open.remove(a.holding.holder),
        out == (match renamed {
            Ok(()) => Ok::<Version, WriteErrorView>(a.new_version),
            Err(reason) => Err(WriteErrorView::Io(reason)),
        }),
        renamed is Ok ==> one_reading(before, after),
        renamed is Err ==> after == before,
        exists|noted: Log, given: Result<(), LockError>| #[trigger]
            L::releases(pre.lock, noted, a.holding, post.lock, post.log, given) && (
            if renamed is Ok {
                says_at(
                    pre.log,
                    noted,
                    after.last,
                    EventView::WriteAccepted {
                        holder: a.holding.holder,
                        resource: pre.resource,
                        ticket: a.holding.ticket,
                        version: a.new_version,
                        content: a.content,
                    },
                )
            } else {
                noted == pre.log
            }),
{
    let given = choose|given: Answer<L::V, Result<(), LockError>>|
        harness::apply_asks::<L>(pre, a, renamed, after.last, given) && (post, out)
            == #[trigger] harness::apply_outcome(pre, a, renamed, after.last, given);
    if renamed is Ok {
        lemma_one_reading(before, after);
        let event = EventView::WriteAccepted {
            holder: a.holding.holder,
            resource: pre.resource,
            ticket: a.holding.ticket,
            version: a.new_version,
            content: a.content,
        };
        lemma_says(pre, after.last, event);
        let done = harness::published(pre, a, after.last);
        assert(says_at(pre.log, done.log, after.last, event));
        assert(L::releases(pre.lock, done.log, a.holding, post.lock, post.log, given.reply));
    } else {
        assert(L::releases(pre.lock, pre.log, a.holding, post.lock, post.log, given.reply));
    }
}

/// **Abandoning gives back what is kept, and nothing else.** Whoever keeps a lock gives exactly that one
/// back and keeps none afterwards; for anyone else nothing happens at all.
pub proof fn abandoning_gives_back_what_is_kept<L: LockService>(
    pre: HarnessView<L::V>,
    holder: Seq<char>,
    post: HarnessView<L::V>,
)
    requires
        harness::abandons::<L>(pre, holder, post),
    ensures
        if pre.open.contains_key(holder) {
            &&& post.open == pre.open.remove(holder)
            &&& exists|reply: Result<(), LockError>| #[trigger]
                L::releases(
                    pre.lock,
                    pre.log,
                    pre.open[holder].holding,
                    post.lock,
                    post.log,
                    reply,
                )
        } else {
            post == pre
        },
{
    let given = choose|given: Answer<L::V, Result<(), LockError>>|
        harness::abandon_asks::<L>(pre, holder, given) && post
            == #[trigger] harness::abandon_outcome(pre, holder, given);
    if pre.open.contains_key(holder) {
        assert(L::releases(
            pre.lock,
            pre.log,
            pre.open[holder].holding,
            post.lock,
            post.log,
            given.reply,
        ));
    }
}

/// **A read answers the version that the service tells.** Whichever the span, the version of a read that
/// goes on is the service's answer for this harness's resource, and nothing is asked behind it.
pub proof fn read_answers_the_service_version<L: LockService>(
    pre: HarnessView<L::V>,
    before: WatchView,
    holder: Seq<char>,
    post: HarnessView<L::V>,
    after: WatchView,
    out: Result<ReadingView, WriteErrorView>,
)
    requires
        harness::begins_read::<L>(pre, before, holder, post, after, out),
        out is Ok,
    ensures
        out->Ok_0.holder == holder,
        exists|state: L::V, log: Log| #[trigger]
            L::tells_version(state, log, pre.resource, post.lock, post.log, Ok(out->Ok_0.version))
                && (pre.cfg.span == Span::WriteOnly ==> state == pre.lock && log == pre.log),
        pre.cfg.span == Span::WriteOnly ==> post.open == pre.open,
{
    let (grant, version, given) = choose|
        grant: Answer<L::V, Result<HoldingView, LockError>>,
        version: Answer<L::V, Result<Version, LockError>>,
        given: Answer<L::V, Result<(), LockError>>,
    |
        harness::begin_read_asks::<L>(pre, holder, grant, version, given) && (post, out)
            == #[trigger] harness::begin_read_outcome(
            pre,
            holder,
            after.last,
            grant,
            version,
            given,
        );
    if pre.cfg.span == Span::Full {
        assert(L::tells_version(
            grant.state,
            grant.log,
            pre.resource,
            post.lock,
            post.log,
            Ok(out->Ok_0.version),
        ));
    } else {
        assert(L::tells_version(
            pre.lock,
            pre.log,
            pre.resource,
            post.lock,
            post.log,
            Ok(out->Ok_0.version),
        ));
    }
}

/// **A read that does not go on keeps no new lock.** It fails with what the service said, and leaves
/// the reader without a lock that it did not have, and everybody else as they were.
pub proof fn failed_read_keeps_no_new_lock<L: LockService>(
    pre: HarnessView<L::V>,
    before: WatchView,
    holder: Seq<char>,
    post: HarnessView<L::V>,
    after: WatchView,
    out: Result<ReadingView, WriteErrorView>,
)
    requires
        harness::begins_read::<L>(pre, before, holder, post, after, out),
        out is Err,
    ensures
        out->Err_0 is Lock,
        post.open == pre.open || post.open == pre.open.remove(holder),
        pre.cfg.span == Span::WriteOnly ==> post.open == pre.open,
{
    let (grant, version, given) = choose|
        grant: Answer<L::V, Result<HoldingView, LockError>>,
        version: Answer<L::V, Result<Version, LockError>>,
        given: Answer<L::V, Result<(), LockError>>,
    |
        harness::begin_read_asks::<L>(pre, holder, grant, version, given) && (post, out)
            == #[trigger] harness::begin_read_outcome(
            pre,
            holder,
            after.last,
            grant,
            version,
            given,
        );
    if grant.reply is Ok {
        let opened = harness::OpenView { holding: grant.reply->Ok_0, taken_at: after.last };
        assert(pre.open.insert(holder, opened).remove(holder) =~= pre.open.remove(holder));
    }
}

} // verus!
