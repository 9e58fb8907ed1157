//! The steps of a run.
//!
//! Each operation of the harness is a function of the state before it once the readings of the
//! clocks are given. The functions here put those readings into what the harness does, with the
//! in-memory lock service answering.

use crate::clock::Duration;
use crate::harness;
use crate::harness::{
    Answer, AttemptView, AuthorizedView, Config, HarnessView, ReadingView, SnapshotView,
    WriteErrorView,
};
use crate::history;
use crate::history::{EventView, Log};
use crate::lock::fake;
use crate::lock::fake::{FakeLockService, FaultsView, ServiceView};
use crate::lock::table;
use crate::lock::table::TableView;
use crate::store::CrashPoint;
use crate::types::{HoldingView, LockError, Refusal, Span, Ticket, Version};
use crate::watch;
use crate::watch::WatchView;
use vstd::prelude::*;

verus! {

/// A harness in front of the in-memory lock service.
pub type State = HarnessView<TableView>;

/// The readings of the clocks during one step: those of the lock service first, those of the
/// harness after them.
pub struct Times {
    pub acquire: u128,
    pub version: u128,
    pub commit: u128,
    pub renew: u128,
    pub release: u128,
    pub revoke: u128,
    pub taken: u128,
    pub checked: u128,
    pub noted: u128,
    pub refused: u128,
    pub accepted: u128,
}

/// The service's answer to a request for the lock at `now`.
pub open spec fn acquired(h: State, now: u128, holder: Seq<char>) -> Answer<
    TableView,
    Result<HoldingView, LockError>,
> {
    let (state, log, reply) = table::acquire_outcome(h.lock, h.log, now, h.resource, holder);
    Answer { state, log, reply }
}

/// The service's answer to the question for the version at `now`.
pub open spec fn told_version(h: State, now: u128) -> Answer<TableView, Result<Version, LockError>> {
    let (state, log, version) = table::current_version_outcome(h.lock, h.log, now, h.resource);
    Answer { state, log, reply: Ok(version) }
}

/// The service's answer to a release at `now`.
pub open spec fn given_back(h: State, now: u128, holding: HoldingView) -> Answer<
    TableView,
    Result<(), LockError>,
> {
    let (state, log) = table::release_outcome(h.lock, h.log, now, holding);
    Answer { state, log, reply: Ok(()) }
}

/// The service's answer to a renewal at `now`.
pub open spec fn renewed(h: State, now: u128, holding: HoldingView) -> Answer<
    TableView,
    Result<(), LockError>,
> {
    let (state, log, reply) = table::keepalive_outcome(h.lock, h.log, now, holding);
    Answer { state, log, reply }
}

/// The service's ruling on a write at `now`.
pub open spec fn ruled(h: State, now: u128, a: AttemptView) -> Answer<
    TableView,
    Result<Version, Refusal>,
> {
    let (state, log, reply) = table::commit_outcome(
        h.lock,
        h.log,
        now,
        a.holding,
        a.read_at,
        crate::store::hash_of(a.content),
    );
    Answer { state, log, reply }
}

/// The first half of a read.
pub open spec fn read_begun(h: State, holder: Seq<char>, t: Times) -> (
    State,
    Result<ReadingView, WriteErrorView>,
) {
    let grant = acquired(h, t.acquire, holder);
    let asked = if h.cfg.span == Span::Full {
        h.answered(grant)
    } else {
        h
    };
    let version = told_version(asked, t.version);
    harness::begin_read_outcome(
        h,
        holder,
        t.taken,
        grant,
        version,
        given_back(asked.answered(version), t.release, grant.reply->Ok_0),
    )
}

/// The second half of a read.
pub open spec fn read_done(
    h: State,
    reading: ReadingView,
    content: Result<Seq<char>, Seq<char>>,
    t: Times,
) -> (State, Result<SnapshotView, WriteErrorView>) {
    harness::read_outcome(
        h,
        reading,
        content,
        t.noted,
        given_back(h, t.release, h.open[reading.holder].holding),
    )
}

/// A report of progress.
pub open spec fn progressed(h: State, holder: Seq<char>, t: Times) -> (
    State,
    Result<(), WriteErrorView>,
) {
    harness::progress_outcome(
        h,
        holder,
        t.checked,
        t.noted,
        renewed(h, t.renew, h.open[holder].holding),
    )
}

/// The first half of authorizing a write.
pub open spec fn attempted(
    h: State,
    holder: Seq<char>,
    read_at: Version,
    content: Seq<char>,
    t: Times,
) -> (State, Result<AttemptView, WriteErrorView>) {
    harness::begin_write_outcome(
        h,
        holder,
        read_at,
        content,
        t.checked,
        acquired(h, t.acquire, holder),
        t.noted,
    )
}

/// The second half of authorizing a write.
pub open spec fn authorized(h: State, a: AttemptView, written: Result<(), Seq<char>>, t: Times) -> (
    State,
    Result<AuthorizedView, WriteErrorView>,
) {
    let ruling = ruled(h, t.commit, a);
    let refused = if crate::store::staged(h.fail_at, written) is Ok {
        harness::ruled_against(h, a, ruling, t.refused)
    } else {
        h
    };
    harness::authorize_outcome(
        h,
        a,
        written,
        ruling,
        t.refused,
        given_back(refused, t.release, a.holding),
    )
}

/// The first half of applying a write.
pub open spec fn cleared(h: State, a: AuthorizedView, t: Times) -> (
    State,
    Result<AuthorizedView, WriteErrorView>,
) {
    let current = told_version(h, t.version);
    let refused = if current.reply == Ok::<Version, LockError>(a.new_version) {
        h.answered(current)
    } else {
        harness::overtaken(h, a, current, t.refused)
    };
    harness::begin_apply_outcome(
        h,
        a,
        current,
        t.refused,
        given_back(refused, t.release, a.holding),
    )
}

/// The second half of applying a write.
pub open spec fn applied(h: State, a: AuthorizedView, renamed: Result<(), Seq<char>>, t: Times) -> (
    State,
    Result<Version, WriteErrorView>,
) {
    let done = if renamed is Ok {
        harness::published(h, a, t.accepted)
    } else {
        h
    };
    harness::apply_outcome(
        h,
        a,
        renamed,
        t.accepted,
        given_back(done, t.release, a.holding),
    )
}

/// Authorizing a write, both halves.
pub open spec fn authorization(
    h: State,
    holder: Seq<char>,
    read_at: Version,
    content: Seq<char>,
    written: Result<(), Seq<char>>,
    t: Times,
) -> (State, Result<AuthorizedView, WriteErrorView>) {
    let (mid, attempt) = attempted(h, holder, read_at, content, t);
    match attempt {
        Err(e) => (mid, Err(e)),
        Ok(a) => authorized(mid, a, written, t),
    }
}

/// Applying a write, both halves.
pub open spec fn application(
    h: State,
    a: AuthorizedView,
    renamed: Result<(), Seq<char>>,
    t: Times,
) -> (State, Result<Version, WriteErrorView>) {
    let (mid, ready) = cleared(h, a, t);
    match ready {
        Err(e) => (mid, Err(e)),
        Ok(p) => applied(mid, p, renamed, t),
    }
}

/// Abandoning a read.
pub open spec fn abandoned(h: State, holder: Seq<char>, t: Times) -> State {
    harness::abandon_outcome(
        h,
        holder,
        given_back(h, t.release, h.open[holder].holding),
    )
}

/// Taking the lock away.
pub open spec fn revoked(h: State, t: Times) -> State {
    let (state, log, _) = table::force_release_outcome(h.lock, h.log, t.revoke, h.resource);
    HarnessView { lock: state, log, ..h }
}

/// An authorized write that waits to be applied, and how long the history was when it was attempted.
#[verifier::ext_equal]
pub struct Pending {
    pub write: AuthorizedView,
    pub mark: nat,
}

/// Everything there is: the harness with its lock service and its history, the content of the
/// resource, and the authorized writes that were not applied yet.
#[verifier::ext_equal]
pub struct World {
    pub h: State,
    pub disk: Seq<char>,
    pub pending: Seq<Pending>,
}

/// One step of a run.
pub enum Step {
    /// A read, with what reading the file failed with, if it failed.
    Read { holder: Seq<char>, failed: Option<Seq<char>>, t: Times },
    /// A report of progress.
    Progress { holder: Seq<char>, t: Times },
    /// A write up to its authorization.
    Authorize {
        holder: Seq<char>,
        read_at: Version,
        content: Seq<char>,
        written: Result<(), Seq<char>>,
        t: Times,
    },
    /// The application of a pending write. `landed` is what the rename put in place.
    Apply { which: int, landed: Seq<char>, renamed: Result<(), Seq<char>>, t: Times },
    /// A write in one piece: authorized and applied with nothing in between.
    Write {
        holder: Seq<char>,
        read_at: Version,
        content: Seq<char>,
        written: Result<(), Seq<char>>,
        renamed: Result<(), Seq<char>>,
        t: Times,
    },
    /// A read abandoned.
    Abandon { holder: Seq<char>, t: Times },
    /// The lock taken away.
    ForceRelease { t: Times },
    /// A question to the lock service from outside: for the ticket, the version or a hold.
    Ask { now: u128 },
    /// All holds of a resource ended on the spot.
    ForceExpire { resource: Seq<char>, now: u128 },
    /// Something that became of an agent, recorded from outside.
    Note { at_ms: u64, event: EventView },
    /// Other faults to inject from here on.
    SetFaults { faults: FaultsView },
}

/// The event says what became of an agent.
pub open spec fn of_agent(e: EventView) -> bool {
    e is AgentFinished || e is AgentWedged || e is PhaseTimeout
}

/// The step can be taken: the counters have room for it, and what it names is there.
pub open spec fn possible(w: World, s: Step) -> bool {
    &&& w.h.lock.room(2)
    &&& match s {
        Step::Apply { which, .. } => 0 <= which < w.pending.len(),
        Step::Note { event, .. } => of_agent(event),
        _ => true,
    }
}

/// What a step leads to.
#[verifier::opaque]
pub open spec fn after(w: World, s: Step) -> World {
    match s {
        Step::Read { holder, failed, t } => {
            let (mid, out) = read_begun(w.h, holder, t);
            match out {
                Err(_) => World { h: mid, ..w },
                Ok(reading) => {
                    let content = match failed {
                        Some(reason) => Err(reason),
                        None => Ok(w.disk),
                    };
                    World { h: read_done(mid, reading, content, t).0, ..w }
                },
            }
        },
        Step::Progress { holder, t } => World { h: progressed(w.h, holder, t).0, ..w },
        Step::Authorize { holder, read_at, content, written, t } => {
            let (h, out) = authorization(w.h, holder, read_at, content, written, t);
            match out {
                Err(_) => World { h, ..w },
                Ok(write) => World {
                    h,
                    pending: w.pending.push(Pending { write, mark: w.h.log.len() }),
                    ..w
                },
            }
        },
        Step::Apply { which, landed, renamed, t } => {
            let (h, out) = application(w.h, w.pending[which].write, renamed, t);
            World {
                h,
                disk: if out is Ok {
                    landed
                } else {
                    w.disk
                },
                pending: w.pending.remove(which),
            }
        },
        Step::Write { holder, read_at, content, written, renamed, t } => {
            let (mid, authorized) = authorization(w.h, holder, read_at, content, written, t);
            match authorized {
                Err(_) => World { h: mid, ..w },
                Ok(write) => {
                    let (h, out) = application(mid, write, renamed, t);
                    World {
                        h,
                        disk: if out is Ok {
                            content
                        } else {
                            w.disk
                        },
                        ..w
                    }
                },
            }
        },
        Step::Abandon { holder, t } => World { h: abandoned(w.h, holder, t), ..w },
        Step::ForceRelease { t } => World { h: revoked(w.h, t), ..w },
        Step::Ask { now } => World { h: w.h.answered(told_version(w.h, now)), ..w },
        Step::ForceExpire { resource, now } => {
            let (lock, log) = table::force_expire_outcome(w.h.lock, w.h.log, now, resource);
            World { h: HarnessView { lock, log, ..w.h }, ..w }
        },
        Step::Note { at_ms, event } => World {
            h: HarnessView { log: history::record(w.h.log, at_ms, event), ..w.h },
            ..w
        },
        Step::SetFaults { faults } => World {
            h: HarnessView { lock: TableView { faults, ..w.h.lock }, ..w.h },
            ..w
        },
    }
}

/// What a run leads to.
pub open spec fn after_all(w: World, steps: Seq<Step>) -> World
    decreases steps.len(),
{
    if steps.len() == 0 {
        w
    } else {
        after(after_all(w, steps.drop_last()), steps.last())
    }
}

/// Every step of the run can be taken when its turn comes.
pub open spec fn possible_all(w: World, steps: Seq<Step>) -> bool
    decreases steps.len(),
{
    steps.len() > 0 ==> possible_all(w, steps.drop_last()) && possible(
        after_all(w, steps.drop_last()),
        steps.last(),
    )
}

/// A harness that was just made, in front of a lock service that was just made, with nothing
/// recorded yet.
pub open spec fn beginning(
    resource: Seq<char>,
    fail_at: Option<CrashPoint>,
    cfg: Config,
    lease: Duration,
    faults: FaultsView,
    initial: Seq<char>,
) -> World {
    World {
        h: HarnessView {
            lock: fake::idle(lease, faults),
            log: Log::empty(),
            open: Map::empty(),
            resource,
            fail_at,
            cfg,
        },
        disk: initial,
        pending: Seq::empty(),
    }
}

/// `w` is the beginning of a run.
pub open spec fn begins(w: World) -> bool {
    w == beginning(
        w.h.resource,
        w.h.fail_at,
        w.h.cfg,
        w.h.lock.lease,
        w.h.lock.faults,
        w.disk,
    )
}

/// A harness in front of the in-memory lock service, with what was read off the service's watch.
pub type Live = HarnessView<ServiceView>;

/// The same, without what was read off the watch.
pub open spec fn bare(h: Live) -> State {
    HarnessView {
        lock: h.lock.table,
        log: h.log,
        open: h.open,
        resource: h.resource,
        fail_at: h.fail_at,
        cfg: h.cfg,
    }
}

/// The service's watch was read at `now` between `a` and `b`.
pub open spec fn was_read(a: Live, now: u128, b: Live) -> bool {
    a.lock.watch.last <= now <= b.lock.watch.last
}

/// Every first half of a read that a harness in front of the in-memory service makes is one of the
/// model, at the readings of the two watches.
pub proof fn read_is_modelled(
    pre: Live,
    before: WatchView,
    holder: Seq<char>,
    post: Live,
    after: WatchView,
    out: Result<ReadingView, WriteErrorView>,
)
    requires
        harness::begins_read::<FakeLockService>(pre, before, holder, post, after, out),
    ensures
        exists|t: Times|
            (bare(post), out) == #[trigger] read_begun(bare(pre), holder, t) && t.taken
                == after.last && (pre.cfg.span == Span::Full ==> was_read(pre, t.acquire, post)),
{
    let (grant, version, given) = choose|
        grant: Answer<ServiceView, Result<HoldingView, LockError>>,
        version: Answer<ServiceView, Result<Version, LockError>>,
        given: Answer<ServiceView, Result<(), LockError>>,
    |
        harness::begin_read_asks::<FakeLockService>(pre, holder, grant, version, given) && (
            post,
            out,
        ) == #[trigger] harness::begin_read_outcome(
            pre,
            holder,
            after.last,
            grant,
            version,
            given,
        );
    let t0: Times = arbitrary();
    let t = Times {
        acquire: grant.state.watch.last,
        version: version.state.watch.last,
        taken: after.last,
        ..t0
    };
    assert((bare(post), out) == read_begun(bare(pre), holder, t));
}

/// Every second half of a read is one of the model.
pub proof fn reading_is_modelled(
    pre: Live,
    before: WatchView,
    reading: ReadingView,
    content: Result<Seq<char>, Seq<char>>,
    post: Live,
    after: WatchView,
    out: Result<SnapshotView, WriteErrorView>,
)
    requires
        harness::reads::<FakeLockService>(pre, before, reading, content, post, after, out),
    ensures
        exists|t: Times|
            (bare(post), out) == #[trigger] read_done(bare(pre), reading, content, t) && t.noted
                == after.last,
{
    let given = choose|given: Answer<ServiceView, Result<(), LockError>>|
        harness::read_asks::<FakeLockService>(pre, reading, content, given) && (post, out)
            == #[trigger] harness::read_outcome(pre, reading, content, after.last, given);
    let t0: Times = arbitrary();
    let t = Times { noted: after.last, release: given.state.watch.last, ..t0 };
    assert((bare(post), out) == read_done(bare(pre), reading, content, t));
}

/// Every report of progress is one of the model, at the readings of the two watches.
pub proof fn progress_is_modelled(
    pre: Live,
    before: WatchView,
    holder: Seq<char>,
    post: Live,
    after: WatchView,
    out: Result<(), WriteErrorView>,
)
    requires
        harness::progresses::<FakeLockService>(pre, before, holder, post, after, out),
    ensures
        exists|t: Times|
            (bare(post), out) == #[trigger] progressed(bare(pre), holder, t) && before.last
                <= t.checked <= after.last && (post.lock != pre.lock ==> was_read(
                pre,
                t.renew,
                post,
            )),
{
    let read = choose|read: WatchView| #[trigger]
        watch::ticks(before, read) && harness::progresses_at::<FakeLockService>(
            pre,
            read,
            holder,
            read.last,
            post,
            after,
            out,
        );
    let renewal = choose|renewal: Answer<ServiceView, Result<(), LockError>>|
        harness::progress_asks::<FakeLockService>(pre, holder, read.last, renewal) && (post, out)
            == #[trigger] harness::progress_outcome(pre, holder, read.last, after.last, renewal);
    let t0: Times = arbitrary();
    let t = Times {
        checked: read.last,
        noted: after.last,
        renew: renewal.state.watch.last,
        ..t0
    };
    assert((bare(post), out) == progressed(bare(pre), holder, t));
}

/// Every first half of authorizing a write is one of the model, at the readings of the two watches.
pub proof fn attempt_is_modelled(
    pre: Live,
    before: WatchView,
    holder: Seq<char>,
    read_at: Version,
    content: Seq<char>,
    post: Live,
    after: WatchView,
    out: Result<AttemptView, WriteErrorView>,
)
    requires
        harness::begins_write::<FakeLockService>(
            pre,
            before,
            holder,
            read_at,
            content,
            post,
            after,
            out,
        ),
    ensures
        exists|t: Times|
            (bare(post), out) == #[trigger] attempted(bare(pre), holder, read_at, content, t)
                && before.last <= t.checked <= after.last && (pre.cfg.span == Span::WriteOnly
                ==> was_read(pre, t.acquire, post)),
{
    let read = choose|read: WatchView| #[trigger]
        watch::ticks(before, read) && harness::begins_write_at::<FakeLockService>(
            pre,
            read,
            holder,
            read_at,
            content,
            read.last,
            post,
            after,
            out,
        );
    let grant = choose|grant: Answer<ServiceView, Result<HoldingView, LockError>>|
        harness::begin_write_asks::<FakeLockService>(pre, holder, grant) && (post, out)
            == #[trigger] harness::begin_write_outcome(
            pre,
            holder,
            read_at,
            content,
            read.last,
            grant,
            after.last,
        );
    let t0: Times = arbitrary();
    let t = Times {
        checked: read.last,
        noted: after.last,
        acquire: grant.state.watch.last,
        ..t0
    };
    assert((bare(post), out) == attempted(bare(pre), holder, read_at, content, t));
}

/// Every second half of authorizing a write is one of the model, at the readings of the service's
/// watch.
pub proof fn authorization_is_modelled(
    pre: Live,
    before: WatchView,
    a: AttemptView,
    written: Result<(), Seq<char>>,
    post: Live,
    after: WatchView,
    out: Result<AuthorizedView, WriteErrorView>,
)
    requires
        harness::authorizes::<FakeLockService>(pre, before, a, written, post, after, out),
    ensures
        exists|t: Times|
            (bare(post), out) == #[trigger] authorized(bare(pre), a, written, t) && (
            crate::store::staged(pre.fail_at, written) is Ok ==> was_read(pre, t.commit, post)),
{
    let (ruling, given) = choose|
        ruling: Answer<ServiceView, Result<Version, Refusal>>,
        given: Answer<ServiceView, Result<(), LockError>>,
    |
        harness::authorize_asks::<FakeLockService>(pre, a, written, ruling, after.last, given) && (
            post,
            out,
        ) == #[trigger] harness::authorize_outcome(pre, a, written, ruling, after.last, given);
    let t0: Times = arbitrary();
    let t = Times {
        commit: ruling.state.watch.last,
        refused: after.last,
        release: given.state.watch.last,
        ..t0
    };
    assert((bare(post), out) == authorized(bare(pre), a, written, t));
}

/// Every first half of applying a write is one of the model, at the readings of the service's watch.
pub proof fn clearance_is_modelled(
    pre: Live,
    before: WatchView,
    a: AuthorizedView,
    post: Live,
    after: WatchView,
    out: Result<AuthorizedView, WriteErrorView>,
)
    requires
        harness::begins_apply::<FakeLockService>(pre, before, a, post, after, out),
    ensures
        exists|t: Times|
            (bare(post), out) == #[trigger] cleared(bare(pre), a, t) && was_read(
                pre,
                t.version,
                post,
            ),
{
    let (current, given) = choose|
        current: Answer<ServiceView, Result<Version, LockError>>,
        given: Answer<ServiceView, Result<(), LockError>>,
    |
        harness::begin_apply_asks::<FakeLockService>(pre, a, current, after.last, given) && (
            post,
            out,
        ) == #[trigger] harness::begin_apply_outcome(pre, a, current, after.last, given);
    let t0: Times = arbitrary();
    let t = Times {
        version: current.state.watch.last,
        refused: after.last,
        release: given.state.watch.last,
        ..t0
    };
    assert((bare(post), out) == cleared(bare(pre), a, t));
}

/// Every second half of applying a write is one of the model, at the readings of the two watches.
pub proof fn application_is_modelled(
    pre: Live,
    before: WatchView,
    a: AuthorizedView,
    renamed: Result<(), Seq<char>>,
    post: Live,
    after: WatchView,
    out: Result<Version, WriteErrorView>,
)
    requires
        harness::applies::<FakeLockService>(pre, before, a, renamed, post, after, out),
    ensures
        exists|t: Times|
            (bare(post), out) == #[trigger] applied(bare(pre), a, renamed, t) && t.accepted
                == after.last && t.release == post.lock.watch.last,
{
    let given = choose|given: Answer<ServiceView, Result<(), LockError>>|
        harness::apply_asks::<FakeLockService>(pre, a, renamed, after.last, given) && (post, out)
            == #[trigger] harness::apply_outcome(pre, a, renamed, after.last, given);
    let t0: Times = arbitrary();
    let t = Times { accepted: after.last, release: given.state.watch.last, ..t0 };
    assert((bare(post), out) == applied(bare(pre), a, renamed, t));
}

/// Every read abandoned is one of the model.
pub proof fn abandon_is_modelled(pre: Live, holder: Seq<char>, post: Live)
    requires
        harness::abandons::<FakeLockService>(pre, holder, post),
    ensures
        exists|t: Times|
            bare(post) == #[trigger] abandoned(bare(pre), holder, t) && (pre.open.contains_key(
                holder,
            ) ==> t.release == post.lock.watch.last),
{
    let given = choose|given: Answer<ServiceView, Result<(), LockError>>|
        harness::abandon_asks::<FakeLockService>(pre, holder, given) && post
            == #[trigger] harness::abandon_outcome(pre, holder, given);
    let t0: Times = arbitrary();
    let t = Times { release: given.state.watch.last, ..t0 };
    assert(bare(post) == abandoned(bare(pre), holder, t));
}

/// Every revocation is one of the model, at the reading of the service's watch, and it succeeds.
pub proof fn revocation_is_modelled(pre: Live, post: Live, out: Result<Ticket, LockError>)
    requires
        harness::force_releases::<FakeLockService>(pre, post, out),
    ensures
        out is Ok,
        exists|t: Times|
            bare(post) == #[trigger] revoked(bare(pre), t) && t.revoke == post.lock.watch.last,
{
    let t0: Times = arbitrary();
    let t = Times { revoke: post.lock.watch.last, ..t0 };
    assert(bare(post) == revoked(bare(pre), t));
}

} // verus!
