//! The harness: the sole gatekeeper to the protected resource.
//!
//! Agents read and write through it and never receive the lock, nor see a ticket. There is
//! therefore nothing about lock discipline for an agent to get wrong, and nothing for it to forge.
//!
//! Reading and writing each have one step in the middle that only the file system can do. So each
//! is cut there: a first half decides whether to go on and hands out a token, the caller makes the
//! one file-system call, and the second half takes the token and what the file system answered.
//!
//! ```text
//! begin_read  -> Reading      | read the file          | read      -> Snapshot
//! begin_write -> Attempt      | write the staging file | authorize -> Authorized
//! begin_apply -> Publishable  | rename it over         | apply     -> Version
//! ```
//!
//! Nothing lies between authorizing a write and asking whether it may be applied, so
//! [`Harness::write`] does both at once, and that is the normal path.

use crate::clock;
use crate::clock::Duration;
use crate::history;
use crate::history::{Event, EventView, History, Log};
use crate::lock;
use crate::lock::LockService;
use crate::store;
use crate::store::{content_hash, CrashPoint, FileStore, ReadFailure};
use crate::types::{HolderId, Holding, HoldingView, LockError, Refusal, ResourceId, Span, Ticket, Version};
use crate::watch;
use crate::watch::{Watch, WatchView};
use vstd::hash_map::StringHashMap;
use vstd::prelude::*;
use vstd::string::*;

verus! {

/// How a harness behaves.
#[derive(Debug, Clone, Copy, PartialEq, Eq, Structural)]
pub struct Config {
    pub span: Span,
    /// The liveness timeout, on the scale of seconds: it detects whether a process is alive across
    /// a network.
    pub lease: Duration,
    /// The limit on how long work may take, on the scale of minutes.
    pub hold_ceiling: Duration,
}

/// By default only the commit is locked, a lease lasts fifteen seconds, and no hold lasts longer
/// than ten minutes.
impl Default for Config {
    fn default() -> (out: Self)
        ensures
            out.span == Span::WriteOnly,
            out.lease.nanos == 15_000_000_000,
            out.hold_ceiling.nanos == 600_000_000_000,
    {
        Config {
            span: Span::WriteOnly,
            lease: Duration::from_secs(15),
            hold_ceiling: Duration::from_secs(600),
        }
    }
}

/// Why a read or a write did not go through.
#[derive(Debug, PartialEq, Eq)]
pub enum WriteError {
    /// The lock service did not authorize the write.
    Refused(Refusal),
    /// The lock service itself failed.
    Lock(LockError),
    /// The hold ceiling was reached, so renewal stopped. Slow and stuck cannot be told apart from
    /// outside, so this fires for both.
    CeilingExceeded,
    /// Authorized, then overtaken by another holder before this write could be applied. Nothing
    /// visible is lost, because the write was never applied.
    Superseded { authorized: Version, current: Version },
    /// The file system failed, with the reason as text.
    Io(String),
}

/// What a [`WriteError`] says.
#[verifier::ext_equal]
pub enum WriteErrorView {
    Refused(Refusal),
    Lock(LockError),
    CeilingExceeded,
    Superseded { authorized: Version, current: Version },
    Io(Seq<char>),
}

impl View for WriteError {
    type V = WriteErrorView;

    open spec fn view(&self) -> WriteErrorView {
        match *self {
            WriteError::Refused(reason) => WriteErrorView::Refused(reason),
            WriteError::Lock(e) => WriteErrorView::Lock(e),
            WriteError::CeilingExceeded => WriteErrorView::CeilingExceeded,
            WriteError::Superseded { authorized, current } => WriteErrorView::Superseded {
                authorized,
                current,
            },
            WriteError::Io(reason) => WriteErrorView::Io(reason@),
        }
    }
}

impl Clone for WriteError {
    fn clone(&self) -> (out: Self)
        ensures
            out@ == self@,
    {
        match self {
            WriteError::Refused(reason) => WriteError::Refused(*reason),
            WriteError::Lock(e) => WriteError::Lock(*e),
            WriteError::CeilingExceeded => WriteError::CeilingExceeded,
            WriteError::Superseded { authorized, current } => WriteError::Superseded {
                authorized: *authorized,
                current: *current,
            },
            WriteError::Io(reason) => WriteError::Io(reason.clone()),
        }
    }
}

/// The staged file is to be removed: its write was refused, or overtaken before it was applied.
pub open spec fn discards(e: WriteErrorView) -> bool {
    e is Refused || e is Superseded
}

impl WriteError {
    /// Whether the caller must remove the staged file.
    pub fn discards_staged(&self) -> (out: bool)
        ensures
            out == discards(self@),
    {
        match self {
            WriteError::Refused(_) => true,
            WriteError::Superseded { .. } => true,
            _ => false,
        }
    }
}

/// What an agent gets back from a read. Carries the version that was read, so that staleness can be
/// checked when it commits.
#[derive(Debug)]
pub struct Snapshot {
    pub content: String,
    pub version: Version,
}

/// What a [`Snapshot`] says.
#[verifier::ext_equal]
pub struct SnapshotView {
    pub content: Seq<char>,
    pub version: Version,
}

impl View for Snapshot {
    type V = SnapshotView;

    open spec fn view(&self) -> SnapshotView {
        SnapshotView { content: self.content@, version: self.version }
    }
}

impl Clone for Snapshot {
    fn clone(&self) -> (out: Self)
        ensures
            out@ == self@,
    {
        Snapshot { content: self.content.clone(), version: self.version }
    }
}

/// A read that may go on: the resource is to be read now.
pub struct Reading {
    holder: HolderId,
    version: Version,
}

/// What a [`Reading`] says.
#[verifier::ext_equal]
pub struct ReadingView {
    pub holder: Seq<char>,
    pub version: Version,
}

impl View for Reading {
    type V = ReadingView;

    closed spec fn view(&self) -> ReadingView {
        ReadingView { holder: self.holder@, version: self.version }
    }
}

/// A write that was attempted: its content is to be staged now.
pub struct Attempt {
    holder: HolderId,
    holding: Holding,
    read_at: Version,
    content: String,
}

/// What an [`Attempt`] says.
#[verifier::ext_equal]
pub struct AttemptView {
    pub holder: Seq<char>,
    pub holding: HoldingView,
    pub read_at: Version,
    pub content: Seq<char>,
}

impl View for Attempt {
    type V = AttemptView;

    closed spec fn view(&self) -> AttemptView {
        AttemptView {
            holder: self.holder@,
            holding: self.holding@,
            read_at: self.read_at,
            content: self.content@,
        }
    }
}

/// A write that the lock service has authorized and that has not been applied yet.
pub struct Authorized {
    holding: Holding,
    new_version: Version,
    content: String,
}

/// What an [`Authorized`] write says.
#[verifier::ext_equal]
pub struct AuthorizedView {
    pub holding: HoldingView,
    pub new_version: Version,
    pub content: Seq<char>,
}

impl View for Authorized {
    type V = AuthorizedView;

    closed spec fn view(&self) -> AuthorizedView {
        AuthorizedView {
            holding: self.holding@,
            new_version: self.new_version,
            content: self.content@,
        }
    }
}

/// A write that is to be applied: the staged file is to be renamed over the resource now.
pub struct Publishable {
    authorized: Authorized,
}

impl View for Publishable {
    type V = AuthorizedView;

    closed spec fn view(&self) -> AuthorizedView {
        self.authorized@
    }
}

struct Open {
    holding: Holding,
    taken_at: u128,
}

/// A lock held across an agent's thinking, and when it was taken.
#[verifier::ext_equal]
pub struct OpenView {
    pub holding: HoldingView,
    pub taken_at: u128,
}

impl View for Open {
    type V = OpenView;

    closed spec fn view(&self) -> OpenView {
        OpenView { holding: self.holding@, taken_at: self.taken_at }
    }
}

/// The gatekeeper.
pub struct Harness<L: LockService> {
    lock: L,
    store: FileStore,
    history: History,
    cfg: Config,
    resource: ResourceId,
    watch: Watch,
    /// Locks held across an agent's thinking, under [`Span::Full`] only.
    open: StringHashMap<Open>,
}

/// A harness as a mathematical value. `S` is the state of its lock service.
#[verifier::ext_equal]
#[verifier::reject_recursive_types(S)]
pub struct HarnessView<S> {
    pub lock: S,
    pub log: Log,
    pub open: Map<Seq<char>, OpenView>,
    pub resource: Seq<char>,
    pub fail_at: Option<CrashPoint>,
    pub cfg: Config,
}

impl<L: LockService> View for Harness<L> {
    type V = HarnessView<L::V>;

    closed spec fn view(&self) -> HarnessView<L::V> {
        HarnessView {
            lock: self.lock@,
            log: self.history@,
            open: self.open@.map_values(|o: Open| o@),
            resource: self.resource@,
            fail_at: self.store@.fail_at,
            cfg: self.cfg,
        }
    }
}

/// What the lock service answered: its state and the history afterwards, and the reply.
#[verifier::ext_equal]
#[verifier::reject_recursive_types(S)]
#[verifier::reject_recursive_types(R)]
pub struct Answer<S, R> {
    pub state: S,
    pub log: Log,
    pub reply: R,
}

impl<S> HarnessView<S> {
    /// After the lock service answered.
    pub open spec fn answered<R>(self, a: Answer<S, R>) -> HarnessView<S> {
        HarnessView { lock: a.state, log: a.log, ..self }
    }

    /// After one more event was recorded at `now`.
    pub open spec fn noted(self, now: u128, event: EventView) -> HarnessView<S> {
        HarnessView { log: history::record(self.log, clock::millis(now), event), ..self }
    }

    /// After `holder` stopped holding the lock across its thinking.
    pub open spec fn closed_for(self, holder: Seq<char>) -> HarnessView<S> {
        HarnessView { open: self.open.remove(holder), ..self }
    }
}

/// At `now`, a lock taken at `taken_at` has been held as long as it may be.
pub open spec fn past_ceiling(taken_at: u128, now: u128, ceiling: Duration) -> bool {
    (if now >= taken_at {
        now - taken_at
    } else {
        0
    }) >= ceiling.nanos
}

/// What the first half of a read does, given what the lock service answers. The lock is asked for
/// only under [`Span::Full`], and then kept.
pub open spec fn begin_read_outcome<S>(
    pre: HarnessView<S>,
    holder: Seq<char>,
    taken_at: u128,
    grant: Answer<S, Result<HoldingView, LockError>>,
    version: Answer<S, Result<Version, LockError>>,
    given: Answer<S, Result<(), LockError>>,
) -> (HarnessView<S>, Result<ReadingView, WriteErrorView>) {
    let opened = if pre.cfg.span == Span::Full {
        match grant.reply {
            Err(e) => Err(e),
            Ok(holding) => Ok(
                HarnessView {
                    open: pre.open.insert(holder, OpenView { holding, taken_at }),
                    ..pre.answered(grant)
                },
            ),
        }
    } else {
        Ok(pre)
    };
    match opened {
        Err(e) => (pre.answered(grant), Err(WriteErrorView::Lock(e))),
        Ok(h) => match version.reply {
            Err(e) => (
                if pre.cfg.span == Span::Full {
                    h.answered(version).closed_for(holder).answered(given)
                } else {
                    h.answered(version)
                },
                Err(WriteErrorView::Lock(e)),
            ),
            Ok(v) => (h.answered(version), Ok(ReadingView { holder, version: v })),
        },
    }
}

/// The answers are ones that the lock service gives to the questions which the first half of a read
/// asks.
pub open spec fn begin_read_asks<L: LockService>(
    pre: HarnessView<L::V>,
    holder: Seq<char>,
    grant: Answer<L::V, Result<HoldingView, LockError>>,
    version: Answer<L::V, Result<Version, LockError>>,
    given: Answer<L::V, Result<(), LockError>>,
) -> bool {
    if pre.cfg.span == Span::Full {
        &&& L::acquires(
            pre.lock,
            pre.log,
            pre.resource,
            holder,
            grant.state,
            grant.log,
            grant.reply,
        )
        &&& grant.reply is Ok ==> L::tells_version(
            grant.state,
            grant.log,
            pre.resource,
            version.state,
            version.log,
            version.reply,
        )
        &&& grant.reply is Ok && version.reply is Err ==> L::releases(
            version.state,
            version.log,
            grant.reply->Ok_0,
            given.state,
            given.log,
            given.reply,
        )
    } else {
        L::tells_version(
            pre.lock,
            pre.log,
            pre.resource,
            version.state,
            version.log,
            version.reply,
        )
    }
}

/// One first half of a read, with the hold counted from `taken_at`.
pub open spec fn begins_read_at<L: LockService>(
    pre: HarnessView<L::V>,
    holder: Seq<char>,
    taken_at: u128,
    post: HarnessView<L::V>,
    out: Result<ReadingView, WriteErrorView>,
) -> bool {
    exists|
        grant: Answer<L::V, Result<HoldingView, LockError>>,
        version: Answer<L::V, Result<Version, LockError>>,
        given: Answer<L::V, Result<(), LockError>>,
    |
        begin_read_asks::<L>(pre, holder, grant, version, given) && (post, out)
            == #[trigger] begin_read_outcome(pre, holder, taken_at, grant, version, given)
}

/// One first half of a read: it reads the watch once, and counts the hold from that reading.
pub open spec fn begins_read<L: LockService>(
    pre: HarnessView<L::V>,
    before: WatchView,
    holder: Seq<char>,
    post: HarnessView<L::V>,
    after: WatchView,
    out: Result<ReadingView, WriteErrorView>,
) -> bool {
    &&& watch::ticks(before, after)
    &&& begins_read_at::<L>(pre, holder, after.last, post, out)
}

/// What the second half of a read does: the read is recorded only if the content was there. An agent
/// that gets no content keeps no lock either.
pub open spec fn read_outcome<S>(
    pre: HarnessView<S>,
    reading: ReadingView,
    content: Result<Seq<char>, Seq<char>>,
    now: u128,
    given: Answer<S, Result<(), LockError>>,
) -> (HarnessView<S>, Result<SnapshotView, WriteErrorView>) {
    match content {
        Err(reason) => (
            abandon_outcome(pre, reading.holder, given),
            Err(WriteErrorView::Io(reason)),
        ),
        Ok(content) => (
            pre.noted(
                now,
                EventView::Read {
                    holder: reading.holder,
                    resource: pre.resource,
                    version: reading.version,
                },
            ),
            Ok(SnapshotView { content, version: reading.version }),
        ),
    }
}

/// The answer is one that the lock service gives to the release that ends a failed read.
pub open spec fn read_asks<L: LockService>(
    pre: HarnessView<L::V>,
    reading: ReadingView,
    content: Result<Seq<char>, Seq<char>>,
    given: Answer<L::V, Result<(), LockError>>,
) -> bool {
    content is Err ==> abandon_asks::<L>(pre, reading.holder, given)
}

/// One second half of a read: it reads the watch once.
pub open spec fn reads<L: LockService>(
    pre: HarnessView<L::V>,
    before: WatchView,
    reading: ReadingView,
    content: Result<Seq<char>, Seq<char>>,
    post: HarnessView<L::V>,
    after: WatchView,
    out: Result<SnapshotView, WriteErrorView>,
) -> bool {
    &&& watch::ticks(before, after)
    &&& exists|given: Answer<L::V, Result<(), LockError>>|
        read_asks::<L>(pre, reading, content, given) && (post, out) == #[trigger] read_outcome(
            pre,
            reading,
            content,
            after.last,
            given,
        )
}

/// What reporting progress does. A holder without a lock of its own has nothing to renew. Past the
/// hold ceiling nothing is renewed, whatever drives the renewal.
pub open spec fn progress_outcome<S>(
    pre: HarnessView<S>,
    holder: Seq<char>,
    checked_at: u128,
    noted_at: u128,
    renewal: Answer<S, Result<(), LockError>>,
) -> (HarnessView<S>, Result<(), WriteErrorView>) {
    if !pre.open.contains_key(holder) {
        (pre, Ok(()))
    } else if past_ceiling(pre.open[holder].taken_at, checked_at, pre.cfg.hold_ceiling) {
        (
            pre.noted(noted_at, EventView::CeilingReached { holder, resource: pre.resource }),
            Err(WriteErrorView::CeilingExceeded),
        )
    } else {
        (
            pre.answered(renewal),
            match renewal.reply {
                Ok(()) => Ok(()),
                Err(e) => Err(WriteErrorView::Lock(e)),
            },
        )
    }
}

/// The answer is one that the lock service gives to the renewal that reporting progress asks for.
pub open spec fn progress_asks<L: LockService>(
    pre: HarnessView<L::V>,
    holder: Seq<char>,
    checked_at: u128,
    renewal: Answer<L::V, Result<(), LockError>>,
) -> bool {
    pre.open.contains_key(holder) && !past_ceiling(
        pre.open[holder].taken_at,
        checked_at,
        pre.cfg.hold_ceiling,
    ) ==> L::renews(
        pre.lock,
        pre.log,
        pre.open[holder].holding,
        renewal.state,
        renewal.log,
        renewal.reply,
    )
}

/// One report of progress, observed at `now`. The watch is read again only to say when the ceiling was
/// reached.
pub open spec fn progresses_at<L: LockService>(
    pre: HarnessView<L::V>,
    before: WatchView,
    holder: Seq<char>,
    now: u128,
    post: HarnessView<L::V>,
    after: WatchView,
    out: Result<(), WriteErrorView>,
) -> bool {
    &&& if pre.open.contains_key(holder) && past_ceiling(
        pre.open[holder].taken_at,
        now,
        pre.cfg.hold_ceiling,
    ) {
        watch::ticks(before, after)
    } else {
        after == before
    }
    &&& exists|renewal: Answer<L::V, Result<(), LockError>>|
        progress_asks::<L>(pre, holder, now, renewal) && (post, out) == #[trigger] progress_outcome(
            pre,
            holder,
            now,
            after.last,
            renewal,
        )
}

/// One report of progress: it reads the watch, and decides at that reading.
pub open spec fn progresses<L: LockService>(
    pre: HarnessView<L::V>,
    before: WatchView,
    holder: Seq<char>,
    post: HarnessView<L::V>,
    after: WatchView,
    out: Result<(), WriteErrorView>,
) -> bool {
    exists|read: WatchView| #[trigger]
        watch::ticks(before, read) && progresses_at::<L>(
            pre,
            read,
            holder,
            read.last,
            post,
            after,
            out,
        )
}

/// The lock that a write goes under. Under [`Span::Full`] it is the one taken at the read, if it is
/// not past the ceiling; under [`Span::WriteOnly`] it is asked for now.
pub open spec fn write_lock<S>(
    pre: HarnessView<S>,
    holder: Seq<char>,
    checked_at: u128,
    grant: Answer<S, Result<HoldingView, LockError>>,
) -> Result<HoldingView, WriteErrorView> {
    match pre.cfg.span {
        Span::Full => if !pre.open.contains_key(holder) {
            Err(WriteErrorView::Lock(LockError::Expired))
        } else if past_ceiling(pre.open[holder].taken_at, checked_at, pre.cfg.hold_ceiling) {
            Err(WriteErrorView::CeilingExceeded)
        } else {
            Ok(pre.open[holder].holding)
        },
        Span::WriteOnly => match grant.reply {
            Ok(holding) => Ok(holding),
            Err(e) => Err(WriteErrorView::Lock(e)),
        },
    }
}

/// What the first half of authorizing a write does, given what the lock service answers.
pub open spec fn begin_write_outcome<S>(
    pre: HarnessView<S>,
    holder: Seq<char>,
    read_at: Version,
    content: Seq<char>,
    checked_at: u128,
    grant: Answer<S, Result<HoldingView, LockError>>,
    noted_at: u128,
) -> (HarnessView<S>, Result<AttemptView, WriteErrorView>) {
    let asked = if pre.cfg.span == Span::WriteOnly {
        pre.answered(grant)
    } else {
        pre
    };
    match write_lock(pre, holder, checked_at, grant) {
        Err(e) => (asked, Err(e)),
        Ok(holding) => (
            asked.noted(
                noted_at,
                EventView::WriteAttempted {
                    holder,
                    resource: pre.resource,
                    ticket: holding.ticket,
                    expected_version: read_at,
                },
            ),
            Ok(AttemptView { holder, holding, read_at, content }),
        ),
    }
}

/// The answer is one that the lock service gives to the request which an attempt makes.
pub open spec fn begin_write_asks<L: LockService>(
    pre: HarnessView<L::V>,
    holder: Seq<char>,
    grant: Answer<L::V, Result<HoldingView, LockError>>,
) -> bool {
    pre.cfg.span == Span::WriteOnly ==> L::acquires(
        pre.lock,
        pre.log,
        pre.resource,
        holder,
        grant.state,
        grant.log,
        grant.reply,
    )
}

/// One first half of authorizing a write, at `now`. The watch is read again only to say when the write
/// was attempted.
pub open spec fn begins_write_at<L: LockService>(
    pre: HarnessView<L::V>,
    before: WatchView,
    holder: Seq<char>,
    read_at: Version,
    content: Seq<char>,
    now: u128,
    post: HarnessView<L::V>,
    after: WatchView,
    out: Result<AttemptView, WriteErrorView>,
) -> bool {
    &&& if out is Ok {
        watch::ticks(before, after)
    } else {
        after == before
    }
    &&& exists|grant: Answer<L::V, Result<HoldingView, LockError>>|
        begin_write_asks::<L>(pre, holder, grant) && (post, out) == #[trigger] begin_write_outcome(
            pre,
            holder,
            read_at,
            content,
            now,
            grant,
            after.last,
        )
}

/// One first half of authorizing a write: it reads the watch, and decides at that reading.
pub open spec fn begins_write<L: LockService>(
    pre: HarnessView<L::V>,
    before: WatchView,
    holder: Seq<char>,
    read_at: Version,
    content: Seq<char>,
    post: HarnessView<L::V>,
    after: WatchView,
    out: Result<AttemptView, WriteErrorView>,
) -> bool {
    exists|read: WatchView| #[trigger]
        watch::ticks(before, read) && begins_write_at::<L>(
            pre,
            read,
            holder,
            read_at,
            content,
            read.last,
            post,
            after,
            out,
        )
}

/// The harness once the lock service has ruled against a write, and that was recorded.
pub open spec fn ruled_against<S>(
    pre: HarnessView<S>,
    a: AttemptView,
    ruling: Answer<S, Result<Version, Refusal>>,
    refused_at: u128,
) -> HarnessView<S> {
    pre.answered(ruling).noted(
        refused_at,
        EventView::WriteRefused {
            holder: a.holder,
            resource: pre.resource,
            reason: ruling.reply->Err_0,
            content: a.content,
        },
    )
}

/// What the second half of authorizing a write does. Nothing is asked of the lock service unless
/// the content is staged. A refused write is recorded. Whether it is refused or could not be staged,
/// the lock is given back at once if it was taken for this write alone.
pub open spec fn authorize_outcome<S>(
    pre: HarnessView<S>,
    a: AttemptView,
    written: Result<(), Seq<char>>,
    ruling: Answer<S, Result<Version, Refusal>>,
    refused_at: u128,
    given: Answer<S, Result<(), LockError>>,
) -> (HarnessView<S>, Result<AuthorizedView, WriteErrorView>) {
    match store::staged(pre.fail_at, written) {
        Err(reason) => (
            if pre.cfg.span == Span::WriteOnly {
                pre.answered(given)
            } else {
                pre
            },
            Err(WriteErrorView::Io(reason)),
        ),
        Ok(()) => match ruling.reply {
            Ok(new_version) => (
                pre.answered(ruling),
                Ok(AuthorizedView { holding: a.holding, new_version, content: a.content }),
            ),
            Err(reason) => {
                let refused = ruled_against(pre, a, ruling, refused_at);
                (
                    if pre.cfg.span == Span::WriteOnly {
                        refused.answered(given)
                    } else {
                        refused
                    },
                    Err(WriteErrorView::Refused(reason)),
                )
            },
        },
    }
}

/// The answers are ones that the lock service gives to what authorizing a write asks of it.
pub open spec fn authorize_asks<L: LockService>(
    pre: HarnessView<L::V>,
    a: AttemptView,
    written: Result<(), Seq<char>>,
    ruling: Answer<L::V, Result<Version, Refusal>>,
    refused_at: u128,
    given: Answer<L::V, Result<(), LockError>>,
) -> bool {
    if store::staged(pre.fail_at, written) is Err {
        pre.cfg.span == Span::WriteOnly ==> L::releases(
            pre.lock,
            pre.log,
            a.holding,
            given.state,
            given.log,
            given.reply,
        )
    } else {
        &&& L::commits(
            pre.lock,
            pre.log,
            a.holding,
            a.read_at,
            store::hash_of(a.content),
            ruling.state,
            ruling.log,
            ruling.reply,
        )
        &&& ruling.reply is Err && pre.cfg.span == Span::WriteOnly ==> {
            let refused = ruled_against(pre, a, ruling, refused_at);
            L::releases(
                refused.lock,
                refused.log,
                a.holding,
                given.state,
                given.log,
                given.reply,
            )
        }
    }
}

/// One second half of authorizing a write. The watch is read only to say when the write was refused.
pub open spec fn authorizes<L: LockService>(
    pre: HarnessView<L::V>,
    before: WatchView,
    a: AttemptView,
    written: Result<(), Seq<char>>,
    post: HarnessView<L::V>,
    after: WatchView,
    out: Result<AuthorizedView, WriteErrorView>,
) -> bool {
    &&& if out matches Err(WriteErrorView::Refused(_)) {
        watch::ticks(before, after)
    } else {
        after == before
    }
    &&& exists|
        ruling: Answer<L::V, Result<Version, Refusal>>,
        given: Answer<L::V, Result<(), LockError>>,
    |
        authorize_asks::<L>(pre, a, written, ruling, after.last, given) && (post, out)
            == #[trigger] authorize_outcome(pre, a, written, ruling, after.last, given)
}

/// The harness once an overtaken write was found out and recorded, and before its lock is given
/// back.
pub open spec fn overtaken<S>(
    pre: HarnessView<S>,
    a: AuthorizedView,
    current: Answer<S, Result<Version, LockError>>,
    refused_at: u128,
) -> HarnessView<S> {
    pre.answered(current).noted(
        refused_at,
        EventView::WriteRefused {
            holder: a.holding.holder,
            resource: pre.resource,
            reason: Refusal::StaleVersion { read: a.new_version, current: current.reply->Ok_0 },
            content: a.content,
        },
    ).closed_for(a.holding.holder)
}

/// What the first half of applying a write does. If another write was authorized in between, this
/// one must be discarded rather than applied: otherwise its older content would land on top of the
/// newer one. However the write fails, its lock is given back.
pub open spec fn begin_apply_outcome<S>(
    pre: HarnessView<S>,
    a: AuthorizedView,
    current: Answer<S, Result<Version, LockError>>,
    refused_at: u128,
    given: Answer<S, Result<(), LockError>>,
) -> (HarnessView<S>, Result<AuthorizedView, WriteErrorView>) {
    match current.reply {
        Err(e) => (
            pre.answered(current).closed_for(a.holding.holder).answered(given),
            Err(WriteErrorView::Lock(e)),
        ),
        Ok(version) => if version != a.new_version {
            (
                overtaken(pre, a, current, refused_at).answered(given),
                Err(WriteErrorView::Superseded { authorized: a.new_version, current: version }),
            )
        } else {
            match store::may_rename(pre.fail_at) {
                Err(reason) => (
                    pre.answered(current).closed_for(a.holding.holder).answered(given),
                    Err(WriteErrorView::Io(reason)),
                ),
                Ok(()) => (pre.answered(current), Ok(a)),
            }
        },
    }
}

/// The answers are ones that the lock service gives to what the first half of applying a write asks
/// of it.
pub open spec fn begin_apply_asks<L: LockService>(
    pre: HarnessView<L::V>,
    a: AuthorizedView,
    current: Answer<L::V, Result<Version, LockError>>,
    refused_at: u128,
    given: Answer<L::V, Result<(), LockError>>,
) -> bool {
    &&& L::tells_version(
        pre.lock,
        pre.log,
        pre.resource,
        current.state,
        current.log,
        current.reply,
    )
    &&& current.reply is Ok && current.reply->Ok_0 != a.new_version ==> {
        let refused = overtaken(pre, a, current, refused_at);
        L::releases(refused.lock, refused.log, a.holding, given.state, given.log, given.reply)
    }
    &&& current.reply is Err || (current.reply->Ok_0 == a.new_version && store::may_rename(
        pre.fail_at,
    ) is Err) ==> L::releases(
        current.state,
        current.log,
        a.holding,
        given.state,
        given.log,
        given.reply,
    )
}

/// One first half of applying a write. The watch is read only to say when the write was found to be
/// superseded.
pub open spec fn begins_apply<L: LockService>(
    pre: HarnessView<L::V>,
    before: WatchView,
    a: AuthorizedView,
    post: HarnessView<L::V>,
    after: WatchView,
    out: Result<AuthorizedView, WriteErrorView>,
) -> bool {
    &&& if out matches Err(WriteErrorView::Superseded { .. }) {
        watch::ticks(before, after)
    } else {
        after == before
    }
    &&& exists|
        current: Answer<L::V, Result<Version, LockError>>,
        given: Answer<L::V, Result<(), LockError>>,
    |
        begin_apply_asks::<L>(pre, a, current, after.last, given) && (post, out)
            == #[trigger] begin_apply_outcome(pre, a, current, after.last, given)
}

/// One authorization directly followed by the first half of applying it.
pub open spec fn writes<L: LockService>(
    pre: HarnessView<L::V>,
    before: WatchView,
    a: AttemptView,
    written: Result<(), Seq<char>>,
    post: HarnessView<L::V>,
    after: WatchView,
    out: Result<AuthorizedView, WriteErrorView>,
) -> bool {
    exists|
        mid: HarnessView<L::V>,
        between: WatchView,
        authorized: Result<AuthorizedView, WriteErrorView>,
    |
        #[trigger] authorizes::<L>(pre, before, a, written, mid, between, authorized)
            && match authorized {
            Err(e) => post == mid && after == between && out == Err::<
                AuthorizedView,
                WriteErrorView,
            >(e),
            Ok(granted) => begins_apply::<L>(mid, between, granted, post, after, out),
        }
}

/// The harness once a write was applied and recorded, and before its lock is given back.
pub open spec fn published<S>(
    pre: HarnessView<S>,
    a: AuthorizedView,
    accepted_at: u128,
) -> HarnessView<S> {
    pre.noted(
        accepted_at,
        EventView::WriteAccepted {
            holder: a.holding.holder,
            resource: pre.resource,
            ticket: a.holding.ticket,
            version: a.new_version,
            content: a.content,
        },
    ).closed_for(a.holding.holder)
}

/// What the second half of applying a write does. A write whose rename failed is not recorded as
/// accepted. Either way its lock is given back.
pub open spec fn apply_outcome<S>(
    pre: HarnessView<S>,
    a: AuthorizedView,
    renamed: Result<(), Seq<char>>,
    accepted_at: u128,
    given: Answer<S, Result<(), LockError>>,
) -> (HarnessView<S>, Result<Version, WriteErrorView>) {
    match renamed {
        Err(reason) => (
            pre.closed_for(a.holding.holder).answered(given),
            Err(WriteErrorView::Io(reason)),
        ),
        Ok(()) => (published(pre, a, accepted_at).answered(given), Ok(a.new_version)),
    }
}

/// The answer is one that the lock service gives to the release that ends a write.
pub open spec fn apply_asks<L: LockService>(
    pre: HarnessView<L::V>,
    a: AuthorizedView,
    renamed: Result<(), Seq<char>>,
    accepted_at: u128,
    given: Answer<L::V, Result<(), LockError>>,
) -> bool {
    let done = if renamed is Ok {
        published(pre, a, accepted_at)
    } else {
        pre
    };
    L::releases(done.lock, done.log, a.holding, given.state, given.log, given.reply)
}

/// One second half of applying a write. The watch is read only to say when the write was accepted.
pub open spec fn applies<L: LockService>(
    pre: HarnessView<L::V>,
    before: WatchView,
    a: AuthorizedView,
    renamed: Result<(), Seq<char>>,
    post: HarnessView<L::V>,
    after: WatchView,
    out: Result<Version, WriteErrorView>,
) -> bool {
    &&& if out is Ok {
        watch::ticks(before, after)
    } else {
        after == before
    }
    &&& exists|given: Answer<L::V, Result<(), LockError>>|
        apply_asks::<L>(pre, a, renamed, after.last, given) && (post, out)
            == #[trigger] apply_outcome(pre, a, renamed, after.last, given)
}

/// What abandoning a read does: whatever was held across the thinking is given back.
pub open spec fn abandon_outcome<S>(
    pre: HarnessView<S>,
    holder: Seq<char>,
    given: Answer<S, Result<(), LockError>>,
) -> HarnessView<S> {
    if pre.open.contains_key(holder) {
        pre.closed_for(holder).answered(given)
    } else {
        pre
    }
}

/// The answer is one that the lock service gives to the release that abandoning a read makes.
pub open spec fn abandon_asks<L: LockService>(
    pre: HarnessView<L::V>,
    holder: Seq<char>,
    given: Answer<L::V, Result<(), LockError>>,
) -> bool {
    pre.open.contains_key(holder) ==> L::releases(
        pre.lock,
        pre.log,
        pre.open[holder].holding,
        given.state,
        given.log,
        given.reply,
    )
}

/// One read abandoned.
pub open spec fn abandons<L: LockService>(
    pre: HarnessView<L::V>,
    holder: Seq<char>,
    post: HarnessView<L::V>,
) -> bool {
    exists|given: Answer<L::V, Result<(), LockError>>|
        abandon_asks::<L>(pre, holder, given) && post == #[trigger] abandon_outcome(
            pre,
            holder,
            given,
        )
}

/// One lock taken away.
pub open spec fn force_releases<L: LockService>(
    pre: HarnessView<L::V>,
    post: HarnessView<L::V>,
    out: Result<Ticket, LockError>,
) -> bool {
    &&& L::revokes(pre.lock, pre.log, pre.resource, post.lock, post.log, out)
    &&& post == (HarnessView { lock: post.lock, log: post.log, ..pre })
}

/// What a result with an error in it says.
pub open spec fn failing<A: View>(out: Result<A, WriteError>) -> Result<A::V, WriteErrorView> {
    match out {
        Ok(a) => Ok(a@),
        Err(e) => Err(e@),
    }
}

/// What a version or an error says.
pub open spec fn version_result(out: Result<Version, WriteError>) -> Result<
    Version,
    WriteErrorView,
> {
    match out {
        Ok(v) => Ok(v),
        Err(e) => Err(e@),
    }
}

/// What nothing or an error says.
pub open spec fn unit_result(out: Result<(), WriteError>) -> Result<(), WriteErrorView> {
    match out {
        Ok(()) => Ok(()),
        Err(e) => Err(e@),
    }
}

fn is_past_ceiling(taken_at: u128, now: u128, ceiling: Duration) -> (out: bool)
    ensures
        out == past_ceiling(taken_at, now, ceiling),
{
    let held: u128 = if now >= taken_at {
        now - taken_at
    } else {
        0
    };
    held >= ceiling.nanos
}

/// A service that did nothing, or used up one operation, has room for all but one.
proof fn lemma_spare_room<L: LockService>(before: L::V, after: L::V)
    requires
        (forall|n: nat| #[trigger] L::room(before, n) ==> L::room(after, n)) || (forall|n: nat|
            0 < n && #[trigger] L::room(before, n) ==> L::room(after, (n - 1) as nat)),
    ensures
        forall|n: nat| 0 < n && #[trigger] L::room(before, n) ==> L::room(after, (n - 1) as nat),
{
    if forall|n: nat| #[trigger] L::room(before, n) ==> L::room(after, n) {
        assert forall|n: nat| 0 < n && #[trigger] L::room(before, n) implies L::room(
            after,
            (n - 1) as nat,
        ) by {
            L::less_room(after, n, (n - 1) as nat);
        }
    }
}

impl<L: LockService> Harness<L> {
    /// What was read off the harness's watch.
    pub closed spec fn watch(&self) -> WatchView {
        self.watch@
    }

    /// A harness in front of the file of `store`. The resource is named by the file's path, as the
    /// store spells it.
    pub fn new(lock: L, store: FileStore, history: History, cfg: Config) -> (out: Self)
        ensures
            out@ == (HarnessView {
                lock: lock@,
                log: history@,
                open: Map::empty(),
                resource: store@.path,
                fail_at: store@.fail_at,
                cfg,
            }),
            out.watch() == WatchView::unread(),
    {
        let resource = store.path().to_owned();
        let out = Harness {
            lock,
            store,
            history,
            cfg,
            resource,
            watch: Watch::start(),
            open: StringHashMap::new(),
        };
        assert(out@.open =~= Map::empty());
        out
    }

    /// Everything that happened so far.
    pub fn history(&self) -> (out: &History)
        ensures
            out@ == self@.log,
    {
        &self.history
    }

    /// The lock service.
    pub fn lock_service(&self) -> (out: &L)
        ensures
            out@ == self@.lock,
    {
        &self.lock
    }

    /// The lock service and the history that it writes to, for whoever drives the harness: to ask
    /// the service something, or to record what became of an agent.
    pub fn service(&mut self) -> (out: (&mut L, &mut History))
        ensures
            out.0@ == old(self)@.lock,
            out.1@ == old(self)@.log,
            final(self)@ == (HarnessView {
                lock: final(out.0)@,
                log: final(out.1)@,
                ..old(self)@
            }),
            final(self).watch() == old(self).watch(),
    {
        (&mut self.lock, &mut self.history)
    }

    /// The name of the protected resource.
    pub fn resource(&self) -> (out: &ResourceId)
        ensures
            out@ == self@.resource,
    {
        &self.resource
    }

    /// The first half of a read.
    ///
    /// Under [`Span::WriteOnly`] this takes no lock at all, which is why the version that comes back
    /// is load-bearing: another holder may write before this agent commits. Under [`Span::Full`]
    /// this takes the lock and keeps it until the write.
    pub fn begin_read(&mut self, holder: &HolderId) -> (out: Result<Reading, WriteError>)
        requires
            L::room(old(self)@.lock, 1),
        ensures
            begins_read::<L>(
                old(self)@,
                old(self).watch(),
                holder@,
                final(self)@,
                final(self).watch(),
                failing(out),
            ),
            forall|n: nat|
                0 < n && #[trigger] L::room(old(self)@.lock, n) ==> L::room(
                    final(self)@.lock,
                    (n - 1) as nat,
                ),
    {
        let now: u128 = self.watch.read();
        self.begin_read_at(holder, now)
    }

    /// The first half of a read at `taken_at`, a reading of the harness's clock. A lock that is taken
    /// counts as held from then on, so its ceiling is reached that much later than `taken_at`.
    pub fn begin_read_at(&mut self, holder: &HolderId, taken_at: u128) -> (out: Result<
        Reading,
        WriteError,
    >)
        requires
            L::room(old(self)@.lock, 1),
        ensures
            begins_read_at::<L>(old(self)@, holder@, taken_at, final(self)@, failing(out)),
            final(self).watch() == old(self).watch(),
            forall|n: nat|
                0 < n && #[trigger] L::room(old(self)@.lock, n) ==> L::room(
                    final(self)@.lock,
                    (n - 1) as nat,
                ),
    {
        let ghost pre = self@;
        let ghost mut grant: Answer<L::V, Result<HoldingView, LockError>> = arbitrary();
        let ghost ungiven: Answer<L::V, Result<(), LockError>> = arbitrary();
        if self.cfg.span == Span::Full {
            let reply = self.lock.acquire(&mut self.history, &self.resource, holder);
            proof {
                grant = Answer {
                    state: self.lock@,
                    log: self.history@,
                    reply: lock::holding_reply(reply),
                };
            }
            match reply {
                Err(e) => {
                    proof {
                        let version: Answer<L::V, Result<Version, LockError>> = arbitrary();
                        assert(begin_read_asks::<L>(pre, holder@, grant, version, ungiven));
                        assert((self@, Err::<ReadingView, WriteErrorView>(WriteErrorView::Lock(e)))
                            == begin_read_outcome(
                            pre,
                            holder@,
                            taken_at,
                            grant,
                            version,
                            ungiven,
                        ));
                    }
                    return Err(WriteError::Lock(e));
                },
                Ok(holding) => {
                    self.open.insert(holder.clone(), Open { holding, taken_at });
                    proof {
                        assert(self@.open =~= pre.open.insert(
                            holder@,
                            OpenView { holding: holding@, taken_at },
                        ));
                    }
                },
            }
        }
        proof {
            lemma_spare_room::<L>(pre.lock, self@.lock);
        }
        let reply = self.lock.current_version(&mut self.history, &self.resource);
        let ghost version = Answer { state: self.lock@, log: self.history@, reply };
        let ghost mut given = ungiven;
        let out = match reply {
            Err(e) => {
                if self.cfg.span == Span::Full {
                    let ghost asked = self@;
                    self.abandon(holder);
                    proof {
                        given = choose|given: Answer<L::V, Result<(), LockError>>|
                            abandon_asks::<L>(asked, holder@, given) && self@
                                == #[trigger] abandon_outcome(asked, holder@, given);
                    }
                }
                Err(WriteError::Lock(e))
            },
            Ok(version) => Ok(Reading { holder: holder.clone(), version }),
        };
        proof {
            assert(begin_read_asks::<L>(pre, holder@, grant, version, given));
            assert((self@, failing(out)) == begin_read_outcome(
                pre,
                holder@,
                taken_at,
                grant,
                version,
                given,
            ));
        }
        out
    }

    /// The second half of a read. `raw` is what reading the file answered. If there was nothing to
    /// read, the agent keeps no lock.
    pub fn read(&mut self, reading: Reading, raw: Result<String, ReadFailure>) -> (out: Result<
        Snapshot,
        WriteError,
    >)
        requires
            L::room(old(self)@.lock, 0),
        ensures
            reads::<L>(
                old(self)@,
                old(self).watch(),
                reading@,
                store::content_read(raw),
                final(self)@,
                final(self).watch(),
                failing(out),
            ),
            forall|n: nat| #[trigger]
                L::room(old(self)@.lock, n) ==> L::room(final(self)@.lock, n),
    {
        let now: u128 = self.watch.read();
        let ghost pre = self@;
        let ghost rv = store::content_read(raw);
        match self.store.read(raw) {
            Err(reason) => {
                let out = Err(WriteError::Io(reason));
                self.abandon(&reading.holder);
                proof {
                    let given = choose|given: Answer<L::V, Result<(), LockError>>|
                        abandon_asks::<L>(pre, reading@.holder, given) && self@
                            == #[trigger] abandon_outcome(pre, reading@.holder, given);
                    assert(read_asks::<L>(pre, reading@, rv, given));
                    assert((self@, failing::<Snapshot>(out)) == read_outcome(
                        pre,
                        reading@,
                        rv,
                        now,
                        given,
                    ));
                }
                out
            },
            Ok(content) => {
                self.history.record(
                    clock::to_millis(now),
                    Event::Read {
                        holder: reading.holder.clone(),
                        resource: self.resource.clone(),
                        version: reading.version,
                    },
                );
                let out = Ok(Snapshot { content, version: reading.version });
                proof {
                    let ungiven: Answer<L::V, Result<(), LockError>> = arbitrary();
                    assert(read_asks::<L>(pre, reading@, rv, ungiven));
                    assert((self@, failing(out)) == read_outcome(
                        pre,
                        reading@,
                        rv,
                        now,
                        ungiven,
                    ));
                }
                out
            },
        }
    }

    /// Reports observed progress, keeping the lease alive.
    ///
    /// Renewal is driven by progress, not by a timer: a holder that stops making progress stops
    /// renewing by itself. Renewal never goes on past the hold ceiling, which is why no hold is
    /// unbounded even when the agent is alive and healthy.
    pub fn progress(&mut self, holder: &HolderId) -> (out: Result<(), WriteError>)
        requires
            L::room(old(self)@.lock, 0),
        ensures
            progresses::<L>(
                old(self)@,
                old(self).watch(),
                holder@,
                final(self)@,
                final(self).watch(),
                unit_result(out),
            ),
            forall|n: nat| #[trigger]
                L::room(old(self)@.lock, n) ==> L::room(final(self)@.lock, n),
    {
        let now: u128 = self.watch.read();
        self.progress_at(holder, now)
    }

    /// Reports progress observed at `now`, a reading of the harness's clock.
    pub fn progress_at(&mut self, holder: &HolderId, now: u128) -> (out: Result<(), WriteError>)
        requires
            L::room(old(self)@.lock, 0),
        ensures
            progresses_at::<L>(
                old(self)@,
                old(self).watch(),
                holder@,
                now,
                final(self)@,
                final(self).watch(),
                unit_result(out),
            ),
            forall|n: nat| #[trigger]
                L::room(old(self)@.lock, n) ==> L::room(final(self)@.lock, n),
    {
        let ghost pre = self@;
        let found = match self.open.get(holder.as_str()) {
            Some(o) => Some((o.holding.clone(), o.taken_at)),
            None => None,
        };
        let ghost unasked: Answer<L::V, Result<(), LockError>> = arbitrary();
        match found {
            None => {
                proof {
                    assert(progress_asks::<L>(pre, holder@, now, unasked));
                    assert((self@, Ok::<(), WriteErrorView>(())) == progress_outcome(
                        pre,
                        holder@,
                        now,
                        self.watch@.last,
                        unasked,
                    ));
                }
                Ok(())
            },
            Some((holding, taken_at)) => {
                proof {
                    assert(pre.open[holder@] == (OpenView { holding: holding@, taken_at }));
                }
                if is_past_ceiling(taken_at, now, self.cfg.hold_ceiling) {
                    let noted_at: u128 = self.watch.read();
                    self.history.record(
                        clock::to_millis(noted_at),
                        Event::CeilingReached {
                            holder: holder.clone(),
                            resource: self.resource.clone(),
                        },
                    );
                    proof {
                        assert(progress_asks::<L>(pre, holder@, now, unasked));
                        assert((
                            self@,
                            Err::<(), WriteErrorView>(WriteErrorView::CeilingExceeded),
                        ) == progress_outcome(pre, holder@, now, noted_at, unasked));
                    }
                    return Err(WriteError::CeilingExceeded);
                }
                let reply = self.lock.keepalive(&mut self.history, &holding);
                let ghost renewal = Answer { state: self.lock@, log: self.history@, reply };
                let out = match reply {
                    Ok(()) => Ok(()),
                    Err(e) => Err(WriteError::Lock(e)),
                };
                proof {
                    assert(progress_asks::<L>(pre, holder@, now, renewal));
                    assert((self@, unit_result(out)) == progress_outcome(
                        pre,
                        holder@,
                        now,
                        self.watch@.last,
                        renewal,
                    ));
                }
                out
            },
        }
    }

    /// The first half of authorizing a write: finds the lock that it goes under, and records the
    /// attempt.
    pub fn begin_write(&mut self, holder: &HolderId, read_at: Version, content: &str) -> (out: Result<
        Attempt,
        WriteError,
    >)
        requires
            L::room(old(self)@.lock, 1),
        ensures
            begins_write::<L>(
                old(self)@,
                old(self).watch(),
                holder@,
                read_at,
                content@,
                final(self)@,
                final(self).watch(),
                failing(out),
            ),
            forall|n: nat|
                0 < n && #[trigger] L::room(old(self)@.lock, n) ==> L::room(
                    final(self)@.lock,
                    (n - 1) as nat,
                ),
    {
        let now: u128 = self.watch.read();
        self.begin_write_at(holder, read_at, content, now)
    }

    /// The first half of authorizing a write at `now`, a reading of the harness's clock.
    pub fn begin_write_at(
        &mut self,
        holder: &HolderId,
        read_at: Version,
        content: &str,
        now: u128,
    ) -> (out: Result<Attempt, WriteError>)
        requires
            L::room(old(self)@.lock, 1),
        ensures
            begins_write_at::<L>(
                old(self)@,
                old(self).watch(),
                holder@,
                read_at,
                content@,
                now,
                final(self)@,
                final(self).watch(),
                failing(out),
            ),
            forall|n: nat|
                0 < n && #[trigger] L::room(old(self)@.lock, n) ==> L::room(
                    final(self)@.lock,
                    (n - 1) as nat,
                ),
    {
        let ghost pre = self@;
        let ghost mut grant: Answer<L::V, Result<HoldingView, LockError>> = arbitrary();
        let found: Result<Holding, WriteError> = match self.cfg.span {
            Span::Full => match self.open.get(holder.as_str()) {
                None => Err(WriteError::Lock(LockError::Expired)),
                Some(o) => {
                    assert(pre.open[holder@] == o@);
                    if is_past_ceiling(o.taken_at, now, self.cfg.hold_ceiling) {
                        Err(WriteError::CeilingExceeded)
                    } else {
                        Ok(o.holding.clone())
                    }
                },
            },
            Span::WriteOnly => {
                let reply = self.lock.acquire(&mut self.history, &self.resource, holder);
                proof {
                    grant = Answer {
                        state: self.lock@,
                        log: self.history@,
                        reply: lock::holding_reply(reply),
                    };
                }
                match reply {
                    Ok(holding) => Ok(holding),
                    Err(e) => Err(WriteError::Lock(e)),
                }
            },
        };
        proof {
            lemma_spare_room::<L>(pre.lock, self@.lock);
            assert(begin_write_asks::<L>(pre, holder@, grant));
            assert(failing(found) == write_lock(pre, holder@, now, grant));
        }
        match found {
            Err(e) => {
                assert((self@, Err::<AttemptView, WriteErrorView>(e@)) == begin_write_outcome(
                    pre,
                    holder@,
                    read_at,
                    content@,
                    now,
                    grant,
                    self.watch@.last,
                ));
                Err(e)
            },
            Ok(holding) => {
                let noted_at: u128 = self.watch.read();
                self.history.record(
                    clock::to_millis(noted_at),
                    Event::WriteAttempted {
                        holder: holder.clone(),
                        resource: self.resource.clone(),
                        ticket: holding.ticket,
                        expected_version: read_at,
                    },
                );
                let attempt = Attempt {
                    holder: holder.clone(),
                    holding,
                    read_at,
                    content: content.to_owned(),
                };
                assert((self@, Ok::<AttemptView, WriteErrorView>(attempt@)) == begin_write_outcome(
                    pre,
                    holder@,
                    read_at,
                    content@,
                    now,
                    grant,
                    noted_at,
                ));
                Ok(attempt)
            },
        }
    }

    /// The second half of authorizing a write: has the lock service authorize it, indivisibly.
    /// `written` is what writing the staging file answered.
    ///
    /// The ticket and the version are compared together inside [`LockService::commit`], so there is
    /// no gap between checking and deciding. This is the commit point: ticket validity is defined
    /// here, not when bytes reach the disk.
    pub fn authorize(&mut self, attempt: Attempt, written: Result<(), String>) -> (out: Result<
        Authorized,
        WriteError,
    >)
        requires
            L::room(old(self)@.lock, 1),
        ensures
            authorizes::<L>(
                old(self)@,
                old(self).watch(),
                attempt@,
                store::unit_result(written),
                final(self)@,
                final(self).watch(),
                failing(out),
            ),
            forall|n: nat|
                0 < n && #[trigger] L::room(old(self)@.lock, n) ==> L::room(
                    final(self)@.lock,
                    (n - 1) as nat,
                ),
    {
        let ghost pre = self@;
        let ghost a = attempt@;
        let ghost w = store::unit_result(written);
        let ghost unruled: Answer<L::V, Result<Version, Refusal>> = arbitrary();
        let ghost ungiven: Answer<L::V, Result<(), LockError>> = arbitrary();
        match self.store.prepare(written) {
            Err(reason) => {
                let ghost mut given: Answer<L::V, Result<(), LockError>> = ungiven;
                proof {
                    L::less_room(pre.lock, 1, 0);
                }
                if self.cfg.span == Span::WriteOnly {
                    let released = self.lock.release(&mut self.history, &attempt.holding);
                    proof {
                        given =
                        Answer { state: self.lock@, log: self.history@, reply: released };
                    }
                }
                proof {
                    assert(authorize_asks::<L>(pre, a, w, unruled, self.watch@.last, given));
                    assert((self@, Err::<AuthorizedView, WriteErrorView>(
                        WriteErrorView::Io(reason@),
                    )) == authorize_outcome(pre, a, w, unruled, self.watch@.last, given));
                    lemma_spare_room::<L>(pre.lock, self@.lock);
                }
                return Err(WriteError::Io(reason));
            },
            Ok(()) => {},
        }
        let hash: u64 = content_hash(attempt.content.as_str());
        let reply = self.lock.commit(&mut self.history, &attempt.holding, attempt.read_at, hash);
        let ghost ruling = Answer { state: self.lock@, log: self.history@, reply };
        match reply {
            Ok(new_version) => {
                let authorized = Authorized {
                    holding: attempt.holding,
                    new_version,
                    content: attempt.content,
                };
                proof {
                    assert(authorize_asks::<L>(pre, a, w, ruling, self.watch@.last, ungiven));
                    assert((self@, Ok::<AuthorizedView, WriteErrorView>(authorized@))
                        == authorize_outcome(pre, a, w, ruling, self.watch@.last, ungiven));
                }
                Ok(authorized)
            },
            Err(reason) => {
                let refused_at: u128 = self.watch.read();
                self.history.record(
                    clock::to_millis(refused_at),
                    Event::WriteRefused {
                        holder: attempt.holder.clone(),
                        resource: self.resource.clone(),
                        reason,
                        content: attempt.content.clone(),
                    },
                );
                proof {
                    assert(self@ == ruled_against(pre, a, ruling, refused_at));
                }
                let ghost mut given: Answer<L::V, Result<(), LockError>> = ungiven;
                if self.cfg.span == Span::WriteOnly {
                    let released = self.lock.release(&mut self.history, &attempt.holding);
                    proof {
                        given =
                        Answer { state: self.lock@, log: self.history@, reply: released };
                    }
                }
                proof {
                    assert(authorize_asks::<L>(pre, a, w, ruling, refused_at, given));
                    assert((self@, Err::<AuthorizedView, WriteErrorView>(
                        WriteErrorView::Refused(reason),
                    )) == authorize_outcome(pre, a, w, ruling, refused_at, given));
                }
                Err(WriteError::Refused(reason))
            },
        }
    }

    /// The first half of applying an authorized write: asks whether it still is the latest one.
    ///
    /// If another holder committed in between, the authorization was overtaken, and the write is
    /// discarded rather than applied. On `Ok` the caller renames the staged file over the resource.
    pub fn begin_apply(&mut self, a: Authorized) -> (out: Result<Publishable, WriteError>)
        requires
            L::room(old(self)@.lock, 0),
        ensures
            begins_apply::<L>(
                old(self)@,
                old(self).watch(),
                a@,
                final(self)@,
                final(self).watch(),
                failing(out),
            ),
            forall|n: nat| #[trigger]
                L::room(old(self)@.lock, n) ==> L::room(final(self)@.lock, n),
    {
        let ghost pre = self@;
        let ghost av = a@;
        let ghost ungiven: Answer<L::V, Result<(), LockError>> = arbitrary();
        let reply = self.lock.current_version(&mut self.history, &self.resource);
        let ghost current = Answer { state: self.lock@, log: self.history@, reply };
        let version = match reply {
            Err(e) => {
                let released = self.finish(&a.holding);
                proof {
                    let given = Answer { state: self.lock@, log: self.history@, reply: released };
                    assert(begin_apply_asks::<L>(pre, av, current, self.watch@.last, given));
                    assert((self@, Err::<AuthorizedView, WriteErrorView>(WriteErrorView::Lock(e)))
                        == begin_apply_outcome(pre, av, current, self.watch@.last, given));
                }
                return Err(WriteError::Lock(e));
            },
            Ok(version) => version,
        };
        if version != a.new_version {
            let refused_at: u128 = self.watch.read();
            self.history.record(
                clock::to_millis(refused_at),
                Event::WriteRefused {
                    holder: a.holding.holder.clone(),
                    resource: self.resource.clone(),
                    reason: Refusal::StaleVersion { read: a.new_version, current: version },
                    content: a.content.clone(),
                },
            );
            let ghost before = self@;
            let released = self.finish(&a.holding);
            let ghost given = Answer { state: self.lock@, log: self.history@, reply: released };
            let out = Err(
                WriteError::Superseded { authorized: a.new_version, current: version },
            );
            proof {
                assert(before.closed_for(av.holding.holder) == overtaken(
                    pre,
                    av,
                    current,
                    refused_at,
                ));
                assert(begin_apply_asks::<L>(pre, av, current, refused_at, given));
                assert((self@, failing::<Publishable>(out)) == begin_apply_outcome(
                    pre,
                    av,
                    current,
                    refused_at,
                    given,
                ));
            }
            return out;
        }
        match self.store.commit() {
            Err(reason) => {
                let released = self.finish(&a.holding);
                let out = Err(WriteError::Io(reason));
                proof {
                    let given = Answer { state: self.lock@, log: self.history@, reply: released };
                    assert(begin_apply_asks::<L>(pre, av, current, self.watch@.last, given));
                    assert((self@, failing::<Publishable>(out)) == begin_apply_outcome(
                        pre,
                        av,
                        current,
                        self.watch@.last,
                        given,
                    ));
                }
                out
            },
            Ok(()) => {
                let out = Ok(Publishable { authorized: a });
                proof {
                    assert(begin_apply_asks::<L>(pre, av, current, self.watch@.last, ungiven));
                    assert((self@, failing(out)) == begin_apply_outcome(
                        pre,
                        av,
                        current,
                        self.watch@.last,
                        ungiven,
                    ));
                }
                out
            },
        }
    }

    /// The second half of applying a write. `renamed` is what the rename answered.
    pub fn apply(&mut self, p: Publishable, renamed: Result<(), String>) -> (out: Result<
        Version,
        WriteError,
    >)
        requires
            L::room(old(self)@.lock, 0),
        ensures
            applies::<L>(
                old(self)@,
                old(self).watch(),
                p@,
                store::unit_result(renamed),
                final(self)@,
                final(self).watch(),
                version_result(out),
            ),
            forall|n: nat| #[trigger]
                L::room(old(self)@.lock, n) ==> L::room(final(self)@.lock, n),
    {
        let ghost pre = self@;
        let ghost av = p@;
        let ghost rv = store::unit_result(renamed);
        match renamed {
            Err(reason) => {
                let released = self.finish(&p.authorized.holding);
                proof {
                    let given = Answer { state: self.lock@, log: self.history@, reply: released };
                    assert(apply_asks::<L>(pre, av, rv, self.watch@.last, given));
                    assert((self@, Err::<Version, WriteErrorView>(WriteErrorView::Io(reason@)))
                        == apply_outcome(pre, av, rv, self.watch@.last, given));
                }
                Err(WriteError::Io(reason))
            },
            Ok(()) => {
                let a = p.authorized;
                let accepted_at: u128 = self.watch.read();
                self.history.record(
                    clock::to_millis(accepted_at),
                    Event::WriteAccepted {
                        holder: a.holding.holder.clone(),
                        resource: self.resource.clone(),
                        ticket: a.holding.ticket,
                        version: a.new_version,
                        content: a.content.clone(),
                    },
                );
                let ghost before = self@;
                let released = self.finish(&a.holding);
                proof {
                    let given = Answer { state: self.lock@, log: self.history@, reply: released };
                    assert(before.closed_for(av.holding.holder) == published(
                        pre,
                        av,
                        accepted_at,
                    ));
                    assert(apply_asks::<L>(pre, av, rv, accepted_at, given));
                    assert((self@, Ok::<Version, WriteErrorView>(a.new_version)) == apply_outcome(
                        pre,
                        av,
                        rv,
                        accepted_at,
                        given,
                    ));
                }
                Ok(a.new_version)
            },
        }
    }

    /// Closes a hold: nothing is held across thinking any more, and the lock is given back.
    fn finish(&mut self, holding: &Holding) -> (out: Result<(), LockError>)
        requires
            L::room(old(self)@.lock, 0),
        ensures
            L::releases(
                old(self)@.lock,
                old(self)@.log,
                holding@,
                final(self)@.lock,
                final(self)@.log,
                out,
            ),
            final(self)@ == (HarnessView {
                lock: final(self)@.lock,
                log: final(self)@.log,
                ..old(self)@.closed_for(holding@.holder)
            }),
            final(self).watch() == old(self).watch(),
            forall|n: nat| #[trigger]
                L::room(old(self)@.lock, n) ==> L::room(final(self)@.lock, n),
    {
        self.open.remove(holding.holder.as_str());
        proof {
            assert(self@.open =~= old(self)@.open.remove(holding@.holder));
        }
        self.lock.release(&mut self.history, holding)
    }

    /// The normal path: authorizes a write and goes on to apply it. `written` is what writing the
    /// staging file answered; on `Ok` the caller renames it over the resource.
    pub fn write(&mut self, attempt: Attempt, written: Result<(), String>) -> (out: Result<
        Publishable,
        WriteError,
    >)
        requires
            L::room(old(self)@.lock, 1),
        ensures
            writes::<L>(
                old(self)@,
                old(self).watch(),
                attempt@,
                store::unit_result(written),
                final(self)@,
                final(self).watch(),
                failing(out),
            ),
            forall|n: nat|
                0 < n && #[trigger] L::room(old(self)@.lock, n) ==> L::room(
                    final(self)@.lock,
                    (n - 1) as nat,
                ),
    {
        let ghost pre = self@;
        let ghost before = self.watch();
        let ghost w = store::unit_result(written);
        let authorized = self.authorize(attempt, written);
        let ghost mid = self@;
        let ghost between = self.watch();
        assert(authorizes::<L>(pre, before, attempt@, w, mid, between, failing(authorized)));
        assert(L::room(mid.lock, (1 - 1) as nat));
        match authorized {
            Err(e) => Err(e),
            Ok(a) => self.begin_apply(a),
        }
    }

    /// Abandons a read without writing, giving back anything that is held.
    pub fn abandon(&mut self, holder: &HolderId)
        requires
            L::room(old(self)@.lock, 0),
        ensures
            abandons::<L>(old(self)@, holder@, final(self)@),
            final(self).watch() == old(self).watch(),
            forall|n: nat| #[trigger]
                L::room(old(self)@.lock, n) ==> L::room(final(self)@.lock, n),
    {
        let ghost pre = self@;
        let found = match self.open.get(holder.as_str()) {
            Some(o) => Some(o.holding.clone()),
            None => None,
        };
        match found {
            None => {
                proof {
                    let ungiven: Answer<L::V, Result<(), LockError>> = arbitrary();
                    assert(abandon_asks::<L>(pre, holder@, ungiven));
                    assert(self@ == abandon_outcome(pre, holder@, ungiven));
                }
            },
            Some(holding) => {
                assert(pre.open[holder@].holding == holding@);
                self.open.remove(holder.as_str());
                proof {
                    assert(self@.open =~= pre.open.remove(holder@));
                }
                let released = self.lock.release(&mut self.history, &holding);
                proof {
                    let given = Answer { state: self.lock@, log: self.history@, reply: released };
                    assert(abandon_asks::<L>(pre, holder@, given));
                    assert(self@ == abandon_outcome(pre, holder@, given));
                }
            },
        }
    }

    /// Takes the lock away from whoever holds it, without acquiring it. Whoever calls this can never
    /// block on the lock that it is reclaiming.
    pub fn force_release(&mut self) -> (out: Result<Ticket, LockError>)
        requires
            L::room(old(self)@.lock, 1),
        ensures
            force_releases::<L>(old(self)@, final(self)@, out),
            final(self).watch() == old(self).watch(),
            forall|n: nat|
                0 < n && #[trigger] L::room(old(self)@.lock, n) ==> L::room(
                    final(self)@.lock,
                    (n - 1) as nat,
                ),
    {
        self.lock.force_release(&mut self.history, &self.resource)
    }
}

} // verus!
