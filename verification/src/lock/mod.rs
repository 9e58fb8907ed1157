//! The lock-service interface: the one abstraction that every lock service satisfies.
//!
//! It hides two things: where ticket numbers come from, and how the service decides that a holder
//! is gone. There is deliberately no conditional write over the resource itself. What
//! [`LockService::commit`] guards is the *version*, which does live in the service.
//!
//! A service answers from its own state and from whatever else it knows, such as the time. So each
//! operation is described by a relation between the state and the history before it, its arguments,
//! the state and the history after it, and the answer. An implementation says what its relations
//! are; whatever is built on the interface is proved for all of them.

pub mod effects;
pub mod fake;
pub mod laws;
pub mod leases;
pub mod table;

use crate::history::{History, Log};
use crate::types::{HolderId, Holding, HoldingView, LockError, Refusal, ResourceId, Ticket, Version};
use vstd::prelude::*;

verus! {

/// What an answer to a request for the lock says.
pub open spec fn holding_reply(out: Result<Holding, LockError>) -> Result<HoldingView, LockError> {
    match out {
        Ok(h) => Ok(h@),
        Err(e) => Err(e),
    }
}

/// A lock service. Every operation may write to the history.
pub trait LockService: View + Sized {
    /// The state is sound, and `n` more grants, revocations and commits fit in its counters.
    spec fn room(state: Self::V, n: nat) -> bool;

    /// Where there is room for more, there is room for less.
    proof fn less_room(state: Self::V, n: nat, m: nat)
        requires
            Self::room(state, n),
            m <= n,
        ensures
            Self::room(state, m),
    ;

    /// Whether `n` more grants, revocations and commits can be made.
    fn has_room(&self, n: u64) -> (out: bool)
        ensures
            out == Self::room(self@, n as nat),
    ;

    /// One request for the lock.
    spec fn acquires(
        pre: Self::V,
        log: Log,
        resource: Seq<char>,
        holder: Seq<char>,
        post: Self::V,
        after: Log,
        out: Result<HoldingView, LockError>,
    ) -> bool;

    /// Takes the lock. Fails with [`LockError::Contended`] if someone else holds it.
    fn acquire(&mut self, history: &mut History, resource: &ResourceId, holder: &HolderId) -> (out:
        Result<Holding, LockError>)
        requires
            Self::room(old(self)@, 1),
        ensures
            Self::acquires(
                old(self)@,
                old(history)@,
                resource@,
                holder@,
                final(self)@,
                final(history)@,
                holding_reply(out),
            ),
            forall|n: nat|
                0 < n && #[trigger] Self::room(old(self)@, n) ==> Self::room(
                    final(self)@,
                    (n - 1) as nat,
                ),
    ;

    /// One release.
    spec fn releases(
        pre: Self::V,
        log: Log,
        holding: HoldingView,
        post: Self::V,
        after: Log,
        out: Result<(), LockError>,
    ) -> bool;

    /// Normal completion. Idempotent: giving back a lock already lost is not an error, because the
    /// caller may be learning about the loss for the first time.
    fn release(&mut self, history: &mut History, holding: &Holding) -> (out: Result<(), LockError>)
        requires
            Self::room(old(self)@, 0),
        ensures
            Self::releases(
                old(self)@,
                old(history)@,
                holding@,
                final(self)@,
                final(history)@,
                out,
            ),
            forall|n: nat| #[trigger] Self::room(old(self)@, n) ==> Self::room(final(self)@, n),
    ;

    /// One question for the ticket in force.
    spec fn tells_ticket(
        pre: Self::V,
        log: Log,
        resource: Seq<char>,
        post: Self::V,
        after: Log,
        out: Result<Option<Ticket>, LockError>,
    ) -> bool;

    /// The ticket in force *right now*, or `None` if nobody holds the lock.
    fn current_ticket(&mut self, history: &mut History, resource: &ResourceId) -> (out: Result<
        Option<Ticket>,
        LockError,
    >)
        requires
            Self::room(old(self)@, 0),
        ensures
            Self::tells_ticket(
                old(self)@,
                old(history)@,
                resource@,
                final(self)@,
                final(history)@,
                out,
            ),
            forall|n: nat| #[trigger] Self::room(old(self)@, n) ==> Self::room(final(self)@, n),
    ;

    /// One renewal.
    spec fn renews(
        pre: Self::V,
        log: Log,
        holding: HoldingView,
        post: Self::V,
        after: Log,
        out: Result<(), LockError>,
    ) -> bool;

    /// Keeps a long hold alive. The caller must never renew past the hold ceiling; the ceiling is
    /// enforced by the harness, not here.
    fn keepalive(&mut self, history: &mut History, holding: &Holding) -> (out: Result<
        (),
        LockError,
    >)
        requires
            Self::room(old(self)@, 0),
        ensures
            Self::renews(
                old(self)@,
                old(history)@,
                holding@,
                final(self)@,
                final(history)@,
                out,
            ),
            forall|n: nat| #[trigger] Self::room(old(self)@, n) ==> Self::room(final(self)@, n),
    ;

    /// One revocation.
    spec fn revokes(
        pre: Self::V,
        log: Log,
        resource: Seq<char>,
        post: Self::V,
        after: Log,
        out: Result<Ticket, LockError>,
    ) -> bool;

    /// Takes the lock away from a holder that has not given it back.
    ///
    /// This does not notify the holder at all: the holder discovers it only when its next write is
    /// refused. It must not require holding the lock, because whoever calls it cannot block on the
    /// thing it is trying to reclaim.
    fn force_release(&mut self, history: &mut History, resource: &ResourceId) -> (out: Result<
        Ticket,
        LockError,
    >)
        requires
            Self::room(old(self)@, 1),
        ensures
            Self::revokes(
                old(self)@,
                old(history)@,
                resource@,
                final(self)@,
                final(history)@,
                out,
            ),
            forall|n: nat|
                0 < n && #[trigger] Self::room(old(self)@, n) ==> Self::room(
                    final(self)@,
                    (n - 1) as nat,
                ),
    ;

    /// One question whether a hold is still there.
    spec fn tells_held(
        pre: Self::V,
        log: Log,
        holding: HoldingView,
        post: Self::V,
        after: Log,
        out: Result<bool, LockError>,
    ) -> bool;

    /// Advisory only: never permission to write. Treating it as one brings back exactly the
    /// check-then-act race that checking the ticket at commit time exists to eliminate.
    fn is_still_held(&mut self, history: &mut History, holding: &Holding) -> (out: Result<
        bool,
        LockError,
    >)
        requires
            Self::room(old(self)@, 0),
        ensures
            Self::tells_held(
                old(self)@,
                old(history)@,
                holding@,
                final(self)@,
                final(history)@,
                out,
            ),
            forall|n: nat| #[trigger] Self::room(old(self)@, n) ==> Self::room(final(self)@, n),
    ;

    /// One question for the content version.
    spec fn tells_version(
        pre: Self::V,
        log: Log,
        resource: Seq<char>,
        post: Self::V,
        after: Log,
        out: Result<Version, LockError>,
    ) -> bool;

    /// The resource's current content version.
    fn current_version(&mut self, history: &mut History, resource: &ResourceId) -> (out: Result<
        Version,
        LockError,
    >)
        requires
            Self::room(old(self)@, 0),
        ensures
            Self::tells_version(
                old(self)@,
                old(history)@,
                resource@,
                final(self)@,
                final(history)@,
                out,
            ),
            forall|n: nat| #[trigger] Self::room(old(self)@, n) ==> Self::room(final(self)@, n),
    ;

    /// One attempt to have a write authorized.
    spec fn commits(
        pre: Self::V,
        log: Log,
        holding: HoldingView,
        expected_version: Version,
        content_hash: u64,
        post: Self::V,
        after: Log,
        out: Result<Version, Refusal>,
    ) -> bool;

    /// **The atomic step.** Compares the holder's ticket against the current one *and* the expected
    /// version against the current one, and if both match, moves the version on and stores the
    /// content hash, indivisibly.
    ///
    /// This is the authorization point. Ticket validity is defined here, at the moment a write is
    /// authorized, rather than at the moment bytes reach the disk.
    fn commit(
        &mut self,
        history: &mut History,
        holding: &Holding,
        expected_version: Version,
        content_hash: u64,
    ) -> (out: Result<Version, Refusal>)
        requires
            Self::room(old(self)@, 1),
        ensures
            Self::commits(
                old(self)@,
                old(history)@,
                holding@,
                expected_version,
                content_hash,
                final(self)@,
                final(history)@,
                out,
            ),
            forall|n: nat|
                0 < n && #[trigger] Self::room(old(self)@, n) ==> Self::room(
                    final(self)@,
                    (n - 1) as nat,
                ),
    ;
}

} // verus!
