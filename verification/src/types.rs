//! Core value types.
//!
//! Two distinct numbers, deliberately not one. A [`Ticket`] changes when the lock changes hands; a
//! [`Version`] changes when the content of the resource changes. Using one for the other is sound
//! only while the lock is held from the read to the write ([`Span::Full`]), which is why both
//! exist.

use crate::text;
use vstd::prelude::*;
use vstd::string::*;

verus! {

/// Whose turn it is. Issued by the lock service, never by the harness and never by an agent.
#[derive(Debug, Clone, Copy, PartialEq, Eq, PartialOrd, Ord, Hash, Structural)]
pub struct Ticket(pub u64);

/// Which version of the *content* this is. Increases with every authorized write.
#[derive(Debug, Clone, Copy, PartialEq, Eq, PartialOrd, Ord, Hash, Structural)]
pub struct Version(pub u64);

/// Identifies a protected resource. Two spellings of one path are two resources.
pub type ResourceId = String;

/// Identifies an agent. Agents never see tickets, so this is the only identity they carry.
pub type HolderId = String;

/// Proof that the lock was granted. Held by the harness, never handed to an agent.
#[derive(Debug, PartialEq, Eq)]
pub struct Holding {
    pub resource: ResourceId,
    pub holder: HolderId,
    pub ticket: Ticket,
}

/// What a [`Holding`] says.
pub struct HoldingView {
    pub resource: Seq<char>,
    pub holder: Seq<char>,
    pub ticket: Ticket,
}

impl View for Holding {
    type V = HoldingView;

    open spec fn view(&self) -> HoldingView {
        HoldingView { resource: self.resource@, holder: self.holder@, ticket: self.ticket }
    }
}

impl Clone for Holding {
    fn clone(&self) -> (out: Self)
        ensures
            out@ == self@,
    {
        Holding {
            resource: self.resource.clone(),
            holder: self.holder.clone(),
            ticket: self.ticket,
        }
    }
}

/// Which work sits inside the lock.
#[derive(Debug, Clone, Copy, PartialEq, Eq, Structural)]
pub enum Span {
    /// Lock only the commit. The hold lasts as long as one local write. Staleness is caught by the
    /// [`Version`] check.
    WriteOnly,
    /// Lock from the read to the commit. Nothing can change underneath, and every hold lasts as
    /// long as the agent thinks.
    Full,
}

/// Why a write was refused. Every variant is a *refusal*, never a rollback: nothing speculative is
/// ever written.
#[allow(inconsistent_fields)]
#[derive(Debug, Clone, Copy, PartialEq, Eq, Structural)]
pub enum Refusal {
    /// The holder's ticket is no longer current: it lost the lock.
    StaleTicket { held: Ticket, current: Option<Ticket> },
    /// The content moved under the holder while it was deciding.
    StaleVersion { read: Version, current: Version },
    /// The holder does not hold the lock at all.
    NotHeld,
}

/// Errors from the lock service itself, as opposed to a refused write.
#[derive(Debug, Clone, Copy, PartialEq, Eq, Structural)]
pub enum LockError {
    /// Someone else holds it.
    Contended,
    /// The lease lapsed before this call.
    Expired,
    /// The lock service could not be reached.
    Unreachable,
}

/// A ticket as it is printed.
pub open spec fn ticket_text(t: Ticket) -> Seq<char> {
    "Ticket("@ + text::decimal(t.0 as nat) + ")"@
}

/// A ticket that may be absent, as it is printed.
pub open spec fn ticket_option_text(t: Option<Ticket>) -> Seq<char> {
    match t {
        Some(ticket) => "Some("@ + ticket_text(ticket) + ")"@,
        None => "None"@,
    }
}

/// A version as it is printed.
pub open spec fn version_text(v: Version) -> Seq<char> {
    "Version("@ + text::decimal(v.0 as nat) + ")"@
}

/// A version that may be absent, as it is printed.
pub open spec fn version_option_text(v: Option<Version>) -> Seq<char> {
    match v {
        Some(version) => "Some("@ + version_text(version) + ")"@,
        None => "None"@,
    }
}

/// A refusal, put to a reader.
pub open spec fn refusal_text(r: Refusal) -> Seq<char> {
    match r {
        Refusal::StaleTicket { held, current } => "stale ticket: held "@ + ticket_text(held)
            + ", current "@ + ticket_option_text(current),
        Refusal::StaleVersion { read, current } => "stale version: read "@ + version_text(read)
            + ", current "@ + version_text(current),
        Refusal::NotHeld => "not held"@,
    }
}

/// **A printed ticket or version reads back.** What stands between the brackets is the number, whichever
/// it is; so two that print alike are the same.
pub proof fn printed_numbers_read_back(t: Ticket, v: Version)
    ensures
        text::read_number(ticket_text(t).subrange(7, ticket_text(t).len() - 1)) == t.0,
        text::read_number(version_text(v).subrange(8, version_text(v).len() - 1)) == v.0,
{
    reveal_strlit("Ticket(");
    reveal_strlit("Version(");
    reveal_strlit(")");
    text::decimal_reads_back(t.0 as nat);
    text::decimal_reads_back(v.0 as nat);
    assert(ticket_text(t).subrange(7, ticket_text(t).len() - 1) =~= text::decimal(t.0 as nat));
    assert(version_text(v).subrange(8, version_text(v).len() - 1) =~= text::decimal(v.0 as nat));
}

/// **What may be absent prints apart.** A ticket that is absent prints like none that is there, and two
/// that print alike are the same.
pub proof fn printed_options_tell_apart(a: Option<Ticket>, b: Option<Ticket>)
    requires
        ticket_option_text(a) == ticket_option_text(b),
    ensures
        a == b,
{
    reveal_strlit("Some(");
    reveal_strlit("None");
    reveal_strlit("Ticket(");
    reveal_strlit(")");
    let x = ticket_option_text(a);
    let y = ticket_option_text(b);
    if a is Some {
        assert(x[0] == 'S');
        assert(x.subrange(5, x.len() - 1) =~= ticket_text(a->Some_0));
    }
    if b is Some {
        assert(y[0] == 'S');
        assert(y.subrange(5, y.len() - 1) =~= ticket_text(b->Some_0));
    }
    if a is Some && b is Some {
        printed_numbers_read_back(a->Some_0, Version(0));
        printed_numbers_read_back(b->Some_0, Version(0));
    }
}

impl Ticket {
    /// The ticket as it is printed.
    pub fn text(self) -> (out: String)
        ensures
            out@ == ticket_text(self),
    {
        let mut s = "Ticket(".to_owned();
        let n = text::decimal_string(self.0);
        s.append(n.as_str());
        s.append(")");
        s
    }

    /// A ticket that may be absent, as it is printed.
    pub fn option_text(t: Option<Ticket>) -> (out: String)
        ensures
            out@ == ticket_option_text(t),
    {
        match t {
            Some(ticket) => {
                let mut s = "Some(".to_owned();
                let n = ticket.text();
                s.append(n.as_str());
                s.append(")");
                s
            },
            None => "None".to_owned(),
        }
    }
}

impl Version {
    /// The version as it is printed.
    pub fn text(self) -> (out: String)
        ensures
            out@ == version_text(self),
    {
        let mut s = "Version(".to_owned();
        let n = text::decimal_string(self.0);
        s.append(n.as_str());
        s.append(")");
        s
    }

    /// A version that may be absent, as it is printed.
    pub fn option_text(v: Option<Version>) -> (out: String)
        ensures
            out@ == version_option_text(v),
    {
        match v {
            Some(version) => {
                let mut s = "Some(".to_owned();
                let n = version.text();
                s.append(n.as_str());
                s.append(")");
                s
            },
            None => "None".to_owned(),
        }
    }
}

impl Refusal {
    /// The refusal, put to a reader.
    pub fn text(&self) -> (out: String)
        ensures
            out@ == refusal_text(*self),
    {
        match *self {
            Refusal::StaleTicket { held, current } => {
                let mut s = "stale ticket: held ".to_owned();
                let h = held.text();
                s.append(h.as_str());
                s.append(", current ");
                let c = Ticket::option_text(current);
                s.append(c.as_str());
                s
            },
            Refusal::StaleVersion { read, current } => {
                let mut s = "stale version: read ".to_owned();
                let r = read.text();
                s.append(r.as_str());
                s.append(", current ");
                let c = current.text();
                s.append(c.as_str());
                s
            },
            Refusal::NotHeld => "not held".to_owned(),
        }
    }
}

} // verus!
