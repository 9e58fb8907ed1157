//! The history: a totally ordered log of everything the harness did.
//!
//! This is a first-class part of the harness, not debug output. Properties are decided over the
//! history rather than over the resource, because the resource alone cannot tell "correct by
//! construction" from "correct by luck on this run".

use crate::text;
use crate::types;
use crate::types::{HolderId, Refusal, ResourceId, Ticket, Version};
use vstd::prelude::*;
use vstd::string::*;

verus! {

/// One thing that happened.
#[derive(Debug, PartialEq, Eq)]
pub enum Event {
    /// A holder asked for the lock. Paired with `TakeGranted` or a lock error.
    TakeRequested { holder: HolderId, resource: ResourceId },
    TakeGranted { holder: HolderId, resource: ResourceId, ticket: Ticket },
    /// The lock service issued a ticket. Recorded separately, so that monotonicity can be checked
    /// even where no write follows.
    TicketIssued { resource: ResourceId, ticket: Ticket },
    Read { holder: HolderId, resource: ResourceId, version: Version },
    WriteAttempted {
        holder: HolderId,
        resource: ResourceId,
        ticket: Ticket,
        expected_version: Version,
    },
    WriteAccepted {
        holder: HolderId,
        resource: ResourceId,
        ticket: Ticket,
        version: Version,
        content: String,
    },
    WriteRefused { holder: HolderId, resource: ResourceId, reason: Refusal, content: String },
    /// Carries the ticket, not just the holder: one holder can hold two tickets at once when the
    /// service grants twice, and the history must say which hold ended.
    GiveBack { holder: HolderId, resource: ResourceId, ticket: Ticket },
    LeaseExpired { holder: HolderId, resource: ResourceId, ticket: Ticket },
    /// The lock was taken away. The holder is never told.
    Revoked { resource: ResourceId, by: HolderId, new_ticket: Option<Ticket> },
    /// A phase exceeded its budget.
    PhaseTimeout { holder: HolderId, phase: &'static str },
    /// Renewal stopped because the hold ceiling was reached.
    CeilingReached { holder: HolderId, resource: ResourceId },
    AgentFinished { holder: HolderId },
    /// The agent is alive and will never make progress.
    AgentWedged { holder: HolderId },
}

/// What an [`Event`] says.
#[verifier::ext_equal]
pub enum EventView {
    TakeRequested { holder: Seq<char>, resource: Seq<char> },
    TakeGranted { holder: Seq<char>, resource: Seq<char>, ticket: Ticket },
    TicketIssued { resource: Seq<char>, ticket: Ticket },
    Read { holder: Seq<char>, resource: Seq<char>, version: Version },
    WriteAttempted {
        holder: Seq<char>,
        resource: Seq<char>,
        ticket: Ticket,
        expected_version: Version,
    },
    WriteAccepted {
        holder: Seq<char>,
        resource: Seq<char>,
        ticket: Ticket,
        version: Version,
        content: Seq<char>,
    },
    WriteRefused { holder: Seq<char>, resource: Seq<char>, reason: Refusal, content: Seq<char> },
    GiveBack { holder: Seq<char>, resource: Seq<char>, ticket: Ticket },
    LeaseExpired { holder: Seq<char>, resource: Seq<char>, ticket: Ticket },
    Revoked { resource: Seq<char>, by: Seq<char>, new_ticket: Option<Ticket> },
    PhaseTimeout { holder: Seq<char>, phase: Seq<char> },
    CeilingReached { holder: Seq<char>, resource: Seq<char> },
    AgentFinished { holder: Seq<char> },
    AgentWedged { holder: Seq<char> },
}

impl View for Event {
    type V = EventView;

    open spec fn view(&self) -> EventView {
        match *self {
            Event::TakeRequested { holder, resource } => EventView::TakeRequested {
                holder: holder@,
                resource: resource@,
            },
            Event::TakeGranted { holder, resource, ticket } => EventView::TakeGranted {
                holder: holder@,
                resource: resource@,
                ticket,
            },
            Event::TicketIssued { resource, ticket } => EventView::TicketIssued {
                resource: resource@,
                ticket,
            },
            Event::Read { holder, resource, version } => EventView::Read {
                holder: holder@,
                resource: resource@,
                version,
            },
            Event::WriteAttempted { holder, resource, ticket, expected_version } =>
                EventView::WriteAttempted {
                holder: holder@,
                resource: resource@,
                ticket,
                expected_version,
            },
            Event::WriteAccepted { holder, resource, ticket, version, content } =>
                EventView::WriteAccepted {
                holder: holder@,
                resource: resource@,
                ticket,
                version,
                content: content@,
            },
            Event::WriteRefused { holder, resource, reason, content } => EventView::WriteRefused {
                holder: holder@,
                resource: resource@,
                reason,
                content: content@,
            },
            Event::GiveBack { holder, resource, ticket } => EventView::GiveBack {
                holder: holder@,
                resource: resource@,
                ticket,
            },
            Event::LeaseExpired { holder, resource, ticket } => EventView::LeaseExpired {
                holder: holder@,
                resource: resource@,
                ticket,
            },
            Event::Revoked { resource, by, new_ticket } => EventView::Revoked {
                resource: resource@,
                by: by@,
                new_ticket,
            },
            Event::PhaseTimeout { holder, phase } => EventView::PhaseTimeout {
                holder: holder@,
                phase: phase@,
            },
            Event::CeilingReached { holder, resource } => EventView::CeilingReached {
                holder: holder@,
                resource: resource@,
            },
            Event::AgentFinished { holder } => EventView::AgentFinished { holder: holder@ },
            Event::AgentWedged { holder } => EventView::AgentWedged { holder: holder@ },
        }
    }
}

impl Clone for Event {
    fn clone(&self) -> (out: Self)
        ensures
            out@ == self@,
    {
        match self {
            Event::TakeRequested { holder, resource } => Event::TakeRequested {
                holder: holder.clone(),
                resource: resource.clone(),
            },
            Event::TakeGranted { holder, resource, ticket } => Event::TakeGranted {
                holder: holder.clone(),
                resource: resource.clone(),
                ticket: *ticket,
            },
            Event::TicketIssued { resource, ticket } => Event::TicketIssued {
                resource: resource.clone(),
                ticket: *ticket,
            },
            Event::Read { holder, resource, version } => Event::Read {
                holder: holder.clone(),
                resource: resource.clone(),
                version: *version,
            },
            Event::WriteAttempted { holder, resource, ticket, expected_version } =>
                Event::WriteAttempted {
                holder: holder.clone(),
                resource: resource.clone(),
                ticket: *ticket,
                expected_version: *expected_version,
            },
            Event::WriteAccepted { holder, resource, ticket, version, content } =>
                Event::WriteAccepted {
                holder: holder.clone(),
                resource: resource.clone(),
                ticket: *ticket,
                version: *version,
                content: content.clone(),
            },
            Event::WriteRefused { holder, resource, reason, content } => Event::WriteRefused {
                holder: holder.clone(),
                resource: resource.clone(),
                reason: *reason,
                content: content.clone(),
            },
            Event::GiveBack { holder, resource, ticket } => Event::GiveBack {
                holder: holder.clone(),
                resource: resource.clone(),
                ticket: *ticket,
            },
            Event::LeaseExpired { holder, resource, ticket } => Event::LeaseExpired {
                holder: holder.clone(),
                resource: resource.clone(),
                ticket: *ticket,
            },
            Event::Revoked { resource, by, new_ticket } => Event::Revoked {
                resource: resource.clone(),
                by: by.clone(),
                new_ticket: *new_ticket,
            },
            Event::PhaseTimeout { holder, phase } => Event::PhaseTimeout {
                holder: holder.clone(),
                phase: *phase,
            },
            Event::CeilingReached { holder, resource } => Event::CeilingReached {
                holder: holder.clone(),
                resource: resource.clone(),
            },
            Event::AgentFinished { holder } => Event::AgentFinished { holder: holder.clone() },
            Event::AgentWedged { holder } => Event::AgentWedged { holder: holder.clone() },
        }
    }
}

/// One line of the history.
#[derive(Debug, PartialEq, Eq)]
pub struct Entry {
    /// Position in the total order. Properties are stated over this, never over the clock.
    pub seq: u64,
    /// Milliseconds since the run began.
    pub at_ms: u64,
    pub event: Event,
}

/// What an [`Entry`] says.
#[verifier::ext_equal]
pub struct EntryView {
    pub seq: nat,
    pub at_ms: u64,
    pub event: EventView,
}

/// A history as a mathematical value.
pub type Log = Seq<EntryView>;

impl View for Entry {
    type V = EntryView;

    open spec fn view(&self) -> EntryView {
        EntryView { seq: self.seq as nat, at_ms: self.at_ms, event: self.event@ }
    }
}

impl Clone for Entry {
    fn clone(&self) -> (out: Self)
        ensures
            out@ == self@,
    {
        Entry { seq: self.seq, at_ms: self.at_ms, event: self.event.clone() }
    }
}

/// The entries of a vector, each by what it says.
pub open spec fn entries_view(entries: Seq<Entry>) -> Log {
    entries.map_values(|e: Entry| e@)
}

/// `log` with one more event at its end, numbered by its position.
pub open spec fn record(log: Log, at_ms: u64, event: EventView) -> Log {
    log.push(EntryView { seq: log.len(), at_ms, event })
}

/// `log` with `events` at its end, all of them at the same time.
pub open spec fn record_all(log: Log, at_ms: u64, events: Seq<EventView>) -> Log
    decreases events.len(),
{
    if events.len() == 0 {
        log
    } else {
        record(record_all(log, at_ms, events.drop_last()), at_ms, events.last())
    }
}

/// **Recording appends.** What was recorded before stays as it was, and the one entry behind it is
/// the event, with its time and the next number.
pub proof fn recording_appends(log: Log, at_ms: u64, event: EventView)
    ensures
        ({
            let after = record(log, at_ms, event);
            &&& after.len() == log.len() + 1
            &&& after.take(log.len() as int) == log
            &&& after.last() == (EntryView { seq: log.len(), at_ms, event })
        }),
{
    assert(record(log, at_ms, event).take(log.len() as int) =~= log);
}

/// Every entry carries its own position.
pub open spec fn numbered(log: Log) -> bool {
    forall|i: int| 0 <= i < log.len() ==> (#[trigger] log[i]).seq == i
}

/// A refusal as an entry of the history prints it.
pub open spec fn refusal_debug(r: Refusal) -> Seq<char> {
    match r {
        Refusal::StaleTicket { held, current } => "StaleTicket { held: "@ + types::ticket_text(held)
            + ", current: "@ + types::ticket_option_text(current) + " }"@,
        Refusal::StaleVersion { read, current } => "StaleVersion { read: "@
            + types::version_text(read) + ", current: "@ + types::version_text(current) + " }"@,
        Refusal::NotHeld => "NotHeld"@,
    }
}

/// An event as an entry of the history prints it.
pub open spec fn event_text(e: EventView) -> Seq<char> {
    match e {
        EventView::TakeRequested { holder, resource } => "TakeRequested { holder: "@
            + text::str_debug(holder) + ", resource: "@ + text::str_debug(resource) + " }"@,
        EventView::TakeGranted { holder, resource, ticket } => "TakeGranted { holder: "@
            + text::str_debug(holder) + ", resource: "@ + text::str_debug(resource) + ", ticket: "@
            + types::ticket_text(ticket) + " }"@,
        EventView::TicketIssued { resource, ticket } => "TicketIssued { resource: "@
            + text::str_debug(resource) + ", ticket: "@ + types::ticket_text(ticket) + " }"@,
        EventView::Read { holder, resource, version } => "Read { holder: "@ + text::str_debug(
            holder,
        ) + ", resource: "@ + text::str_debug(resource) + ", version: "@ + types::version_text(
            version,
        ) + " }"@,
        EventView::WriteAttempted { holder, resource, ticket, expected_version } =>
            "WriteAttempted { holder: "@ + text::str_debug(holder) + ", resource: "@
            + text::str_debug(resource) + ", ticket: "@ + types::ticket_text(ticket)
            + ", expected_version: "@ + types::version_text(expected_version) + " }"@,
        EventView::WriteAccepted { holder, resource, ticket, version, content } =>
            "WriteAccepted { holder: "@ + text::str_debug(holder) + ", resource: "@
            + text::str_debug(resource) + ", ticket: "@ + types::ticket_text(ticket)
            + ", version: "@ + types::version_text(version) + ", content: "@ + text::str_debug(
            content,
        ) + " }"@,
        EventView::WriteRefused { holder, resource, reason, content } =>
            "WriteRefused { holder: "@ + text::str_debug(holder) + ", resource: "@
            + text::str_debug(resource) + ", reason: "@ + refusal_debug(reason) + ", content: "@
            + text::str_debug(content) + " }"@,
        EventView::GiveBack { holder, resource, ticket } => "GiveBack { holder: "@
            + text::str_debug(holder) + ", resource: "@ + text::str_debug(resource) + ", ticket: "@
            + types::ticket_text(ticket) + " }"@,
        EventView::LeaseExpired { holder, resource, ticket } => "LeaseExpired { holder: "@
            + text::str_debug(holder) + ", resource: "@ + text::str_debug(resource) + ", ticket: "@
            + types::ticket_text(ticket) + " }"@,
        EventView::Revoked { resource, by, new_ticket } => "Revoked { resource: "@
            + text::str_debug(resource) + ", by: "@ + text::str_debug(by) + ", new_ticket: "@
            + types::ticket_option_text(new_ticket) + " }"@,
        EventView::PhaseTimeout { holder, phase } => "PhaseTimeout { holder: "@ + text::str_debug(
            holder,
        ) + ", phase: "@ + text::str_debug(phase) + " }"@,
        EventView::CeilingReached { holder, resource } => "CeilingReached { holder: "@
            + text::str_debug(holder) + ", resource: "@ + text::str_debug(resource) + " }"@,
        EventView::AgentFinished { holder } => "AgentFinished { holder: "@ + text::str_debug(holder)
            + " }"@,
        EventView::AgentWedged { holder } => "AgentWedged { holder: "@ + text::str_debug(holder)
            + " }"@,
    }
}

/// One entry as a line of text.
pub open spec fn line_text(e: EntryView) -> Seq<char> {
    text::right_aligned(text::decimal(e.seq), 4) + " "@ + text::right_aligned(
        text::decimal(e.at_ms as nat),
        7,
    ) + "ms  "@ + event_text(e.event)
}

/// The whole history as text: one line for each entry, newlines between them.
pub open spec fn log_text(log: Log) -> Seq<char>
    decreases log.len(),
{
    if log.len() == 0 {
        Seq::empty()
    } else if log.len() == 1 {
        line_text(log[0])
    } else {
        log_text(log.drop_last()) + "\n"@ + line_text(log.last())
    }
}

/// **Histories print one behind the other.** The text of a history that is made of two is the text of
/// the one, a newline, and the text of the other; one entry prints as its line, and none as nothing.
pub proof fn histories_print_in_order(a: Log, b: Log, e: EntryView)
    ensures
        log_text(Log::empty()).len() == 0,
        log_text(seq![e]) == line_text(e),
        a.len() > 0 && b.len() > 0 ==> log_text(a + b) == log_text(a) + "\n"@ + log_text(b),
    decreases b.len(),
{
    if a.len() > 0 && b.len() > 0 {
        let last = b.last();
        assert((a + b).drop_last() =~= a + b.drop_last());
        assert((a + b).last() == last);
        if b.len() == 1 {
            assert(a + b.drop_last() =~= a);
            assert(b[0] == last);
        } else {
            histories_print_in_order(a, b.drop_last(), e);
            assert(log_text(a) + "\n"@ + log_text(b.drop_last()) + "\n"@ + line_text(last)
                =~= log_text(a) + "\n"@ + log_text(b));
        }
    }
}

/// **A line says what its entry says.** It ends with the event; before that come the number and the
/// time, each right-aligned, and each the number that the entry carries.
pub proof fn lines_read_back(e: EntryView)
    ensures
        ({
            let number = text::right_aligned(text::decimal(e.seq), 4);
            let time = text::right_aligned(text::decimal(e.at_ms as nat), 7);
            let out = line_text(e);
            &&& out == number + seq![' '] + time + seq!['m', 's', ' ', ' '] + event_text(e.event)
            &&& text::read_number(number.skip(number.len() - text::decimal(e.seq).len())) == e.seq
            &&& text::read_number(time.skip(time.len() - text::decimal(e.at_ms as nat).len()))
                == e.at_ms
        }),
{
    reveal_strlit(" ");
    reveal_strlit("ms  ");
    assert(" "@ =~= seq![' ']);
    assert("ms  "@ =~= seq!['m', 's', ' ', ' ']);
    text::alignment_only_pads(text::decimal(e.seq), 4);
    text::alignment_only_pads(text::decimal(e.at_ms as nat), 7);
    text::decimal_reads_back(e.seq);
    text::decimal_reads_back(e.at_ms as nat);
}

fn refusal_debug_string(r: Refusal) -> (out: String)
    ensures
        out@ == refusal_debug(r),
{
    match r {
        Refusal::StaleTicket { held, current } => {
            let mut s = "StaleTicket { held: ".to_owned();
            s.append(held.text().as_str());
            s.append(", current: ");
            s.append(Ticket::option_text(current).as_str());
            s.append(" }");
            s
        },
        Refusal::StaleVersion { read, current } => {
            let mut s = "StaleVersion { read: ".to_owned();
            s.append(read.text().as_str());
            s.append(", current: ");
            s.append(current.text().as_str());
            s.append(" }");
            s
        },
        Refusal::NotHeld => "NotHeld".to_owned(),
    }
}

impl Event {
    /// The event as an entry of the history prints it.
    pub fn text(&self) -> (out: String)
        ensures
            out@ == event_text(self@),
    {
        match self {
            Event::TakeRequested { holder, resource } => {
                let mut s = "TakeRequested { holder: ".to_owned();
                s.append(text::quoted(holder.as_str()).as_str());
                s.append(", resource: ");
                s.append(text::quoted(resource.as_str()).as_str());
                s.append(" }");
                s
            },
            Event::TakeGranted { holder, resource, ticket } => {
                let mut s = "TakeGranted { holder: ".to_owned();
                s.append(text::quoted(holder.as_str()).as_str());
                s.append(", resource: ");
                s.append(text::quoted(resource.as_str()).as_str());
                s.append(", ticket: ");
                s.append(ticket.text().as_str());
                s.append(" }");
                s
            },
            Event::TicketIssued { resource, ticket } => {
                let mut s = "TicketIssued { resource: ".to_owned();
                s.append(text::quoted(resource.as_str()).as_str());
                s.append(", ticket: ");
                s.append(ticket.text().as_str());
                s.append(" }");
                s
            },
            Event::Read { holder, resource, version } => {
                let mut s = "Read { holder: ".to_owned();
                s.append(text::quoted(holder.as_str()).as_str());
                s.append(", resource: ");
                s.append(text::quoted(resource.as_str()).as_str());
                s.append(", version: ");
                s.append(version.text().as_str());
                s.append(" }");
                s
            },
            Event::WriteAttempted { holder, resource, ticket, expected_version } => {
                let mut s = "WriteAttempted { holder: ".to_owned();
                s.append(text::quoted(holder.as_str()).as_str());
                s.append(", resource: ");
                s.append(text::quoted(resource.as_str()).as_str());
                s.append(", ticket: ");
                s.append(ticket.text().as_str());
                s.append(", expected_version: ");
                s.append(expected_version.text().as_str());
                s.append(" }");
                s
            },
            Event::WriteAccepted { holder, resource, ticket, version, content } => {
                let mut s = "WriteAccepted { holder: ".to_owned();
                s.append(text::quoted(holder.as_str()).as_str());
                s.append(", resource: ");
                s.append(text::quoted(resource.as_str()).as_str());
                s.append(", ticket: ");
                s.append(ticket.text().as_str());
                s.append(", version: ");
                s.append(version.text().as_str());
                s.append(", content: ");
                s.append(text::quoted(content.as_str()).as_str());
                s.append(" }");
                s
            },
            Event::WriteRefused { holder, resource, reason, content } => {
                let mut s = "WriteRefused { holder: ".to_owned();
                s.append(text::quoted(holder.as_str()).as_str());
                s.append(", resource: ");
                s.append(text::quoted(resource.as_str()).as_str());
                s.append(", reason: ");
                s.append(refusal_debug_string(*reason).as_str());
                s.append(", content: ");
                s.append(text::quoted(content.as_str()).as_str());
                s.append(" }");
                s
            },
            Event::GiveBack { holder, resource, ticket } => {
                let mut s = "GiveBack { holder: ".to_owned();
                s.append(text::quoted(holder.as_str()).as_str());
                s.append(", resource: ");
                s.append(text::quoted(resource.as_str()).as_str());
                s.append(", ticket: ");
                s.append(ticket.text().as_str());
                s.append(" }");
                s
            },
            Event::LeaseExpired { holder, resource, ticket } => {
                let mut s = "LeaseExpired { holder: ".to_owned();
                s.append(text::quoted(holder.as_str()).as_str());
                s.append(", resource: ");
                s.append(text::quoted(resource.as_str()).as_str());
                s.append(", ticket: ");
                s.append(ticket.text().as_str());
                s.append(" }");
                s
            },
            Event::Revoked { resource, by, new_ticket } => {
                let mut s = "Revoked { resource: ".to_owned();
                s.append(text::quoted(resource.as_str()).as_str());
                s.append(", by: ");
                s.append(text::quoted(by.as_str()).as_str());
                s.append(", new_ticket: ");
                s.append(Ticket::option_text(*new_ticket).as_str());
                s.append(" }");
                s
            },
            Event::PhaseTimeout { holder, phase } => {
                let mut s = "PhaseTimeout { holder: ".to_owned();
                s.append(text::quoted(holder.as_str()).as_str());
                s.append(", phase: ");
                s.append(text::quoted(*phase).as_str());
                s.append(" }");
                s
            },
            Event::CeilingReached { holder, resource } => {
                let mut s = "CeilingReached { holder: ".to_owned();
                s.append(text::quoted(holder.as_str()).as_str());
                s.append(", resource: ");
                s.append(text::quoted(resource.as_str()).as_str());
                s.append(" }");
                s
            },
            Event::AgentFinished { holder } => {
                let mut s = "AgentFinished { holder: ".to_owned();
                s.append(text::quoted(holder.as_str()).as_str());
                s.append(" }");
                s
            },
            Event::AgentWedged { holder } => {
                let mut s = "AgentWedged { holder: ".to_owned();
                s.append(text::quoted(holder.as_str()).as_str());
                s.append(" }");
                s
            },
        }
    }
}

impl Entry {
    /// The entry as a line of text.
    pub fn text(&self) -> (out: String)
        ensures
            out@ == line_text(self@),
    {
        let mut s = text::align_right(text::decimal_string(self.seq), 4);
        s.append(" ");
        s.append(text::align_right(text::decimal_string(self.at_ms), 7).as_str());
        s.append("ms  ");
        s.append(self.event.text().as_str());
        s
    }
}

/// The log that everything is written to. It only ever grows.
pub struct History {
    inner: Vec<Entry>,
}

impl View for History {
    type V = Log;

    closed spec fn view(&self) -> Log {
        entries_view(self.inner@)
    }
}

impl History {
    /// An empty history.
    pub fn new() -> (out: Self)
        ensures
            out@ == Log::empty(),
    {
        let out = History { inner: Vec::new() };
        assert(out@ =~= Log::empty());
        out
    }

    /// Appends one event. Nothing that was recorded before changes.
    pub fn record(&mut self, at_ms: u64, event: Event)
        ensures
            final(self)@ == record(old(self)@, at_ms, event@),
            numbered(old(self)@) ==> numbered(final(self)@),
    {
        let seq: u64 = self.inner.len() as u64;
        self.inner.push(Entry { seq, at_ms, event });
        assert(self@ =~= record(old(self)@, at_ms, event@));
    }

    /// A copy of every entry, in order.
    pub fn entries(&self) -> (out: Vec<Entry>)
        ensures
            entries_view(out@) == self@,
    {
        let mut out: Vec<Entry> = Vec::new();
        let mut i: usize = 0;
        while i < self.inner.len()
            invariant
                i <= self.inner.len(),
                entries_view(out@) == self@.take(i as int),
            decreases self.inner.len() - i,
        {
            let copy = self.inner[i].clone();
            let ghost before = out@;
            out.push(copy);
            proof {
                assert(entries_view(out@) =~= entries_view(before).push(copy@));
                assert(self@.take(i + 1) =~= self@.take(i as int).push(self@[i as int]));
            }
            i = i + 1;
        }
        assert(self@.take(i as int) =~= self@);
        out
    }

    /// How many events were recorded.
    pub fn len(&self) -> (out: usize)
        ensures
            out == self@.len(),
    {
        self.inner.len()
    }

    /// Whether nothing was recorded yet.
    pub fn is_empty(&self) -> (out: bool)
        ensures
            out == (self@.len() == 0),
    {
        self.len() == 0
    }

    /// The history as text: one line for each entry, newlines between them.
    pub fn render(&self) -> (out: String)
        ensures
            out@ == log_text(self@),
    {
        if self.inner.len() == 0 {
            return String::new();
        }
        let mut out = self.inner[0].text();
        let mut i: usize = 1;
        proof {
            assert(self@.take(1)[0] == self@[0]);
        }
        while i < self.inner.len()
            invariant
                1 <= i <= self.inner.len(),
                out@ == log_text(self@.take(i as int)),
            decreases self.inner.len() - i,
        {
            out.append("\n");
            out.append(self.inner[i].text().as_str());
            proof {
                assert(self@.take(i + 1).drop_last() =~= self@.take(i as int));
                assert(self@.take(i + 1).last() == self@[i as int]);
            }
            i = i + 1;
        }
        proof {
            assert(self@.take(i as int) =~= self@);
        }
        out
    }
}

/// `Default` gives an empty history.
impl Default for History {
    fn default() -> (out: Self)
        ensures
            out@ == Log::empty(),
    {
        History::new()
    }
}

} // verus!
