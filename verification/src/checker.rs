//! The oracle: eight properties checked over the history.
//!
//! Every property is stated over *history order*, never over the clock, so all of them can be
//! checked under virtual time. For each property there is a function from a history to the list of
//! its violations, in the order in which they are found; a property holds if that list is empty.
//!
//! While there is one resource and one write for each transaction no search for a serial order is
//! needed: the properties pin the order down completely.

use crate::history;
use crate::history::{Entry, EntryView, Event, EventView, History, Log};
use crate::text;
use crate::types;
use crate::types::{HolderId, Refusal, ResourceId, Ticket, Version};
use vstd::hash_map::StringHashMap;
use vstd::hash_set::StringHashSet;
use vstd::prelude::*;
use vstd::string::*;

verus! {

/// What can be checked.
#[derive(Debug, Clone, Copy, PartialEq, Eq, Hash, PartialOrd, Ord, Structural)]
pub enum Property {
    /// No two accepted writes' execution windows overlap.
    P1MutualExclusion,
    /// Every accepted write held the ticket in force at its authorization point; and issued tickets
    /// never move backwards.
    P2TicketValidity,
    /// Every accepted write is in the final content, or superseded by a later accepted write.
    P3NoLostWrite,
    /// Nothing reached the final content that was not an accepted write.
    P4NoPhantomWrite,
    /// Every granted lock was later given back, expired, or revoked.
    P5NoLeakedLock,
    /// Every accepted write was based on the content version in force when it committed.
    P6Freshness,
    /// Every agent that is not wedged reached a terminal event.
    P7Liveness,
    /// Every revocation actually took the lock away.
    P8Preemptibility,
}

/// One way in which a history breaks a property.
#[derive(Debug)]
pub struct Violation {
    pub property: Property,
    /// The entry that it was found at, if there is one.
    pub at_seq: Option<u64>,
    pub detail: String,
}

/// What a [`Violation`] says.
#[verifier::ext_equal]
pub struct ViolationView {
    pub property: Property,
    pub at_seq: Option<nat>,
    pub detail: Seq<char>,
}

impl View for Violation {
    type V = ViolationView;

    open spec fn view(&self) -> ViolationView {
        ViolationView {
            property: self.property,
            at_seq: match self.at_seq {
                Some(s) => Some(s as nat),
                None => None,
            },
            detail: self.detail@,
        }
    }
}

impl Clone for Violation {
    fn clone(&self) -> (out: Self)
        ensures
            out@ == self@,
    {
        Violation { property: self.property, at_seq: self.at_seq, detail: self.detail.clone() }
    }
}

/// What was checked, and what was found.
#[derive(Debug)]
pub struct Report {
    pub checked: Vec<Property>,
    pub violations: Vec<Violation>,
}

/// What a [`Report`] says.
#[verifier::ext_equal]
pub struct ReportView {
    pub checked: Seq<Property>,
    pub violations: Seq<ViolationView>,
}

impl View for Report {
    type V = ReportView;

    open spec fn view(&self) -> ReportView {
        ReportView {
            checked: self.checked@,
            violations: self.violations@.map_values(|v: Violation| v@),
        }
    }
}

impl Clone for Report {
    fn clone(&self) -> (out: Self)
        ensures
            out@ == self@,
    {
        let mut checked: Vec<Property> = Vec::new();
        let mut i: usize = 0;
        while i < self.checked.len()
            invariant
                i <= self.checked.len(),
                checked@ == self.checked@.take(i as int),
            decreases self.checked.len() - i,
        {
            checked.push(self.checked[i]);
            i = i + 1;
            assert(checked@ =~= self.checked@.take(i as int));
        }
        let mut violations: Vec<Violation> = Vec::new();
        let mut k: usize = 0;
        while k < self.violations.len()
            invariant
                k <= self.violations.len(),
                violations@.map_values(|v: Violation| v@) == self@.violations.take(k as int),
            decreases self.violations.len() - k,
        {
            let ghost before = violations@;
            let copy = self.violations[k].clone();
            violations.push(copy);
            proof {
                assert(violations@.map_values(|v: Violation| v@) =~= before.map_values(
                    |v: Violation| v@,
                ).push(copy@));
                assert(self@.violations.take(k + 1) =~= self@.violations.take(k as int).push(
                    self@.violations[k as int],
                ));
            }
            k = k + 1;
        }
        proof {
            assert(self.checked@.take(i as int) =~= self.checked@);
            assert(self@.violations.take(k as int) =~= self@.violations);
        }
        Report { checked, violations }
    }
}

/// By default nothing was checked.
impl Default for Report {
    fn default() -> (out: Self)
        ensures
            out@ == (ReportView { checked: Seq::empty(), violations: Seq::empty() }),
    {
        let out = Report { checked: Vec::new(), violations: Vec::new() };
        assert(out@.violations =~= Seq::empty());
        out
    }
}

/// The name of a property.
pub open spec fn property_text(p: Property) -> Seq<char> {
    match p {
        Property::P1MutualExclusion => "P1MutualExclusion"@,
        Property::P2TicketValidity => "P2TicketValidity"@,
        Property::P3NoLostWrite => "P3NoLostWrite"@,
        Property::P4NoPhantomWrite => "P4NoPhantomWrite"@,
        Property::P5NoLeakedLock => "P5NoLeakedLock"@,
        Property::P6Freshness => "P6Freshness"@,
        Property::P7Liveness => "P7Liveness"@,
        Property::P8Preemptibility => "P8Preemptibility"@,
    }
}

/// One violation as a line of text.
pub open spec fn violation_text(v: ViolationView) -> Seq<char> {
    property_text(v.property) + " violated"@ + (match v.at_seq {
        Some(s) => " at seq "@ + text::decimal(s),
        None => ""@,
    }) + ": "@ + v.detail
}

/// Violations as text: one line for each, newlines between them.
pub open spec fn violations_text(vs: Seq<ViolationView>) -> Seq<char>
    decreases vs.len(),
{
    if vs.len() == 0 {
        Seq::empty()
    } else if vs.len() == 1 {
        violation_text(vs[0])
    } else {
        violations_text(vs.drop_last()) + "\n"@ + violation_text(vs.last())
    }
}

/// **Violations print one behind the other.** The text of a list that is made of two is the text of the
/// one, a newline, and the text of the other; one violation prints as its line, and none as nothing.
pub proof fn violations_print_in_order(
    a: Seq<ViolationView>,
    b: Seq<ViolationView>,
    v: ViolationView,
)
    ensures
        violations_text(Seq::empty()).len() == 0,
        violations_text(seq![v]) == violation_text(v),
        a.len() > 0 && b.len() > 0 ==> violations_text(a + b) == violations_text(a) + "\n"@
            + violations_text(b),
    decreases b.len(),
{
    if a.len() > 0 && b.len() > 0 {
        let last = b.last();
        assert((a + b).drop_last() =~= a + b.drop_last());
        assert((a + b).last() == last);
        if b.len() == 1 {
            assert(a + b.drop_last() =~= a);
            assert(b[0] == last);
        } else {
            violations_print_in_order(a, b.drop_last(), v);
            assert(violations_text(a) + "\n"@ + violations_text(b.drop_last()) + "\n"@
                + violation_text(last) =~= violations_text(a) + "\n"@ + violations_text(b));
        }
    }
}

/// A report as text.
pub open spec fn report_text(r: ReportView) -> Seq<char> {
    if r.violations.len() == 0 {
        "all "@ + text::decimal(r.checked.len()) + " properties hold"@
    } else {
        violations_text(r.violations)
    }
}

fn property_string(p: Property) -> (out: String)
    ensures
        out@ == property_text(p),
{
    let s: &str = match p {
        Property::P1MutualExclusion => "P1MutualExclusion",
        Property::P2TicketValidity => "P2TicketValidity",
        Property::P3NoLostWrite => "P3NoLostWrite",
        Property::P4NoPhantomWrite => "P4NoPhantomWrite",
        Property::P5NoLeakedLock => "P5NoLeakedLock",
        Property::P6Freshness => "P6Freshness",
        Property::P7Liveness => "P7Liveness",
        Property::P8Preemptibility => "P8Preemptibility",
    };
    s.to_owned()
}

impl Violation {
    /// The violation as a line of text.
    pub fn text(&self) -> (out: String)
        ensures
            out@ == violation_text(self@),
    {
        let mut out = property_string(self.property);
        out.append(" violated");
        let place = match self.at_seq {
            Some(seq) => {
                let mut p = " at seq ".to_owned();
                p.append(text::decimal_string(seq).as_str());
                p
            },
            None => "".to_owned(),
        };
        out.append(place.as_str());
        out.append(": ");
        out.append(self.detail.as_str());
        out
    }
}

impl Report {
    /// Whether nothing was violated.
    pub fn passed(&self) -> (out: bool)
        ensures
            out == (self@.violations.len() == 0),
    {
        self.violations.len() == 0
    }

    /// Whether `p` was violated.
    pub fn violated(&self, p: Property) -> (out: bool)
        ensures
            out == exists|i: int|
                0 <= i < self@.violations.len() && (#[trigger] self@.violations[i]).property == p,
    {
        let mut i: usize = 0;
        while i < self.violations.len()
            invariant
                i <= self.violations.len(),
                forall|j: int| 0 <= j < i ==> (#[trigger] self@.violations[j]).property != p,
            decreases self.violations.len() - i,
        {
            assert(self@.violations[i as int].property == self.violations@[i as int].property);
            if self.violations[i].property == p {
                return true;
            }
            i = i + 1;
        }
        false
    }

    /// The report as text: that all properties hold, or one line for each violation.
    pub fn render(&self) -> (out: String)
        ensures
            out@ == report_text(self@),
    {
        if self.violations.len() == 0 {
            let mut out = "all ".to_owned();
            out.append(text::decimal_string(self.checked.len() as u64).as_str());
            out.append(" properties hold");
            return out;
        }
        let ghost vs = self@.violations;
        let mut out = self.violations[0].text();
        let mut i: usize = 1;
        proof {
            assert(vs.take(1)[0] == vs[0]);
        }
        while i < self.violations.len()
            invariant
                vs == self@.violations,
                1 <= i <= self.violations.len(),
                out@ == violations_text(vs.take(i as int)),
            decreases self.violations.len() - i,
        {
            out.append("\n");
            out.append(self.violations[i].text().as_str());
            proof {
                assert(vs.take(i + 1).drop_last() =~= vs.take(i as int));
                assert(vs.take(i + 1).last() == vs[i as int]);
            }
            i = i + 1;
        }
        proof {
            assert(vs.take(i as int) =~= vs);
        }
        out
    }
}

/// Adds one violation.
fn fail(r: &mut Report, property: Property, at_seq: Option<u64>, detail: String)
    ensures
        final(r)@ == (ReportView {
            violations: old(r)@.violations.push(
                (Violation { property, at_seq, detail })@,
            ),
            ..old(r)@
        }),
{
    r.violations.push(Violation { property, at_seq, detail });
    assert(r@.violations =~= old(r)@.violations.push((Violation { property, at_seq, detail })@));
}

/// The seq of `holder`'s latest attempt, if that attempt is neither accepted nor refused yet.
pub open spec fn open_attempt(log: Log, holder: Seq<char>) -> Option<nat>
    decreases log.len(),
{
    if log.len() == 0 {
        None
    } else {
        match log.last().event {
            EventView::WriteAttempted { holder: h, .. } if h == holder => Some(log.last().seq),
            EventView::WriteAccepted { holder: h, .. } if h == holder => None,
            EventView::WriteRefused { holder: h, .. } if h == holder => None,
            _ => open_attempt(log.drop_last(), holder),
        }
    }
}

/// The window of an accepted write: from its attempt to its acceptance.
#[verifier::ext_equal]
pub struct WindowView {
    pub holder: Seq<char>,
    pub start: nat,
    pub end: nat,
}

/// The windows of all accepted writes, in the order of their acceptance. A refused attempt has no
/// window: it never landed, so it cannot conflict with anything.
pub open spec fn windows(log: Log) -> Seq<WindowView>
    decreases log.len(),
{
    if log.len() == 0 {
        Seq::empty()
    } else {
        let before = windows(log.drop_last());
        match log.last().event {
            EventView::WriteAccepted { holder, .. } => match open_attempt(log.drop_last(), holder) {
                Some(start) => before.push(WindowView { holder, start, end: log.last().seq }),
                None => before,
            },
            _ => before,
        }
    }
}

/// Two holders' windows overlap.
pub open spec fn clash(a: WindowView, b: WindowView) -> bool {
    a.holder != b.holder && a.start <= b.end && b.start <= a.end
}

/// What is said of two windows that overlap.
pub open spec fn clash_text(a: WindowView, b: WindowView) -> Seq<char> {
    "accepted writes by "@ + a.holder + " ["@ + text::decimal(a.start) + ".."@ + text::decimal(
        a.end,
    ) + "] and "@ + b.holder + " ["@ + text::decimal(b.start) + ".."@ + text::decimal(b.end)
        + "] overlap"@
}

/// The violations that window `i` makes with the windows after it and before `j`.
pub open spec fn clashes_of(ws: Seq<WindowView>, i: int, j: int) -> Seq<ViolationView>
    decreases j - i,
{
    if j <= i + 1 {
        Seq::empty()
    } else if clash(ws[i], ws[j - 1]) {
        clashes_of(ws, i, j - 1).push(
            ViolationView {
                property: Property::P1MutualExclusion,
                at_seq: Some(ws[j - 1].start),
                detail: clash_text(ws[i], ws[j - 1]),
            },
        )
    } else {
        clashes_of(ws, i, j - 1)
    }
}

/// The violations that the first `n` windows make with those after them.
pub open spec fn clashes(ws: Seq<WindowView>, n: int) -> Seq<ViolationView>
    decreases n,
{
    if n <= 0 {
        Seq::empty()
    } else {
        clashes(ws, n - 1) + clashes_of(ws, n - 1, ws.len() as int)
    }
}

/// Mutual exclusion: the windows of accepted writes by different holders must not overlap.
pub open spec fn p1_violations(log: Log) -> Seq<ViolationView> {
    clashes(windows(log), windows(log).len() as int)
}

struct Window {
    holder: HolderId,
    start: u64,
    end: u64,
}

impl View for Window {
    type V = WindowView;

    closed spec fn view(&self) -> WindowView {
        WindowView { holder: self.holder@, start: self.start as nat, end: self.end as nat }
    }
}

fn clash_string(a: &Window, b: &Window) -> (out: String)
    ensures
        out@ == clash_text(a@, b@),
{
    let mut s = "accepted writes by ".to_owned();
    s.append(a.holder.as_str());
    s.append(" [");
    s.append(text::decimal_string(a.start).as_str());
    s.append("..");
    s.append(text::decimal_string(a.end).as_str());
    s.append("] and ");
    s.append(b.holder.as_str());
    s.append(" [");
    s.append(text::decimal_string(b.start).as_str());
    s.append("..");
    s.append(text::decimal_string(b.end).as_str());
    s.append("] overlap");
    s
}

/// `map` holds every holder's open attempt.
spec fn attempts_match(map: Map<Seq<char>, u64>, log: Log) -> bool {
    forall|h: Seq<char>|
        #![trigger map.contains_key(h)]
        #![trigger open_attempt(log, h)]
        match open_attempt(log, h) {
            Some(seq) => map.contains_key(h) && map[h] == seq,
            None => !map.contains_key(h),
        }
}

fn p1_windows(e: &Vec<Entry>) -> (out: Vec<Window>)
    ensures
        out@.map_values(|w: Window| w@) == windows(history::entries_view(e@)),
{
    let ghost log = history::entries_view(e@);
    let mut open: StringHashMap<u64> = StringHashMap::new();
    let mut out: Vec<Window> = Vec::new();
    let mut i: usize = 0;
    proof {
        assert(out@.map_values(|w: Window| w@) =~= windows(log.take(0)));
    }
    while i < e.len()
        invariant
            i <= e.len(),
            log == history::entries_view(e@),
            attempts_match(open@, log.take(i as int)),
            out@.map_values(|w: Window| w@) == windows(log.take(i as int)),
        decreases e.len() - i,
    {
        proof {
            assert(log.take(i + 1).drop_last() =~= log.take(i as int));
            assert(log.take(i + 1).last() == log[i as int]);
            assert(log[i as int] == e@[i as int]@);
        }
        let ghost before = out@.map_values(|w: Window| w@);
        let seq: u64 = e[i].seq;
        match &e[i].event {
            Event::WriteAttempted { holder, .. } => {
                open.insert(holder.clone(), seq);
            },
            Event::WriteAccepted { holder, .. } => {
                let start = match open.get(holder.as_str()) {
                    Some(s) => Some(*s),
                    None => None,
                };
                assert(open@.contains_key(holder@) == (open_attempt(log.take(i as int), holder@)
                    is Some));
                match start {
                    Some(start) => {
                        open.remove(holder.as_str());
                        let w = Window { holder: holder.clone(), start, end: seq };
                        out.push(w);
                        assert(out@.map_values(|w: Window| w@) =~= before.push(w@));
                    },
                    None => {},
                }
            },
            Event::WriteRefused { holder, .. } => {
                open.remove(holder.as_str());
            },
            _ => {},
        }
        i = i + 1;
    }
    proof {
        assert(log.take(i as int) =~= log);
    }
    out
}

fn p1(e: &Vec<Entry>, r: &mut Report)
    ensures
        final(r)@ == (ReportView {
            violations: old(r)@.violations + p1_violations(history::entries_view(e@)),
            ..old(r)@
        }),
{
    let windows = p1_windows(e);
    let ghost ws = windows@.map_values(|w: Window| w@);
    let ghost found = r@.violations;
    let mut i: usize = 0;
    while i < windows.len()
        invariant
            i <= windows.len(),
            ws == windows@.map_values(|w: Window| w@),
            r@.checked == old(r)@.checked,
            r@.violations == found + clashes(ws, i as int),
        decreases windows.len() - i,
    {
        let ghost so_far = r@.violations;
        let mut j: usize = i + 1;
        while j < windows.len()
            invariant
                i < j <= windows.len(),
                ws == windows@.map_values(|w: Window| w@),
                r@.checked == old(r)@.checked,
                r@.violations == so_far + clashes_of(ws, i as int, j as int),
            decreases windows.len() - j,
        {
            assert(ws[i as int] == windows@[i as int]@);
            assert(ws[j as int] == windows@[j as int]@);
            if !(windows[i].holder == windows[j].holder) && windows[i].start <= windows[j].end
                && windows[j].start <= windows[i].end {
                fail(
                    r,
                    Property::P1MutualExclusion,
                    Some(windows[j].start),
                    clash_string(&windows[i], &windows[j]),
                );
            }
            j = j + 1;
        }
        proof {
            assert(r@.violations =~= found + clashes(ws, i + 1));
        }
        i = i + 1;
    }
}

/// The highest ticket issued so far.
pub open spec fn highest_issued(log: Log) -> Option<Ticket>
    decreases log.len(),
{
    if log.len() == 0 {
        None
    } else {
        let before = highest_issued(log.drop_last());
        match log.last().event {
            EventView::TicketIssued { ticket, .. } => match before {
                Some(h) if ticket.0 <= h.0 => Some(h),
                _ => Some(ticket),
            },
            _ => before,
        }
    }
}

/// The tickets that are held after `log`. A set, not a single one: one holder can hold two tickets
/// at once where the service grants twice.
pub open spec fn held_tickets(log: Log) -> Set<Ticket>
    decreases log.len(),
{
    if log.len() == 0 {
        Set::empty()
    } else {
        let before = held_tickets(log.drop_last());
        match log.last().event {
            EventView::TakeGranted { ticket, .. } => before.insert(ticket),
            EventView::GiveBack { ticket, .. } => before.remove(ticket),
            EventView::LeaseExpired { ticket, .. } => before.remove(ticket),
            EventView::Revoked { .. } => Set::empty(),
            _ => before,
        }
    }
}

/// Ticket `t` is one of `held`, and none is higher.
pub open spec fn is_highest(held: Set<Ticket>, t: Ticket) -> bool {
    held.contains(t) && forall|u: Ticket| #[trigger] held.contains(u) ==> u.0 <= t.0
}

/// The ticket in force: the highest among those held.
pub open spec fn in_force(held: Set<Ticket>) -> Option<Ticket> {
    if exists|t: Ticket| is_highest(held, t) {
        Some(choose|t: Ticket| is_highest(held, t))
    } else {
        None
    }
}

/// What is said of a ticket that does not rise.
pub open spec fn backwards_text(ticket: Ticket, highest: Ticket) -> Seq<char> {
    "ticket "@ + types::ticket_text(ticket) + " not above previously issued "@ + types::ticket_text(
        highest,
    ) + " — the ticket source moved backwards, so every later check is void"@
}

/// What is said of a revocation whose barrier is not above what it revoked.
pub open spec fn low_barrier_text(barrier: Ticket, revoked: Ticket) -> Seq<char> {
    "revocation barrier "@ + types::ticket_text(barrier) + " does not exceed revoked "@
        + types::ticket_text(revoked)
}

/// What is said of a write that was accepted on a ticket not in force.
pub open spec fn stale_commit_text(
    holder: Seq<char>,
    ticket: Ticket,
    current: Option<Ticket>,
) -> Seq<char> {
    holder + " committed with ticket "@ + types::ticket_text(ticket) + " but "@
        + types::ticket_option_text(current) + " was in force"@
}

/// What the ticket property says of one entry, after `before`.
pub open spec fn p2_at(before: Log, e: EntryView) -> Option<Seq<char>> {
    match e.event {
        EventView::TicketIssued { ticket, .. } => match highest_issued(before) {
            Some(h) if ticket.0 <= h.0 => Some(backwards_text(ticket, h)),
            _ => None,
        },
        EventView::Revoked { new_ticket, .. } => match (
            in_force(held_tickets(before)),
            new_ticket,
        ) {
            (Some(revoked), Some(barrier)) if barrier.0 <= revoked.0 => Some(
                low_barrier_text(barrier, revoked),
            ),
            _ => None,
        },
        EventView::WriteAccepted { holder, ticket, .. } => if in_force(held_tickets(before))
            != Some(ticket) {
            Some(stale_commit_text(holder, ticket, in_force(held_tickets(before))))
        } else {
            None
        },
        _ => None,
    }
}

/// Ticket validity: issued tickets never move backwards, a revocation's barrier is above whatever
/// it revoked, and every accepted write held the ticket in force at that point.
pub open spec fn p2_violations(log: Log) -> Seq<ViolationView>
    decreases log.len(),
{
    if log.len() == 0 {
        Seq::empty()
    } else {
        let before = p2_violations(log.drop_last());
        match p2_at(log.drop_last(), log.last()) {
            Some(detail) => before.push(
                ViolationView {
                    property: Property::P2TicketValidity,
                    at_seq: Some(log.last().seq),
                    detail,
                },
            ),
            None => before,
        }
    }
}

pub(crate) proof fn lemma_in_force(held: Set<Ticket>, t: Ticket)
    requires
        is_highest(held, t),
    ensures
        in_force(held) == Some(t),
{
    let u = choose|u: Ticket| is_highest(held, u);
    assert(is_highest(held, u));
    assert(held.contains(u) && held.contains(t));
}

/// The highest of some tickets.
fn highest(held: &Vec<Ticket>) -> (out: Option<Ticket>)
    ensures
        out == in_force(held@.to_set()),
{
    if held.len() == 0 {
        assert(forall|t: Ticket| !held@.to_set().contains(t));
        return None;
    }
    let mut best: Ticket = held[0];
    let mut i: usize = 1;
    while i < held.len()
        invariant
            1 <= i <= held.len(),
            exists|j: int| 0 <= j < i && #[trigger] held@[j] == best,
            forall|j: int| 0 <= j < i ==> (#[trigger] held@[j]).0 <= best.0,
        decreases held.len() - i,
    {
        if held[i].0 > best.0 {
            best = held[i];
        }
        i = i + 1;
    }
    proof {
        let j = choose|j: int| 0 <= j < i && #[trigger] held@[j] == best;
        assert(held@.to_set().contains(best)) by {
            assert(held@.contains(held@[j]));
        }
        assert forall|u: Ticket| #[trigger] held@.to_set().contains(u) implies u.0 <= best.0 by {
            let k = choose|k: int| 0 <= k < held@.len() && held@[k] == u;
            assert(held@[k] == u);
        }
        lemma_in_force(held@.to_set(), best);
    }
    Some(best)
}

/// Takes `ticket` out.
fn drop_ticket(held: &mut Vec<Ticket>, ticket: Ticket)
    ensures
        final(held)@.to_set() == old(held)@.to_set().remove(ticket),
{
    let ghost all = held@;
    let mut kept: Vec<Ticket> = Vec::new();
    let mut i: usize = 0;
    while i < held.len()
        invariant
            i <= held.len(),
            held@ == all,
            forall|t: Ticket| #[trigger]
                kept@.contains(t) <==> t != ticket && all.take(i as int).contains(t),
        decreases held.len() - i,
    {
        let t: Ticket = held[i];
        let ghost before = kept@;
        proof {
            assert(all.take(i + 1) =~= all.take(i as int).push(t));
        }
        if t != ticket {
            kept.push(t);
        }
        proof {
            assert forall|u: Ticket| #[trigger] kept@.contains(u) <==> u != ticket && all.take(
                i + 1,
            ).contains(u) by {
                lemma_push_contains(all.take(i as int), t, u);
                lemma_push_contains(before, t, u);
            }
        }
        i = i + 1;
    }
    proof {
        assert(all.take(i as int) =~= all);
        assert(kept@.to_set() =~= all.to_set().remove(ticket));
    }
    *held = kept;
}

proof fn lemma_push_contains(s: Seq<Ticket>, t: Ticket, u: Ticket)
    ensures
        s.push(t).contains(u) <==> u == t || s.contains(u),
{
    if s.contains(u) {
        let k = choose|k: int| 0 <= k < s.len() && s[k] == u;
        assert(s.push(t)[k] == u);
    }
    if u == t {
        assert(s.push(t)[s.len() as int] == u);
    }
    if s.push(t).contains(u) && u != t {
        let k = choose|k: int| 0 <= k < s.push(t).len() && s.push(t)[k] == u;
        assert(s[k] == u);
    }
}

fn backwards_string(ticket: Ticket, highest: Ticket) -> (out: String)
    ensures
        out@ == backwards_text(ticket, highest),
{
    let mut s = "ticket ".to_owned();
    s.append(ticket.text().as_str());
    s.append(" not above previously issued ");
    s.append(highest.text().as_str());
    s.append(" — the ticket source moved backwards, so every later check is void");
    s
}

fn low_barrier_string(barrier: Ticket, revoked: Ticket) -> (out: String)
    ensures
        out@ == low_barrier_text(barrier, revoked),
{
    let mut s = "revocation barrier ".to_owned();
    s.append(barrier.text().as_str());
    s.append(" does not exceed revoked ");
    s.append(revoked.text().as_str());
    s
}

fn stale_commit_string(holder: &HolderId, ticket: Ticket, current: Option<Ticket>) -> (out: String)
    ensures
        out@ == stale_commit_text(holder@, ticket, current),
{
    let mut s = holder.clone();
    s.append(" committed with ticket ");
    s.append(ticket.text().as_str());
    s.append(" but ");
    s.append(Ticket::option_text(current).as_str());
    s.append(" was in force");
    s
}

fn p2(e: &Vec<Entry>, r: &mut Report)
    ensures
        final(r)@ == (ReportView {
            violations: old(r)@.violations + p2_violations(history::entries_view(e@)),
            ..old(r)@
        }),
{
    let ghost log = history::entries_view(e@);
    let ghost found = r@.violations;
    let mut top: Option<Ticket> = None;
    let mut held: Vec<Ticket> = Vec::new();
    let mut i: usize = 0;
    proof {
        assert(held@.to_set() =~= held_tickets(log.take(0)));
        assert(found + p2_violations(log.take(0)) =~= found);
    }
    while i < e.len()
        invariant
            i <= e.len(),
            log == history::entries_view(e@),
            top == highest_issued(log.take(i as int)),
            held@.to_set() == held_tickets(log.take(i as int)),
            r@.checked == old(r)@.checked,
            r@.violations == found + p2_violations(log.take(i as int)),
        decreases e.len() - i,
    {
        proof {
            assert(log.take(i + 1).drop_last() =~= log.take(i as int));
            assert(log.take(i + 1).last() == log[i as int]);
            assert(log[i as int] == e@[i as int]@);
        }
        let seq: u64 = e[i].seq;
        match &e[i].event {
            Event::TicketIssued { ticket, .. } => {
                match top {
                    Some(h) => {
                        if ticket.0 <= h.0 {
                            fail(
                                r,
                                Property::P2TicketValidity,
                                Some(seq),
                                backwards_string(*ticket, h),
                            );
                        } else {
                            top = Some(*ticket);
                        }
                    },
                    None => {
                        top = Some(*ticket);
                    },
                }
            },
            Event::TakeGranted { ticket, .. } => {
                let ghost before = held@;
                held.push(*ticket);
                proof {
                    assert forall|u: Ticket| #[trigger]
                        held@.to_set().contains(u) <==> before.to_set().insert(*ticket).contains(
                            u,
                        ) by {
                        lemma_push_contains(before, *ticket, u);
                    }
                    assert(held@.to_set() =~= before.to_set().insert(*ticket));
                }
            },
            Event::GiveBack { ticket, .. } => {
                drop_ticket(&mut held, *ticket);
            },
            Event::LeaseExpired { ticket, .. } => {
                drop_ticket(&mut held, *ticket);
            },
            Event::Revoked { new_ticket, .. } => {
                let revoked = highest(&held);
                held.clear();
                assert(held@.to_set() =~= Set::empty());
                match (revoked, *new_ticket) {
                    (Some(prev), Some(barrier)) => {
                        if barrier.0 <= prev.0 {
                            fail(
                                r,
                                Property::P2TicketValidity,
                                Some(seq),
                                low_barrier_string(barrier, prev),
                            );
                        }
                    },
                    _ => {},
                }
            },
            Event::WriteAccepted { holder, ticket, .. } => {
                let current = highest(&held);
                if current != Some(*ticket) {
                    fail(
                        r,
                        Property::P2TicketValidity,
                        Some(seq),
                        stale_commit_string(holder, *ticket, current),
                    );
                }
            },
            _ => {},
        }
        proof {
            assert(r@.violations =~= found + p2_violations(log.take(i + 1)));
        }
        i = i + 1;
    }
    proof {
        assert(log.take(i as int) =~= log);
    }
}

/// The latest accepted write: where it is recorded, and its content.
pub open spec fn latest_accepted(log: Log) -> Option<(nat, Seq<char>)>
    decreases log.len(),
{
    if log.len() == 0 {
        None
    } else {
        match log.last().event {
            EventView::WriteAccepted { content, .. } => Some((log.last().seq, content)),
            _ => latest_accepted(log.drop_last()),
        }
    }
}

/// What is said of an accepted write that is gone.
pub open spec fn lost_text(accepted: Seq<char>, final_content: Seq<char>) -> Seq<char> {
    "last accepted write "@ + text::str_debug(accepted) + " is not the final content "@
        + text::str_debug(final_content)
}

/// What is said of content that changed without an accepted write.
pub open spec fn changed_text(final_content: Seq<char>) -> Seq<char> {
    "no write was accepted, yet content changed to "@ + text::str_debug(final_content)
}

/// No lost write: the final content is the last accepted write. An earlier accepted write being
/// absent is correct: it was superseded, not lost.
pub open spec fn p3_violations(log: Log, final_content: Seq<char>, initial: Seq<char>) -> Seq<
    ViolationView,
> {
    match latest_accepted(log) {
        Some((seq, content)) => if content != final_content {
            seq![
                ViolationView {
                    property: Property::P3NoLostWrite,
                    at_seq: Some(seq),
                    detail: lost_text(content, final_content),
                },
            ]
        } else {
            Seq::empty()
        },
        None => if final_content != initial {
            seq![
                ViolationView {
                    property: Property::P3NoLostWrite,
                    at_seq: None,
                    detail: changed_text(final_content),
                },
            ]
        } else {
            Seq::empty()
        },
    }
}

fn last_accepted(e: &Vec<Entry>) -> (out: Option<(u64, String)>)
    ensures
        match out {
            Some((seq, content)) => latest_accepted(history::entries_view(e@)) == Some(
                (seq as nat, content@),
            ),
            None => latest_accepted(history::entries_view(e@)) is None,
        },
{
    let ghost log = history::entries_view(e@);
    let mut i: usize = e.len();
    proof {
        assert(log.take(i as int) =~= log);
    }
    while i > 0
        invariant
            i <= e.len(),
            log == history::entries_view(e@),
            latest_accepted(log) == latest_accepted(log.take(i as int)),
        decreases i,
    {
        proof {
            assert(log.take(i as int).drop_last() =~= log.take(i - 1));
            assert(log.take(i as int).last() == log[i - 1]);
            assert(log[i - 1] == e@[i - 1]@);
        }
        match &e[i - 1].event {
            Event::WriteAccepted { content, .. } => {
                return Some((e[i - 1].seq, content.clone()));
            },
            _ => {},
        }
        i = i - 1;
    }
    None
}

fn p3(e: &Vec<Entry>, r: &mut Report, final_content: &str, initial: &str)
    ensures
        final(r)@ == (ReportView {
            violations: old(r)@.violations + p3_violations(
                history::entries_view(e@),
                final_content@,
                initial@,
            ),
            ..old(r)@
        }),
{
    let ghost found = r@.violations;
    let at_end = final_content.to_owned();
    match last_accepted(e) {
        Some((seq, content)) => {
            if !(content == at_end) {
                let mut detail = "last accepted write ".to_owned();
                detail.append(text::quoted(content.as_str()).as_str());
                detail.append(" is not the final content ");
                detail.append(text::quoted(final_content).as_str());
                fail(r, Property::P3NoLostWrite, Some(seq), detail);
            }
        },
        None => {
            if !(at_end == initial.to_owned()) {
                let mut detail = "no write was accepted, yet content changed to ".to_owned();
                detail.append(text::quoted(final_content).as_str());
                fail(r, Property::P3NoLostWrite, None, detail);
            }
        },
    }
    assert(r@.violations =~= found + p3_violations(
        history::entries_view(e@),
        final_content@,
        initial@,
    ));
}

/// Some accepted write has this content.
pub open spec fn was_accepted(log: Log, content: Seq<char>) -> bool {
    exists|i: int|
        0 <= i < log.len() && ((#[trigger] log[i]).event matches EventView::WriteAccepted {
            content: c,
            ..
        } && c == content)
}

/// What is said of final content that nobody was allowed to write.
pub open spec fn phantom_text(final_content: Seq<char>) -> Seq<char> {
    "final content "@ + text::str_debug(final_content) + " was never an accepted write"@
}

/// What is said of a refused write that is there all the same.
pub open spec fn refused_yet_there_text(holder: Seq<char>, reason: Refusal) -> Seq<char> {
    holder + "'s write was refused ("@ + types::refusal_text(reason) + ") yet is the final content"@
}

/// The refused writes among the first entries of `log` whose content is the final one, although no
/// accepted write of `log` had it.
pub open spec fn refused_yet_there(log: Log, first: Log, final_content: Seq<char>) -> Seq<
    ViolationView,
>
    decreases first.len(),
{
    if first.len() == 0 {
        Seq::empty()
    } else {
        let before = refused_yet_there(log, first.drop_last(), final_content);
        match first.last().event {
            EventView::WriteRefused { holder, reason, content, .. } if content == final_content
                && !was_accepted(log, content) => before.push(
                ViolationView {
                    property: Property::P4NoPhantomWrite,
                    at_seq: Some(first.last().seq),
                    detail: refused_yet_there_text(holder, reason),
                },
            ),
            _ => before,
        }
    }
}

/// No phantom write: the final content is the initial one or that of an accepted write, and no
/// refused write is the final content.
pub open spec fn p4_violations(log: Log, final_content: Seq<char>, initial: Seq<char>) -> Seq<
    ViolationView,
> {
    (if final_content != initial && !was_accepted(log, final_content) {
        seq![
            ViolationView {
                property: Property::P4NoPhantomWrite,
                at_seq: None,
                detail: phantom_text(final_content),
            },
        ]
    } else {
        Seq::empty()
    }) + refused_yet_there(log, log, final_content)
}

/// Whether some accepted write has this content.
fn has_accepted(e: &Vec<Entry>, content: &String) -> (out: bool)
    ensures
        out == was_accepted(history::entries_view(e@), content@),
{
    let ghost log = history::entries_view(e@);
    let mut i: usize = 0;
    while i < e.len()
        invariant
            i <= e.len(),
            log == history::entries_view(e@),
            forall|j: int|
                0 <= j < i ==> !((#[trigger] log[j]).event matches EventView::WriteAccepted {
                    content: c,
                    ..
                } && c == content@),
        decreases e.len() - i,
    {
        proof {
            assert(log[i as int] == e@[i as int]@);
        }
        match &e[i].event {
            Event::WriteAccepted { content: c, .. } => {
                if *c == *content {
                    return true;
                }
            },
            _ => {},
        }
        i = i + 1;
    }
    false
}

fn p4(e: &Vec<Entry>, r: &mut Report, final_content: &str, initial: &str)
    ensures
        final(r)@ == (ReportView {
            violations: old(r)@.violations + p4_violations(
                history::entries_view(e@),
                final_content@,
                initial@,
            ),
            ..old(r)@
        }),
{
    let ghost log = history::entries_view(e@);
    let ghost found = r@.violations;
    let at_end = final_content.to_owned();
    let accepted = has_accepted(e, &at_end);
    if !(at_end == initial.to_owned()) && !accepted {
        let mut detail = "final content ".to_owned();
        detail.append(text::quoted(final_content).as_str());
        detail.append(" was never an accepted write");
        fail(r, Property::P4NoPhantomWrite, None, detail);
    }
    let ghost first = r@.violations;
    let mut i: usize = 0;
    proof {
        assert(first + refused_yet_there(log, log.take(0), final_content@) =~= first);
    }
    while i < e.len()
        invariant
            i <= e.len(),
            log == history::entries_view(e@),
            accepted == was_accepted(log, final_content@),
            at_end@ == final_content@,
            r@.checked == old(r)@.checked,
            r@.violations == first + refused_yet_there(log, log.take(i as int), final_content@),
        decreases e.len() - i,
    {
        proof {
            assert(log.take(i + 1).drop_last() =~= log.take(i as int));
            assert(log.take(i + 1).last() == log[i as int]);
            assert(log[i as int] == e@[i as int]@);
        }
        match &e[i].event {
            Event::WriteRefused { holder, reason, content, .. } => {
                if *content == at_end && !accepted {
                    let mut detail = holder.clone();
                    detail.append("'s write was refused (");
                    detail.append(reason.text().as_str());
                    detail.append(") yet is the final content");
                    fail(r, Property::P4NoPhantomWrite, Some(e[i].seq), detail);
                }
            },
            _ => {},
        }
        proof {
            assert(r@.violations =~= first + refused_yet_there(
                log,
                log.take(i + 1),
                final_content@,
            ));
        }
        i = i + 1;
    }
    proof {
        assert(log.take(i as int) =~= log);
        assert(r@.violations =~= found + p4_violations(log, final_content@, initial@));
    }
}

/// One grant: to whom, of what, on which ticket, and where it is recorded.
#[verifier::ext_equal]
pub struct GrantView {
    pub ticket: Ticket,
    pub resource: Seq<char>,
    pub holder: Seq<char>,
    pub seq: nat,
}

/// The grants other than the one of `resource` on `ticket`, in order.
pub open spec fn without_grant(
    grants: Seq<GrantView>,
    ticket: Ticket,
    resource: Seq<char>,
) -> Seq<GrantView> {
    grants.filter(|g: GrantView| !(g.ticket == ticket && g.resource == resource))
}

/// The grants of other resources than `resource`, in order.
pub open spec fn without_resource(grants: Seq<GrantView>, resource: Seq<char>) -> Seq<GrantView> {
    grants.filter(|g: GrantView| g.resource != resource)
}

/// The grants that nothing has ended yet, in the order in which they were made.
pub open spec fn outstanding(log: Log) -> Seq<GrantView>
    decreases log.len(),
{
    if log.len() == 0 {
        Seq::empty()
    } else {
        let before = outstanding(log.drop_last());
        match log.last().event {
            EventView::TakeGranted { holder, resource, ticket } => without_grant(
                before,
                ticket,
                resource,
            ).push(GrantView { ticket, resource, holder, seq: log.last().seq }),
            EventView::GiveBack { resource, ticket, .. } => without_grant(before, ticket, resource),
            EventView::LeaseExpired { resource, ticket, .. } => without_grant(
                before,
                ticket,
                resource,
            ),
            EventView::Revoked { resource, .. } => without_resource(before, resource),
            _ => before,
        }
    }
}

/// What is said of a lock that nobody gave back.
pub open spec fn leak_text(g: GrantView) -> Seq<char> {
    g.holder + " still holds "@ + g.resource + " at end of history"@
}

/// No leaked lock: every grant was ended by a give-back, an expiry or a revocation.
pub open spec fn p5_violations(log: Log) -> Seq<ViolationView> {
    outstanding(log).map_values(
        |g: GrantView|
            ViolationView {
                property: Property::P5NoLeakedLock,
                at_seq: Some(g.seq),
                detail: leak_text(g),
            },
    )
}

struct Grant {
    ticket: Ticket,
    resource: ResourceId,
    holder: HolderId,
    seq: u64,
}

impl View for Grant {
    type V = GrantView;

    closed spec fn view(&self) -> GrantView {
        GrantView {
            ticket: self.ticket,
            resource: self.resource@,
            holder: self.holder@,
            seq: self.seq as nat,
        }
    }
}

spec fn grants_view(grants: Seq<Grant>) -> Seq<GrantView> {
    grants.map_values(|g: Grant| g@)
}

/// Takes out the grants of `resource`: all of them, or only the one on `ticket`.
fn end_grants(grants: Vec<Grant>, resource: &ResourceId, ticket: Option<Ticket>) -> (out: Vec<Grant>)
    ensures
        grants_view(out@) == (match ticket {
            Some(t) => without_grant(grants_view(grants@), t, resource@),
            None => without_resource(grants_view(grants@), resource@),
        }),
{
    let ghost all = grants_view(grants@);
    let ghost keep = match ticket {
        Some(t) => |g: GrantView| !(g.ticket == t && g.resource == resource@),
        None => |g: GrantView| g.resource != resource@,
    };
    let mut left = grants;
    let mut out: Vec<Grant> = Vec::new();
    let ghost mut done: int = 0;
    proof {
        reveal(Seq::filter);
        assert(all.take(0).filter(keep) =~= Seq::empty());
        assert(grants_view(out@) =~= Seq::empty());
        assert(all.skip(0) =~= all);
    }
    while left.len() > 0
        invariant
            0 <= done <= all.len(),
            grants_view(left@) == all.skip(done),
            grants_view(out@) == all.take(done).filter(keep),
            keep == (match ticket {
                Some(t) => |g: GrantView| !(g.ticket == t && g.resource == resource@),
                None => |g: GrantView| g.resource != resource@,
            }),
        decreases left.len(),
    {
        let ghost before = out@;
        let ghost rest = left@;
        proof {
            assert(grants_view(rest).len() > 0);
        }
        let g = left.remove(0);
        proof {
            assert(grants_view(rest)[0] == g@);
            assert(done < all.len());
            assert(all.skip(done)[0] == all[done]);
            assert forall|k: int| 0 <= k < left@.len() implies grants_view(left@)[k] == all.skip(
                done + 1,
            )[k] by {
                assert(left@[k] == rest[k + 1]);
                assert(grants_view(rest)[k + 1] == all.skip(done)[k + 1]);
            }
            assert(grants_view(left@) =~= all.skip(done + 1));
            assert(all.take(done + 1) =~= all.take(done).push(g@));
            assert(all.take(done + 1).drop_last() =~= all.take(done));
            reveal(Seq::filter);
        }
        let ended = g.resource == *resource && match ticket {
            Some(t) => g.ticket == t,
            None => true,
        };
        assert(ended == !keep(g@));
        if !ended {
            out.push(g);
            proof {
                assert(grants_view(out@) =~= grants_view(before).push(g@));
            }
        }
        proof {
            done = done + 1;
        }
    }
    proof {
        assert(grants_view(left@).len() == 0);
        assert(all.take(done) =~= all);
    }
    out
}

fn leak_string(g: &Grant) -> (out: String)
    ensures
        out@ == leak_text(g@),
{
    let mut s = g.holder.clone();
    s.append(" still holds ");
    s.append(g.resource.as_str());
    s.append(" at end of history");
    s
}

fn p5_grants(e: &Vec<Entry>) -> (out: Vec<Grant>)
    ensures
        grants_view(out@) == outstanding(history::entries_view(e@)),
{
    let ghost log = history::entries_view(e@);
    let mut held: Vec<Grant> = Vec::new();
    let mut i: usize = 0;
    proof {
        assert(grants_view(held@) =~= outstanding(log.take(0)));
    }
    while i < e.len()
        invariant
            i <= e.len(),
            log == history::entries_view(e@),
            grants_view(held@) == outstanding(log.take(i as int)),
        decreases e.len() - i,
    {
        proof {
            assert(log.take(i + 1).drop_last() =~= log.take(i as int));
            assert(log.take(i + 1).last() == log[i as int]);
            assert(log[i as int] == e@[i as int]@);
        }
        match &e[i].event {
            Event::TakeGranted { holder, resource, ticket } => {
                held = end_grants(held, resource, Some(*ticket));
                let ghost before = held@;
                let g = Grant {
                    ticket: *ticket,
                    resource: resource.clone(),
                    holder: holder.clone(),
                    seq: e[i].seq,
                };
                held.push(g);
                assert(grants_view(held@) =~= grants_view(before).push(g@));
            },
            Event::GiveBack { resource, ticket, .. } => {
                held = end_grants(held, resource, Some(*ticket));
            },
            Event::LeaseExpired { resource, ticket, .. } => {
                held = end_grants(held, resource, Some(*ticket));
            },
            Event::Revoked { resource, .. } => {
                held = end_grants(held, resource, None);
            },
            _ => {},
        }
        i = i + 1;
    }
    proof {
        assert(log.take(i as int) =~= log);
    }
    held
}

fn p5(e: &Vec<Entry>, r: &mut Report)
    ensures
        final(r)@ == (ReportView {
            violations: old(r)@.violations + p5_violations(history::entries_view(e@)),
            ..old(r)@
        }),
{
    let held = p5_grants(e);
    let ghost vs = p5_violations(history::entries_view(e@));
    let ghost found = r@.violations;
    let mut i: usize = 0;
    proof {
        assert(found + vs.take(0) =~= found);
    }
    while i < held.len()
        invariant
            i <= held.len(),
            vs == p5_violations(history::entries_view(e@)),
            grants_view(held@) == outstanding(history::entries_view(e@)),
            r@.checked == old(r)@.checked,
            r@.violations == found + vs.take(i as int),
        decreases held.len() - i,
    {
        assert(grants_view(held@)[i as int] == held@[i as int]@);
        fail(r, Property::P5NoLeakedLock, Some(held[i].seq), leak_string(&held[i]));
        assert(r@.violations =~= found + vs.take(i + 1));
        i = i + 1;
    }
    assert(vs.take(i as int) =~= vs);
}

/// The version in force after `log`: that of the latest accepted write.
pub open spec fn version_in_force(log: Log) -> Version
    decreases log.len(),
{
    if log.len() == 0 {
        Version(0)
    } else {
        match log.last().event {
            EventView::WriteAccepted { version, .. } => version,
            _ => version_in_force(log.drop_last()),
        }
    }
}

/// The version that `holder`'s next accepted write is based on: the one it expected at its latest
/// attempt, if nothing was accepted from it since.
pub open spec fn basis(log: Log, holder: Seq<char>) -> Option<Version>
    decreases log.len(),
{
    if log.len() == 0 {
        None
    } else {
        match log.last().event {
            EventView::WriteAttempted { holder: h, expected_version, .. } if h == holder => Some(
                expected_version,
            ),
            EventView::WriteAccepted { holder: h, .. } if h == holder => None,
            _ => basis(log.drop_last(), holder),
        }
    }
}

/// What is said of a write that was based on a version not in force.
pub open spec fn stale_basis_text(
    holder: Seq<char>,
    based_on: Option<Version>,
    version: Version,
) -> Seq<char> {
    holder + " committed based on "@ + types::version_option_text(based_on) + " but "@
        + types::version_text(version) + " was in force"@
}

/// Freshness: the version that a write was based on is the version in force when it committed.
pub open spec fn p6_violations(log: Log) -> Seq<ViolationView>
    decreases log.len(),
{
    if log.len() == 0 {
        Seq::empty()
    } else {
        let before = p6_violations(log.drop_last());
        let version = version_in_force(log.drop_last());
        match log.last().event {
            EventView::WriteAccepted { holder, .. } if basis(log.drop_last(), holder) != Some(
                version,
            ) => before.push(
                ViolationView {
                    property: Property::P6Freshness,
                    at_seq: Some(log.last().seq),
                    detail: stale_basis_text(holder, basis(log.drop_last(), holder), version),
                },
            ),
            _ => before,
        }
    }
}

/// `map` holds what every holder's next accepted write is based on.
spec fn bases_match(map: Map<Seq<char>, Version>, log: Log) -> bool {
    forall|h: Seq<char>|
        #![trigger map.contains_key(h)]
        #![trigger basis(log, h)]
        match basis(log, h) {
            Some(version) => map.contains_key(h) && map[h] == version,
            None => !map.contains_key(h),
        }
}

fn stale_basis_string(holder: &HolderId, based_on: Option<Version>, version: Version) -> (out: String)
    ensures
        out@ == stale_basis_text(holder@, based_on, version),
{
    let mut s = holder.clone();
    s.append(" committed based on ");
    s.append(Version::option_text(based_on).as_str());
    s.append(" but ");
    s.append(version.text().as_str());
    s.append(" was in force");
    s
}

fn p6(e: &Vec<Entry>, r: &mut Report)
    ensures
        final(r)@ == (ReportView {
            violations: old(r)@.violations + p6_violations(history::entries_view(e@)),
            ..old(r)@
        }),
{
    let ghost log = history::entries_view(e@);
    let ghost found = r@.violations;
    let mut version = Version(0);
    let mut expected: StringHashMap<Version> = StringHashMap::new();
    let mut i: usize = 0;
    proof {
        assert(found + p6_violations(log.take(0)) =~= found);
    }
    while i < e.len()
        invariant
            i <= e.len(),
            log == history::entries_view(e@),
            version == version_in_force(log.take(i as int)),
            bases_match(expected@, log.take(i as int)),
            r@.checked == old(r)@.checked,
            r@.violations == found + p6_violations(log.take(i as int)),
        decreases e.len() - i,
    {
        proof {
            assert(log.take(i + 1).drop_last() =~= log.take(i as int));
            assert(log.take(i + 1).last() == log[i as int]);
            assert(log[i as int] == e@[i as int]@);
        }
        let ghost known = expected@;
        match &e[i].event {
            Event::WriteAttempted { holder, expected_version, .. } => {
                expected.insert(holder.clone(), *expected_version);
            },
            Event::WriteAccepted { holder, version: got, .. } => {
                let based_on = match expected.get(holder.as_str()) {
                    Some(v) => Some(*v),
                    None => None,
                };
                assert(based_on == basis(log.take(i as int), holder@)) by {
                    assert(expected@.contains_key(holder@) == (basis(log.take(i as int), holder@)
                        is Some));
                }
                expected.remove(holder.as_str());
                if based_on != Some(version) {
                    fail(
                        r,
                        Property::P6Freshness,
                        Some(e[i].seq),
                        stale_basis_string(holder, based_on, version),
                    );
                }
                version = *got;
            },
            _ => {},
        }
        proof {
            assert forall|h: Seq<char>|
                (match #[trigger] basis(log.take(i + 1), h) {
                    Some(version) => expected@.contains_key(h) && expected@[h] == version,
                    None => !expected@.contains_key(h),
                }) by {
                assert(known.contains_key(h) == (basis(log.take(i as int), h) is Some));
            }
            assert(r@.violations =~= found + p6_violations(log.take(i + 1)));
        }
        i = i + 1;
    }
    proof {
        assert(log.take(i as int) =~= log);
    }
}

/// Whom an event is about, if it is about an agent.
pub open spec fn concerns(e: EventView) -> Option<Seq<char>> {
    match e {
        EventView::TakeRequested { holder, .. } => Some(holder),
        EventView::TakeGranted { holder, .. } => Some(holder),
        EventView::Read { holder, .. } => Some(holder),
        EventView::WriteAttempted { holder, .. } => Some(holder),
        EventView::WriteAccepted { holder, .. } => Some(holder),
        EventView::WriteRefused { holder, .. } => Some(holder),
        EventView::GiveBack { holder, .. } => Some(holder),
        EventView::LeaseExpired { holder, .. } => Some(holder),
        EventView::PhaseTimeout { holder, .. } => Some(holder),
        EventView::CeilingReached { holder, .. } => Some(holder),
        EventView::AgentFinished { holder } => Some(holder),
        EventView::AgentWedged { holder } => Some(holder),
        EventView::TicketIssued { .. } => None,
        EventView::Revoked { .. } => None,
    }
}

/// An agent, and where it is first heard of.
#[verifier::ext_equal]
pub struct SeenView {
    pub holder: Seq<char>,
    pub seq: nat,
}

/// `holder` is one of `seen`.
pub open spec fn is_seen(seen: Seq<SeenView>, holder: Seq<char>) -> bool {
    exists|i: int| 0 <= i < seen.len() && (#[trigger] seen[i]).holder == holder
}

/// Every agent that the history speaks of, in the order in which they are first heard of.
pub open spec fn agents(log: Log) -> Seq<SeenView>
    decreases log.len(),
{
    if log.len() == 0 {
        Seq::empty()
    } else {
        let before = agents(log.drop_last());
        match concerns(log.last().event) {
            Some(holder) if !is_seen(before, holder) => before.push(
                SeenView { holder, seq: log.last().seq },
            ),
            _ => before,
        }
    }
}

/// The event is the last that `holder` owes: it finished, or it is known to be wedged.
pub open spec fn is_terminal(e: EventView, holder: Seq<char>) -> bool {
    match e {
        EventView::AgentWedged { holder: h } => h == holder,
        EventView::AgentFinished { holder: h } => h == holder,
        _ => false,
    }
}

/// `holder` finished, or is known to be wedged.
pub open spec fn is_accounted_for(log: Log, holder: Seq<char>) -> bool {
    exists|i: int| 0 <= i < log.len() && is_terminal((#[trigger] log[i]).event, holder)
}

/// What is said of an agent of which nothing more was heard.
pub open spec fn silent_text(holder: Seq<char>) -> Seq<char> {
    holder + " never reached a terminal event and was not marked wedged"@
}

/// The violations that the first of the agents make.
pub open spec fn silences(log: Log, seen: Seq<SeenView>) -> Seq<ViolationView>
    decreases seen.len(),
{
    if seen.len() == 0 {
        Seq::empty()
    } else {
        let before = silences(log, seen.drop_last());
        if is_accounted_for(log, seen.last().holder) {
            before
        } else {
            before.push(
                ViolationView {
                    property: Property::P7Liveness,
                    at_seq: Some(seen.last().seq),
                    detail: silent_text(seen.last().holder),
                },
            )
        }
    }
}

/// Liveness: every agent that is not wedged finishes.
pub open spec fn p7_violations(log: Log) -> Seq<ViolationView> {
    silences(log, agents(log))
}

struct Seen {
    holder: HolderId,
    seq: u64,
}

impl View for Seen {
    type V = SeenView;

    closed spec fn view(&self) -> SeenView {
        SeenView { holder: self.holder@, seq: self.seq as nat }
    }
}

fn holder_of(ev: &Event) -> (out: Option<&HolderId>)
    ensures
        match out {
            Some(holder) => concerns(ev@) == Some(holder@),
            None => concerns(ev@) is None,
        },
{
    match ev {
        Event::TakeRequested { holder, .. } => Some(holder),
        Event::TakeGranted { holder, .. } => Some(holder),
        Event::Read { holder, .. } => Some(holder),
        Event::WriteAttempted { holder, .. } => Some(holder),
        Event::WriteAccepted { holder, .. } => Some(holder),
        Event::WriteRefused { holder, .. } => Some(holder),
        Event::GiveBack { holder, .. } => Some(holder),
        Event::LeaseExpired { holder, .. } => Some(holder),
        Event::PhaseTimeout { holder, .. } => Some(holder),
        Event::CeilingReached { holder, .. } => Some(holder),
        Event::AgentFinished { holder } => Some(holder),
        Event::AgentWedged { holder } => Some(holder),
        Event::TicketIssued { .. } => None,
        Event::Revoked { .. } => None,
    }
}

spec fn seen_view(seen: Seq<Seen>) -> Seq<SeenView> {
    seen.map_values(|s: Seen| s@)
}

fn p7_agents(e: &Vec<Entry>) -> (out: Vec<Seen>)
    ensures
        seen_view(out@) == agents(history::entries_view(e@)),
{
    let ghost log = history::entries_view(e@);
    let mut known = StringHashSet::new();
    let mut out: Vec<Seen> = Vec::new();
    let mut i: usize = 0;
    proof {
        assert(seen_view(out@) =~= agents(log.take(0)));
    }
    while i < e.len()
        invariant
            i <= e.len(),
            log == history::entries_view(e@),
            seen_view(out@) == agents(log.take(i as int)),
            forall|h: Seq<char>| #[trigger]
                known@.contains(h) <==> is_seen(agents(log.take(i as int)), h),
        decreases e.len() - i,
    {
        let ghost before = agents(log.take(i as int));
        proof {
            assert(log.take(i + 1).drop_last() =~= log.take(i as int));
            assert(log.take(i + 1).last() == log[i as int]);
            assert(log[i as int] == e@[i as int]@);
        }
        match holder_of(&e[i].event) {
            Some(holder) => {
                if !known.contains(holder.as_str()) {
                    known.insert(holder.clone());
                    let s = Seen { holder: holder.clone(), seq: e[i].seq };
                    out.push(s);
                    proof {
                        assert(seen_view(out@) =~= before.push(s@));
                        let after = before.push(s@);
                        assert forall|h: Seq<char>| #[trigger]
                            known@.contains(h) <==> is_seen(after, h) by {
                            if is_seen(before, h) {
                                let k = choose|k: int|
                                    0 <= k < before.len() && (#[trigger] before[k]).holder == h;
                                assert(after[k].holder == h);
                            }
                            if h == holder@ {
                                assert(after[before.len() as int].holder == h);
                            }
                            if is_seen(after, h) && h != holder@ {
                                let k = choose|k: int|
                                    0 <= k < after.len() && (#[trigger] after[k]).holder == h;
                                assert(before[k].holder == h);
                            }
                        }
                    }
                }
            },
            None => {},
        }
        i = i + 1;
    }
    proof {
        assert(log.take(i as int) =~= log);
    }
    out
}

/// Every holder with a terminal event.
fn p7_accounted_for(e: &Vec<Entry>) -> (out: StringHashSet)
    ensures
        forall|h: Seq<char>| #[trigger]
            out@.contains(h) <==> is_accounted_for(history::entries_view(e@), h),
{
    let ghost log = history::entries_view(e@);
    let mut out = StringHashSet::new();
    let mut i: usize = 0;
    while i < e.len()
        invariant
            i <= e.len(),
            log == history::entries_view(e@),
            forall|h: Seq<char>| #[trigger]
                out@.contains(h) <==> exists|j: int|
                    0 <= j < i && is_terminal((#[trigger] log[j]).event, h),
        decreases e.len() - i,
    {
        let ghost before = out@;
        proof {
            assert(log[i as int] == e@[i as int]@);
        }
        match &e[i].event {
            Event::AgentWedged { holder } => {
                out.insert(holder.clone());
            },
            Event::AgentFinished { holder } => {
                out.insert(holder.clone());
            },
            _ => {},
        }
        proof {
            assert forall|h: Seq<char>| #[trigger] out@.contains(h) <==> exists|j: int|
                0 <= j < i + 1 && is_terminal((#[trigger] log[j]).event, h) by {
                if before.contains(h) {
                    let j = choose|j: int| 0 <= j < i && is_terminal((#[trigger] log[j]).event, h);
                    assert(is_terminal(log[j].event, h));
                }
                if is_terminal(log[i as int].event, h) {
                    assert(out@.contains(h));
                }
                if exists|j: int| 0 <= j < i + 1 && is_terminal((#[trigger] log[j]).event, h) {
                    let j = choose|j: int|
                        0 <= j < i + 1 && is_terminal((#[trigger] log[j]).event, h);
                    if j < i {
                        assert(before.contains(h));
                    }
                }
            }
        }
        i = i + 1;
    }
    out
}

fn p7(e: &Vec<Entry>, r: &mut Report)
    ensures
        final(r)@ == (ReportView {
            violations: old(r)@.violations + p7_violations(history::entries_view(e@)),
            ..old(r)@
        }),
{
    let ghost log = history::entries_view(e@);
    let ghost found = r@.violations;
    let seen = p7_agents(e);
    let over = p7_accounted_for(e);
    let ghost sv = seen_view(seen@);
    let mut i: usize = 0;
    proof {
        assert(found + silences(log, sv.take(0)) =~= found);
    }
    while i < seen.len()
        invariant
            i <= seen.len(),
            sv == seen_view(seen@),
            forall|h: Seq<char>| #[trigger] over@.contains(h) <==> is_accounted_for(log, h),
            r@.checked == old(r)@.checked,
            r@.violations == found + silences(log, sv.take(i as int)),
        decreases seen.len() - i,
    {
        proof {
            assert(sv.take(i + 1).drop_last() =~= sv.take(i as int));
            assert(sv.take(i + 1).last() == seen@[i as int]@);
        }
        if !over.contains(seen[i].holder.as_str()) {
            let mut detail = seen[i].holder.clone();
            detail.append(" never reached a terminal event and was not marked wedged");
            fail(r, Property::P7Liveness, Some(seen[i].seq), detail);
        }
        proof {
            assert(r@.violations =~= found + silences(log, sv.take(i + 1)));
        }
        i = i + 1;
    }
    proof {
        assert(sv.take(i as int) =~= sv);
    }
}

/// The latest revocation: where it is recorded, and the barrier that it raised.
pub open spec fn latest_revocation(log: Log) -> Option<(nat, Option<Ticket>)>
    decreases log.len(),
{
    if log.len() == 0 {
        None
    } else {
        match log.last().event {
            EventView::Revoked { new_ticket, .. } => Some((log.last().seq, new_ticket)),
            _ => latest_revocation(log.drop_last()),
        }
    }
}

/// The history before its latest revocation. Empty if there is none.
pub open spec fn before_revocation(log: Log) -> Log
    decreases log.len(),
{
    if log.len() == 0 {
        log
    } else if log.last().event is Revoked {
        log.drop_last()
    } else {
        before_revocation(log.drop_last())
    }
}

/// The event says that `ticket` was issued, or that the lock was granted on it.
pub open spec fn brings_out(e: EventView, ticket: Ticket) -> bool {
    match e {
        EventView::TicketIssued { ticket: t, .. } => t == ticket,
        EventView::TakeGranted { ticket: t, .. } => t == ticket,
        _ => false,
    }
}

/// `ticket` was issued, or the lock granted on it, somewhere in the history.
pub open spec fn was_issued(log: Log, ticket: Ticket) -> bool {
    exists|k: int| 0 <= k < log.len() && brings_out((#[trigger] log[k]).event, ticket)
}

/// The latest revocation in the history has taken the lock on `ticket` away. Where it raised a
/// barrier, that is every ticket below the barrier; where it raised none, every ticket that had been
/// issued by that point.
pub open spec fn is_revoked(log: Log, ticket: Ticket) -> bool {
    match latest_revocation(log) {
        Some((_, Some(barrier))) => ticket.0 < barrier.0,
        Some((_, None)) => was_issued(before_revocation(log), ticket),
        None => false,
    }
}

/// What is said of a write that landed on a ticket from before a revocation.
pub open spec fn late_text(
    holder: Seq<char>,
    ticket: Ticket,
    revoked_at: nat,
    barrier: Option<Ticket>,
) -> Seq<char> {
    let text = holder + " committed on ticket "@ + types::ticket_text(ticket)
        + " after revocation at seq "@ + text::decimal(revoked_at);
    match barrier {
        Some(b) => text + " raised the barrier to "@ + types::ticket_text(b),
        None => text + " took the lock away"@,
    }
}

/// Preemptibility: a revocation actually takes the lock away. No write lands afterwards on a ticket
/// issued before it.
pub open spec fn p8_violations(log: Log) -> Seq<ViolationView>
    decreases log.len(),
{
    if log.len() == 0 {
        Seq::empty()
    } else {
        let before = p8_violations(log.drop_last());
        match (log.last().event, latest_revocation(log.drop_last())) {
            (
                EventView::WriteAccepted { holder, ticket, .. },
                Some((revoked_at, barrier)),
            ) if is_revoked(log.drop_last(), ticket) => before.push(
                ViolationView {
                    property: Property::P8Preemptibility,
                    at_seq: Some(log.last().seq),
                    detail: late_text(holder, ticket, revoked_at, barrier),
                },
            ),
            _ => before,
        }
    }
}

fn late_string(
    holder: &HolderId,
    ticket: Ticket,
    revoked_at: u64,
    barrier: Option<Ticket>,
) -> (out: String)
    ensures
        out@ == late_text(holder@, ticket, revoked_at as nat, barrier),
{
    let mut s = holder.clone();
    s.append(" committed on ticket ");
    s.append(ticket.text().as_str());
    s.append(" after revocation at seq ");
    s.append(text::decimal_string(revoked_at).as_str());
    match barrier {
        Some(b) => {
            s.append(" raised the barrier to ");
            s.append(b.text().as_str());
        },
        None => {
            s.append(" took the lock away");
        },
    }
    s
}

/// Whether one of the first `n` entries says that `ticket` was issued, or the lock granted on it.
fn issued_within(e: &Vec<Entry>, n: usize, ticket: Ticket) -> (out: bool)
    requires
        n <= e.len(),
    ensures
        out == was_issued(history::entries_view(e@).take(n as int), ticket),
{
    let ghost log = history::entries_view(e@);
    let ghost first = log.take(n as int);
    let mut k: usize = 0;
    while k < n
        invariant
            k <= n <= e.len(),
            log == history::entries_view(e@),
            first == log.take(n as int),
            forall|j: int| 0 <= j < k ==> !brings_out((#[trigger] first[j]).event, ticket),
        decreases n - k,
    {
        assert(first[k as int] == e@[k as int]@);
        let found = match &e[k].event {
            Event::TicketIssued { ticket: t, .. } => *t == ticket,
            Event::TakeGranted { ticket: t, .. } => *t == ticket,
            _ => false,
        };
        if found {
            assert(brings_out(first[k as int].event, ticket));
            return true;
        }
        k = k + 1;
    }
    false
}

fn p8(e: &Vec<Entry>, r: &mut Report)
    ensures
        final(r)@ == (ReportView {
            violations: old(r)@.violations + p8_violations(history::entries_view(e@)),
            ..old(r)@
        }),
{
    let ghost log = history::entries_view(e@);
    let ghost found = r@.violations;
    // Where the latest revocation stands, its number, and the barrier that it raised.
    let mut revoked: Option<(usize, u64, Option<Ticket>)> = None;
    let mut i: usize = 0;
    proof {
        assert(found + p8_violations(log.take(0)) =~= found);
    }
    while i < e.len()
        invariant
            i <= e.len(),
            log == history::entries_view(e@),
            match revoked {
                Some((at, seq, barrier)) => {
                    &&& at < i
                    &&& latest_revocation(log.take(i as int)) == Some((seq as nat, barrier))
                    &&& before_revocation(log.take(i as int)) == log.take(at as int)
                },
                None => latest_revocation(log.take(i as int)) is None,
            },
            r@.checked == old(r)@.checked,
            r@.violations == found + p8_violations(log.take(i as int)),
        decreases e.len() - i,
    {
        proof {
            assert(log.take(i + 1).drop_last() =~= log.take(i as int));
            assert(log.take(i + 1).last() == log[i as int]);
            assert(log[i as int] == e@[i as int]@);
        }
        match &e[i].event {
            Event::Revoked { new_ticket, .. } => {
                revoked = Some((i, e[i].seq, *new_ticket));
            },
            Event::WriteAccepted { holder, ticket, .. } => {
                match revoked {
                    Some((at, revoked_at, barrier)) => {
                        let late = match barrier {
                            Some(b) => ticket.0 < b.0,
                            None => issued_within(e, at, *ticket),
                        };
                        if late {
                            fail(
                                r,
                                Property::P8Preemptibility,
                                Some(e[i].seq),
                                late_string(holder, *ticket, revoked_at, barrier),
                            );
                        }
                    },
                    None => {},
                }
            },
            _ => {},
        }
        proof {
            assert(r@.violations =~= found + p8_violations(log.take(i + 1)));
        }
        i = i + 1;
    }
    proof {
        assert(log.take(i as int) =~= log);
    }
}

/// The violations of one property.
pub open spec fn violations_of(
    p: Property,
    log: Log,
    final_content: Seq<char>,
    initial: Seq<char>,
) -> Seq<ViolationView> {
    match p {
        Property::P1MutualExclusion => p1_violations(log),
        Property::P2TicketValidity => p2_violations(log),
        Property::P3NoLostWrite => p3_violations(log, final_content, initial),
        Property::P4NoPhantomWrite => p4_violations(log, final_content, initial),
        Property::P5NoLeakedLock => p5_violations(log),
        Property::P6Freshness => p6_violations(log),
        Property::P7Liveness => p7_violations(log),
        Property::P8Preemptibility => p8_violations(log),
    }
}

/// The violations of some properties, one property after the other.
pub open spec fn all_violations(
    props: Seq<Property>,
    log: Log,
    final_content: Seq<char>,
    initial: Seq<char>,
) -> Seq<ViolationView>
    decreases props.len(),
{
    if props.len() == 0 {
        Seq::empty()
    } else {
        all_violations(props.drop_last(), log, final_content, initial) + violations_of(
            props.last(),
            log,
            final_content,
            initial,
        )
    }
}

/// Checks some properties over a history. `final_content` is what the resource holds at the end,
/// `initial_content` what it held at the beginning.
pub fn check(
    history: &History,
    props: &[Property],
    final_content: &str,
    initial_content: &str,
) -> (out: Report)
    ensures
        out@ == (ReportView {
            checked: props@,
            violations: all_violations(props@, history@, final_content@, initial_content@),
        }),
{
    let e = history.entries();
    let mut r = Report { checked: Vec::new(), violations: Vec::new() };
    let mut i: usize = 0;
    proof {
        assert(r@.checked =~= props@.take(0));
        assert(r@.violations =~= all_violations(
            props@.take(0),
            history@,
            final_content@,
            initial_content@,
        ));
    }
    while i < props.len()
        invariant
            i <= props.len(),
            history::entries_view(e@) == history@,
            r@.checked == props@.take(i as int),
            r@.violations == all_violations(
                props@.take(i as int),
                history@,
                final_content@,
                initial_content@,
            ),
        decreases props.len() - i,
    {
        let p: Property = props[i];
        proof {
            assert(props@.take(i + 1).drop_last() =~= props@.take(i as int));
            assert(props@.take(i + 1).last() == p);
            assert(props@.take(i + 1) =~= props@.take(i as int).push(p));
        }
        let ghost found = r@.violations;
        r.checked.push(p);
        assert(r@.violations =~= found);
        match p {
            Property::P1MutualExclusion => p1(&e, &mut r),
            Property::P2TicketValidity => p2(&e, &mut r),
            Property::P3NoLostWrite => p3(&e, &mut r, final_content, initial_content),
            Property::P4NoPhantomWrite => p4(&e, &mut r, final_content, initial_content),
            Property::P5NoLeakedLock => p5(&e, &mut r),
            Property::P6Freshness => p6(&e, &mut r),
            Property::P7Liveness => p7(&e, &mut r),
            Property::P8Preemptibility => p8(&e, &mut r),
        }
        i = i + 1;
    }
    proof {
        assert(props@.take(i as int) =~= props@);
    }
    r
}

/// Every property.
pub const ALL: [Property; 8] = [
    Property::P1MutualExclusion,
    Property::P2TicketValidity,
    Property::P3NoLostWrite,
    Property::P4NoPhantomWrite,
    Property::P5NoLeakedLock,
    Property::P6Freshness,
    Property::P7Liveness,
    Property::P8Preemptibility,
];

} // verus!
