//! The checker on histories written by hand: one that passes and one that does not for each
//! property, with the exact words of the violation.

use mas_harness_lock::checker;
use mas_harness_lock::checker::{Property, Report};
use mas_harness_lock::history::{Event, History};
use mas_harness_lock::types::{Refusal, Ticket, Version};

fn s(text: &str) -> String {
    text.to_string()
}

fn history(events: Vec<Event>) -> History {
    let mut h = History::new();
    for e in events {
        h.record(0, e);
    }
    h
}

fn check(events: Vec<Event>, p: Property, end: &str, start: &str) -> Report {
    checker::check(&history(events), &[p], end, start)
}

fn details(r: &Report) -> Vec<(Option<u64>, String)> {
    r.violations.iter().map(|v| (v.at_seq, v.detail.clone())).collect()
}

fn attempt(who: &str, ticket: u64, version: u64) -> Event {
    Event::WriteAttempted {
        holder: s(who),
        resource: s("f"),
        ticket: Ticket(ticket),
        expected_version: Version(version),
    }
}

fn accept(who: &str, ticket: u64, version: u64, content: &str) -> Event {
    Event::WriteAccepted {
        holder: s(who),
        resource: s("f"),
        ticket: Ticket(ticket),
        version: Version(version),
        content: s(content),
    }
}

fn refuse(who: &str, content: &str) -> Event {
    Event::WriteRefused {
        holder: s(who),
        resource: s("f"),
        reason: Refusal::StaleVersion { read: Version(0), current: Version(1) },
        content: s(content),
    }
}

fn grant(who: &str, ticket: u64) -> Event {
    Event::TakeGranted { holder: s(who), resource: s("f"), ticket: Ticket(ticket) }
}

fn back(who: &str, ticket: u64) -> Event {
    Event::GiveBack { holder: s(who), resource: s("f"), ticket: Ticket(ticket) }
}

fn expire(who: &str, ticket: u64) -> Event {
    Event::LeaseExpired { holder: s(who), resource: s("f"), ticket: Ticket(ticket) }
}

fn issue(ticket: u64) -> Event {
    Event::TicketIssued { resource: s("f"), ticket: Ticket(ticket) }
}

fn revoke(barrier: Option<u64>) -> Event {
    Event::Revoked { resource: s("f"), by: s("preemptor"), new_ticket: barrier.map(Ticket) }
}

#[test]
fn overlapping_windows_are_reported() {
    let p = Property::P1MutualExclusion;
    let apart = vec![attempt("A", 1, 0), accept("A", 1, 1, "a"), attempt("B", 2, 1), accept("B", 2, 2, "b")];
    assert!(check(apart, p, "", "").passed());
    let together = vec![attempt("A", 1, 0), attempt("B", 2, 0), accept("A", 1, 1, "a"), accept("B", 2, 2, "b")];
    assert_eq!(
        details(&check(together, p, "", "")),
        vec![(Some(1), s("accepted writes by A [0..2] and B [1..3] overlap"))]
    );
    // A refused attempt cannot conflict with anything, and neither can a holder with itself.
    let refused = vec![attempt("A", 1, 0), attempt("B", 2, 0), refuse("B", "b"), accept("A", 1, 1, "a"), accept("B", 2, 2, "b")];
    assert!(check(refused, p, "", "").passed());
    let alone = vec![attempt("A", 1, 0), attempt("A", 1, 0), accept("A", 1, 1, "a"), accept("A", 1, 2, "b")];
    assert!(check(alone, p, "", "").passed());
}

#[test]
fn three_overlapping_windows_make_three_violations() {
    let events = vec![
        attempt("A", 1, 0),
        attempt("B", 2, 0),
        attempt("C", 3, 0),
        accept("A", 1, 1, "a"),
        accept("B", 2, 2, "b"),
        accept("C", 3, 3, "c"),
    ];
    let seqs: Vec<Option<u64>> =
        check(events, Property::P1MutualExclusion, "", "").violations.iter().map(|v| v.at_seq).collect();
    assert_eq!(seqs, vec![Some(1), Some(2), Some(2)]);
}

#[test]
fn tickets_that_do_not_rise_are_reported() {
    let p = Property::P2TicketValidity;
    assert!(check(vec![issue(1), issue(2), issue(5)], p, "", "").passed());
    assert_eq!(
        details(&check(vec![issue(1), issue(1)], p, "", "")),
        vec![(
            Some(1),
            s("ticket Ticket(1) not above previously issued Ticket(1) — the ticket source moved \
               backwards, so every later check is void")
        )]
    );
    // The highest one counts, not the latest.
    assert_eq!(check(vec![issue(5), issue(3), issue(4)], p, "", "").violations.len(), 2);
}

#[test]
fn accepted_writes_need_the_ticket_in_force() {
    let p = Property::P2TicketValidity;
    assert!(check(vec![grant("A", 1), accept("A", 1, 1, "a")], p, "", "").passed());
    assert_eq!(
        details(&check(vec![grant("A", 1), back("A", 1), accept("A", 1, 1, "a")], p, "", "")),
        vec![(Some(2), s("A committed with ticket Ticket(1) but None was in force"))]
    );
    assert_eq!(
        details(&check(vec![grant("A", 1), grant("B", 2), accept("A", 1, 1, "a")], p, "", "")),
        vec![(Some(2), s("A committed with ticket Ticket(1) but Some(Ticket(2)) was in force"))]
    );
    // A third holder's lease lapsing does not end anybody else's hold.
    let three = vec![grant("A", 1), grant("B", 2), grant("C", 3), expire("A", 1), back("C", 3), accept("B", 2, 1, "b")];
    assert!(check(three, p, "", "").passed());
}

#[test]
fn barriers_must_exceed_what_they_revoke() {
    let p = Property::P2TicketValidity;
    assert!(check(vec![grant("A", 1), revoke(Some(2))], p, "", "").passed());
    assert!(check(vec![grant("A", 1), revoke(None)], p, "", "").passed());
    assert!(check(vec![revoke(Some(0))], p, "", "").passed());
    assert_eq!(
        details(&check(vec![grant("A", 4), grant("B", 7), revoke(Some(7))], p, "", "")),
        vec![(Some(2), s("revocation barrier Ticket(7) does not exceed revoked Ticket(7)"))]
    );
}

#[test]
fn lost_writes_are_reported() {
    let p = Property::P3NoLostWrite;
    let events = || vec![accept("A", 1, 1, "a"), accept("B", 2, 2, "b")];
    assert!(check(events(), p, "b", "").passed());
    assert_eq!(
        details(&check(events(), p, "a", "")),
        vec![(Some(1), s("last accepted write \"b\" is not the final content \"a\""))]
    );
    assert!(check(vec![], p, "x", "x").passed());
    assert_eq!(
        details(&check(vec![refuse("A", "y")], p, "y", "x")),
        vec![(None, s("no write was accepted, yet content changed to \"y\""))]
    );
}

#[test]
fn phantom_writes_are_reported() {
    let p = Property::P4NoPhantomWrite;
    assert!(check(vec![accept("A", 1, 1, "a")], p, "a", "x").passed());
    assert!(check(vec![refuse("A", "a")], p, "x", "x").passed());
    assert_eq!(
        details(&check(vec![refuse("A", "a")], p, "a", "x")),
        vec![
            (None, s("final content \"a\" was never an accepted write")),
            (
                Some(0),
                s("A's write was refused (stale version: read Version(0), current Version(1)) yet is the final content")
            ),
        ]
    );
    // Refused once, and accepted as well.
    assert!(check(vec![refuse("A", "a"), accept("B", 1, 1, "a")], p, "a", "x").passed());
    // Refused, and what the resource held from the beginning.
    assert_eq!(check(vec![refuse("A", "x")], p, "x", "x").violations.len(), 1);
}

#[test]
fn leaked_locks_are_reported() {
    let p = Property::P5NoLeakedLock;
    assert!(check(vec![grant("A", 1), back("A", 1)], p, "", "").passed());
    assert!(check(vec![grant("A", 1), expire("A", 1)], p, "", "").passed());
    assert!(check(vec![grant("A", 1), grant("B", 2), revoke(None)], p, "", "").passed());
    assert_eq!(
        details(&check(vec![grant("A", 1), grant("A", 2), back("A", 2)], p, "", "")),
        vec![(Some(0), s("A still holds f at end of history"))]
    );
    // What comes before the grant does not end it.
    assert!(!check(vec![back("A", 1), grant("A", 1)], p, "", "").passed());
    // A revocation of another resource does not end it either.
    let other = Event::Revoked { resource: s("g"), by: s("preemptor"), new_ticket: None };
    assert!(!check(vec![grant("A", 1), other], p, "", "").passed());
}

#[test]
fn stale_writes_are_reported() {
    let p = Property::P6Freshness;
    let fresh = vec![attempt("A", 1, 0), accept("A", 1, 1, "a"), attempt("B", 2, 1), accept("B", 2, 2, "b")];
    assert!(check(fresh, p, "", "").passed());
    assert_eq!(
        details(&check(
            vec![attempt("A", 1, 0), attempt("B", 2, 0), accept("A", 1, 1, "a"), accept("B", 2, 2, "b")],
            p,
            "",
            ""
        )),
        vec![(Some(3), s("B committed based on Some(Version(0)) but Version(1) was in force"))]
    );
    assert_eq!(
        details(&check(vec![accept("A", 1, 1, "a")], p, "", "")),
        vec![(Some(0), s("A committed based on None but Version(0) was in force"))]
    );
    // A refusal in between leaves the attempt what the next accepted write rests on.
    assert!(check(vec![attempt("A", 1, 0), refuse("A", "x"), accept("A", 1, 1, "a")], p, "", "").passed());
}

#[test]
fn silent_agents_are_reported() {
    let p = Property::P7Liveness;
    let over = |who: &str| Event::AgentFinished { holder: s(who) };
    let stuck = |who: &str| Event::AgentWedged { holder: s(who) };
    assert!(check(vec![grant("A", 1), over("A"), grant("B", 2), stuck("B")], p, "", "").passed());
    assert_eq!(
        details(&check(vec![issue(1), grant("A", 1), grant("B", 2), back("A", 1), over("B")], p, "", "")),
        vec![(Some(1), s("A never reached a terminal event and was not marked wedged"))]
    );
    // Every kind of event about an agent counts.
    let about_a = vec![
        Event::TakeRequested { holder: s("A"), resource: s("f") },
        grant("A", 1),
        Event::Read { holder: s("A"), resource: s("f"), version: Version(0) },
        attempt("A", 1, 0),
        accept("A", 1, 1, "a"),
        refuse("A", "a"),
        back("A", 1),
        expire("A", 1),
        Event::PhaseTimeout { holder: s("A"), phase: "decode" },
        Event::CeilingReached { holder: s("A"), resource: s("f") },
    ];
    for e in about_a {
        assert_eq!(check(vec![e], p, "", "").violations.len(), 1);
    }
    assert!(check(vec![issue(1), revoke(None)], p, "", "").passed());
}

#[test]
fn writes_after_a_revocation_need_a_later_ticket() {
    let p = Property::P8Preemptibility;
    assert!(check(vec![revoke(Some(2)), accept("B", 2, 1, "b")], p, "", "").passed());
    assert!(check(vec![revoke(None), accept("B", 0, 1, "b")], p, "", "").passed());
    assert_eq!(
        details(&check(vec![issue(1), revoke(Some(3)), accept("A", 1, 1, "a")], p, "", "")),
        vec![(Some(2), s("A committed on ticket Ticket(1) after revocation at seq 1 raised the barrier to Ticket(3)"))]
    );
    // Without a barrier, every ticket issued or granted by then is revoked.
    assert_eq!(
        details(&check(
            vec![issue(1), grant("A", 1), revoke(None), accept("A", 1, 1, "a")],
            p,
            "",
            ""
        )),
        vec![(Some(3), s("A committed on ticket Ticket(1) after revocation at seq 2 took the lock away"))]
    );
    assert_eq!(details(&check(vec![issue(1), revoke(None), accept("A", 1, 1, "a")], p, "", "")).len(), 1);
    assert_eq!(details(&check(vec![grant("A", 1), revoke(None), accept("A", 1, 1, "a")], p, "", "")).len(), 1);
    assert!(check(
        vec![issue(1), revoke(None), issue(2), grant("B", 2), accept("B", 2, 1, "b")],
        p,
        "",
        ""
    )
    .passed());
    // Only the latest revocation counts.
    assert!(check(vec![revoke(Some(9)), revoke(Some(2)), accept("A", 3, 1, "a")], p, "", "").passed());
}

#[test]
fn properties_are_reported_in_the_order_asked_for() {
    let h = history(vec![grant("A", 1)]);
    let r = checker::check(&h, &[Property::P7Liveness, Property::P5NoLeakedLock], "", "");
    let names: Vec<Property> = r.violations.iter().map(|v| v.property).collect();
    assert_eq!(names, vec![Property::P7Liveness, Property::P5NoLeakedLock]);
    assert_eq!(r.checked, vec![Property::P7Liveness, Property::P5NoLeakedLock]);
    assert!(r.violated(Property::P7Liveness) && r.violated(Property::P5NoLeakedLock));
    assert!(!r.violated(Property::P1MutualExclusion));
}

#[test]
fn what_is_reported_does_not_depend_on_the_times() {
    let events = || vec![issue(1), grant("A", 1), attempt("A", 1, 0), accept("A", 1, 1, "a"), grant("B", 2)];
    let mut early = History::new();
    let mut late = History::new();
    for (i, e) in events().into_iter().enumerate() {
        early.record(0, e);
        late.record(1_000 * i as u64, events().swap_remove(i));
    }
    let one = checker::check(&early, &checker::ALL, "b", "");
    let two = checker::check(&late, &checker::ALL, "b", "");
    assert!(!one.passed());
    assert_eq!(details(&one), details(&two));
}
