//! What is printed, character for character.

use mas_harness_lock::checker;
use mas_harness_lock::checker::{Property, Report, Violation};
use mas_harness_lock::history::{Entry, Event, History};
use mas_harness_lock::store::content_hash;
use mas_harness_lock::text::{align_right, decimal_string};
use mas_harness_lock::types::{Holding, Refusal, Ticket, Version};
use std::collections::hash_map::DefaultHasher;
use std::hash::{Hash, Hasher};

fn s(text: &str) -> String {
    text.to_string()
}

fn one_of_each() -> Vec<Event> {
    vec![
        Event::TakeRequested { holder: s("A"), resource: s("f") },
        Event::TakeGranted { holder: s("A"), resource: s("f"), ticket: Ticket(1) },
        Event::TicketIssued { resource: s("f"), ticket: Ticket(1) },
        Event::Read { holder: s("A"), resource: s("f"), version: Version(0) },
        Event::WriteAttempted {
            holder: s("A"),
            resource: s("f"),
            ticket: Ticket(1),
            expected_version: Version(0),
        },
        Event::WriteAccepted {
            holder: s("A"),
            resource: s("f"),
            ticket: Ticket(1),
            version: Version(1),
            content: s("two\nlines, a \"quote\" and a tab\t"),
        },
        Event::WriteRefused {
            holder: s("A"),
            resource: s("f"),
            reason: Refusal::StaleTicket { held: Ticket(1), current: Some(Ticket(2)) },
            content: s(""),
        },
        Event::WriteRefused {
            holder: s("A"),
            resource: s("f"),
            reason: Refusal::StaleTicket { held: Ticket(1), current: None },
            content: s("x"),
        },
        Event::WriteRefused {
            holder: s("A"),
            resource: s("f"),
            reason: Refusal::StaleVersion { read: Version(3), current: Version(4) },
            content: s("x"),
        },
        Event::WriteRefused { holder: s("A"), resource: s("f"), reason: Refusal::NotHeld, content: s("x") },
        Event::GiveBack { holder: s("A"), resource: s("f"), ticket: Ticket(1) },
        Event::LeaseExpired { holder: s("A"), resource: s("f"), ticket: Ticket(1) },
        Event::Revoked { resource: s("f"), by: s("preemptor"), new_ticket: Some(Ticket(9)) },
        Event::Revoked { resource: s("f"), by: s("preemptor"), new_ticket: None },
        Event::PhaseTimeout { holder: s("A"), phase: "decode" },
        Event::CeilingReached { holder: s("A"), resource: s("f") },
        Event::AgentFinished { holder: s("A") },
        Event::AgentWedged { holder: s("ünï") },
    ]
}

#[test]
fn every_event_prints_as_its_debug_form() {
    for event in one_of_each() {
        assert_eq!(event.text(), format!("{event:?}"));
        assert_eq!(event.clone(), event);
    }
}

#[test]
fn quoting_escapes() {
    let e = Event::AgentFinished { holder: s("a\"b\n") };
    assert_eq!(e.text(), "AgentFinished { holder: \"a\\\"b\\n\" }");
}

#[test]
fn history_prints_one_line_for_each_entry() {
    let mut h = History::new();
    assert!(h.is_empty());
    assert_eq!(h.render(), "");
    h.record(7, Event::AgentFinished { holder: s("A") });
    h.record(12345678, Event::AgentWedged { holder: s("B") });
    assert!(!h.is_empty());
    assert_eq!(h.len(), 2);
    assert_eq!(
        h.render(),
        "   0       7ms  AgentFinished { holder: \"A\" }\n   1 12345678ms  AgentWedged { holder: \"B\" }"
    );
    let entries = h.entries();
    assert_eq!(
        entries[1],
        Entry { seq: 1, at_ms: 12345678, event: Event::AgentWedged { holder: s("B") } }
    );
    let whole: Vec<String> = entries
        .iter()
        .map(|e| format!("{:>4} {:>7}ms  {:?}", e.seq, e.at_ms, e.event))
        .collect();
    assert_eq!(h.render(), whole.join("\n"));
}

#[test]
fn default_history_is_empty() {
    assert_eq!(History::default().len(), 0);
}

#[test]
fn numbers_print_in_decimal() {
    for n in [0, 1, 9, 10, 99, 100, 1234567890, u64::MAX] {
        assert_eq!(decimal_string(n), n.to_string());
    }
}

#[test]
fn alignment_pads_on_the_left_and_never_cuts() {
    assert_eq!(align_right(s("7"), 4), "   7");
    assert_eq!(align_right(s("12345"), 4), "12345");
    assert_eq!(align_right(s(""), 2), "  ");
    assert_eq!(align_right(s("é"), 3), "  é");
}

#[test]
fn refusals_print_for_a_reader() {
    assert_eq!(
        Refusal::StaleTicket { held: Ticket(41), current: Some(Ticket(42)) }.text(),
        "stale ticket: held Ticket(41), current Some(Ticket(42))"
    );
    assert_eq!(
        Refusal::StaleTicket { held: Ticket(41), current: None }.text(),
        "stale ticket: held Ticket(41), current None"
    );
    assert_eq!(
        Refusal::StaleVersion { read: Version(5), current: Version(6) }.text(),
        "stale version: read Version(5), current Version(6)"
    );
    assert_eq!(Refusal::NotHeld.text(), "not held");
}

#[test]
fn tickets_and_versions_print_as_their_debug_form() {
    assert_eq!(Ticket(12).text(), format!("{:?}", Ticket(12)));
    assert_eq!(Version(0).text(), format!("{:?}", Version(0)));
    assert_eq!(Ticket::option_text(None), "None");
    assert_eq!(Ticket::option_text(Some(Ticket(3))), format!("{:?}", Some(Ticket(3))));
    assert_eq!(Version::option_text(None), "None");
    assert_eq!(Version::option_text(Some(Version(3))), format!("{:?}", Some(Version(3))));
    let h = Holding { resource: s("f"), holder: s("A"), ticket: Ticket(1) };
    assert_eq!(h.clone(), h);
}

#[test]
fn content_hash_is_that_of_the_default_hasher() {
    for content in ["", "a", "from A\n", "ünïcödé"] {
        let mut hasher = DefaultHasher::new();
        content.hash(&mut hasher);
        assert_eq!(content_hash(content), hasher.finish());
    }
    assert_ne!(content_hash("from A\n"), content_hash("from B\n"));
}

#[test]
fn reports_print_their_violations() {
    let r = Report::default();
    assert!(r.passed());
    assert_eq!(r.render(), "all 0 properties hold");
    let all = checker::check(&History::new(), &checker::ALL, "x", "x");
    assert_eq!(all.render(), "all 8 properties hold");
    assert_eq!(all.checked.len(), 8);

    let v = Violation { property: Property::P5NoLeakedLock, at_seq: Some(3), detail: s("d") };
    assert_eq!(v.text(), "P5NoLeakedLock violated at seq 3: d");
    let w = Violation { property: Property::P3NoLostWrite, at_seq: None, detail: s("e") };
    let r = Report { checked: vec![Property::P5NoLeakedLock], violations: vec![v, w] };
    assert_eq!(r.render(), "P5NoLeakedLock violated at seq 3: d\nP3NoLostWrite violated: e");
    assert_eq!(r.clone().render(), r.render());
    assert!(r.violated(Property::P5NoLeakedLock));
    assert!(!r.violated(Property::P1MutualExclusion));
    assert!(!r.passed());
}
