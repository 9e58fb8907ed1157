//! The in-memory lock service, one law at a time.

use mas_harness_lock::clock::{to_millis, Clock, Duration};
use mas_harness_lock::history::{Event, History};
use mas_harness_lock::lock::fake::{FakeLockService, Faults};
use mas_harness_lock::lock::table::LockTable;
use mas_harness_lock::lock::LockService;
use mas_harness_lock::types::{Holding, LockError, Refusal, Ticket, Version};

const SECOND: u128 = 1_000_000_000;

fn s(text: &str) -> String {
    text.to_string()
}

fn table() -> (LockTable, History) {
    (LockTable::new(Duration::from_secs(15)), History::new())
}

fn events(h: &History) -> Vec<Event> {
    h.entries().into_iter().map(|e| e.event).collect()
}

fn under_virtual_time<F: std::future::Future>(f: F) -> F::Output {
    tokio::runtime::Builder::new_current_thread()
        .enable_time()
        .start_paused(true)
        .build()
        .unwrap()
        .block_on(f)
}

#[test]
fn grant_needs_free_lock() {
    let (mut t, mut h) = table();
    let a = t.acquire(&mut h, 0, &s("f"), &s("A")).unwrap();
    assert_eq!(a, Holding { resource: s("f"), holder: s("A"), ticket: Ticket(1) });
    assert_eq!(t.acquire(&mut h, 0, &s("f"), &s("B")), Err(LockError::Contended));
    // Another resource is another lock, and the tickets go on counting.
    assert_eq!(t.acquire(&mut h, 0, &s("g"), &s("B")).unwrap().ticket, Ticket(2));
    assert_eq!(
        events(&h),
        vec![
            Event::TakeRequested { holder: s("A"), resource: s("f") },
            Event::TicketIssued { resource: s("f"), ticket: Ticket(1) },
            Event::TakeGranted { holder: s("A"), resource: s("f"), ticket: Ticket(1) },
            Event::TakeRequested { holder: s("B"), resource: s("f") },
            Event::TakeRequested { holder: s("B"), resource: s("g") },
            Event::TicketIssued { resource: s("g"), ticket: Ticket(2) },
            Event::TakeGranted { holder: s("B"), resource: s("g"), ticket: Ticket(2) },
        ]
    );
}

#[test]
fn lapsed_lease_frees_lock() {
    let (mut t, mut h) = table();
    let a = t.acquire(&mut h, 0, &s("f"), &s("A")).unwrap();
    assert!(t.is_still_held(&mut h, 15 * SECOND - 1, &a));
    assert_eq!(t.current_ticket(&mut h, 15 * SECOND - 1, &s("f")), Some(Ticket(1)));
    // The lease is over at the very instant at which it ends.
    assert!(!t.is_still_held(&mut h, 15 * SECOND, &a));
    assert_eq!(t.current_ticket(&mut h, 15 * SECOND, &s("f")), None);
    assert_eq!(
        events(&h).last(),
        Some(&Event::LeaseExpired { holder: s("A"), resource: s("f"), ticket: Ticket(1) })
    );
    assert_eq!(h.entries().last().unwrap().at_ms, 15_000);
    assert_eq!(t.acquire(&mut h, 15 * SECOND, &s("f"), &s("B")).unwrap().ticket, Ticket(2));
}

#[test]
fn release_is_idempotent_and_ends_the_hold() {
    let (mut t, mut h) = table();
    let a = t.acquire(&mut h, 0, &s("f"), &s("A")).unwrap();
    t.release(&mut h, 1, &a);
    assert!(!t.is_still_held(&mut h, 1, &a));
    let b = t.acquire(&mut h, 2, &s("f"), &s("B")).unwrap();
    t.release(&mut h, 3, &a);
    assert!(t.is_still_held(&mut h, 3, &b), "releasing a lost lock takes nothing from anybody");
    let nowhere = Holding { resource: s("nowhere"), holder: s("A"), ticket: Ticket(7) };
    t.release(&mut h, 4, &nowhere);
    assert!(t.is_still_held(&mut h, 4, &b));
}

#[test]
fn dropped_release_leaves_the_lock_to_the_lease() {
    let (mut t, mut h) = table();
    let mut faults = Faults::default();
    faults.drop_release.insert(s("A"));
    t.set_faults(faults);
    let a = t.acquire(&mut h, 0, &s("f"), &s("A")).unwrap();
    let before = h.len();
    t.release(&mut h, 1, &a);
    assert_eq!(h.len(), before, "a dropped release is not recorded");
    assert!(t.is_still_held(&mut h, 1, &a));
    assert!(t.acquire(&mut h, 15 * SECOND, &s("f"), &s("B")).is_ok());
}

#[test]
fn revocation_takes_lock() {
    let (mut t, mut h) = table();
    let a = t.acquire(&mut h, 0, &s("f"), &s("A")).unwrap();
    let barrier = t.force_release(&mut h, 1, &s("f"));
    assert!(barrier > a.ticket);
    assert_eq!(barrier, Ticket(3));
    assert!(!t.is_still_held(&mut h, 1, &a));
    assert_eq!(
        events(&h).last(),
        Some(&Event::Revoked { resource: s("f"), by: s("preemptor"), new_ticket: Some(Ticket(3)) })
    );
    assert_eq!(t.acquire(&mut h, 1, &s("f"), &s("B")).unwrap().ticket, barrier);
    // It needs no lock, and not even a resource that anybody knows.
    assert_eq!(t.force_release(&mut h, 1, &s("nowhere")), Ticket(5));
}

#[test]
fn commit_needs_ticket_and_version() {
    let (mut t, mut h) = table();
    let f = s("f");
    let a = t.acquire(&mut h, 0, &f, &s("A")).unwrap();
    assert_eq!(t.commit(&mut h, 0, &a, Version(0), 7), Ok(Version(1)));
    assert_eq!(
        t.commit(&mut h, 0, &a, Version(0), 7),
        Err(Refusal::StaleVersion { read: Version(0), current: Version(1) })
    );
    assert_eq!(t.current_version(&mut h, 0, &f), Version(1));
    assert_eq!(t.peek_version(&f), Version(1));
    assert_eq!(t.peek_version(&s("nowhere")), Version(0));
    // The lease lapses: refused on the ticket before the version is even looked at.
    assert_eq!(
        t.commit(&mut h, 15 * SECOND, &a, Version(0), 7),
        Err(Refusal::StaleTicket { held: Ticket(1), current: None })
    );
    let b = t.acquire(&mut h, 15 * SECOND, &f, &s("B")).unwrap();
    assert_eq!(
        t.commit(&mut h, 15 * SECOND, &a, Version(1), 7),
        Err(Refusal::StaleTicket { held: Ticket(1), current: Some(Ticket(2)) })
    );
    assert_eq!(t.commit(&mut h, 15 * SECOND, &b, Version(1), 8), Ok(Version(2)));
    let nowhere = Holding { resource: s("nowhere"), holder: s("A"), ticket: Ticket(7) };
    assert_eq!(
        t.commit(&mut h, 15 * SECOND, &nowhere, Version(0), 7),
        Err(Refusal::StaleTicket { held: Ticket(7), current: None })
    );
}

#[test]
fn only_the_higher_of_two_tickets_commits() {
    let (mut t, mut h) = table();
    let mut faults = Faults::default();
    faults.grant_twice.insert(s("f"));
    t.set_faults(faults);
    let a = t.acquire(&mut h, 0, &s("f"), &s("A")).unwrap();
    let b = t.acquire(&mut h, 0, &s("f"), &s("B")).unwrap();
    assert!(t.is_still_held(&mut h, 0, &a) && t.is_still_held(&mut h, 0, &b));
    assert_eq!(t.current_ticket(&mut h, 0, &s("f")), Some(Ticket(2)));
    assert_eq!(
        t.commit(&mut h, 0, &a, Version(0), 1),
        Err(Refusal::StaleTicket { held: Ticket(1), current: Some(Ticket(2)) })
    );
    assert_eq!(t.commit(&mut h, 0, &b, Version(0), 1), Ok(Version(1)));
    // Once the higher one is given back, the lower one is in force.
    t.release(&mut h, 0, &b);
    assert_eq!(t.commit(&mut h, 0, &a, Version(1), 1), Ok(Version(2)));
}

#[test]
fn renewal_extends_lease() {
    let (mut t, mut h) = table();
    let a = t.acquire(&mut h, 0, &s("f"), &s("A")).unwrap();
    assert_eq!(t.keepalive(&mut h, 10 * SECOND, &a), Ok(()));
    assert!(t.is_still_held(&mut h, 25 * SECOND - 1, &a));
    assert_eq!(t.keepalive(&mut h, 25 * SECOND, &a), Err(LockError::Expired));
    let nowhere = Holding { resource: s("nowhere"), holder: s("A"), ticket: Ticket(7) };
    assert_eq!(t.keepalive(&mut h, 25 * SECOND, &nowhere), Err(LockError::Expired));
}

#[test]
fn swallowed_renewal_renews_nothing() {
    let (mut t, mut h) = table();
    let mut faults = Faults::default();
    faults.swallow_keepalive.insert(s("A"));
    t.set_faults(faults);
    let a = t.acquire(&mut h, 0, &s("f"), &s("A")).unwrap();
    assert_eq!(t.keepalive(&mut h, 10 * SECOND, &a), Ok(()));
    assert!(!t.is_still_held(&mut h, 15 * SECOND, &a));
    assert_eq!(t.keepalive(&mut h, 16 * SECOND, &a), Ok(()), "it still looks healthy");
}

#[test]
fn lost_ticket_stays_lost() {
    let (mut t, mut h) = table();
    let a = t.acquire(&mut h, 0, &s("f"), &s("A")).unwrap();
    t.release(&mut h, 0, &a);
    for _ in 0..3 {
        let b = t.acquire(&mut h, 0, &s("f"), &s("A")).unwrap();
        assert!(b.ticket > a.ticket);
        assert!(!t.is_still_held(&mut h, 0, &a));
        assert!(t.commit(&mut h, 0, &a, t.peek_version(&s("f")), 1).is_err());
        t.release(&mut h, 0, &b);
    }
}

#[test]
fn repeated_tickets_repeat() {
    let (mut t, mut h) = table();
    let faults = Faults { non_monotonic_tickets: true, ..Default::default() };
    t.set_faults(faults);
    let a = t.acquire(&mut h, 0, &s("f"), &s("A")).unwrap();
    t.release(&mut h, 0, &a);
    let b = t.acquire(&mut h, 0, &s("f"), &s("B")).unwrap();
    assert_eq!((a.ticket, b.ticket), (Ticket(1), Ticket(1)));
}

#[test]
fn forced_expiry_ends_every_hold_and_says_so() {
    let (mut t, mut h) = table();
    let mut faults = Faults::default();
    faults.grant_twice.insert(s("f"));
    t.set_faults(faults);
    let a = t.acquire(&mut h, 0, &s("f"), &s("A")).unwrap();
    let b = t.acquire(&mut h, 0, &s("f"), &s("B")).unwrap();
    let before = h.len();
    t.force_expire(&mut h, 2_000_000, &s("f"));
    assert_eq!(
        events(&h)[before..],
        [
            Event::LeaseExpired { holder: s("A"), resource: s("f"), ticket: Ticket(1) },
            Event::LeaseExpired { holder: s("B"), resource: s("f"), ticket: Ticket(2) },
        ]
    );
    assert_eq!(h.entries().last().unwrap().at_ms, 2);
    assert!(!t.is_still_held(&mut h, 0, &a) && !t.is_still_held(&mut h, 0, &b));
    t.force_expire(&mut h, 0, &s("nowhere"));
    assert_eq!(h.len(), before + 2);
}

#[test]
fn sweeps_report_in_the_order_in_which_resources_were_asked_for() {
    let (mut t, mut h) = table();
    for (i, name) in ["c", "a", "b"].iter().enumerate() {
        assert_eq!(t.acquire(&mut h, 0, &s(name), &s("A")).unwrap().ticket, Ticket(i as u64 + 1));
    }
    let before = h.len();
    let _ = t.current_ticket(&mut h, 20 * SECOND, &s("a"));
    let swept: Vec<String> = events(&h)[before..]
        .iter()
        .map(|e| match e {
            Event::LeaseExpired { resource, .. } => resource.clone(),
            other => panic!("{other:?}"),
        })
        .collect();
    assert_eq!(swept, vec![s("c"), s("a"), s("b")]);
}

#[test]
fn milliseconds_are_whole_and_keep_the_low_bits() {
    assert_eq!(to_millis(0), 0);
    assert_eq!(to_millis(999_999), 0);
    assert_eq!(to_millis(1_000_000), 1);
    assert_eq!(to_millis(20 * SECOND), 20_000);
    assert_eq!(to_millis((u64::MAX as u128 + 2) * 1_000_000), 1);
    assert_eq!(Duration::from_secs(15).nanos, 15 * SECOND);
    assert_eq!(Duration::from_secs(u64::MAX).nanos, u64::MAX as u128 * SECOND);
}

#[test]
fn clock_follows_virtual_time() {
    under_virtual_time(async {
        let clock = Clock::start();
        assert_eq!(clock.elapsed(), 0);
        tokio::time::advance(std::time::Duration::from_millis(2500)).await;
        assert_eq!(clock.elapsed(), 2_500_000_000);
    });
}

#[test]
fn service_reads_its_own_clock() {
    under_virtual_time(async {
        let mut h = History::new();
        let mut lock = FakeLockService::new(Duration::from_secs(15));
        let a = lock.acquire(&mut h, &s("f"), &s("A")).unwrap();
        tokio::time::advance(std::time::Duration::from_secs(10)).await;
        assert_eq!(lock.keepalive(&mut h, &a), Ok(()));
        tokio::time::advance(std::time::Duration::from_secs(10)).await;
        assert_eq!(lock.is_still_held(&mut h, &a), Ok(true));
        assert_eq!(lock.current_ticket(&mut h, &s("f")), Ok(Some(Ticket(1))));
        assert_eq!(lock.current_version(&mut h, &s("f")), Ok(Version(0)));
        assert_eq!(lock.commit(&mut h, &a, Version(0), 1), Ok(Version(1)));
        assert_eq!(lock.peek_version(&s("f")), Version(1));
        assert_eq!(lock.release(&mut h, &a), Ok(()));
        assert_eq!(h.entries().last().unwrap().at_ms, 20_000);
        assert_eq!(lock.force_release(&mut h, &s("f")), Ok(Ticket(3)));
        let b = lock.acquire(&mut h, &s("f"), &s("B")).unwrap();
        lock.force_expire(&mut h, &s("f"));
        assert_eq!(lock.is_still_held(&mut h, &b), Ok(false));
        let mut faults = Faults::default();
        faults.grant_twice.insert(s("f"));
        lock.set_faults(faults);
        assert!(lock.acquire(&mut h, &s("f"), &s("A")).is_ok());
        assert!(lock.acquire(&mut h, &s("f"), &s("B")).is_ok());
    });
}

#[test]
fn tickets_rise_across_resources_and_barriers_stand() {
    let (mut t, mut h) = table();
    let a = t.acquire(&mut h, 0, &s("f"), &s("A")).unwrap().ticket;
    let b = t.acquire(&mut h, 0, &s("g"), &s("B")).unwrap().ticket;
    assert!(a < b);
    let barrier = t.force_release(&mut h, 0, &s("f"));
    assert!(b < barrier);
    let c = t.acquire(&mut h, 0, &s("e"), &s("C")).unwrap().ticket;
    assert!(barrier <= c);
}
