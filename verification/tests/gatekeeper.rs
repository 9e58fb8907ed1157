//! The harness: every way in which a read or a write can end.

use mas_harness_lock::checker;
use mas_harness_lock::clock::Duration;
use mas_harness_lock::harness::{Config, Harness, WriteError};
use mas_harness_lock::history::{Event, History};
use mas_harness_lock::lock::fake::{FakeLockService, Faults};
use mas_harness_lock::lock::LockService;
use mas_harness_lock::store::{CrashPoint, FileStore, ReadFailure};
use mas_harness_lock::types::{LockError, Refusal, Span, Ticket, Version};

fn s(text: &str) -> String {
    text.to_string()
}

fn under_virtual_time<F: std::future::Future>(f: F) -> F::Output {
    tokio::runtime::Builder::new_current_thread()
        .enable_time()
        .start_paused(true)
        .build()
        .unwrap()
        .block_on(f)
}

async fn advance(secs: u64) {
    tokio::time::advance(std::time::Duration::from_secs(secs)).await;
}

fn harness(span: Span) -> Harness<FakeLockService> {
    let cfg = Config { span, ..Config::default() };
    Harness::new(FakeLockService::new(cfg.lease), FileStore::new("f"), History::new(), cfg)
}

fn read(h: &mut Harness<FakeLockService>, who: &str, content: &str) -> Result<Version, WriteError> {
    let reading = h.begin_read(&s(who))?;
    Ok(h.read(reading, Ok(s(content)))?.version)
}

fn write(
    h: &mut Harness<FakeLockService>,
    who: &str,
    at: Version,
    content: &str,
) -> Result<Version, WriteError> {
    let attempt = h.begin_write(&s(who), at, content)?;
    let ready = h.write(attempt, Ok(()))?;
    h.apply(ready, Ok(()))
}

fn events(h: &Harness<FakeLockService>) -> Vec<Event> {
    h.history().entries().into_iter().map(|e| e.event).collect()
}

#[test]
fn defaults() {
    let cfg = Config::default();
    assert_eq!(cfg.span, Span::WriteOnly);
    assert_eq!(cfg.lease, Duration::from_secs(15));
    assert_eq!(cfg.hold_ceiling, Duration::from_secs(600));
    let h = harness(Span::WriteOnly);
    assert_eq!(h.resource(), "f");
    assert!(h.history().is_empty());
    assert_eq!(h.lock_service().peek_version(&s("f")), Version(0));
}

#[test]
fn undisturbed_write_lands() {
    under_virtual_time(async {
        let mut h = harness(Span::WriteOnly);
        let at = read(&mut h, "A", "x").unwrap();
        assert_eq!(at, Version(0));
        assert_eq!(write(&mut h, "A", at, "y"), Ok(Version(1)));
        assert_eq!(
            events(&h),
            vec![
                Event::Read { holder: s("A"), resource: s("f"), version: Version(0) },
                Event::TakeRequested { holder: s("A"), resource: s("f") },
                Event::TicketIssued { resource: s("f"), ticket: Ticket(1) },
                Event::TakeGranted { holder: s("A"), resource: s("f"), ticket: Ticket(1) },
                Event::WriteAttempted {
                    holder: s("A"),
                    resource: s("f"),
                    ticket: Ticket(1),
                    expected_version: Version(0),
                },
                Event::WriteAccepted {
                    holder: s("A"),
                    resource: s("f"),
                    ticket: Ticket(1),
                    version: Version(1),
                    content: s("y"),
                },
                Event::GiveBack { holder: s("A"), resource: s("f"), ticket: Ticket(1) },
            ]
        );
        assert_eq!(read(&mut h, "B", "y"), Ok(Version(1)));
    });
}

#[test]
fn a_missing_file_reads_as_empty() {
    under_virtual_time(async {
        let mut h = harness(Span::WriteOnly);
        let reading = h.begin_read(&s("A")).unwrap();
        let snap = h.read(reading, Err(ReadFailure::NotFound)).unwrap();
        assert_eq!((snap.content.as_str(), snap.version), ("", Version(0)));
        let again = snap.clone();
        assert_eq!(again.content, snap.content);
        let store = FileStore::new("f");
        assert_eq!(store.read(Ok(s("x"))), Ok(s("x")));
        assert_eq!(store.read(Err(ReadFailure::NotFound)), Ok(s("")));
        assert_eq!(store.read(Err(ReadFailure::Other(s("denied")))), Err(s("denied")));
        assert_eq!(store.path(), "f");
    });
}

#[test]
fn an_unreadable_file_is_an_error_and_is_not_recorded() {
    under_virtual_time(async {
        let mut h = harness(Span::WriteOnly);
        let reading = h.begin_read(&s("A")).unwrap();
        let out = h.read(reading, Err(ReadFailure::Other(s("permission denied"))));
        assert_eq!(out.unwrap_err(), WriteError::Io(s("permission denied")));
        assert!(h.history().is_empty());
    });
}

#[test]
fn full_read_keeps_the_lock_and_others_are_told() {
    under_virtual_time(async {
        let mut h = harness(Span::Full);
        assert_eq!(read(&mut h, "A", "x"), Ok(Version(0)));
        assert_eq!(read(&mut h, "B", "x"), Err(WriteError::Lock(LockError::Contended)));
        // A read that fails keeps no lock.
        let mut g = harness(Span::Full);
        let reading = g.begin_read(&s("A")).unwrap();
        assert!(g.read(reading, Err(ReadFailure::Other(s("no")))).is_err());
        assert_eq!(
            events(&g).last(),
            Some(&Event::GiveBack { holder: s("A"), resource: s("f"), ticket: Ticket(1) })
        );
        assert_eq!(read(&mut g, "B", "x"), Ok(Version(0)));
    });
}

#[test]
fn write_only_contention_is_told() {
    under_virtual_time(async {
        let mut h = harness(Span::WriteOnly);
        let (lock, history) = h.service();
        lock.acquire(history, &s("f"), &s("X")).unwrap();
        assert_eq!(
            write(&mut h, "A", Version(0), "y"),
            Err(WriteError::Lock(LockError::Contended))
        );
    });
}

#[test]
fn writing_without_reading_is_expired_under_the_full_span() {
    under_virtual_time(async {
        let mut h = harness(Span::Full);
        assert_eq!(
            write(&mut h, "A", Version(0), "y"),
            Err(WriteError::Lock(LockError::Expired))
        );
        assert!(h.history().is_empty(), "nothing was even attempted");
    });
}

#[test]
fn a_holder_that_lost_the_lock_is_refused_on_its_ticket() {
    under_virtual_time(async {
        let mut h = harness(Span::Full);
        let at = read(&mut h, "A", "x").unwrap();
        advance(15).await;
        let out = write(&mut h, "A", at, "y");
        let reason = Refusal::StaleTicket { held: Ticket(1), current: None };
        assert_eq!(out, Err(WriteError::Refused(reason)));
        assert!(out.unwrap_err().discards_staged());
        // Under the full span a refused write does not close the hold.
        assert!(!events(&h).iter().any(|e| matches!(e, Event::GiveBack { .. })));
        h.abandon(&s("A"));
        assert!(events(&h).iter().any(|e| matches!(e, Event::GiveBack { .. })));
    });
}

#[test]
fn a_stale_write_is_refused_on_its_version_and_gives_the_lock_back() {
    under_virtual_time(async {
        let mut h = harness(Span::WriteOnly);
        write(&mut h, "A", Version(0), "y").unwrap();
        let out = write(&mut h, "B", Version(0), "z");
        let reason = Refusal::StaleVersion { read: Version(0), current: Version(1) };
        assert_eq!(out, Err(WriteError::Refused(reason)));
        assert_eq!(
            events(&h)[events(&h).len() - 2..],
            [
                Event::WriteRefused { holder: s("B"), resource: s("f"), reason, content: s("z") },
                Event::GiveBack { holder: s("B"), resource: s("f"), ticket: Ticket(2) },
            ]
        );
    });
}

#[test]
fn progress_stops_at_the_ceiling() {
    under_virtual_time(async {
        let mut h = harness(Span::Full);
        assert_eq!(h.progress(&s("A")), Ok(()), "nothing to renew");
        let at = read(&mut h, "A", "x").unwrap();
        for _ in 0..59 {
            advance(10).await;
            assert_eq!(h.progress(&s("A")), Ok(()));
        }
        advance(10).await;
        assert_eq!(h.progress(&s("A")), Err(WriteError::CeilingExceeded));
        assert_eq!(
            events(&h).last(),
            Some(&Event::CeilingReached { holder: s("A"), resource: s("f") })
        );
        let before = h.history().len();
        assert_eq!(write(&mut h, "A", at, "y"), Err(WriteError::CeilingExceeded));
        assert_eq!(h.history().len(), before);
    });
}

#[test]
fn progress_after_the_lease_lapsed_is_expired() {
    under_virtual_time(async {
        let mut h = harness(Span::Full);
        read(&mut h, "A", "x").unwrap();
        advance(15).await;
        assert_eq!(h.progress(&s("A")), Err(WriteError::Lock(LockError::Expired)));
    });
}

#[test]
fn an_overtaken_write_is_superseded() {
    under_virtual_time(async {
        let mut h = harness(Span::WriteOnly);
        let attempt = h.begin_write(&s("A"), Version(0), "a").unwrap();
        let authorized = h.authorize(attempt, Ok(())).unwrap();
        h.force_release().unwrap();
        write(&mut h, "B", Version(1), "b").unwrap();
        let Err(out) = h.begin_apply(authorized) else { panic!("must not be applied") };
        assert_eq!(
            out,
            WriteError::Superseded { authorized: Version(1), current: Version(2) }
        );
        assert!(out.discards_staged());
        assert_eq!(out.clone(), out);
        assert!(events(&h).contains(&Event::WriteRefused {
            holder: s("A"),
            resource: s("f"),
            reason: Refusal::StaleVersion { read: Version(1), current: Version(2) },
            content: s("a"),
        }));
        let report = checker::check(
            h.history(),
            &[checker::Property::P1MutualExclusion, checker::Property::P3NoLostWrite],
            "b",
            "x",
        );
        assert!(report.passed(), "{}", report.render());
    });
}

#[test]
fn file_system_failures_are_errors_and_leave_the_staged_file() {
    under_virtual_time(async {
        let mut h = harness(Span::WriteOnly);
        let attempt = h.begin_write(&s("A"), Version(0), "a").unwrap();
        let Err(out) = h.write(attempt, Err(s("disk full"))) else { panic!("must fail") };
        assert_eq!(out, WriteError::Io(s("disk full")));
        assert!(!out.discards_staged());
        assert_eq!(h.lock_service().peek_version(&s("f")), Version(0), "nothing was authorized");
        assert_eq!(
            events(&h).last(),
            Some(&Event::GiveBack { holder: s("A"), resource: s("f"), ticket: Ticket(1) })
        );

        let mut h = harness(Span::WriteOnly);
        let attempt = h.begin_write(&s("A"), Version(0), "a").unwrap();
        let ready = h.write(attempt, Ok(())).unwrap();
        assert_eq!(h.apply(ready, Err(s("no rename"))), Err(WriteError::Io(s("no rename"))));
        assert_eq!(h.lock_service().peek_version(&s("f")), Version(1), "it had been authorized");
        assert!(!events(&h).iter().any(|e| matches!(e, Event::WriteAccepted { .. })));
    });
}

#[test]
fn injected_crashes_say_where() {
    under_virtual_time(async {
        let cfg = Config::default();
        for (point, text) in [
            (CrashPoint::AfterTempWritten, "injected crash: after temp written"),
            (CrashPoint::DuringRename, "injected crash: during rename"),
        ] {
            let store = FileStore::new("f").with_crash_at(point);
            let lock = FakeLockService::new(cfg.lease);
            let mut h = Harness::new(lock, store, History::new(), cfg);
            assert_eq!(write(&mut h, "A", Version(0), "a"), Err(WriteError::Io(s(text))));
            // The lock was given back on the way out, so the next attempt starts clean.
            assert_eq!(
                events(&h).last(),
                Some(&Event::GiveBack { holder: s("A"), resource: s("f"), ticket: Ticket(1) })
            );
            let (lock, history) = h.service();
            assert_eq!(lock.current_ticket(history, &s("f")), Ok(None));
            let at = lock.peek_version(&s("f"));
            assert_eq!(write(&mut h, "A", at, "a"), Err(WriteError::Io(s(text))));
            assert!(checker::check(h.history(), &[checker::Property::P5NoLeakedLock], "", "").passed());
        }
        let plain = FileStore::new("f");
        assert_eq!(plain.prepare(Ok(())), Ok(()));
        assert_eq!(plain.prepare(Err(s("full"))), Err(s("full")));
        assert_eq!(plain.commit(), Ok(()));
        let early = FileStore::new("f").with_crash_at(CrashPoint::AfterTempWritten);
        assert_eq!(early.commit(), Ok(()));
        assert_eq!(early.prepare(Err(s("full"))), Err(s("full")));
        let late = FileStore::new("f").with_crash_at(CrashPoint::DuringRename);
        assert_eq!(late.prepare(Ok(())), Ok(()));
    });
}

#[test]
fn abandoning_gives_the_lock_back() {
    under_virtual_time(async {
        let mut h = harness(Span::Full);
        h.abandon(&s("A"));
        assert!(h.history().is_empty(), "nothing was held");
        read(&mut h, "A", "x").unwrap();
        h.abandon(&s("A"));
        assert_eq!(read(&mut h, "B", "x"), Ok(Version(0)));
        assert_eq!(
            write(&mut h, "A", Version(0), "a"),
            Err(WriteError::Lock(LockError::Expired))
        );
    });
}

#[test]
fn a_revoked_lock_is_free_at_once() {
    under_virtual_time(async {
        let mut h = harness(Span::Full);
        read(&mut h, "A", "x").unwrap();
        assert!(read(&mut h, "B", "x").is_err());
        assert_eq!(h.force_release(), Ok(Ticket(3)));
        assert_eq!(read(&mut h, "B", "x"), Ok(Version(0)));
        assert_eq!(
            write(&mut h, "A", Version(0), "a"),
            Err(WriteError::Refused(Refusal::StaleTicket {
                held: Ticket(1),
                current: Some(Ticket(3)),
            }))
        );
    });
}

#[test]
fn times_are_recorded_in_milliseconds() {
    under_virtual_time(async {
        let mut h = harness(Span::WriteOnly);
        tokio::time::advance(std::time::Duration::from_micros(2_500_900)).await;
        read(&mut h, "A", "x").unwrap();
        assert_eq!(h.history().entries()[0].at_ms, 2500);
    });
}

/// A run with every kind of step, and all eight checks at its end.
#[test]
fn every_check_passes_after_leases_lapse() {
    under_virtual_time(async {
        let mut faults = Faults::default();
        faults.drop_release.insert(s("B"));
        faults.grant_twice.insert(s("f"));
        let cfg = Config { span: Span::Full, ..Config::default() };
        let lock = FakeLockService::new(cfg.lease).with_faults(faults);
        let mut h = Harness::new(lock, FileStore::new("f"), History::new(), cfg);
        let mut content = s("x");
        for round in 0..4 {
            for who in ["A", "B", "C"] {
                if let Ok(at) = read(&mut h, who, &content) {
                    let _ = h.progress(&s(who));
                    let new = format!("{who} {round}");
                    if write(&mut h, who, at, &new).is_ok() {
                        content = new;
                    }
                }
            }
            advance(6).await;
        }
        let _ = h.force_release();
        for who in ["A", "B", "C"] {
            h.abandon(&s(who));
            h.service().1.record(0, Event::AgentFinished { holder: s(who) });
        }
        advance(30).await;
        let (lock, history) = h.service();
        assert_eq!(lock.current_ticket(history, &s("f")), Ok(None));
        let report = checker::check(h.history(), &checker::ALL, &content, "x");
        assert_eq!(report.render(), "all 8 properties hold");
    });
}

#[test]
fn the_ceiling_is_reached_at_its_very_nanosecond() {
    under_virtual_time(async {
        let mut h = harness(Span::Full);
        let at = read(&mut h, "A", "x").unwrap();
        let ceiling: u128 = 600_000_000_000;
        assert_eq!(h.progress_at(&s("A"), ceiling - 1), Ok(()));
        assert_eq!(h.progress_at(&s("A"), ceiling), Err(WriteError::CeilingExceeded));
        assert_eq!(
            h.begin_write_at(&s("A"), at, "y", ceiling).err(),
            Some(WriteError::CeilingExceeded)
        );
        assert!(h.begin_write_at(&s("A"), at, "y", ceiling - 1).is_ok());
        // Whoever holds nothing has no ceiling to reach.
        assert_eq!(h.progress_at(&s("B"), ceiling), Ok(()));
    });
}

#[test]
fn the_version_stands_while_the_lock_is_kept() {
    under_virtual_time(async {
        let mut h = harness(Span::Full);
        let at = read(&mut h, "A", "x").unwrap();
        for _ in 0..3 {
            advance(10).await;
            assert_eq!(h.progress(&s("A")), Ok(()));
            assert!(read(&mut h, "B", "x").is_err());
            assert_eq!(write(&mut h, "B", at, "b"), Err(WriteError::Lock(LockError::Expired)));
            assert_eq!(h.lock_service().peek_version(&s("f")), at);
        }
        assert_eq!(write(&mut h, "A", at, "a"), Ok(Version(1)));
        // The lock was given back.
        assert_eq!(read(&mut h, "B", "a"), Ok(Version(1)));
    });
}

#[test]
fn room_is_counted() {
    let mut h = harness(Span::WriteOnly);
    let (lock, history) = h.service();
    assert!(lock.has_room(u64::MAX - 1));
    assert!(!lock.has_room(u64::MAX));
    assert!(lock.acquire(history, &s("f"), &s("A")).is_ok());
    assert!(!lock.has_room(u64::MAX - 1));
    assert!(lock.has_room(u64::MAX - 2));
}

#[test]
fn a_failed_rename_leaves_a_trace() {
    under_virtual_time(async {
        let mut h = harness(Span::WriteOnly);
        let at = read(&mut h, "A", "x").unwrap();
        let attempt = h.begin_write(&s("A"), at, "y").unwrap();
        let ready = h.write(attempt, Ok(())).unwrap();
        assert_eq!(h.apply(ready, Err(s("full"))), Err(WriteError::Io(s("full"))));
        assert_eq!(h.lock_service().peek_version(&s("f")), Version(1));
        assert!(!events(&h).iter().any(|e| matches!(e, Event::WriteAccepted { .. })));
        // Nothing is held across anyone's thinking, so there is nothing to renew.
        let before = h.history().len();
        assert_eq!(h.progress(&s("A")), Ok(()));
        assert_eq!(h.history().len(), before);
    });
}

#[test]
fn each_attempt_is_staged_under_a_name_of_its_own() {
    let store = FileStore::new("dir/notes.tmp");
    assert_eq!(store.staging(0), "dir/notes.tmp.0.tmp");
    assert_eq!(store.staging(17), "dir/notes.tmp.17.tmp");
    assert_ne!(store.staging(0), store.path());
    assert_eq!(FileStore::new("f").staging(u64::MAX), "f.18446744073709551615.tmp");
}

#[test]
fn a_hold_counts_from_when_it_was_taken() {
    under_virtual_time(async {
        let mut h = harness(Span::Full);
        let taken: u128 = 5_000_000_000;
        let ceiling: u128 = 600_000_000_000;
        assert!(h.begin_read_at(&s("A"), taken).is_ok());
        assert_eq!(h.progress_at(&s("A"), taken + ceiling - 1), Ok(()));
        assert_eq!(h.progress_at(&s("A"), taken + ceiling), Err(WriteError::CeilingExceeded));
    });
}

#[test]
fn a_hold_is_lost_after_the_ceiling_and_one_lease() {
    under_virtual_time(async {
        let mut h = harness(Span::Full);
        assert!(read(&mut h, "A", "x").is_ok());
        for _ in 0..59 {
            advance(10).await;
            assert_eq!(h.progress(&s("A")), Ok(()));
        }
        advance(9).await;
        assert_eq!(h.progress(&s("A")), Ok(()));
        advance(14).await;
        assert_eq!(h.progress(&s("A")), Err(WriteError::CeilingExceeded));
        assert_eq!(read(&mut h, "B", "x"), Err(WriteError::Lock(LockError::Contended)));
        advance(2).await;
        assert_eq!(read(&mut h, "B", "x"), Ok(Version(0)));
    });
}

#[test]
fn what_is_written_is_read_back() {
    under_virtual_time(async {
        for span in [Span::WriteOnly, Span::Full] {
            let mut h = harness(span);
            let mut file = s("x");
            for n in 1..4u64 {
                let at = read(&mut h, "A", &file).unwrap();
                let content = format!("v{n}");
                assert_eq!(write(&mut h, "A", at, &content), Ok(Version(n)));
                file = content;
                let reading = h.begin_read(&s("B")).unwrap();
                let snap = h.read(reading, Ok(file.clone())).unwrap();
                assert_eq!((snap.content.as_str(), snap.version), (file.as_str(), Version(n)));
                h.abandon(&s("B"));
                let accepted: Vec<Event> = events(&h)
                    .into_iter()
                    .filter(|e| matches!(e, Event::WriteAccepted { .. }))
                    .collect();
                assert_eq!(accepted.len() as u64, n);
            }
            assert_eq!(h.history().entries().last().unwrap().seq + 1, h.history().len() as u64);
        }
    });
}

#[test]
fn nothing_is_lost_when_a_write_waits_to_be_applied() {
    under_virtual_time(async {
        let mut h = harness(Span::WriteOnly);
        let at = read(&mut h, "A", "x").unwrap();
        let first = h.begin_write(&s("A"), at, "a").unwrap();
        let first = h.authorize(first, Ok(())).unwrap();
        // The lock is taken away from A, and B overtakes it.
        assert!(h.force_release().is_ok());
        let at = read(&mut h, "B", "x").unwrap();
        assert_eq!(write(&mut h, "B", at, "b"), Ok(Version(2)));
        assert_eq!(
            h.begin_apply(first).err(),
            Some(WriteError::Superseded { authorized: Version(1), current: Version(2) })
        );
        let props = [checker::Property::P3NoLostWrite, checker::Property::P4NoPhantomWrite];
        assert!(checker::check(h.history(), &props, "b", "x").passed());
        assert!(checker::check(h.history(), &props, "a", "x").violated(checker::Property::P3NoLostWrite));
    });
}

#[test]
fn a_write_that_cannot_be_put_in_place_gives_the_lock_back() {
    under_virtual_time(async {
        for span in [Span::WriteOnly, Span::Full] {
            let mut h = harness(span);
            let at = read(&mut h, "A", "x").unwrap();
            let attempt = h.begin_write(&s("A"), at, "y").unwrap();
            let ready = h.write(attempt, Ok(())).unwrap();
            assert_eq!(h.apply(ready, Err(s("full"))), Err(WriteError::Io(s("full"))));
            assert_eq!(
                events(&h).last(),
                Some(&Event::GiveBack { holder: s("A"), resource: s("f"), ticket: Ticket(1) })
            );
            let at = read(&mut h, "A", "x").unwrap();
            assert_eq!(at, Version(1));
            assert_eq!(write(&mut h, "A", at, "y"), Ok(Version(2)));
        }
        // Under the full span a write that could not be staged keeps the lock of its read.
        let mut h = harness(Span::Full);
        let at = read(&mut h, "A", "x").unwrap();
        let attempt = h.begin_write(&s("A"), at, "y").unwrap();
        assert!(h.write(attempt, Err(s("full"))).is_err());
        assert_eq!(write(&mut h, "A", at, "y"), Ok(Version(1)));
    });
}
