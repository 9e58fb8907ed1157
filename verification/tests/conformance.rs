//! The scripted races. Each runs against the in-memory lock service under virtual time, so that it
//! fires on every run. Assertions are made over the history, not over the content alone.

use mas_harness_lock::checker;
use mas_harness_lock::checker::Property::{
    P1MutualExclusion, P2TicketValidity, P3NoLostWrite, P4NoPhantomWrite, P5NoLeakedLock,
    P6Freshness, P7Liveness, P8Preemptibility,
};
use mas_harness_lock::clock::Duration;
use mas_harness_lock::harness::{Authorized, Config, Harness, Snapshot, WriteError};
use mas_harness_lock::history::{Event, History};
use mas_harness_lock::lock::fake::{FakeLockService, Faults};
use mas_harness_lock::store::{CrashPoint, FileStore, ReadFailure};
use mas_harness_lock::types::{Refusal, Span, Ticket, Version};

const INITIAL: &str = "initial\n";

fn under_virtual_time<F: std::future::Future>(f: F) -> F::Output {
    tokio::runtime::Builder::new_current_thread()
        .enable_time()
        .start_paused(true)
        .build()
        .unwrap()
        .block_on(f)
}

async fn advance(secs: u64) {
    tokio::time::advance(std::time::Duration::from_secs(secs)).await;
}

/// One file and the staging file beside it.
struct Disk {
    content: Option<String>,
    staged: Option<String>,
}

impl Disk {
    fn read(&self) -> Result<String, ReadFailure> {
        match &self.content {
            Some(s) => Ok(s.clone()),
            None => Err(ReadFailure::NotFound),
        }
    }
    fn stage(&mut self, content: &str) -> Result<(), String> {
        self.staged = Some(content.to_string());
        Ok(())
    }
    fn rename(&mut self) -> Result<(), String> {
        match self.staged.take() {
            Some(s) => {
                self.content = Some(s);
                Ok(())
            }
            None => Err("no such file".to_string()),
        }
    }
}

struct Rig {
    h: Harness<FakeLockService>,
    disk: Disk,
}

fn path_of(name: &str) -> String {
    format!("/scratch/mhl-{name}")
}

fn rig(name: &str, span: Span) -> Rig {
    rig_with(name, span, Faults::default(), None)
}

fn rig_with(name: &str, span: Span, faults: Faults, crash: Option<CrashPoint>) -> Rig {
    let lease = Duration::from_secs(15);
    let lock = FakeLockService::new(lease).with_faults(faults);
    let mut store = FileStore::new(&path_of(name));
    if let Some(c) = crash {
        store = store.with_crash_at(c);
    }
    let cfg = Config { span, lease, hold_ceiling: Duration::from_secs(600) };
    let disk = Disk { content: Some(INITIAL.to_string()), staged: None };
    Rig { h: Harness::new(lock, store, History::new(), cfg), disk }
}

impl Rig {
    fn read(&mut self, holder: &String) -> Result<Snapshot, WriteError> {
        let reading = self.h.begin_read(holder)?;
        let raw = self.disk.read();
        self.h.read(reading, raw)
    }

    fn authorize(&mut self, holder: &String, at: Version, content: &str) -> Result<Authorized, WriteError> {
        let attempt = self.h.begin_write(holder, at, content)?;
        let written = self.disk.stage(content);
        let out = self.h.authorize(attempt, written);
        self.tidy(&out);
        out
    }

    fn apply(&mut self, a: Authorized) -> Result<Version, WriteError> {
        let ready = self.h.begin_apply(a);
        self.tidy(&ready);
        let renamed = if ready.is_ok() { self.disk.rename() } else { Ok(()) };
        self.h.apply(ready?, renamed)
    }

    fn write(&mut self, holder: &String, at: Version, content: &str) -> Result<Version, WriteError> {
        let attempt = self.h.begin_write(holder, at, content)?;
        let written = self.disk.stage(content);
        let ready = self.h.write(attempt, written);
        self.tidy(&ready);
        let renamed = if ready.is_ok() { self.disk.rename() } else { Ok(()) };
        self.h.apply(ready?, renamed)
    }

    fn tidy<A>(&mut self, out: &Result<A, WriteError>) {
        if let Err(e) = out {
            if e.discards_staged() {
                self.disk.staged = None;
            }
        }
    }

    fn content(&self) -> String {
        self.disk.content.clone().unwrap_or_default()
    }
    fn report(&self, props: &[checker::Property]) -> checker::Report {
        checker::check(self.h.history(), props, &self.content(), INITIAL)
    }
    fn record(&mut self, event: Event) {
        self.h.service().1.record(0, event);
    }
    fn finish(&mut self, who: &str) {
        self.record(Event::AgentFinished { holder: who.to_string() });
    }
    fn dump(&self) -> String {
        self.h.history().render()
    }
}

/// Two writers collide: the failure that everyone imagines when they reach for a lock.
#[test]
fn r1_two_writers_collide() {
    under_virtual_time(async {
        let mut r = rig("r1", Span::WriteOnly);
        let (a, b) = ("A".to_string(), "B".to_string());

        // Both read the same version, then both try to write.
        let sa = r.read(&a).unwrap();
        let sb = r.read(&b).unwrap();
        assert_eq!(sa.version, sb.version);

        r.write(&a, sa.version, "from A\n").unwrap();
        let second = r.write(&b, sb.version, "from B\n");

        // B decided from a version that no longer exists. Not lost silently: refused.
        assert!(matches!(second, Err(WriteError::Refused(Refusal::StaleVersion { .. }))), "{second:?}");
        assert_eq!(r.content(), "from A\n");

        r.finish(&a);
        r.finish(&b);
        let rep = r.report(&[P1MutualExclusion, P3NoLostWrite, P4NoPhantomWrite, P5NoLeakedLock]);
        assert!(rep.passed(), "{}\n{}", rep.render(), r.dump());
    });
}

/// The holder dies while it holds the lock. The lease frees it.
#[test]
fn r2_holder_dies_lease_frees_lock() {
    under_virtual_time(async {
        let mut r = rig("r2", Span::Full);
        let (a, b) = ("A".to_string(), "B".to_string());

        let _sa = r.read(&a).unwrap(); // Full span: A now holds the lock.
        assert!(r.read(&b).is_err(), "B must not get the lock while A holds it");

        // A's process is gone: it never renews again. Nothing runs its cleanup.
        advance(20).await;

        let sb = r.read(&b).expect("lease must have freed the lock");
        r.write(&b, sb.version, "from B\n").unwrap();
        assert_eq!(r.content(), "from B\n");

        r.record(Event::AgentWedged { holder: a }); // died, never terminated cleanly
        r.finish(&b);
        let rep = r.report(&[P5NoLeakedLock, P7Liveness, P3NoLostWrite]);
        assert!(rep.passed(), "{}\n{}", rep.render(), r.dump());
    });
}

/// The zombie write: A stalls past its lease, B takes over and writes, then A writes anyway.
#[test]
fn r3_zombie_write_refused_on_ticket() {
    under_virtual_time(async {
        let mut r = rig("r3", Span::Full);
        let (a, b) = ("A".to_string(), "B".to_string());

        let sa = r.read(&a).unwrap();
        advance(20).await; // A's lease lapses while it thinks.

        let sb = r.read(&b).unwrap();
        r.write(&b, sb.version, "from B\n").unwrap();

        // A has no idea that it lost the lock. Its own belief is irrelevant.
        let zombie = r.write(&a, sa.version, "from A (stale)\n");
        assert!(zombie.is_err(), "a holder that lost the lock must not write: {zombie:?}");
        assert_eq!(r.content(), "from B\n", "B's write must survive intact");

        r.finish(&a);
        r.finish(&b);
        let rep = r.report(&[P2TicketValidity, P3NoLostWrite, P4NoPhantomWrite]);
        assert!(rep.passed(), "{}\n{}", rep.render(), r.dump());
    });
}

/// Stuck but alive, versus a preemptor: the lock is reclaimed without ever being acquired.
#[test]
fn r4_wedged_holder_is_preemptible_without_acquiring() {
    under_virtual_time(async {
        let mut faults = Faults::default();
        faults.swallow_keepalive.insert("A".to_string());
        let mut r = rig_with("r4", Span::Full, faults, None);
        let (a, b) = ("A".to_string(), "B".to_string());

        let sa = r.read(&a).unwrap();

        // A keeps "checking in", and the service keeps believing it. It is alive, and stuck.
        for _ in 0..5 {
            advance(2).await;
            let _ = r.h.progress(&a);
        }
        r.record(Event::AgentWedged { holder: a.clone() });

        // The preemptor takes the lock away. It never asks A, and never waits on the lock.
        let barrier = r.h.force_release().expect("revocation must not block");

        // B can now proceed.
        let sb = r.read(&b).expect("lock must be reclaimable");
        r.write(&b, sb.version, "from B\n").unwrap();

        // If A ever wakes, its write is refused: it discovers the loss only now.
        let late = r.write(&a, sa.version, "from A (wedged)\n");
        assert!(late.is_err(), "wedged holder's write must be refused: {late:?}");
        assert_eq!(r.content(), "from B\n");
        assert!(barrier > Ticket(sa.version.0), "barrier must advance past the revoked ticket");

        r.finish(&b);
        let rep = r.report(&[P8Preemptibility, P2TicketValidity, P4NoPhantomWrite, P7Liveness]);
        assert!(rep.passed(), "{}\n{}", rep.render(), r.dump());
    });
}

/// Stale content under a perfectly valid lock: no lock rule is broken anywhere.
#[test]
fn r6_stale_content_refused_by_version_check() {
    under_virtual_time(async {
        let mut r = rig("r6", Span::WriteOnly);
        let (a, b) = ("A".to_string(), "B".to_string());

        let sa = r.read(&a).unwrap(); // A reads, holding nothing.

        // B does a complete, legitimate cycle while A is deciding.
        let sb = r.read(&b).unwrap();
        r.write(&b, sb.version, "from B\n").unwrap();

        // A's lock discipline is flawless. Its content is stale anyway.
        let stale = r.write(&a, sa.version, "from A (stale)\n");
        assert!(
            matches!(stale, Err(WriteError::Refused(Refusal::StaleVersion { .. }))),
            "the version check is the only thing standing between this and a silent stale write: {stale:?}"
        );
        assert_eq!(r.content(), "from B\n");

        r.finish(&a);
        r.finish(&b);
        let rep = r.report(&[P6Freshness, P3NoLostWrite, P4NoPhantomWrite]);
        assert!(rep.passed(), "{}\n{}", rep.render(), r.dump());
    });
}

/// The lock service violates its contract and grants one lock twice.
#[test]
fn r7_lock_service_grants_twice() {
    under_virtual_time(async {
        let mut faults = Faults::default();
        faults.grant_twice.insert(path_of("r7"));
        let mut r = rig_with("r7", Span::Full, faults, None);
        let (a, b) = ("A".to_string(), "B".to_string());

        let sa = r.read(&a).unwrap();
        let sb = r.read(&b).expect("the service is breaking its promise on purpose");

        // Only one may land. The later ticket is in force, so the earlier holder is refused.
        let wa = r.write(&a, sa.version, "from A\n");
        let wb = r.write(&b, sb.version, "from B\n");
        assert!(wa.is_err() ^ wb.is_err(), "exactly one write must land: {wa:?} / {wb:?}");

        r.finish(&a);
        r.finish(&b);
        let rep = r.report(&[P1MutualExclusion, P2TicketValidity, P4NoPhantomWrite]);
        assert!(rep.passed(), "{}\n{}", rep.render(), r.dump());
    });
}

/// The abandoned take: an agent reads, decides that no change is needed, and leaves.
#[test]
fn r8_abandoned_take_releases_lock() {
    under_virtual_time(async {
        let mut r = rig("r8", Span::Full);
        let (a, b) = ("A".to_string(), "B".to_string());

        let _ = r.read(&a).unwrap();
        r.h.abandon(&a); // "actually, nothing to change here"

        let sb = r.read(&b).expect("lock must be free after a clean abandon, not after a lease");
        r.write(&b, sb.version, "from B\n").unwrap();

        r.finish(&a);
        r.finish(&b);
        let rep = r.report(&[P5NoLeakedLock, P7Liveness]);
        assert!(rep.passed(), "{}\n{}", rep.render(), r.dump());
    });
}

/// A retry after a refused write must neither leak nor deadlock on itself.
#[test]
fn r9_retry_starts_over_without_leaking() {
    under_virtual_time(async {
        let mut r = rig("r9", Span::WriteOnly);
        let (a, b) = ("A".to_string(), "B".to_string());

        let sa = r.read(&a).unwrap();
        let sb = r.read(&b).unwrap();
        r.write(&b, sb.version, "from B\n").unwrap();

        // A's write is refused because it is stale.
        assert!(r.write(&a, sa.version, "from A v1\n").is_err());

        // Retrying the whole unit: read again, then write.
        let sa2 = r.read(&a).unwrap();
        r.write(&a, sa2.version, "from A v2\n").unwrap();
        assert_eq!(r.content(), "from A v2\n");

        r.finish(&a);
        r.finish(&b);
        let rep = r.report(&[P5NoLeakedLock, P7Liveness, P3NoLostWrite, P6Freshness]);
        assert!(rep.passed(), "{}\n{}", rep.render(), r.dump());
    });
}

/// False revocation: a holder that is merely slow is revoked, and its write is rejected cleanly.
#[test]
fn r11_false_revocation_costs_work_not_correctness() {
    under_virtual_time(async {
        let mut r = rig("r11", Span::Full);
        let (a, b) = ("A".to_string(), "B".to_string());

        let sa = r.read(&a).unwrap();

        // A is healthy, productive, just slow. It is revoked wrongly.
        r.h.force_release().unwrap();

        let sb = r.read(&b).unwrap();
        r.write(&b, sb.version, "from B\n").unwrap();

        let late = r.write(&a, sa.version, "from A (slow but fine)\n");
        assert!(late.is_err(), "must be refused, not applied: {late:?}");
        assert_eq!(r.content(), "from B\n", "no corruption from the wrongly-revoked holder");

        r.finish(&a);
        r.finish(&b);
        let rep = r.report(&[P2TicketValidity, P4NoPhantomWrite, P8Preemptibility]);
        assert!(rep.passed(), "{}\n{}", rep.render(), r.dump());
    });
}

/// A crash between preparing content and committing it, at each point where one can happen.
#[test]
fn r13_crash_before_commit_leaves_old_content() {
    under_virtual_time(async {
        for point in [CrashPoint::AfterTempWritten, CrashPoint::DuringRename] {
            let mut r = rig_with("r13", Span::WriteOnly, Faults::default(), Some(point));
            let a = "A".to_string();
            let sa = r.read(&a).unwrap();
            let res = r.write(&a, sa.version, "half written");
            assert!(matches!(res, Err(WriteError::Io(_))), "{point:?} -> {res:?}");
            assert_eq!(r.content(), INITIAL, "{point:?}: a reader must never see a partial file");
            r.finish(&a);
            let rep = r.report(&[P3NoLostWrite, P4NoPhantomWrite]);
            assert!(rep.passed(), "{point:?}: {}\n{}", rep.render(), r.dump());
        }
    });
}

/// Revoked between authorization and application: the two phases are driven separately here.
#[test]
fn r14_superseded_write_is_discarded_not_applied() {
    under_virtual_time(async {
        let mut r = rig("r14", Span::WriteOnly);
        let (a, b) = ("A".to_string(), "B".to_string());

        let sa = r.read(&a).unwrap();
        let authorized = r.authorize(&a, sa.version, "from A\n").unwrap();

        // In the gap: A is revoked, and B completes an entire legitimate cycle.
        r.h.force_release().unwrap();
        let sb = r.read(&b).unwrap();
        r.write(&b, sb.version, "from B\n").unwrap();

        // A now applies an authorization that has been overtaken.
        let applied = r.apply(authorized);
        assert!(
            matches!(applied, Err(WriteError::Superseded { .. })),
            "a superseded authorization must be discarded, never applied: {applied:?}"
        );
        assert_eq!(r.content(), "from B\n", "A's older content must not land on top of B's");

        r.finish(&a);
        r.finish(&b);
        let rep = r.report(&[P2TicketValidity, P3NoLostWrite, P4NoPhantomWrite, P5NoLeakedLock]);
        assert!(rep.passed(), "{}\n{}", rep.render(), r.dump());
    });
}

/// The only fault whose purpose is to make a check fail.
#[test]
fn negative_non_monotonic_tickets_are_detected() {
    under_virtual_time(async {
        let faults = Faults { non_monotonic_tickets: true, ..Default::default() };
        let mut r = rig_with("neg", Span::WriteOnly, faults, None);
        let (a, b) = ("A".to_string(), "B".to_string());

        let sa = r.read(&a).unwrap();
        r.write(&a, sa.version, "from A\n").unwrap();
        let sb = r.read(&b).unwrap();
        let _ = r.write(&b, sb.version, "from B\n");

        r.finish(&a);
        r.finish(&b);
        let rep = r.report(&[P2TicketValidity]);
        assert!(
            rep.violated(P2TicketValidity),
            "the checker must catch a ticket source that moves backwards, or every other pass is \
             meaningless:\n{}",
            r.dump()
        );
    });
}
