//! The randomized soak. Agent timing and fault schedules are drawn from a seed, and all eight
//! properties are checked, so that a violation is caught even when nobody predicted its shape. A
//! failing seed replays exactly.

use mas_harness_lock::checker;
use mas_harness_lock::clock::Duration;
use mas_harness_lock::harness::{Config, Harness, Snapshot, WriteError};
use mas_harness_lock::history::{Event, History};
use mas_harness_lock::lock::fake::{FakeLockService, Faults};
use mas_harness_lock::lock::LockService;
use mas_harness_lock::store::FileStore;
use mas_harness_lock::types::{HolderId, Span, Version};

struct Rng(u64);

impl Rng {
    fn new(seed: u64) -> Self {
        Self(seed.wrapping_mul(2685821657736338717).max(1))
    }
    fn next(&mut self) -> u64 {
        let mut x = self.0;
        x ^= x << 13;
        x ^= x >> 7;
        x ^= x << 17;
        self.0 = x;
        x
    }
    fn below(&mut self, n: u64) -> u64 {
        self.next() % n.max(1)
    }
    fn chance(&mut self, one_in: u64) -> bool {
        self.below(one_in) == 0
    }
}

const INITIAL: &str = "initial\n";
const LEASE_SECS: u64 = 15;

async fn advance(secs: u64) {
    tokio::time::advance(std::time::Duration::from_secs(secs)).await;
}

struct Rig {
    h: Harness<FakeLockService>,
    content: String,
    staged: String,
}

impl Rig {
    fn read(&mut self, holder: &HolderId) -> Result<Snapshot, WriteError> {
        let reading = self.h.begin_read(holder)?;
        let raw = Ok(self.content.clone());
        self.h.read(reading, raw)
    }

    fn write(&mut self, holder: &HolderId, at: Version, content: &str) -> Result<Version, WriteError> {
        let attempt = self.h.begin_write(holder, at, content)?;
        self.staged = content.to_string();
        let ready = self.h.write(attempt, Ok(()))?;
        self.content = self.staged.clone();
        self.h.apply(ready, Ok(()))
    }

    fn record(&mut self, event: Event) {
        self.h.service().1.record(0, event);
    }
}

/// One randomized run.
async fn run_one(seed: u64, span: Span) -> (checker::Report, String) {
    let mut rng = Rng::new(seed);
    let resource = format!("/scratch/mhl-soak-{}-{}", seed, span_tag(span));

    let agents: Vec<HolderId> = (0..(2 + rng.below(3))).map(|i| format!("A{i}")).collect();

    // A randomized fault schedule. It leaves out repeating tickets: that fault exists to make a
    // check fail.
    let mut faults = Faults::default();
    for a in &agents {
        if rng.chance(6) {
            faults.swallow_keepalive.insert(a.clone());
        }
        if rng.chance(8) {
            faults.drop_release.insert(a.clone());
        }
    }
    if rng.chance(7) {
        faults.grant_twice.insert(resource.clone());
    }

    let lease = Duration::from_secs(LEASE_SECS);
    let lock = FakeLockService::new(lease).with_faults(faults);
    let cfg = Config { span, lease, hold_ceiling: Duration::from_secs(600) };
    let mut r = Rig {
        h: Harness::new(lock, FileStore::new(&resource), History::new(), cfg),
        content: INITIAL.to_string(),
        staged: String::new(),
    };

    let mut wedged: Vec<HolderId> = Vec::new();

    for _round in 0..(3 + rng.below(5)) {
        for a in &agents {
            if wedged.contains(a) {
                continue;
            }
            match rng.below(10) {
                // Read, think for a random spell, then write.
                0..=5 => {
                    if let Ok(snap) = r.read(a) {
                        let think = rng.below(30);
                        advance(think).await;
                        if rng.chance(4) {
                            let _ = r.h.progress(a);
                        }
                        let _ = r.write(a, snap.version, &format!("{a} round\n"));
                    }
                }
                // Take and abandon without writing.
                6 => {
                    if r.read(a).is_ok() {
                        r.h.abandon(a);
                    }
                }
                // Become wedged: alive, still nominally checking in, never finishing.
                7 => {
                    if r.read(a).is_ok() {
                        r.record(Event::AgentWedged { holder: a.clone() });
                        wedged.push(a.clone());
                    }
                }
                // Something preempts whoever holds it.
                8 => {
                    let _ = r.h.force_release();
                }
                _ => {
                    advance(1 + rng.below(20)).await;
                }
            }
        }
    }

    // Everything not wedged must have terminated.
    for a in &agents {
        if !wedged.contains(a) {
            r.h.abandon(a);
            r.record(Event::AgentFinished { holder: a.clone() });
        }
    }

    // The guarantee is "released or expired", not "released promptly": outstanding leases lapse
    // before leaks are looked for.
    advance(LEASE_SECS * 2).await;
    let (lock, history) = r.h.service();
    let _ = lock.current_ticket(history, &resource); // provoke the sweep

    let report = checker::check(r.h.history(), &checker::ALL, &r.content, INITIAL);
    (report, r.h.history().render())
}

fn span_tag(s: Span) -> &'static str {
    match s {
        Span::WriteOnly => "w",
        Span::Full => "f",
    }
}

/// Both spans, many seeds.
#[test]
fn soak_all_properties_hold_across_seeds() {
    let runtime = tokio::runtime::Builder::new_current_thread()
        .enable_time()
        .start_paused(true)
        .build()
        .unwrap();
    runtime.block_on(async {
        let mut failures = Vec::new();
        for span in [Span::WriteOnly, Span::Full] {
            for seed in 1..=150u64 {
                let (report, dump) = run_one(seed, span).await;
                if !report.passed() {
                    failures.push(format!(
                        "seed {seed} span {span:?}:\n{}\n--- history ---\n{dump}",
                        report.render()
                    ));
                }
            }
        }
        assert!(
            failures.is_empty(),
            "{} soak failure(s). Each is reproducible from its seed.\n\n{}",
            failures.len(),
            failures.join("\n\n")
        );
    });
}
