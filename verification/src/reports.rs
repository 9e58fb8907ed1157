//! What the checker reports, entry by entry: not only whether a property holds, but where it does not.
//!
//! For each property the places at which it fails are said in plain words about the history, and the
//! report is proved to name exactly those places, once each and in order.

use crate::checker;
use crate::checker::{GrantView, Property, SeenView, ViolationView, WindowView};
use crate::history;
use crate::history::{EventView, Log};
use crate::properties;
use vstd::prelude::*;

verus! {

/// The positions below `n` that are picked, in order.
pub open spec fn picks(n: int, picked: spec_fn(int) -> bool) -> Seq<int> {
    Seq::new(n as nat, |i: int| i).filter(picked)
}

/// `vs` has one violation of `p` for each of the first `n` entries that is `bad`, in order, and no
/// other.
pub open spec fn names_each(
    vs: Seq<ViolationView>,
    p: Property,
    log: Log,
    n: int,
    bad: spec_fn(int) -> bool,
) -> bool {
    let at = picks(n, bad);
    &&& vs.len() == at.len()
    &&& forall|k: int|
        0 <= k < vs.len() ==> (#[trigger] vs[k]).property == p && vs[k].at_seq == Some(
            log[at[k]].seq,
        )
}

proof fn lemma_picks(n: int, picked: spec_fn(int) -> bool)
    requires
        n >= 0,
    ensures
        picks(0, picked) == Seq::<int>::empty(),
        picks(n + 1, picked) == (if picked(n) {
            picks(n, picked).push(n)
        } else {
            picks(n, picked)
        }),
{
    reveal(Seq::filter);
    let all = Seq::new((n + 1) as nat, |i: int| i);
    assert(all.drop_last() =~= Seq::new(n as nat, |i: int| i));
    assert(Seq::new(0, |i: int| i) =~= Seq::<int>::empty());
}

/// **Picking is exact.** What is picked are the positions that the condition is true of, each of them
/// once, and in order.
pub proof fn picking_is_exact(n: int, picked: spec_fn(int) -> bool)
    requires
        n >= 0,
    ensures
        forall|k: int|
            0 <= k < picks(n, picked).len() ==> 0 <= #[trigger] picks(n, picked)[k] < n && picked(
                picks(n, picked)[k],
            ),
        forall|k: int, l: int|
            0 <= k < l < picks(n, picked).len() ==> #[trigger] picks(n, picked)[k]
                < #[trigger] picks(n, picked)[l],
        forall|i: int| 0 <= i < n && picked(i) ==> #[trigger] picks(n, picked).contains(i),
    decreases n,
{
    if n > 0 {
        let m = n - 1;
        picking_is_exact(m, picked);
        lemma_picks(m, picked);
        let before = picks(m, picked);
        let now = picks(n, picked);
        assert forall|i: int| 0 <= i < n && picked(i) implies #[trigger] now.contains(i) by {
            if i < m {
                assert(before.contains(i));
                let k = choose|k: int| 0 <= k < before.len() && before[k] == i;
                assert(now[k] == i);
            } else {
                assert(now[before.len() as int] == i);
            }
        }
    } else {
        lemma_picks(0, picked);
    }
}

/// What one more entry does to a list of violations.
proof fn lemma_names_one_more(
    before: Seq<ViolationView>,
    after: Seq<ViolationView>,
    p: Property,
    log: Log,
    n: int,
    bad: spec_fn(int) -> bool,
)
    requires
        0 <= n < log.len(),
        names_each(before, p, log, n, bad),
        !bad(n) ==> after == before,
        bad(n) ==> after.len() == before.len() + 1 && after.drop_last() == before
            && after.last().property == p && after.last().at_seq == Some(log[n].seq),
    ensures
        names_each(after, p, log, n + 1, bad),
{
    lemma_picks(n, bad);
    if bad(n) {
        let at = picks(n + 1, bad);
        assert forall|k: int| 0 <= k < after.len() implies (#[trigger] after[k]).property == p
            && after[k].at_seq == Some(log[at[k]].seq) by {
            if k < before.len() {
                assert(after[k] == before[k]);
            }
        }
    }
}

proof fn lemma_p2(log: Log, n: int)
    requires
        0 <= n <= log.len(),
    ensures
        names_each(
            checker::p2_violations(log.take(n)),
            Property::P2TicketValidity,
            log,
            n,
            |j: int| !properties::tickets_valid_at(log, j),
        ),
    decreases n,
{
    let bad = |j: int| !properties::tickets_valid_at(log, j);
    if n > 0 {
        let m = n - 1;
        lemma_p2(log, m);
        properties::lemma_p2_at(log, m);
        assert(log.take(n).drop_last() =~= log.take(m));
        assert(log.take(n).last() == log[m]);
        let before = checker::p2_violations(log.take(m));
        let after = checker::p2_violations(log.take(n));
        if bad(m) {
            assert(after.drop_last() =~= before);
        }
        lemma_names_one_more(before, after, Property::P2TicketValidity, log, m, bad);
    } else {
        lemma_picks(0, bad);
    }
}

/// **Every breach of the rules on tickets is reported where it is.** The report has exactly one
/// violation for each entry that breaks them, in order.
pub proof fn p2_reports_each_breach(log: Log)
    ensures
        names_each(
            checker::p2_violations(log),
            Property::P2TicketValidity,
            log,
            log.len() as int,
            |j: int| !properties::tickets_valid_at(log, j),
        ),
{
    lemma_p2(log, log.len() as int);
    assert(log.take(log.len() as int) =~= log);
}

proof fn lemma_p6(log: Log, n: int)
    requires
        0 <= n <= log.len(),
    ensures
        names_each(
            checker::p6_violations(log.take(n)),
            Property::P6Freshness,
            log,
            n,
            |j: int| !properties::is_fresh_at(log, j),
        ),
    decreases n,
{
    let bad = |j: int| !properties::is_fresh_at(log, j);
    if n > 0 {
        let m = n - 1;
        lemma_p6(log, m);
        properties::lemma_fresh_at(log, m);
        assert(log.take(n).drop_last() =~= log.take(m));
        assert(log.take(n).last() == log[m]);
        let before = checker::p6_violations(log.take(m));
        let after = checker::p6_violations(log.take(n));
        if bad(m) {
            assert(after.drop_last() =~= before);
        }
        lemma_names_one_more(before, after, Property::P6Freshness, log, m, bad);
    } else {
        lemma_picks(0, bad);
    }
}

/// **Every stale write is reported where it was accepted.** The report has exactly one violation for
/// each accepted write that was not based on the version in force, in order.
pub proof fn p6_reports_each_stale_write(log: Log)
    ensures
        names_each(
            checker::p6_violations(log),
            Property::P6Freshness,
            log,
            log.len() as int,
            |j: int| !properties::is_fresh_at(log, j),
        ),
{
    lemma_p6(log, log.len() as int);
    assert(log.take(log.len() as int) =~= log);
}

proof fn lemma_p8(log: Log, n: int)
    requires
        0 <= n <= log.len(),
    ensures
        names_each(
            checker::p8_violations(log.take(n)),
            Property::P8Preemptibility,
            log,
            n,
            |j: int| !properties::is_past_barrier_at(log, j),
        ),
    decreases n,
{
    let bad = |j: int| !properties::is_past_barrier_at(log, j);
    if n > 0 {
        let m = n - 1;
        lemma_p8(log, m);
        properties::lemma_latest_revocation(log, m);
        assert(log.take(n).drop_last() =~= log.take(m));
        assert(log.take(n).last() == log[m]);
        match checker::latest_revocation(log.take(m)) {
            Some(_) => {
                let i = choose|i: int| #[trigger] properties::is_latest_revocation_at(log, i, m);
                assert(properties::is_latest_revocation_at(log, i, m));
                match log[m].event {
                    EventView::WriteAccepted { ticket, .. } => {
                        properties::lemma_issued_before(log, i, ticket);
                    },
                    _ => {},
                }
            },
            None => {},
        }
        let before = checker::p8_violations(log.take(m));
        let after = checker::p8_violations(log.take(n));
        if bad(m) {
            assert(after.drop_last() =~= before);
        }
        lemma_names_one_more(before, after, Property::P8Preemptibility, log, m, bad);
    } else {
        lemma_picks(0, bad);
    }
}

/// **Every write from before a revocation is reported where it was accepted.** The report has exactly
/// one violation for each accepted write whose ticket the latest revocation had taken the lock away
/// from, in order.
pub proof fn p8_reports_each_late_write(log: Log)
    ensures
        names_each(
            checker::p8_violations(log),
            Property::P8Preemptibility,
            log,
            log.len() as int,
            |j: int| !properties::is_past_barrier_at(log, j),
        ),
{
    lemma_p8(log, log.len() as int);
    assert(log.take(log.len() as int) =~= log);
}

/// No accepted write has this content.
pub open spec fn never_accepted(log: Log, content: Seq<char>) -> bool {
    forall|i: int| !properties::accepts_at(log, i, content)
}

proof fn lemma_p4(log: Log, n: int, final_content: Seq<char>)
    requires
        0 <= n <= log.len(),
    ensures
        names_each(
            checker::refused_yet_there(log, log.take(n), final_content),
            Property::P4NoPhantomWrite,
            log,
            n,
            |j: int|
                properties::refuses_at(log, j, final_content) && never_accepted(log, final_content),
        ),
    decreases n,
{
    let bad = |j: int|
        properties::refuses_at(log, j, final_content) && never_accepted(log, final_content);
    if n > 0 {
        let m = n - 1;
        lemma_p4(log, m, final_content);
        properties::lemma_accepts(log, final_content);
        assert(log.take(n).drop_last() =~= log.take(m));
        assert(log.take(n).last() == log[m]);
        let before = checker::refused_yet_there(log, log.take(m), final_content);
        let after = checker::refused_yet_there(log, log.take(n), final_content);
        if bad(m) {
            assert(after.drop_last() =~= before);
        }
        lemma_names_one_more(before, after, Property::P4NoPhantomWrite, log, m, bad);
    } else {
        lemma_picks(0, bad);
    }
}

/// **Every phantom is reported.** If the final content is neither the initial one nor that of an
/// accepted write, that is reported first, at no entry. Behind it the report has exactly one violation
/// for each refused write with the final content, if no accepted write has it, in order.
pub proof fn p4_reports_each_phantom(log: Log, final_content: Seq<char>, initial: Seq<char>)
    ensures
        ({
            let vs = checker::p4_violations(log, final_content, initial);
            let refused = |j: int|
                properties::refuses_at(log, j, final_content) && never_accepted(log, final_content);
            let n = log.len() as int;
            if final_content != initial && never_accepted(log, final_content) {
                &&& vs.len() > 0
                &&& vs[0].property == Property::P4NoPhantomWrite
                &&& vs[0].at_seq is None
                &&& names_each(vs.skip(1), Property::P4NoPhantomWrite, log, n, refused)
            } else {
                names_each(vs, Property::P4NoPhantomWrite, log, n, refused)
            }
        }),
{
    let n = log.len() as int;
    lemma_p4(log, n, final_content);
    assert(log.take(n) =~= log);
    properties::lemma_accepts(log, final_content);
    let rest = checker::refused_yet_there(log, log, final_content);
    let vs = checker::p4_violations(log, final_content, initial);
    if final_content != initial && never_accepted(log, final_content) {
        assert(!checker::was_accepted(log, final_content));
        assert(vs.skip(1) =~= rest);
    } else {
        assert(vs =~= rest);
    }
}

/// **A lost write is reported where it was accepted.** At most one violation is reported: at the last
/// accepted write, if the final content is not its content; and at no entry, if the content changed
/// although no write was accepted.
pub proof fn p3_reports_the_lost_write(log: Log, final_content: Seq<char>, initial: Seq<char>)
    ensures
        ({
            let vs = checker::p3_violations(log, final_content, initial);
            &&& vs.len() <= 1
            &&& vs.len() == 1 ==> vs[0].property == Property::P3NoLostWrite
            &&& forall|j: int| #[trigger]
                properties::is_last_accepted(log, j) ==> {
                    &&& vs.len() == 1 <==> log[j].event->WriteAccepted_content != final_content
                    &&& vs.len() == 1 ==> vs[0].at_seq == Some(log[j].seq)
                }
            &&& (forall|j: int| 0 <= j < log.len() ==> !((
            #[trigger] log[j]).event is WriteAccepted)) ==> {
                &&& vs.len() == 1 <==> final_content != initial
                &&& vs.len() == 1 ==> vs[0].at_seq is None
            }
        }),
{
    lemma_latest_accepted(log);
    match checker::latest_accepted(log) {
        Some((seq, content)) => {
            let j = choose|j: int| #[trigger]
                properties::is_last_accepted(log, j) && log[j].event->WriteAccepted_content
                    == content && log[j].seq == seq;
            assert forall|k: int| #[trigger] properties::is_last_accepted(log, k) implies k == j by {
                if k < j {
                    assert(!(log[j].event is WriteAccepted));
                }
                if j < k {
                    assert(!(log[k].event is WriteAccepted));
                }
            }
            assert(log[j].event is WriteAccepted);
        },
        None => {},
    }
}

proof fn lemma_latest_accepted(log: Log)
    ensures
        match checker::latest_accepted(log) {
            Some((seq, content)) => exists|j: int| #[trigger]
                properties::is_last_accepted(log, j) && log[j].event->WriteAccepted_content
                    == content && log[j].seq == seq,
            None => forall|j: int| 0 <= j < log.len() ==> !((
            #[trigger] log[j]).event is WriteAccepted),
        },
    decreases log.len(),
{
    if log.len() > 0 {
        let first = log.drop_last();
        let n = log.len() as int;
        lemma_latest_accepted(first);
        assert(log[n - 1] == log.last());
        if log.last().event is WriteAccepted {
            assert(properties::is_last_accepted(log, n - 1));
        } else {
            match checker::latest_accepted(first) {
                Some((seq, content)) => {
                    let j = choose|j: int| #[trigger]
                        properties::is_last_accepted(first, j)
                            && first[j].event->WriteAccepted_content == content && first[j].seq
                            == seq;
                    assert(first[j] == log[j]);
                    assert forall|k: int| j < k < n implies !((
                    #[trigger] log[k]).event is WriteAccepted) by {
                        if k < n - 1 {
                            assert(first[k] == log[k]);
                        }
                    }
                    assert(properties::is_last_accepted(log, j));
                },
                None => {
                    assert forall|j: int| 0 <= j < n implies !((
                    #[trigger] log[j]).event is WriteAccepted) by {
                        if j < n - 1 {
                            assert(first[j] == log[j]);
                        }
                    }
                },
            }
        }
    }
}

proof fn lemma_filter_twice<A>(s: Seq<A>, a: spec_fn(A) -> bool, b: spec_fn(A) -> bool)
    ensures
        s.filter(a).filter(b) == s.filter(|x: A| a(x) && b(x)),
    decreases s.len(),
{
    reveal(Seq::filter);
    if s.len() > 0 {
        lemma_filter_twice(s.drop_last(), a, b);
        let kept = s.drop_last().filter(a);
        if a(s.last()) {
            assert(kept.push(s.last()).drop_last() =~= kept);
        }
    }
}

proof fn lemma_filter_same<A>(s: Seq<A>, a: spec_fn(A) -> bool, b: spec_fn(A) -> bool)
    requires
        forall|i: int| 0 <= i < s.len() ==> (a(#[trigger] s[i]) <==> b(s[i])),
    ensures
        s.filter(a) == s.filter(b),
    decreases s.len(),
{
    reveal(Seq::filter);
    if s.len() > 0 {
        let first = s.drop_last();
        assert forall|i: int| 0 <= i < first.len() implies (a(#[trigger] first[i]) <==> b(
            first[i],
        )) by {
            assert(first[i] == s[i]);
        }
        lemma_filter_same(first, a, b);
        assert(s[s.len() - 1] == s.last());
    }
}

proof fn lemma_filter_mapped<A, B>(s: Seq<A>, f: spec_fn(A) -> B, q: spec_fn(B) -> bool)
    ensures
        s.map_values(f).filter(q) == s.filter(|x: A| q(f(x))).map_values(f),
    decreases s.len(),
{
    reveal(Seq::filter);
    if s.len() > 0 {
        lemma_filter_mapped(s.drop_last(), f, q);
        assert(s.map_values(f).drop_last() =~= s.drop_last().map_values(f));
        let kept = s.drop_last().filter(|x: A| q(f(x)));
        assert(kept.push(s.last()).map_values(f) =~= kept.map_values(f).push(f(s.last())));
    }
    assert(s.map_values(f).filter(q) =~= s.filter(|x: A| q(f(x))).map_values(f));
}

/// Entry `i` grants a lock that nothing before position `n` ends, and it is the latest grant of that
/// resource on that ticket.
pub open spec fn is_leaked(log: Log, i: int, n: int) -> bool {
    &&& 0 <= i < n
    &&& log[i].event is TakeGranted
    &&& forall|k: int|
        i < k < n ==> {
            let e = (#[trigger] log[k]).event;
            let resource = log[i].event->TakeGranted_resource;
            let ticket = log[i].event->TakeGranted_ticket;
            &&& !properties::ends_hold(e, ticket, resource)
            &&& !(e is TakeGranted && e->TakeGranted_resource == resource && e->TakeGranted_ticket
                == ticket)
        }
}

spec fn grant_at(log: Log, i: int) -> GrantView {
    GrantView {
        ticket: log[i].event->TakeGranted_ticket,
        resource: log[i].event->TakeGranted_resource,
        holder: log[i].event->TakeGranted_holder,
        seq: log[i].seq,
    }
}

spec fn grants_at(log: Log, at: Seq<int>) -> Seq<GrantView> {
    at.map_values(|i: int| grant_at(log, i))
}

proof fn lemma_grants_kept(log: Log, m: int, keep: spec_fn(GrantView) -> bool)
    requires
        0 <= m < log.len(),
        forall|i: int|
            0 <= i < m ==> (#[trigger] is_leaked(log, i, m + 1) <==> is_leaked(log, i, m) && keep(
                grant_at(log, i),
            )),
    ensures
        grants_at(log, picks(m, |i: int| is_leaked(log, i, m))).filter(keep) == grants_at(
            log,
            picks(m, |i: int| is_leaked(log, i, m + 1)),
        ),
{
    let all = Seq::new(m as nat, |i: int| i);
    let g = |i: int| grant_at(log, i);
    let a = |i: int| is_leaked(log, i, m);
    let b = |i: int| is_leaked(log, i, m + 1);
    let c = |i: int| keep(g(i));
    lemma_filter_mapped(picks(m, a), g, keep);
    lemma_filter_twice(all, a, c);
    lemma_filter_same(all, |i: int| a(i) && c(i), b);
    assert(picks(m, a).filter(c) == picks(m, b));
}

proof fn lemma_leaks_one_more(log: Log, i: int, m: int)
    requires
        0 <= i < m < log.len(),
    ensures
        is_leaked(log, i, m + 1) <==> is_leaked(log, i, m) && {
            let e = log[m].event;
            let resource = log[i].event->TakeGranted_resource;
            let ticket = log[i].event->TakeGranted_ticket;
            &&& !properties::ends_hold(e, ticket, resource)
            &&& !(e is TakeGranted && e->TakeGranted_resource == resource && e->TakeGranted_ticket
                == ticket)
        },
{
    if is_leaked(log, i, m + 1) {
        assert(is_leaked(log, i, m));
        assert(log[m] == log[m]);
    }
}

proof fn lemma_outstanding(log: Log, n: int)
    requires
        0 <= n <= log.len(),
    ensures
        checker::outstanding(log.take(n)) == grants_at(
            log,
            picks(n, |i: int| is_leaked(log, i, n)),
        ),
    decreases n,
{
    let now = |i: int| is_leaked(log, i, n);
    if n > 0 {
        let m = n - 1;
        lemma_outstanding(log, m);
        assert(log.take(n).drop_last() =~= log.take(m));
        assert(log.take(n).last() == log[m]);
        let before = checker::outstanding(log.take(m));
        let kept = grants_at(log, picks(m, now));
        lemma_picks(m, now);
        assert forall|i: int| 0 <= i < m implies (#[trigger] is_leaked(log, i, n) <==> is_leaked(
            log,
            i,
            m,
        ) && {
            let e = log[m].event;
            let resource = log[i].event->TakeGranted_resource;
            let ticket = log[i].event->TakeGranted_ticket;
            &&& !properties::ends_hold(e, ticket, resource)
            &&& !(e is TakeGranted && e->TakeGranted_resource == resource && e->TakeGranted_ticket
                == ticket)
        }) by {
            lemma_leaks_one_more(log, i, m);
        }
        match log[m].event {
            EventView::TakeGranted { holder, resource, ticket } => {
                let keep = |g: GrantView| !(g.ticket == ticket && g.resource == resource);
                lemma_grants_kept(log, m, keep);
                assert(is_leaked(log, m, n));
                assert(grants_at(log, picks(m, now).push(m)) =~= kept.push(grant_at(log, m)));
            },
            EventView::GiveBack { resource, ticket, .. } => {
                lemma_grants_kept(
                    log,
                    m,
                    |g: GrantView| !(g.ticket == ticket && g.resource == resource),
                );
            },
            EventView::LeaseExpired { resource, ticket, .. } => {
                lemma_grants_kept(
                    log,
                    m,
                    |g: GrantView| !(g.ticket == ticket && g.resource == resource),
                );
            },
            EventView::Revoked { resource, .. } => {
                lemma_grants_kept(log, m, |g: GrantView| g.resource != resource);
            },
            _ => {
                let all = Seq::new(m as nat, |i: int| i);
                lemma_filter_same(all, |i: int| is_leaked(log, i, m), now);
                assert(before == kept);
            },
        }
    } else {
        lemma_picks(0, now);
        assert(grants_at(log, Seq::<int>::empty()) =~= Seq::<GrantView>::empty());
    }
}

/// **Every leaked lock is reported where it was granted.** The report has exactly one violation for each
/// grant that nothing ends and that is not replaced by a later grant of the same resource on the same
/// ticket, in order.
pub proof fn p5_reports_each_leak(log: Log)
    ensures
        names_each(
            checker::p5_violations(log),
            Property::P5NoLeakedLock,
            log,
            log.len() as int,
            |i: int| is_leaked(log, i, log.len() as int),
        ),
{
    let n = log.len() as int;
    assert(log.take(n) =~= log);
    lemma_outstanding(log, n);
    let at = picks(n, |i: int| is_leaked(log, i, n));
    let vs = checker::p5_violations(log);
    assert forall|k: int| 0 <= k < vs.len() implies (#[trigger] vs[k]).property
        == Property::P5NoLeakedLock && vs[k].at_seq == Some(log[at[k]].seq) by {
        assert(checker::outstanding(log)[k] == grant_at(log, at[k]));
    }
}

/// Entry `i` is the first that is about `holder`.
pub open spec fn hears_first_of(log: Log, i: int, holder: Seq<char>) -> bool {
    &&& properties::mentions_at(log, i, holder)
    &&& forall|k: int| k < i ==> !(#[trigger] properties::mentions_at(log, k, holder))
}

/// Entry `i` is the first that is about some agent of which no entry says that it finished or is
/// wedged.
pub open spec fn hears_first_of_missing(log: Log, i: int) -> bool {
    exists|holder: Seq<char>| #[trigger]
        hears_first_of(log, i, holder) && forall|j: int| !properties::settles_at(log, j, holder)
}

spec fn hears_first(log: Log, i: int) -> bool {
    exists|holder: Seq<char>| hears_first_of(log, i, holder)
}

spec fn seen_at(log: Log, i: int) -> SeenView {
    SeenView { holder: checker::concerns(log[i].event)->Some_0, seq: log[i].seq }
}

spec fn silence_of(s: SeenView) -> ViolationView {
    ViolationView {
        property: Property::P7Liveness,
        at_seq: Some(s.seq),
        detail: checker::silent_text(s.holder),
    }
}

proof fn lemma_hears_first(log: Log, i: int)
    requires
        0 <= i < log.len(),
    ensures
        hears_first(log, i) <==> (checker::concerns(log[i].event) matches Some(h)
            ==> !checker::is_seen(checker::agents(log.take(i)), h)) && checker::concerns(
            log[i].event,
        ) is Some,
        hears_first(log, i) ==> hears_first_of(log, i, seen_at(log, i).holder),
{
    properties::lemma_agents(log, i);
    let seen = checker::agents(log.take(i));
    match checker::concerns(log[i].event) {
        Some(h) => {
            properties::lemma_mentions(log, i, h);
            if hears_first(log, i) {
                let u = choose|u: Seq<char>| hears_first_of(log, i, u);
                properties::lemma_mentions(log, i, u);
                assert(u == h);
                if checker::is_seen(seen, h) {
                    let k = choose|k: int|
                        0 <= k < i && checker::concerns((#[trigger] log[k]).event) == Some(h);
                    properties::lemma_mentions(log, k, h);
                    assert(properties::mentions_at(log, k, h));
                }
            }
            if !checker::is_seen(seen, h) {
                assert forall|k: int| k < i implies !(#[trigger] properties::mentions_at(
                    log,
                    k,
                    h,
                )) by {
                    if properties::mentions_at(log, k, h) {
                        properties::lemma_mentions(log, k, h);
                        assert(checker::concerns(log[k].event) == Some(h));
                    }
                }
                assert(hears_first_of(log, i, h));
            }
        },
        None => {
            if hears_first(log, i) {
                let u = choose|u: Seq<char>| hears_first_of(log, i, u);
                properties::lemma_mentions(log, i, u);
            }
        },
    }
}

proof fn lemma_seen(log: Log, n: int)
    requires
        0 <= n <= log.len(),
    ensures
        checker::agents(log.take(n)) == picks(n, |i: int| hears_first(log, i)).map_values(
            |i: int| seen_at(log, i),
        ),
    decreases n,
{
    let first = |i: int| hears_first(log, i);
    let s = |i: int| seen_at(log, i);
    if n > 0 {
        let m = n - 1;
        lemma_seen(log, m);
        lemma_hears_first(log, m);
        lemma_picks(m, first);
        assert(log.take(n).drop_last() =~= log.take(m));
        assert(log.take(n).last() == log[m]);
        assert(picks(m, first).push(m).map_values(s) =~= picks(m, first).map_values(s).push(s(m)));
    } else {
        lemma_picks(0, first);
        assert(Seq::<int>::empty().map_values(s) =~= Seq::<SeenView>::empty());
    }
}

proof fn lemma_silences(log: Log, seen: Seq<SeenView>)
    ensures
        checker::silences(log, seen) == seen.filter(
            |s: SeenView| !checker::is_accounted_for(log, s.holder),
        ).map_values(|s: SeenView| silence_of(s)),
    decreases seen.len(),
{
    reveal(Seq::filter);
    let q = |s: SeenView| !checker::is_accounted_for(log, s.holder);
    let f = |s: SeenView| silence_of(s);
    if seen.len() > 0 {
        lemma_silences(log, seen.drop_last());
        let kept = seen.drop_last().filter(q);
        assert(kept.push(seen.last()).map_values(f) =~= kept.map_values(f).push(f(seen.last())));
    } else {
        assert(seen.filter(q).map_values(f) =~= Seq::<ViolationView>::empty());
    }
}

/// **Every missing agent is reported where it is first heard of.** The report has exactly one violation
/// for each agent of which no entry says that it finished or is wedged, at the first entry about it, in
/// the order of those entries.
pub proof fn p7_reports_each_missing_agent(log: Log)
    ensures
        names_each(
            checker::p7_violations(log),
            Property::P7Liveness,
            log,
            log.len() as int,
            |i: int| hears_first_of_missing(log, i),
        ),
{
    let n = log.len() as int;
    assert(log.take(n) =~= log);
    lemma_seen(log, n);
    let first = |i: int| hears_first(log, i);
    let s = |i: int| seen_at(log, i);
    let q = |x: SeenView| !checker::is_accounted_for(log, x.holder);
    let f = |x: SeenView| silence_of(x);
    let missing = |i: int| hears_first_of_missing(log, i);
    lemma_silences(log, checker::agents(log));
    lemma_filter_mapped(picks(n, first), s, q);
    let all = Seq::new(n as nat, |i: int| i);
    let c = |i: int| q(s(i));
    lemma_filter_twice(all, first, c);
    let both = |i: int| first(i) && c(i);
    assert forall|k: int| 0 <= k < all.len() implies (both(#[trigger] all[k]) <==> missing(
        all[k],
    )) by {
        let i = all[k];
        lemma_hears_first(log, i);
        let h = seen_at(log, i).holder;
        properties::lemma_settles(log, h);
        if missing(i) {
            let u = choose|u: Seq<char>| #[trigger]
                hears_first_of(log, i, u) && forall|j: int| !properties::settles_at(log, j, u);
            properties::lemma_mentions(log, i, u);
            assert(hears_first(log, i));
            assert(u == h);
        }
        if both(i) {
            assert(hears_first_of(log, i, h));
        }
    }
    lemma_filter_same(all, both, missing);
    let at = picks(n, missing);
    assert(picks(n, first).filter(c) == at);
    let vs = checker::p7_violations(log);
    assert(vs == at.map_values(s).map_values(f));
    assert forall|k: int| 0 <= k < vs.len() implies (#[trigger] vs[k]).property
        == Property::P7Liveness && vs[k].at_seq == Some(log[at[k]].seq) by {
        assert(vs[k] == f(s(at[k])));
    }
}

/// Two accepted writes by different holders overlap: one from `a1` to `b1`, and one that was accepted
/// later, from `a2` to `b2`.
pub open spec fn overlap(
    log: Log,
    h1: Seq<char>,
    a1: int,
    b1: int,
    h2: Seq<char>,
    a2: int,
    b2: int,
) -> bool {
    &&& properties::is_window(log, h1, a1, b1)
    &&& properties::is_window(log, h2, a2, b2)
    &&& h1 != h2
    &&& b1 < b2
    &&& a2 <= b1
}

/// The violation is about two accepted writes that overlap, and stands where the later one of the two
/// was attempted.
pub open spec fn tells_of_overlap(log: Log, v: ViolationView) -> bool {
    &&& v.property == Property::P1MutualExclusion
    &&& exists|h1: Seq<char>, a1: int, b1: int, h2: Seq<char>, a2: int, b2: int| #[trigger]
        overlap(log, h1, a1, b1, h2, a2, b2) && v.at_seq == Some(a2 as nat)
}

proof fn lemma_windows_rise(log: Log)
    requires
        history::numbered(log),
    ensures
        forall|i: int, j: int|
            0 <= i < j < checker::windows(log).len() ==> (#[trigger] checker::windows(log)[i]).end
                < (#[trigger] checker::windows(log)[j]).end,
        forall|i: int|
            0 <= i < checker::windows(log).len() ==> (#[trigger] checker::windows(log)[i]).end
                < log.len(),
    decreases log.len(),
{
    if log.len() > 0 {
        let first = log.drop_last();
        assert forall|i: int| 0 <= i < first.len() implies (#[trigger] first[i]).seq == i by {
            assert(first[i] == log[i]);
        }
        lemma_windows_rise(first);
        assert(log[log.len() - 1].seq == log.len() - 1);
        let before = checker::windows(first);
        let ws = checker::windows(log);
        assert forall|i: int| 0 <= i < ws.len() implies (#[trigger] ws[i]).end < log.len() by {
            if i < before.len() {
                assert(ws[i] == before[i]);
            }
        }
        assert forall|i: int, j: int| 0 <= i < j < ws.len() implies (#[trigger] ws[i]).end < (
        #[trigger] ws[j]).end by {
            assert(ws[i] == before[i]);
            if j < before.len() {
                assert(ws[j] == before[j]);
            }
        }
    }
}

/// The violation that windows `i` and `j` make.
spec fn clash_at(ws: Seq<WindowView>, i: int, j: int) -> ViolationView {
    ViolationView {
        property: Property::P1MutualExclusion,
        at_seq: Some(ws[j].start),
        detail: checker::clash_text(ws[i], ws[j]),
    }
}

spec fn is_pair(ws: Seq<WindowView>, i: int, j: int) -> bool {
    0 <= i < j < ws.len() && checker::clash(ws[i], ws[j])
}

/// The violation is that of window `i` with one before `j`.
spec fn is_in_row(ws: Seq<WindowView>, i: int, j: int, v: ViolationView) -> bool {
    exists|x: int| #[trigger] is_pair(ws, i, x) && x < j && v == clash_at(ws, i, x)
}

/// The violation is that of two windows.
spec fn is_of_pair(ws: Seq<WindowView>, v: ViolationView) -> bool {
    exists|i: int, j: int| #[trigger] is_pair(ws, i, j) && v == clash_at(ws, i, j)
}

proof fn lemma_row(ws: Seq<WindowView>, i: int, j: int)
    requires
        0 <= i < ws.len(),
        j <= ws.len(),
    ensures
        forall|k: int|
            0 <= k < checker::clashes_of(ws, i, j).len() ==> is_in_row(
                ws,
                i,
                j,
                #[trigger] checker::clashes_of(ws, i, j)[k],
            ),
        forall|x: int|
            x < j && #[trigger] is_pair(ws, i, x) ==> checker::clashes_of(ws, i, j).contains(
                clash_at(ws, i, x),
            ),
    decreases j - i,
{
    if j > i + 1 {
        lemma_row(ws, i, j - 1);
        let before = checker::clashes_of(ws, i, j - 1);
        let now = checker::clashes_of(ws, i, j);
        assert forall|k: int| 0 <= k < now.len() implies is_in_row(ws, i, j, #[trigger] now[k]) by {
            if k < before.len() {
                assert(now[k] == before[k]);
                assert(is_in_row(ws, i, j - 1, before[k]));
                let x = choose|x: int| #[trigger]
                    is_pair(ws, i, x) && x < j - 1 && before[k] == clash_at(ws, i, x);
                assert(is_pair(ws, i, x));
            } else {
                assert(is_pair(ws, i, j - 1));
            }
        }
        assert forall|x: int| x < j && #[trigger] is_pair(ws, i, x) implies now.contains(
            clash_at(ws, i, x),
        ) by {
            if x < j - 1 {
                assert(before.contains(clash_at(ws, i, x)));
                let k = choose|k: int| 0 <= k < before.len() && before[k] == clash_at(ws, i, x);
                assert(now[k] == before[k]);
            } else {
                assert(now[before.len() as int] == clash_at(ws, i, x));
            }
        }
    }
}

proof fn lemma_rows(ws: Seq<WindowView>, n: int)
    requires
        0 <= n <= ws.len(),
    ensures
        forall|k: int|
            0 <= k < checker::clashes(ws, n).len() ==> is_of_pair(
                ws,
                #[trigger] checker::clashes(ws, n)[k],
            ),
        forall|i: int, j: int|
            i < n && #[trigger] is_pair(ws, i, j) ==> checker::clashes(ws, n).contains(
                clash_at(ws, i, j),
            ),
    decreases n,
{
    if n > 0 {
        let m = n - 1;
        lemma_rows(ws, m);
        lemma_row(ws, m, ws.len() as int);
        let a = checker::clashes(ws, m);
        let b = checker::clashes_of(ws, m, ws.len() as int);
        let now = checker::clashes(ws, n);
        assert forall|k: int| 0 <= k < now.len() implies is_of_pair(ws, #[trigger] now[k]) by {
            if k < a.len() {
                assert(now[k] == a[k]);
                assert(is_of_pair(ws, a[k]));
                let (i, j) = choose|i: int, j: int| #[trigger]
                    is_pair(ws, i, j) && a[k] == clash_at(ws, i, j);
                assert(is_pair(ws, i, j));
            } else {
                assert(now[k] == b[k - a.len()]);
                assert(is_in_row(ws, m, ws.len() as int, b[k - a.len()]));
                let x = choose|x: int| #[trigger]
                    is_pair(ws, m, x) && x < ws.len() && b[k - a.len()] == clash_at(ws, m, x);
                assert(is_pair(ws, m, x));
            }
        }
        assert forall|i: int, j: int| i < n && #[trigger] is_pair(ws, i, j) implies now.contains(
            clash_at(ws, i, j),
        ) by {
            let v = clash_at(ws, i, j);
            if i < m {
                assert(a.contains(v));
                let k = choose|k: int| 0 <= k < a.len() && a[k] == v;
                assert(now[k] == v);
            } else {
                assert(b.contains(v));
                let k = choose|k: int| 0 <= k < b.len() && b[k] == v;
                assert(now[a.len() + k] == v);
            }
        }
    }
}

/// **Every overlap is reported, and nothing else is.** Each violation is about two accepted writes by
/// different holders that overlap, and stands where the later one of the two was attempted; and for
/// any two such writes there is one.
pub proof fn p1_reports_each_overlap(log: Log)
    requires
        history::numbered(log),
    ensures
        ({
            let vs = checker::p1_violations(log);
            &&& forall|k: int| 0 <= k < vs.len() ==> tells_of_overlap(log, #[trigger] vs[k])
            &&& forall|h1: Seq<char>, a1: int, b1: int, h2: Seq<char>, a2: int, b2: int| #[trigger]
                overlap(log, h1, a1, b1, h2, a2, b2) ==> exists|k: int|
                    0 <= k < vs.len() && (#[trigger] vs[k]).at_seq == Some(a2 as nat)
        }),
{
    let ws = checker::windows(log);
    let vs = checker::p1_violations(log);
    let n = ws.len() as int;
    properties::lemma_windows(log);
    lemma_windows_rise(log);
    lemma_rows(ws, n);
    assert forall|k: int| 0 <= k < vs.len() implies tells_of_overlap(log, #[trigger] vs[k]) by {
        assert(is_of_pair(ws, vs[k]));
        let (i, j) = choose|i: int, j: int| #[trigger]
            is_pair(ws, i, j) && vs[k] == clash_at(ws, i, j);
        assert(ws[i].end < ws[j].end);
        assert(overlap(
            log,
            ws[i].holder,
            ws[i].start as int,
            ws[i].end as int,
            ws[j].holder,
            ws[j].start as int,
            ws[j].end as int,
        ));
    }
    assert forall|h1: Seq<char>, a1: int, b1: int, h2: Seq<char>, a2: int, b2: int| #[trigger]
        overlap(log, h1, a1, b1, h2, a2, b2) implies exists|k: int|
        0 <= k < vs.len() && (#[trigger] vs[k]).at_seq == Some(a2 as nat) by {
        assert(properties::is_window(log, h1, a1, b1) && properties::is_window(log, h2, a2, b2));
        let i = choose|i: int| #![trigger ws[i]] properties::lists(ws, i, h1, a1, b1);
        let j = choose|j: int| #![trigger ws[j]] properties::lists(ws, j, h2, a2, b2);
        if j < i {
            assert(ws[j].end < ws[i].end);
        }
        assert(is_pair(ws, i, j));
        assert(vs.contains(clash_at(ws, i, j)));
        let k = choose|k: int| 0 <= k < vs.len() && vs[k] == clash_at(ws, i, j);
        assert(vs[k].at_seq == Some(a2 as nat));
    }
}

/// What a property says, in plain words about the history and the content.
pub open spec fn holds(p: Property, log: Log, final_content: Seq<char>, initial: Seq<char>) -> bool {
    match p {
        Property::P1MutualExclusion => properties::mutual_exclusion(log),
        Property::P2TicketValidity => properties::ticket_validity(log),
        Property::P3NoLostWrite => properties::no_lost_write(log, final_content, initial),
        Property::P4NoPhantomWrite => properties::no_phantom_write(log, final_content, initial),
        Property::P5NoLeakedLock => properties::no_leaked_lock(log),
        Property::P6Freshness => properties::freshness(log),
        Property::P7Liveness => properties::liveness(log),
        Property::P8Preemptibility => properties::preemptibility(log),
    }
}

proof fn lemma_holds(p: Property, log: Log, final_content: Seq<char>, initial: Seq<char>)
    requires
        history::numbered(log),
    ensures
        checker::violations_of(p, log, final_content, initial).len() == 0 <==> holds(
            p,
            log,
            final_content,
            initial,
        ),
{
    properties::p1_means_mutual_exclusion(log);
    properties::p2_means_ticket_validity(log);
    properties::p3_means_no_lost_write(log, final_content, initial);
    properties::p4_means_no_phantom_write(log, final_content, initial);
    properties::p5_means_no_leaked_lock(log);
    properties::p6_means_freshness(log);
    properties::p7_means_liveness(log);
    properties::p8_means_preemptibility(log);
}

/// **A report passes exactly if what was asked for holds, and names exactly what does not.** Of any
/// history that the library writes, the report is without violations if and only if every property
/// that was asked for holds; and it has a violation of a property if and only if that one was asked
/// for and does not hold.
pub proof fn report_tells_what_holds(
    props: Seq<Property>,
    log: Log,
    final_content: Seq<char>,
    initial: Seq<char>,
    p: Property,
)
    requires
        history::numbered(log),
    ensures
        checker::all_violations(props, log, final_content, initial).len() == 0 <==> forall|i: int|
            0 <= i < props.len() ==> holds(#[trigger] props[i], log, final_content, initial),
        (exists|k: int|
            0 <= k < checker::all_violations(props, log, final_content, initial).len() && (
            #[trigger] checker::all_violations(props, log, final_content, initial)[k]).property
                == p) <==> props.contains(p) && !holds(p, log, final_content, initial),
{
    properties::report_passes_if_all_hold(props, log, final_content, initial);
    properties::report_names_what_is_violated(props, log, final_content, initial, p);
    lemma_holds(p, log, final_content, initial);
    assert forall|i: int| 0 <= i < props.len() implies (checker::violations_of(
        #[trigger] props[i],
        log,
        final_content,
        initial,
    ).len() == 0 <==> holds(props[i], log, final_content, initial)) by {
        lemma_holds(props[i], log, final_content, initial);
    }
}

/// **Reports add up.** Asking for some properties and then for others finds what each asking finds, one
/// behind the other.
pub proof fn reports_add_up(
    first: Seq<Property>,
    second: Seq<Property>,
    log: Log,
    final_content: Seq<char>,
    initial: Seq<char>,
)
    ensures
        checker::all_violations(first + second, log, final_content, initial)
            == checker::all_violations(first, log, final_content, initial)
            + checker::all_violations(second, log, final_content, initial),
    decreases second.len(),
{
    let a = checker::all_violations(first, log, final_content, initial);
    if second.len() == 0 {
        assert(first + second =~= first);
        assert(a + checker::all_violations(second, log, final_content, initial) =~= a);
    } else {
        reports_add_up(first, second.drop_last(), log, final_content, initial);
        assert((first + second).drop_last() =~= first + second.drop_last());
        assert((first + second).last() == second.last());
        let b = checker::all_violations(second.drop_last(), log, final_content, initial);
        let c = checker::violations_of(second.last(), log, final_content, initial);
        assert((a + b) + c =~= a + (b + c));
    }
}

} // verus!
