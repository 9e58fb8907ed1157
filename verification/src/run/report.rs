//! All eight properties at once.

use crate::checker;
use crate::checker::{Property, ViolationView};
use crate::properties;
use crate::run::agents;
use crate::run::content;
use crate::run::exclusion;
use crate::run::model;
use crate::run::model::{Step, World};
use crate::run::whole;
use vstd::prelude::*;

verus! {

pub(crate) proof fn lemma_possible(w: World, run: Seq<Step>)
    requires
        whole::is_whole_run(w, run),
    ensures
        model::begins(w),
        model::possible_all(w, run),
        content::all_land_own(w, run),
    decreases run.len(),
{
    if run.len() > 0 {
        lemma_possible(w, run.drop_last());
    }
}

/// A run, and then one question to the lock service.
proof fn lemma_then_ask(w: World, run: Seq<Step>, now: u128)
    requires
        whole::is_whole_run(w, run),
        content::never_writes(run, w.disk),
        whole::all_land(w, run),
        forall|u: Seq<char>| #[trigger] agents::takes_part(run, u) ==> agents::has_ended(run, u),
        model::possible(model::after_all(w, run), Step::Ask { now }),
    ensures
        ({
            let all = run.push(Step::Ask { now });
            &&& whole::is_whole_run(w, all)
            &&& content::never_writes(all, w.disk)
            &&& whole::all_land(w, all)
            &&& forall|u: Seq<char>| #[trigger]
                agents::takes_part(all, u) ==> agents::has_ended(all, u)
            &&& model::after_all(w, all) == model::after(
                model::after_all(w, run),
                Step::Ask { now },
            )
        }),
{
    let ask = Step::Ask { now };
    let all = run.push(ask);
    assert(all.drop_last() =~= run);
    assert(all.last() == ask);
    assert forall|i: int| 0 <= i < all.len() implies !content::writes(
        #[trigger] all[i],
        w.disk,
    ) by {
        if i < run.len() {
            assert(all[i] == run[i]);
        }
    }
    assert forall|i: int| 0 <= i < all.len() implies whole::lands(w, #[trigger] all[i]) by {
        if i < run.len() {
            assert(all[i] == run[i]);
        }
    }
    assert forall|u: Seq<char>| #[trigger] agents::takes_part(all, u) implies agents::has_ended(
        all,
        u,
    ) by {
        let i = choose|i: int| 0 <= i < all.len() && agents::actor(#[trigger] all[i]) == Some(u);
        assert(i < run.len());
        assert(all[i] == run[i]);
        assert(agents::takes_part(run, u));
        let j = choose|j: int|
            0 <= j < run.len() && ((#[trigger] run[j]) matches Step::Note { event, .. }
                && checker::is_terminal(event, u));
        assert(all[j] == run[j]);
    }
}

/// **Every check passes.** Take any run of whole writes in which no rename fails and nobody writes
/// the initial content back; let the end of everyone who took part be recorded, let every lease
/// lapse, and ask the lock service anything. Then none of the eight properties is violated. The
/// agents' timing, what they write and when they give up is open, and so are the faults: swallowed
/// renewals, dropped releases, and locks granted twice.
pub proof fn every_check_passes(w: World, run: Seq<Step>, now: u128)
    requires
        whole::is_whole_run(w, run),
        content::never_writes(run, w.disk),
        whole::all_land(w, run),
        forall|u: Seq<char>| #[trigger] agents::takes_part(run, u) ==> agents::has_ended(run, u),
        whole::all_lapsed(model::after_all(w, run).h, now),
        model::possible(model::after_all(w, run), Step::Ask { now }),
    ensures
        ({
            let end = model::after(model::after_all(w, run), Step::Ask { now });
            checker::all_violations(checker::ALL@, end.h.log, end.disk, w.disk) == Seq::<
                ViolationView,
            >::empty()
        }),
{
    let all = run.push(Step::Ask { now });
    lemma_then_ask(w, run, now);
    lemma_possible(w, all);
    let end = model::after_all(w, all);
    exclusion::mutual_exclusion_holds(w, all);
    whole::ticket_validity_holds(w, all);
    content::no_write_is_lost(w, all);
    content::no_phantom_write_appears(w, all);
    whole::no_lock_is_leaked(w, run, now);
    whole::freshness_holds(w, all);
    agents::liveness_holds(w, all);
    whole::preemptibility_holds(w, all);
    assert forall|p: Property| #[trigger]
        checker::violations_of(p, end.h.log, end.disk, w.disk).len() == 0 by {
        match p {
            Property::P1MutualExclusion => {},
            Property::P2TicketValidity => {},
            Property::P3NoLostWrite => {},
            Property::P4NoPhantomWrite => {},
            Property::P5NoLeakedLock => {},
            Property::P6Freshness => {},
            Property::P7Liveness => {},
            Property::P8Preemptibility => {},
        }
    }
    properties::report_passes_if_all_hold(checker::ALL@, end.h.log, end.disk, w.disk);
}

} // verus!
