//! What holds of every weighted round robin schedule.

use crate::scheduling::flow::ordered;
use crate::scheduling::link::{
    departed, lemma_departed_ordered, lemma_horizon, lemma_serve, lemma_total_queued_zero,
};
use crate::scheduling::schedulers::wrr::{
    lemma_after_drained, lemma_first_ready, lemma_tick_conserves, WrrState,
};
use vstd::prelude::*;

verus! {

/// However many ticks pass, the state stays well-formed, no flow is added or
/// lost, and every ledger stays as it was.
pub proof fn lemma_after_conserves(state: WrrState, ticks: nat)
    requires
        state.wf(),
    ensures
        state.after(ticks).wf(),
        state.after(ticks).weights == state.weights,
        state.after(ticks).link.flows.len() == state.link.flows.len(),
        state.after(ticks).link.capacity == state.link.capacity,
        forall|j: int|
            0 <= j < state.link.flows.len() ==> state.after(ticks).link.ledger(j)
                == state.link.ledger(j),
    decreases ticks,
{
    if ticks > 0 {
        lemma_tick_conserves(state);
        lemma_after_conserves(state.tick(), (ticks - 1) as nat);
        assert forall|j: int| 0 <= j < state.link.flows.len() implies state.after(ticks).link.ledger(
            j,
        ) == state.link.ledger(j) by {
            assert(state.tick().link.ledger(j) == state.link.ledger(j));
        }
    }
}

/// Conservation. At any later time, the packets of a flow that the port
/// has admitted, followed by those still queued, are exactly the packets
/// that had been admitted or were queued at the start, in the same order:
/// none is lost, none is duplicated, none overtakes another of its flow.
/// Once the flow is drained, its departures are all of them.
pub proof fn lemma_conservation(state: WrrState, ticks: nat, flow: int)
    requires
        state.wf(),
        0 <= flow < state.link.flows.len(),
    ensures
        departed(state.after(ticks).link.log, flow) + state.after(ticks).link.flows[flow]
            == departed(state.link.log, flow) + state.link.flows[flow],
        departed(state.after(ticks).link.log, flow).to_multiset().add(
            state.after(ticks).link.flows[flow].to_multiset(),
        ) == departed(state.link.log, flow).to_multiset().add(state.link.flows[flow].to_multiset()),
        state.after(ticks).link.flows[flow].len() == 0 ==> departed(
            state.after(ticks).link.log,
            flow,
        ) == departed(state.link.log, flow) + state.link.flows[flow],
{
    lemma_after_conserves(state, ticks);
    let end = state.after(ticks);
    assert(end.link.ledger(flow) == state.link.ledger(flow));
    vstd::seq_lib::lemma_multiset_commutative(departed(end.link.log, flow), end.link.flows[flow]);
    vstd::seq_lib::lemma_multiset_commutative(
        departed(state.link.log, flow),
        state.link.flows[flow],
    );
    if end.link.flows[flow].len() == 0 {
        assert(end.link.ledger(flow) =~= departed(end.link.log, flow));
    }
}

/// First in, first out. At any time the packets of one flow have left in
/// order of their arrival times.
pub proof fn lemma_departures_in_arrival_order(state: WrrState, ticks: nat, flow: int)
    requires
        state.wf(),
        0 <= flow < state.link.flows.len(),
    ensures
        ordered(departed(state.after(ticks).link.log, flow)),
{
    lemma_after_conserves(state, ticks);
    lemma_departed_ordered(state.after(ticks).link, flow);
}

/// Some flow that still holds packets has used up its quota.
pub open spec fn stale(state: WrrState) -> bool {
    exists|i: int|
        0 <= i < state.link.flows.len() && (#[trigger] state.link.flows[i]).len() > 0
            && state.quotas[i] == 0
}

/// A bound on the ticks that remain: two for every queued packet, one to
/// send it and one for the round that may have to begin before, one for
/// every tick until the last packet has arrived, and one more if a round
/// is about to end.
pub open spec fn ticks_bound(state: WrrState) -> nat {
    2 * state.link.queued() + state.link.horizon() + if stale(state) {
        1nat
    } else {
        0nat
    }
}

/// Every tick makes progress: while some flow holds a packet, a tick
/// lowers the bound on the ticks that remain.
pub proof fn lemma_tick_progress(state: WrrState)
    requires
        state.wf(),
        !state.link.drained(),
        forall|i: int| 0 <= i < state.weights.len() ==> (#[trigger] state.weights[i]) >= 1,
    ensures
        ticks_bound(state.tick()) < ticks_bound(state),
{
    let n = state.link.flows.len() as int;
    lemma_first_ready(state, 0);
    let first = state.first_ready(0);
    let busy = choose|i: int| 0 <= i < n && (#[trigger] state.link.flows[i]).len() != 0;
    if first < n {
        lemma_serve(state.link, first);
        lemma_horizon(state.link, first);
        assert(state.tick().link == state.link.serve(first).advance());
    } else {
        let next = state.tick();
        assert(next.link == state.link.advance());
        lemma_horizon(state.link, busy);
        assert(!stale(next)) by {
            if stale(next) {
                let i = choose|i: int|
                    0 <= i < next.link.flows.len() && (#[trigger] next.link.flows[i]).len() > 0
                        && next.quotas[i] == 0;
                assert(state.weights[i] >= 1);
            }
        }
        if !stale(state) {
            assert(state.link.flows[busy].len() > 0);
            assert(state.quotas[busy] > 0);
            assert(!state.ready(busy));
        }
    }
}

/// Termination. With weights of at least one, all flows are drained
/// after no more ticks than the bound says, whatever the port's capacity.
pub proof fn lemma_drained_within(state: WrrState, ticks: nat)
    requires
        state.wf(),
        forall|i: int| 0 <= i < state.weights.len() ==> (#[trigger] state.weights[i]) >= 1,
        ticks_bound(state) <= ticks,
    ensures
        state.after(ticks).link.drained(),
    decreases ticks,
{
    if state.link.drained() {
        lemma_after_drained(state, ticks);
    } else {
        lemma_total_queued_zero(state.link.flows);
        lemma_tick_conserves(state);
        lemma_tick_progress(state);
        lemma_drained_within(state.tick(), (ticks - 1) as nat);
    }
}

} // verus!
