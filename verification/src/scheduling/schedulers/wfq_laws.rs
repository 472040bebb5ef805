//! What holds of every weighted fair queueing schedule, however its ties fall.

use crate::scheduling::flow::ordered;
use crate::scheduling::link::{
    departed, lemma_departed_ordered, lemma_horizon, lemma_serve, lemma_total_queued_zero,
};
use crate::scheduling::schedulers::wfq::{lemma_step_conserves, WfqState};
use vstd::prelude::*;

verus! {

/// Along every run that the discipline allows, the state stays well-formed,
/// no flow is added or lost, every ledger stays as it was, and the clock
/// counts the decisions.
pub proof fn lemma_follow_conserves(state: WfqState, picks: Seq<Option<int>>)
    requires
        state.wf(),
        state.allows(picks),
    ensures
        state.follow(picks).wf(),
        state.follow(picks).weights == state.weights,
        state.follow(picks).total_weight == state.total_weight,
        state.follow(picks).link.flows.len() == state.link.flows.len(),
        state.follow(picks).link.capacity == state.link.capacity,
        state.follow(picks).link.timer == state.link.timer + picks.len(),
        forall|j: int|
            0 <= j < state.link.flows.len() ==> state.follow(picks).link.ledger(j)
                == state.link.ledger(j),
    decreases picks.len(),
{
    if picks.len() > 0 {
        let earlier = state.follow(picks.drop_last());
        lemma_follow_conserves(state, picks.drop_last());
        lemma_step_conserves(earlier, picks.last());
        assert forall|j: int| 0 <= j < state.link.flows.len() implies state.follow(picks).link.ledger(
            j,
        ) == state.link.ledger(j) by {
            assert(earlier.link.ledger(j) == state.link.ledger(j));
        }
    }
}

/// Conservation. Along every run that the discipline allows, the packets
/// of a flow that the port has admitted, followed by those still queued,
/// are exactly the packets that had been admitted or were queued at the
/// start, in the same order: none is lost, none is duplicated, none
/// overtakes another of its flow. Once the flow is drained, its departures
/// are all of them.
pub proof fn lemma_conservation(state: WfqState, picks: Seq<Option<int>>, flow: int)
    requires
        state.wf(),
        state.allows(picks),
        0 <= flow < state.link.flows.len(),
    ensures
        departed(state.follow(picks).link.log, flow) + state.follow(picks).link.flows[flow]
            == departed(state.link.log, flow) + state.link.flows[flow],
        departed(state.follow(picks).link.log, flow).to_multiset().add(
            state.follow(picks).link.flows[flow].to_multiset(),
        ) == departed(state.link.log, flow).to_multiset().add(state.link.flows[flow].to_multiset()),
        state.follow(picks).link.flows[flow].len() == 0 ==> departed(
            state.follow(picks).link.log,
            flow,
        ) == departed(state.link.log, flow) + state.link.flows[flow],
{
    lemma_follow_conserves(state, picks);
    let end = state.follow(picks);
    assert(end.link.ledger(flow) == state.link.ledger(flow));
    vstd::seq_lib::lemma_multiset_commutative(departed(end.link.log, flow), end.link.flows[flow]);
    vstd::seq_lib::lemma_multiset_commutative(
        departed(state.link.log, flow),
        state.link.flows[flow],
    );
    if end.link.flows[flow].len() == 0 {
        assert(end.link.ledger(flow) =~= departed(end.link.log, flow));
    }
}

/// First in, first out. Along every run that the discipline allows, the
/// packets of one flow have left in order of their arrival times.
pub proof fn lemma_departures_in_arrival_order(
    state: WfqState,
    picks: Seq<Option<int>>,
    flow: int,
)
    requires
        state.wf(),
        state.allows(picks),
        0 <= flow < state.link.flows.len(),
    ensures
        ordered(departed(state.follow(picks).link.log, flow)),
{
    lemma_follow_conserves(state, picks);
    lemma_departed_ordered(state.follow(picks).link, flow);
}

/// A bound on the ticks that remain: one for every queued packet and one
/// for every tick until the last packet has arrived.
pub open spec fn ticks_bound(state: WfqState) -> nat {
    state.link.queued() + state.link.horizon()
}

/// Every tick makes progress: while some flow holds a packet, a tick with
/// a fair pick lowers the bound on the ticks that remain.
pub proof fn lemma_step_progress(state: WfqState, pick: Option<int>)
    requires
        state.wf(),
        !state.link.drained(),
        state.fair(pick),
    ensures
        ticks_bound(state.step(pick)) < ticks_bound(state),
{
    let n = state.link.flows.len() as int;
    let busy = choose|i: int| 0 <= i < n && (#[trigger] state.link.flows[i]).len() != 0;
    match pick {
        Some(i) => {
            lemma_serve(state.link, i);
            lemma_horizon(state.link, i);
        },
        None => {
            assert(!state.link.eligible(busy));
            lemma_horizon(state.link, busy);
        },
    }
}

/// Termination. However the ties fall, all flows are drained after no more
/// ticks than the bound says, whatever the port's capacity.
pub proof fn lemma_settles_within(state: WfqState, ticks: nat)
    requires
        state.wf(),
        ticks_bound(state) <= ticks,
    ensures
        state.settles_within(ticks),
    decreases ticks,
{
    if !state.link.drained() {
        lemma_total_queued_zero(state.link.flows);
        assert forall|pick: Option<int>| state.fair(pick) implies (#[trigger] state.step(
            pick,
        )).settles_within((ticks - 1) as nat) by {
            lemma_step_conserves(state, pick);
            lemma_step_progress(state, pick);
            lemma_settles_within(state.step(pick), (ticks - 1) as nat);
        }
    }
}

} // verus!
