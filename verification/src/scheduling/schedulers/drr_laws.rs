//! What holds of every deficit round robin schedule.

use crate::scheduling::flow::ordered;
use crate::scheduling::link::{
    departed, lemma_departed_ordered, lemma_total_queued_le, lemma_total_queued_lt,
    lemma_total_queued_zero,
};
use crate::scheduling::Packet;
use crate::scheduling::schedulers::drr::{
    lemma_advance, lemma_after_drained, lemma_sweep, lemma_tick_conserves, DrrState,
};
use vstd::prelude::*;

verus! {

/// However many ticks pass, the state stays well-formed, no flow is added or
/// lost, and every ledger stays as it was.
pub proof fn lemma_after_conserves(state: DrrState, ticks: nat)
    requires
        state.wf(),
    ensures
        state.after(ticks).wf(),
        state.after(ticks).weights == state.weights,
        state.after(ticks).link.flows.len() == state.link.flows.len(),
        state.after(ticks).link.capacity == state.link.capacity,
        forall|j: int|
            0 <= j < state.link.flows.len() ==> state.after(ticks).link.ledger(j)
                == state.link.ledger(j),
    decreases ticks,
{
    if ticks > 0 {
        lemma_tick_conserves(state);
        lemma_after_conserves(state.tick(), (ticks - 1) as nat);
        assert forall|j: int| 0 <= j < state.link.flows.len() implies state.after(ticks).link.ledger(
            j,
        ) == state.link.ledger(j) by {
            assert(state.tick().link.ledger(j) == state.link.ledger(j));
        }
    }
}

/// Conservation. At any later time, the packets of a flow that the port
/// has admitted, followed by those still queued, are exactly the packets
/// that had been admitted or were queued at the start, in the same order:
/// none is lost, none is duplicated, none overtakes another of its flow.
/// Once the flow is drained, its departures are all of them.
pub proof fn lemma_conservation(state: DrrState, ticks: nat, flow: int)
    requires
        state.wf(),
        0 <= flow < state.link.flows.len(),
    ensures
        departed(state.after(ticks).link.log, flow) + state.after(ticks).link.flows[flow]
            == departed(state.link.log, flow) + state.link.flows[flow],
        departed(state.after(ticks).link.log, flow).to_multiset().add(
            state.after(ticks).link.flows[flow].to_multiset(),
        ) == departed(state.link.log, flow).to_multiset().add(state.link.flows[flow].to_multiset()),
        state.after(ticks).link.flows[flow].len() == 0 ==> departed(
            state.after(ticks).link.log,
            flow,
        ) == departed(state.link.log, flow) + state.link.flows[flow],
{
    lemma_after_conserves(state, ticks);
    let end = state.after(ticks);
    assert(end.link.ledger(flow) == state.link.ledger(flow));
    vstd::seq_lib::lemma_multiset_commutative(departed(end.link.log, flow), end.link.flows[flow]);
    vstd::seq_lib::lemma_multiset_commutative(
        departed(state.link.log, flow),
        state.link.flows[flow],
    );
    if end.link.flows[flow].len() == 0 {
        assert(end.link.ledger(flow) =~= departed(end.link.log, flow));
    }
}

/// First in, first out. At any time the packets of one flow have left in
/// order of their arrival times.
pub proof fn lemma_departures_in_arrival_order(state: DrrState, ticks: nat, flow: int)
    requires
        state.wf(),
        0 <= flow < state.link.flows.len(),
    ensures
        ordered(departed(state.after(ticks).link.log, flow)),
{
    lemma_after_conserves(state, ticks);
    lemma_departed_ordered(state.after(ticks).link, flow);
}

/// In one round no flow is served more than once: a flow that has a claim
/// when the round begins sends exactly its head packet, and any other flow
/// sends nothing.
pub proof fn lemma_round_serves_each_flow_at_most_once(state: DrrState, flow: int)
    requires
        state.wf(),
        0 <= flow < state.link.flows.len(),
    ensures
        departed(state.round().link.log, flow) == if state.claims(flow) {
            departed(state.link.log, flow).push(state.link.flows[flow][0])
        } else {
            departed(state.link.log, flow)
        },
        departed(state.round().link.log, flow).len() <= departed(state.link.log, flow).len() + 1,
        state.round().link.flows[flow] == if state.claims(flow) {
            state.link.flows[flow].drop_first()
        } else {
            state.link.flows[flow]
        },
{
    let n = state.link.flows.len() as int;
    lemma_sweep(state, 0, n);
    let swept = state.sweep(0, n);
    let gone = departed(swept.link.log, flow);
    let before = departed(state.link.log, flow);
    assert(swept.link.ledger(flow) == state.link.ledger(flow));
    assert(swept.link.flows[flow] == if state.claims(flow) {
        state.link.flows[flow].drop_first()
    } else {
        state.link.flows[flow]
    });
    assert(swept.link.ledger(flow).len() == gone.len() + swept.link.flows[flow].len());
    assert(state.link.ledger(flow).len() == before.len() + state.link.flows[flow].len());
    if state.claims(flow) {
        let sent = before.push(state.link.flows[flow][0]);
        assert forall|k: int| 0 <= k < gone.len() implies gone[k] == sent[k] by {
            assert(swept.link.ledger(flow)[k] == gone[k]);
            assert(state.link.ledger(flow)[k] == sent[k]);
        }
        assert(gone =~= sent);
    } else {
        assert forall|k: int| 0 <= k < gone.len() implies gone[k] == before[k] by {
            assert(swept.link.ledger(flow)[k] == gone[k]);
            assert(state.link.ledger(flow)[k] == before[k]);
        }
        assert(gone =~= before);
    }
}

/// What a queued packet may still cost in ticks, seen at tick `now`: the
/// wait for its arrival, a tick for every unit of its length while credit is
/// saved up for it, and the tick that sends it.
pub open spec fn reserve(entry: (Packet, usize), now: nat) -> nat {
    (if entry.1 > now {
        entry.1 - now
    } else {
        0
    } + entry.0.len + 1) as nat
}

/// The reserves of all packets of a queue, added up.
pub open spec fn reserves(queue: Seq<(Packet, usize)>, now: nat) -> nat
    decreases queue.len(),
{
    if queue.len() == 0 {
        0
    } else {
        reserve(queue[0], now) + reserves(queue.drop_first(), now)
    }
}

/// How far flow `i` is from sending its head packet: the ticks until the
/// head arrives plus its whole cost, or, once it has arrived, the credit
/// that is still missing.
pub open spec fn need(state: DrrState, i: int) -> nat {
    if state.link.flows[i].len() == 0 {
        0
    } else {
        let head = state.link.flows[i][0];
        if head.1 > state.link.timer {
            reserve(head, state.link.timer)
        } else if state.deficits[i] < head.0.len {
            (head.0.len - state.deficits[i]) as nat
        } else {
            0
        }
    }
}

/// What flow `i` may still cost in ticks: the need of its head packet and
/// the reserves of the packets behind it.
pub open spec fn burden(state: DrrState, i: int) -> nat {
    if state.link.flows[i].len() == 0 {
        0
    } else {
        need(state, i) + reserves(state.link.flows[i].drop_first(), state.link.timer)
    }
}

/// The burdens of the flows below `upto`, added up.
pub open spec fn burden_below(state: DrrState, upto: int) -> nat
    decreases upto,
{
    if upto <= 0 {
        0
    } else {
        burden_below(state, upto - 1) + burden(state, upto - 1)
    }
}

/// A bound on the ticks that remain: one for every unit of work in the
/// port or still queued, one for every queued packet, and the burden of
/// every flow.
pub open spec fn ticks_bound(state: DrrState) -> nat {
    state.link.load + state.link.backlog() + state.link.queued() + burden_below(
        state,
        state.link.flows.len() as int,
    )
}

/// Reserves do not grow as time passes.
pub proof fn lemma_reserves_shrink(queue: Seq<(Packet, usize)>, now: nat, later: nat)
    requires
        now <= later,
    ensures
        reserves(queue, later) <= reserves(queue, now),
    decreases queue.len(),
{
    if queue.len() > 0 {
        lemma_reserves_shrink(queue.drop_first(), now, later);
    }
}

/// Where no flow bears more than before, the total burden is no more than before.
pub proof fn lemma_burden_le(now: DrrState, before: DrrState, upto: int)
    requires
        forall|i: int| 0 <= i < upto ==> burden(now, i) <= burden(before, i),
    ensures
        burden_below(now, upto) <= burden_below(before, upto),
    decreases upto,
{
    if upto > 0 {
        lemma_burden_le(now, before, upto - 1);
    }
}

/// Where no flow bears more than before and one bears less, the total
/// burden is less.
pub proof fn lemma_burden_lt(now: DrrState, before: DrrState, upto: int, less: int)
    requires
        forall|i: int| 0 <= i < upto ==> burden(now, i) <= burden(before, i),
        0 <= less < upto,
        burden(now, less) < burden(before, less),
    ensures
        burden_below(now, upto) < burden_below(before, upto),
    decreases upto,
{
    if less == upto - 1 {
        lemma_burden_le(now, before, upto - 1);
    } else {
        lemma_burden_lt(now, before, upto - 1, less);
    }
}

/// The burden of a flow does not grow in a tick in which the port stays
/// busy, nor in a round. In a round, a flow that holds packets and does not
/// send one ends with less burden than it had.
pub proof fn lemma_burden_step(state: DrrState, i: int)
    requires
        state.wf(),
        !state.link.drained(),
        0 <= i < state.link.flows.len(),
        state.weights[i] >= 1,
    ensures
        burden(state.tick(), i) <= burden(state, i),
        state.advance().link.idle() && !state.advance().claims(i) && state.link.flows[i].len() > 0
            ==> burden(state.tick(), i) < burden(state, i),
{
    let n = state.link.flows.len() as int;
    let moved = state.advance();
    let queue = state.link.flows[i];
    let now = state.link.timer;
    lemma_advance(state);
    if queue.len() > 0 {
        let rest = queue.drop_first();
        lemma_reserves_shrink(rest, now, now + 1);
        if !moved.link.idle() {
            assert(moved == state.tick());
        } else {
            lemma_sweep(moved, 0, n);
            let swept = moved.sweep(0, n);
            let next = swept.replenish();
            assert(next == state.tick());
            assert(swept.deficits[i] == moved.settled(i));
            assert(next.deficits[i] == swept.deficits[i] + swept.weights[i]);
            assert(swept.link.flows[i] == if moved.claims(i) {
                rest
            } else {
                queue
            });
            if moved.claims(i) {
                if rest.len() > 0 {
                    lemma_reserves_shrink(rest.drop_first(), now, now + 1);
                    assert(need(next, i) <= reserve(rest[0], now));
                }
            }
        }
    } else {
        if moved.link.idle() {
            lemma_sweep(moved, 0, n);
            let swept = moved.sweep(0, n);
            assert(swept.link.flows[i] == queue);
        }
    }
}

/// Every tick makes progress: while some flow holds a packet, a tick
/// lowers the bound on the ticks that remain.
pub proof fn lemma_tick_progress(state: DrrState)
    requires
        state.wf(),
        !state.link.drained(),
        state.link.capacity >= 1,
        forall|i: int| 0 <= i < state.weights.len() ==> (#[trigger] state.weights[i]) >= 1,
    ensures
        ticks_bound(state.tick()) < ticks_bound(state),
{
    let n = state.link.flows.len() as int;
    let moved = state.advance();
    let next = state.tick();
    lemma_advance(state);
    lemma_tick_conserves(state);
    assert forall|i: int| 0 <= i < n implies burden(next, i) <= burden(state, i) by {
        assert(state.weights[i] >= 1);
        lemma_burden_step(state, i);
    }
    lemma_burden_le(next, state, n);
    if !moved.link.idle() {
        assert(next == moved);
    } else {
        lemma_sweep(moved, 0, n);
        let swept = moved.sweep(0, n);
        assert(next == swept.replenish());
        assert forall|i: int| 0 <= i < n implies (#[trigger] next.link.flows[i]).len()
            <= state.link.flows[i].len() by {
            assert(swept.link.flows[i] == if moved.claims(i) {
                moved.link.flows[i].drop_first()
            } else {
                moved.link.flows[i]
            });
        }
        lemma_total_queued_le(next.link.flows, state.link.flows);
        if exists|j: int| 0 <= j < n && moved.claims(j) {
            let j = choose|j: int| 0 <= j < n && moved.claims(j);
            assert(swept.link.flows[j] == moved.link.flows[j].drop_first());
            lemma_total_queued_lt(next.link.flows, state.link.flows, j);
        } else {
            let busy = choose|i: int| 0 <= i < n && (#[trigger] state.link.flows[i]).len() != 0;
            assert(!moved.claims(busy));
            assert(state.weights[busy] >= 1);
            lemma_burden_step(state, busy);
            lemma_burden_lt(next, state, n, busy);
        }
    }
}

/// Termination. With a port that drains at least one unit per tick and
/// weights of at least one, all flows are drained after no more ticks than
/// the bound says.
pub proof fn lemma_drained_within(state: DrrState, ticks: nat)
    requires
        state.wf(),
        state.link.capacity >= 1,
        forall|i: int| 0 <= i < state.weights.len() ==> (#[trigger] state.weights[i]) >= 1,
        ticks_bound(state) <= ticks,
    ensures
        state.after(ticks).link.drained(),
    decreases ticks,
{
    if state.link.drained() {
        lemma_after_drained(state, ticks);
    } else {
        lemma_total_queued_zero(state.link.flows);
        lemma_tick_conserves(state);
        lemma_tick_progress(state);
        lemma_drained_within(state.tick(), (ticks - 1) as nat);
    }
}

} // verus!
