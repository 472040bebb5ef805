//! Weighted Round Robin.

use crate::scheduling::flow::{backlog, ordered, FixedLengthFlow, Flow};
use crate::scheduling::link::{
    all_empty, departed, lemma_head_within_backlog, lemma_register, lemma_serve, link_of, Link,
    TICK_CEILING,
};
use crate::scheduling::{Packet, Port};
use vstd::prelude::*;

verus! {

/// A weighted round robin scheduler at one instant: the link, and for each
/// flow its quantum and how many packets of it the flow may still send in
/// the present round.
pub struct WrrState {
    pub link: Link,
    pub weights: Seq<nat>,
    pub quotas: Seq<nat>,
}

impl WrrState {
    /// A scheduler without flows, at tick zero.
    pub open spec fn fresh(capacity: nat) -> WrrState {
        WrrState {
            link: Link {
                timer: 0,
                flows: Seq::empty(),
                capacity,
                load: 0,
                log: Seq::empty(),
            },
            weights: Seq::empty(),
            quotas: Seq::empty(),
        }
    }

    /// The link is well-formed and every flow has a weight and a quota.
    pub open spec fn wf(self) -> bool {
        &&& self.link.wf()
        &&& self.weights.len() == self.link.flows.len()
        &&& self.quotas.len() == self.link.flows.len()
    }

    /// No counter of the machine can overflow before the tick ceiling.
    pub open spec fn fits(self) -> bool {
        &&& self.link.timer <= TICK_CEILING
        &&& self.link.backlog() + self.link.load <= usize::MAX
    }

    /// One more flow, with a full quota.
    pub open spec fn register(self, queue: Seq<(Packet, usize)>, weight: nat) -> WrrState {
        WrrState {
            link: self.link.register(queue),
            weights: self.weights.push(weight),
            quotas: self.quotas.push(weight),
        }
    }

    /// Flow `i` has quota left and a head packet that has arrived.
    pub open spec fn ready(self, i: int) -> bool {
        self.quotas[i] > 0 && self.link.eligible(i)
    }

    /// The first ready flow at or behind `from`, or the number of flows if
    /// there is none.
    pub open spec fn first_ready(self, from: int) -> int
        decreases self.link.flows.len() - from,
    {
        if from >= self.link.flows.len() {
            self.link.flows.len() as int
        } else if self.ready(from) {
            from
        } else {
            self.first_ready(from + 1)
        }
    }

    /// Flow `i` spends one unit of quota on sending its head packet.
    pub open spec fn grant(self, i: int) -> WrrState {
        WrrState {
            link: self.link.serve(i),
            weights: self.weights,
            quotas: self.quotas.update(i, (self.quotas[i] - 1) as nat),
        }
    }

    /// A new round: every quota is set back to the weight of its flow.
    pub open spec fn reset(self) -> WrrState {
        WrrState { link: self.link, weights: self.weights, quotas: self.weights }
    }

    /// The decision of one tick: the first ready flow is served; if no flow
    /// is ready, a new round begins.
    pub open spec fn decide(self) -> WrrState {
        if self.first_ready(0) < self.link.flows.len() {
            self.grant(self.first_ready(0))
        } else {
            self.reset()
        }
    }

    /// The clock and the port move on by one tick.
    pub open spec fn advance(self) -> WrrState {
        WrrState { link: self.link.advance(), weights: self.weights, quotas: self.quotas }
    }

    /// One tick. Nothing happens once all flows are drained. Otherwise the
    /// decision is made and then time passes.
    pub open spec fn tick(self) -> WrrState {
        if self.link.drained() {
            self
        } else {
            self.decide().advance()
        }
    }

    /// The state `ticks` ticks later.
    pub open spec fn after(self, ticks: nat) -> WrrState
        decreases ticks,
    {
        if ticks == 0 {
            self
        } else {
            self.tick().after((ticks - 1) as nat)
        }
    }

    /// The ticks left before the ceiling.
    pub open spec fn allowance(self) -> nat {
        (TICK_CEILING - self.link.timer) as nat
    }

    /// All flows are drained by the time the clock reaches the ceiling.
    pub open spec fn settles(self) -> bool {
        self.after(self.allowance()).link.drained()
    }

    /// The port's remaining work is flushed.
    pub open spec fn flush(self) -> WrrState {
        WrrState { link: self.link.flush(), weights: self.weights, quotas: self.quotas }
    }

    /// Where a run ends: the state once all flows are drained, with the port flushed.
    pub open spec fn outcome(self) -> WrrState {
        self.after(self.allowance()).flush()
    }
}

/// The first ready flow lies at or behind the start of the search, it is
/// ready, and no flow between the two is.
pub proof fn lemma_first_ready(state: WrrState, from: int)
    requires
        0 <= from <= state.link.flows.len(),
    ensures
        from <= state.first_ready(from) <= state.link.flows.len(),
        state.first_ready(from) < state.link.flows.len() ==> state.ready(state.first_ready(from)),
        forall|j: int| from <= j < state.first_ready(from) ==> !state.ready(j),
    decreases state.link.flows.len() - from,
{
    if from < state.link.flows.len() && !state.ready(from) {
        lemma_first_ready(state, from + 1);
    }
}

/// The decision keeps the state well-formed and every ledger as it was, and
/// moves the work of at most one packet from the backlog to the port.
pub proof fn lemma_decide(state: WrrState)
    requires
        state.wf(),
    ensures
        state.decide().wf(),
        state.decide().weights == state.weights,
        state.decide().link.flows.len() == state.link.flows.len(),
        state.decide().link.timer == state.link.timer,
        state.decide().link.capacity == state.link.capacity,
        state.decide().link.backlog() + state.decide().link.load == state.link.backlog()
            + state.link.load,
        forall|j: int|
            0 <= j < state.link.flows.len() ==> state.decide().link.ledger(j) == state.link.ledger(
                j,
            ),
{
    lemma_first_ready(state, 0);
    let i = state.first_ready(0);
    if i < state.link.flows.len() {
        lemma_serve(state.link, i);
    }
}

/// The passing of time keeps the state well-formed and changes no ledger.
pub proof fn lemma_advance(state: WrrState)
    requires
        state.wf(),
    ensures
        state.advance().wf(),
        forall|j: int|
            0 <= j < state.link.flows.len() ==> state.advance().link.ledger(j)
                == state.link.ledger(j),
{
    let moved = state.advance();
    assert forall|j: int| 0 <= j < moved.link.flows.len() implies ordered(
        #[trigger] moved.link.ledger(j),
    ) by {
        assert(moved.link.ledger(j) == state.link.ledger(j));
        assert(ordered(state.link.ledger(j)));
    }
}

/// A tick keeps the state well-formed, moves the clock by one unless all
/// flows are drained, and changes no ledger.
pub proof fn lemma_tick_conserves(state: WrrState)
    requires
        state.wf(),
    ensures
        state.tick().wf(),
        state.tick().weights == state.weights,
        state.tick().link.flows.len() == state.link.flows.len(),
        state.tick().link.capacity == state.link.capacity,
        state.tick().link.timer == if state.link.drained() {
            state.link.timer
        } else {
            state.link.timer + 1
        },
        forall|j: int|
            0 <= j < state.link.flows.len() ==> state.tick().link.ledger(j) == state.link.ledger(j),
        state.tick().link.backlog() + state.tick().link.load <= state.link.backlog()
            + state.link.load,
{
    if !state.link.drained() {
        lemma_decide(state);
        lemma_advance(state.decide());
        assert forall|j: int| 0 <= j < state.link.flows.len() implies state.tick().link.ledger(j)
            == state.link.ledger(j) by {
            assert(state.decide().link.ledger(j) == state.link.ledger(j));
        }
    }
}

/// Once all flows are drained, further ticks change nothing.
pub proof fn lemma_after_drained(state: WrrState, ticks: nat)
    requires
        state.link.drained(),
    ensures
        state.after(ticks) == state,
    decreases ticks,
{
    if ticks > 0 {
        lemma_after_drained(state, (ticks - 1) as nat);
    }
}

/// Weighted Round Robin (WRR) Scheduler
pub struct WRRScheduler {
    timer: usize,
    weights: Vec<usize>,
    current_weight: Vec<usize>,
    flows: Vec<FixedLengthFlow>,
    output_port: Port,
    /// For each packet the port admitted: the flow it came from and its
    /// arrival time.
    served: Vec<(usize, usize)>,
}

impl View for WRRScheduler {
    type V = WrrState;

    closed spec fn view(&self) -> WrrState {
        WrrState {
            link: link_of(self.timer, self.flows@, self.output_port@, self.served@),
            weights: Seq::new(self.weights@.len(), |i: int| self.weights@[i] as nat),
            quotas: Seq::new(self.current_weight@.len(), |i: int| self.current_weight@[i] as nat),
        }
    }
}

impl WRRScheduler {
    /// The parts agree with each other, every flow is in order, and no
    /// counter can overflow before the tick ceiling.
    pub closed spec fn wf(&self) -> bool {
        &&& self.flows.len() == self.weights.len()
        &&& self.flows.len() == self.current_weight.len()
        &&& forall|i: int| 0 <= i < self.flows.len() ==> (#[trigger] self.flows[i]).wf()
        &&& self.served.len() == self.output_port@.history.len()
        &&& self@.wf()
        &&& self@.fits()
    }

    /// The port this scheduler feeds.
    pub closed spec fn port(&self) -> Port {
        self.output_port
    }

    /// A well-formed scheduler stands for a well-formed state within the
    /// machine's limits, and its port holds what the log says.
    pub proof fn lemma_wf(&self)
        requires
            self.wf(),
        ensures
            self@.wf(),
            self@.fits(),
            self.port()@ == self@.link.port(self.port()@.id),
    {
        assert(self.output_port@.history =~= self@.link.history());
    }

    pub fn new(bandwidth: usize) -> (scheduler: WRRScheduler)
        ensures
            scheduler.wf(),
            scheduler@ == WrrState::fresh(bandwidth as nat),
    {
        let scheduler = WRRScheduler {
            timer: 0,
            weights: Vec::new(),
            current_weight: Vec::new(),
            flows: Vec::new(),
            output_port: Port::new(0, bandwidth),
            served: Vec::new(),
        };
        proof {
            let fresh = WrrState::fresh(bandwidth as nat);
            assert(scheduler@.link.flows =~= fresh.link.flows);
            assert(scheduler@.link.log =~= fresh.link.log);
            assert(scheduler@.weights =~= fresh.weights);
            assert(scheduler@.quotas =~= fresh.quotas);
        }
        scheduler
    }

    /// Registers `flow`, which may send `weight` packets in each round.
    /// The total backlog must fit the port's load counter.
    pub fn add_flow(&mut self, flow: FixedLengthFlow, weight: usize)
        requires
            old(self).wf(),
            flow.wf(),
            old(self)@.link.backlog() + old(self)@.link.load + backlog(flow.queue()) <= usize::MAX,
        ensures
            final(self).wf(),
            final(self)@ == old(self)@.register(flow.queue(), weight as nat),
    {
        let ghost queue = flow.queue();
        self.flows.push(flow);
        self.weights.push(weight);
        self.current_weight.push(weight);
        proof {
            let before = old(self)@;
            let after = before.register(queue, weight as nat);
            assert(self@.link.flows =~= after.link.flows);
            assert(self@.link.log =~= after.link.log);
            assert(self@.weights =~= after.weights);
            assert(self@.quotas =~= after.quotas);
            assert(self@ == after);
            lemma_register(before.link, queue);
        }
    }

    pub fn run(&mut self)
        requires
            old(self).wf(),
            old(self)@.settles(),
        ensures
            final(self).wf(),
            final(self)@ == old(self)@.outcome(),
            final(self)@.link.drained(),
            final(self)@.link.idle(),
            final(self)@.link.flows.len() == old(self)@.link.flows.len(),
            forall|i: int|
                0 <= i < old(self)@.link.flows.len() ==> departed(final(self)@.link.log, i) == old(
                    self,
                )@.link.ledger(i),
    {
        let ghost start = self@;
        loop
            invariant_except_break
                self.wf(),
                self@.after(self@.allowance()) == start.after(start.allowance()),
                self@.link.flows.len() == start.link.flows.len(),
                forall|i: int|
                    0 <= i < start.link.flows.len() ==> self@.link.ledger(i) == start.link.ledger(i),
                start.settles(),
            ensures
                self.wf(),
                self@ == start.after(start.allowance()),
                self@.link.drained(),
                self@.link.flows.len() == start.link.flows.len(),
                forall|i: int|
                    0 <= i < start.link.flows.len() ==> self@.link.ledger(i) == start.link.ledger(i),
            decreases TICK_CEILING - self.timer,
        {
            let ghost before = self@;
            proof {
                lemma_tick_conserves(before);
                if before.link.drained() {
                    lemma_after_drained(before, before.allowance());
                }
            }
            let more = self.tick();
            if !more {
                break;
            }
        }
        self.output_port.proceed_rest();
        proof {
            let settled = start.after(start.allowance());
            let done = self@;
            assert(done.link.log =~= settled.link.log);
            assert(done == settled.flush());
            assert forall|j: int| 0 <= j < done.link.flows.len() implies ordered(
                #[trigger] done.link.ledger(j),
            ) by {
                assert(done.link.ledger(j) == settled.link.ledger(j));
                assert(ordered(settled.link.ledger(j)));
            }
            assert forall|i: int| 0 <= i < start.link.flows.len() implies departed(done.link.log, i)
                == start.link.ledger(i) by {
                assert(settled.link.ledger(i) == start.link.ledger(i));
                assert(settled.link.ledger(i) =~= departed(settled.link.log, i));
            }
        }
    }

    /// The port, to read what departed from it. Whoever changes the port
    /// through this reference takes the scheduler's bookkeeping out of step.
    pub fn get_output_port(&mut self) -> (port: &mut Port)
        ensures
            *port == old(self).port(),
            final(self).port() == *final(port),
            *final(port) == *port ==> *final(self) == *old(self),
    {
        &mut self.output_port
    }

    /// Ticks elapsed.
    pub fn timer(&self) -> (ticks: usize)
        ensures
            ticks == self@.link.timer,
    {
        self.timer
    }

    /// For each packet the port admitted, in admission order: the index of
    /// the flow it came from and its arrival time.
    pub fn departures(&self) -> (served: &Vec<(usize, usize)>)
        requires
            self.wf(),
        ensures
            served@.len() == self@.link.log.len(),
            forall|k: int|
                0 <= k < served@.len() ==> (#[trigger] served@[k]).0 == self@.link.log[k].flow
                    && served@[k].1 == self@.link.log[k].arrival,
    {
        &self.served
    }

    /// One tick of simulated time. Returns whether the run goes on.
    pub fn tick(&mut self) -> (more: bool)
        requires
            old(self).wf(),
            old(self)@.link.drained() || old(self)@.link.timer < TICK_CEILING,
        ensures
            final(self).wf(),
            more == !old(self)@.link.drained(),
            final(self)@ == old(self)@.tick(),
    {
        let ghost before = self@;
        if all_empty(&self.flows) {
            assert(before.link.drained());
            return false;
        }
        assert(!before.link.drained()) by {
            let i = choose|i: int|
                0 <= i < self.flows.len() && (#[trigger] self.flows[i]).queue().len() != 0;
            assert(before.link.flows[i].len() != 0);
        }
        if self.schedule() {
            let n = self.weights.len();
            let mut i: usize = 0;
            while i < n
                invariant
                    i <= n,
                    n == self.weights.len(),
                    self.wf(),
                    self@.link == before.link,
                    self@.weights == before.weights,
                    forall|j: int| 0 <= j < i ==> self.current_weight[j] == self.weights[j],
                decreases n - i,
            {
                let ghost prior = self@;
                self.current_weight[i] = self.weights[i];
                proof {
                    assert(self@.link.flows =~= prior.link.flows);
                    assert(self@.link.log =~= prior.link.log);
                    assert(self@.weights =~= prior.weights);
                }
                i = i + 1;
            }
            proof {
                assert(self@.quotas =~= before.reset().quotas);
                assert(self@ == before.reset());
            }
        }
        let ghost decided = self@;
        proof {
            lemma_decide(before);
            lemma_advance(decided);
        }
        self.timer += 1;
        self.output_port.tick();
        proof {
            assert(self@.link.flows =~= decided.advance().link.flows);
            assert(self@.link.log =~= decided.advance().link.log);
            assert(self@.weights =~= decided.weights);
            assert(self@.quotas =~= decided.quotas);
            assert(self@ == decided.advance());
        }
        true
    }

    /// The decision of one tick: the first flow in registration order that
    /// has quota left and a head packet that has arrived sends that packet.
    /// Returns whether no flow could send, so that a new round is due.
    pub fn schedule(&mut self) -> (exhausted: bool)
        requires
            old(self).wf(),
        ensures
            final(self).wf(),
            exhausted == (old(self)@.first_ready(0) >= old(self)@.link.flows.len()),
            final(self)@ == if exhausted {
                old(self)@
            } else {
                old(self)@.grant(old(self)@.first_ready(0))
            },
    {
        let ghost before = self@;
        let n = self.flows.len();
        let mut i: usize = 0;
        while i < n
            invariant
                i <= n,
                n == self.flows.len(),
                *self == *old(self),
                self.wf(),
                before == self@,
                before.first_ready(i as int) == before.first_ready(0),
            decreases n - i,
        {
            if self.current_weight[i] > 0 {
                if let Some(packet) = self.flows[i].peek_packet(self.timer) {
                    proof {
                        assert(before.ready(i as int));
                        lemma_head_within_backlog(before.link.flows, i as int);
                        lemma_serve(before.link, i as int);
                    }
                    let arrival = self.flows[i].packet_states[0].1;
                    let quota = self.current_weight[i];
                    self.current_weight[i] = quota - 1;
                    self.flows[i].pop_packet();
                    self.output_port.submit(packet);
                    self.served.push((i, arrival));
                    proof {
                        let after = before.grant(i as int);
                        assert(self@.link.flows =~= after.link.flows);
                        assert(self@.link.log =~= after.link.log);
                        assert(self@.weights =~= after.weights);
                        assert(self@.quotas =~= after.quotas);
                        assert(self@ == after);
                    }
                    return false;
                }
            }
            assert(!before.ready(i as int));
            i = i + 1;
        }
        true
    }
}

} // verus!
