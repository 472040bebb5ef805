//! Deficit Round Robin.

use crate::scheduling::flow::{backlog, ordered, Flow, VariableLengthFlow};
use crate::scheduling::link::{
    all_empty, departed, lemma_head_within_backlog, lemma_register, lemma_serve, link_of, Link,
    TICK_CEILING,
};
use crate::scheduling::{Packet, Port};
use vstd::prelude::*;

verus! {

/// A deficit round robin scheduler at one instant: the link, and for each
/// flow its quantum and the credit it has saved up.
pub struct DrrState {
    pub link: Link,
    pub weights: Seq<nat>,
    pub deficits: Seq<nat>,
}

impl DrrState {
    /// A scheduler without flows, at tick zero.
    pub open spec fn fresh(capacity: nat) -> DrrState {
        DrrState {
            link: Link {
                timer: 0,
                flows: Seq::empty(),
                capacity,
                load: 0,
                log: Seq::empty(),
            },
            weights: Seq::empty(),
            deficits: Seq::empty(),
        }
    }

    /// The link is well-formed and every flow has a weight and a deficit counter.
    pub open spec fn wf(self) -> bool {
        &&& self.link.wf()
        &&& self.weights.len() == self.link.flows.len()
        &&& self.deficits.len() == self.link.flows.len()
    }

    /// Every deficit counter can still be replenished `ticks` times.
    pub open spec fn slack(self, ticks: nat) -> bool {
        forall|i: int|
            0 <= i < self.deficits.len() ==> (#[trigger] self.deficits[i]) + self.weights[i] * ticks
                <= usize::MAX
    }

    /// No counter of the machine can overflow before the tick ceiling.
    pub open spec fn fits(self) -> bool {
        &&& self.link.timer <= TICK_CEILING
        &&& self.link.backlog() + self.link.load <= usize::MAX
        &&& self.slack((TICK_CEILING - self.link.timer) as nat)
    }

    /// One more flow, with its deficit counter at its weight.
    pub open spec fn register(self, queue: Seq<(Packet, usize)>, weight: nat) -> DrrState {
        DrrState {
            link: self.link.register(queue),
            weights: self.weights.push(weight),
            deficits: self.deficits.push(weight),
        }
    }

    /// Flow `i` has an arrived head packet and the credit to send it.
    pub open spec fn claims(self, i: int) -> bool {
        self.link.eligible(i) && self.deficits[i] >= self.link.flows[i][0].0.len
    }

    /// The deficit of flow `i` after its turn in a round: spent on the head
    /// packet if it is sent, kept if the head must wait for more credit,
    /// forfeited if nothing has arrived.
    pub open spec fn settled(self, i: int) -> nat {
        if !self.link.eligible(i) {
            0
        } else if self.claims(i) {
            (self.deficits[i] - self.link.flows[i][0].0.len) as nat
        } else {
            self.deficits[i]
        }
    }

    /// The turn of flow `i` in a round.
    pub open spec fn visit(self, i: int) -> DrrState {
        DrrState {
            link: if self.claims(i) {
                self.link.serve(i)
            } else {
                self.link
            },
            weights: self.weights,
            deficits: self.deficits.update(i, self.settled(i)),
        }
    }

    /// The turns of the flows `from`, `from + 1`, ... up to but not
    /// including `to`, in that order.
    pub open spec fn sweep(self, from: int, to: int) -> DrrState
        decreases to - from,
    {
        if from < to {
            self.visit(from).sweep(from + 1, to)
        } else {
            self
        }
    }

    /// Every deficit counter grows by the weight of its flow.
    pub open spec fn replenish(self) -> DrrState {
        DrrState {
            link: self.link,
            weights: self.weights,
            deficits: Seq::new(self.deficits.len(), |i: int| self.deficits[i] + self.weights[i]),
        }
    }

    /// One scheduling round: each flow has its turn, in registration order,
    /// and then all counters are replenished.
    pub open spec fn round(self) -> DrrState {
        self.sweep(0, self.link.flows.len() as int).replenish()
    }

    /// The clock and the port move on by one tick.
    pub open spec fn advance(self) -> DrrState {
        DrrState { link: self.link.advance(), weights: self.weights, deficits: self.deficits }
    }

    /// One tick. Nothing happens once all flows are drained. Otherwise time
    /// passes, and if that leaves the port idle a round is run.
    pub open spec fn tick(self) -> DrrState {
        if self.link.drained() {
            self
        } else if !self.advance().link.idle() {
            self.advance()
        } else {
            self.advance().round()
        }
    }

    /// The state `ticks` ticks later.
    pub open spec fn after(self, ticks: nat) -> DrrState
        decreases ticks,
    {
        if ticks == 0 {
            self
        } else {
            self.tick().after((ticks - 1) as nat)
        }
    }

    /// The ticks left before the ceiling.
    pub open spec fn allowance(self) -> nat {
        (TICK_CEILING - self.link.timer) as nat
    }

    /// All flows are drained by the time the clock reaches the ceiling.
    pub open spec fn settles(self) -> bool {
        self.after(self.allowance()).link.drained()
    }

    /// The port's remaining work is flushed.
    pub open spec fn flush(self) -> DrrState {
        DrrState { link: self.link.flush(), weights: self.weights, deficits: self.deficits }
    }

    /// Where a run ends: the state once all flows are drained, with the port flushed.
    pub open spec fn outcome(self) -> DrrState {
        self.after(self.allowance()).flush()
    }
}

/// A product grows with its second factor.
pub proof fn lemma_mul_step(w: nat, k: nat)
    ensures
        w * (k + 1) == w * k + w,
        w * k <= w * (k + 1),
{
    assert(w * (k + 1) == w * k + w) by (nonlinear_arith);
}

/// Slack for more replenishments is slack for fewer.
pub proof fn lemma_slack_spare(state: DrrState, ticks: nat)
    requires
        state.wf(),
        state.slack(ticks + 1),
    ensures
        state.slack(ticks),
        forall|i: int|
            0 <= i < state.deficits.len() ==> (#[trigger] state.deficits[i]) + state.weights[i]
                <= usize::MAX,
{
    assert forall|i: int| 0 <= i < state.deficits.len() implies (#[trigger] state.deficits[i])
        + state.weights[i] * ticks <= usize::MAX && state.deficits[i] + state.weights[i]
        <= usize::MAX by {
        lemma_mul_step(state.weights[i], ticks);
        assert(state.weights[i] * ticks >= 0) by (nonlinear_arith);
    }
}

/// What one turn does: it touches only flow `i`, keeps the state
/// well-formed and every ledger as it was, moves work from the backlog to
/// the port, and never adds credit.
pub proof fn lemma_visit(state: DrrState, i: int)
    requires
        state.wf(),
        0 <= i < state.link.flows.len(),
    ensures
        state.visit(i).wf(),
        state.visit(i).weights == state.weights,
        state.visit(i).link.flows.len() == state.link.flows.len(),
        state.visit(i).link.timer == state.link.timer,
        state.visit(i).link.capacity == state.link.capacity,
        state.visit(i).link.backlog() + state.visit(i).link.load == state.link.backlog()
            + state.link.load,
        state.visit(i).link.load >= state.link.load,
        forall|j: int|
            0 <= j < state.link.flows.len() ==> state.visit(i).link.ledger(j) == state.link.ledger(
                j,
            ),
        forall|j: int|
            0 <= j < state.link.flows.len() && j != i ==> state.visit(i).link.flows[j]
                == state.link.flows[j] && state.visit(i).deficits[j] == state.deficits[j],
        state.visit(i).deficits[i] == state.settled(i),
        state.visit(i).deficits[i] <= state.deficits[i],
        state.visit(i).link.flows[i] == if state.claims(i) {
            state.link.flows[i].drop_first()
        } else {
            state.link.flows[i]
        },
{
    if state.claims(i) {
        lemma_serve(state.link, i);
    }
}

/// What a run of turns does. Each flow in the range is visited once: it
/// sends its head packet exactly if it had a claim when the sweep began, and
/// its deficit is settled accordingly. Flows outside the range are left
/// alone. Ledgers, weights, clock and capacity do not change.
pub proof fn lemma_sweep(state: DrrState, from: int, to: int)
    requires
        state.wf(),
        0 <= from <= to <= state.link.flows.len(),
    ensures
        state.sweep(from, to).wf(),
        state.sweep(from, to).weights == state.weights,
        state.sweep(from, to).link.flows.len() == state.link.flows.len(),
        state.sweep(from, to).link.timer == state.link.timer,
        state.sweep(from, to).link.capacity == state.link.capacity,
        state.sweep(from, to).link.backlog() + state.sweep(from, to).link.load
            == state.link.backlog() + state.link.load,
        state.sweep(from, to).link.load >= state.link.load,
        forall|j: int|
            0 <= j < state.link.flows.len() ==> state.sweep(from, to).link.ledger(j)
                == state.link.ledger(j),
        forall|j: int|
            0 <= j < state.link.flows.len() ==> (#[trigger] state.sweep(from, to).deficits[j]) == if from
                <= j < to {
                state.settled(j)
            } else {
                state.deficits[j]
            },
        forall|j: int|
            0 <= j < state.link.flows.len() ==> (#[trigger] state.sweep(from, to).link.flows[j]) == if from
                <= j < to && state.claims(j) {
                state.link.flows[j].drop_first()
            } else {
                state.link.flows[j]
            },
    decreases to - from,
{
    if from < to {
        let next = state.visit(from);
        lemma_visit(state, from);
        lemma_sweep(next, from + 1, to);
        let last = next.sweep(from + 1, to);
        assert(last == state.sweep(from, to));
        assert forall|j: int| 0 <= j < state.link.flows.len() implies last.link.ledger(j)
            == state.link.ledger(j) by {
            assert(next.link.ledger(j) == state.link.ledger(j));
        }
        assert forall|j: int| 0 <= j < state.link.flows.len() implies (#[trigger] last.deficits[j])
            == if from <= j < to {
            state.settled(j)
        } else {
            state.deficits[j]
        } by {
            if j > from {
                assert(next.link.flows[j] == state.link.flows[j]);
                assert(next.deficits[j] == state.deficits[j]);
            }
        }
        assert forall|j: int| 0 <= j < state.link.flows.len() implies (#[trigger] last.link.flows[j])
            == if from <= j < to && state.claims(j) {
            state.link.flows[j].drop_first()
        } else {
            state.link.flows[j]
        } by {
            if j > from {
                assert(next.link.flows[j] == state.link.flows[j]);
                assert(next.deficits[j] == state.deficits[j]);
            }
        }
    }
}

/// The passing of time keeps the state well-formed and changes no ledger.
pub proof fn lemma_advance(state: DrrState)
    requires
        state.wf(),
    ensures
        state.advance().wf(),
        forall|j: int|
            0 <= j < state.link.flows.len() ==> state.advance().link.ledger(j)
                == state.link.ledger(j),
{
    let moved = state.advance();
    assert forall|j: int| 0 <= j < moved.link.flows.len() implies ordered(
        #[trigger] moved.link.ledger(j),
    ) by {
        assert(moved.link.ledger(j) == state.link.ledger(j));
        assert(ordered(state.link.ledger(j)));
    }
}

/// A tick keeps the state well-formed, moves the clock by one unless all
/// flows are drained, and changes no ledger.
pub proof fn lemma_tick_conserves(state: DrrState)
    requires
        state.wf(),
    ensures
        state.tick().wf(),
        state.tick().weights == state.weights,
        state.tick().link.flows.len() == state.link.flows.len(),
        state.tick().link.capacity == state.link.capacity,
        state.tick().link.timer == if state.link.drained() {
            state.link.timer
        } else {
            state.link.timer + 1
        },
        forall|j: int|
            0 <= j < state.link.flows.len() ==> state.tick().link.ledger(j) == state.link.ledger(j),
{
    if !state.link.drained() {
        let moved = state.advance();
        lemma_advance(state);
        if moved.link.idle() {
            let n = state.link.flows.len() as int;
            let swept = moved.sweep(0, n);
            lemma_sweep(moved, 0, n);
            let next = swept.replenish();
            assert forall|j: int| 0 <= j < next.link.flows.len() implies ordered(
                #[trigger] next.link.ledger(j),
            ) by {
                assert(swept.link.ledger(j) == moved.link.ledger(j));
                assert(ordered(swept.link.ledger(j)));
            }
            assert forall|j: int| 0 <= j < state.link.flows.len() implies next.link.ledger(j)
                == state.link.ledger(j) by {
                assert(swept.link.ledger(j) == moved.link.ledger(j));
            }
        }
    }
}

/// A tick below the ceiling keeps the state within the machine's limits.
pub proof fn lemma_tick(state: DrrState)
    requires
        state.wf(),
        state.fits(),
        state.link.drained() || state.link.timer < TICK_CEILING,
    ensures
        state.tick().wf(),
        state.tick().fits(),
        state.tick().weights == state.weights,
        state.tick().link.flows.len() == state.link.flows.len(),
        state.tick().link.capacity == state.link.capacity,
        state.tick().link.timer == if state.link.drained() {
            state.link.timer
        } else {
            state.link.timer + 1
        },
        forall|j: int|
            0 <= j < state.link.flows.len() ==> state.tick().link.ledger(j) == state.link.ledger(j),
{
    lemma_tick_conserves(state);
    if !state.link.drained() {
        let moved = state.advance();
        let spare = (TICK_CEILING - state.link.timer - 1) as nat;
        lemma_slack_spare(state, spare);
        lemma_advance(state);
        assert(moved.fits());
        if moved.link.idle() {
            let n = state.link.flows.len() as int;
            let swept = moved.sweep(0, n);
            lemma_sweep(moved, 0, n);
            let next = swept.replenish();
            assert(next == state.tick());
            assert forall|i: int| 0 <= i < next.deficits.len() implies (#[trigger] next.deficits[i])
                + next.weights[i] * spare <= usize::MAX by {
                lemma_mul_step(state.weights[i], spare);
                assert(swept.deficits[i] == moved.settled(i));
                assert(moved.settled(i) <= state.deficits[i]);
                assert(state.deficits[i] + state.weights[i] * (spare + 1) <= usize::MAX);
            }
        }
    }
}

/// Once all flows are drained, further ticks change nothing.
pub proof fn lemma_after_drained(state: DrrState, ticks: nat)
    requires
        state.link.drained(),
    ensures
        state.after(ticks) == state,
    decreases ticks,
{
    if ticks > 0 {
        lemma_after_drained(state, (ticks - 1) as nat);
    }
}

/// Deficit Round Robin (DRR) scheduler.
#[derive(Debug)]
pub struct DRRScheduler {
    timer: usize,
    flows: Vec<VariableLengthFlow>,
    weights: Vec<usize>,
    deficit_counters: Vec<usize>,
    output_port: Port,
    /// For each packet the port admitted: the flow it came from and its
    /// arrival time.
    served: Vec<(usize, usize)>,
}

impl View for DRRScheduler {
    type V = DrrState;

    closed spec fn view(&self) -> DrrState {
        DrrState {
            link: link_of(self.timer, self.flows@, self.output_port@, self.served@),
            weights: Seq::new(self.weights@.len(), |i: int| self.weights@[i] as nat),
            deficits: Seq::new(
                self.deficit_counters@.len(),
                |i: int| self.deficit_counters@[i] as nat,
            ),
        }
    }
}

impl DRRScheduler {
    /// The parts agree with each other, every flow is in order, and no
    /// counter can overflow before the tick ceiling.
    pub closed spec fn wf(&self) -> bool {
        &&& self.flows.len() == self.weights.len()
        &&& self.flows.len() == self.deficit_counters.len()
        &&& forall|i: int| 0 <= i < self.flows.len() ==> (#[trigger] self.flows[i]).wf()
        &&& self.served.len() == self.output_port@.history.len()
        &&& self@.wf()
        &&& self@.fits()
    }

    /// The port this scheduler feeds.
    pub closed spec fn port(&self) -> Port {
        self.output_port
    }

    /// A well-formed scheduler stands for a well-formed state within the
    /// machine's limits, and its port holds what the log says.
    pub proof fn lemma_wf(&self)
        requires
            self.wf(),
        ensures
            self@.wf(),
            self@.fits(),
            self.port()@ == self@.link.port(self.port()@.id),
    {
        assert(self.output_port@.history =~= self@.link.history());
    }

    pub fn new(capacity: usize) -> (scheduler: DRRScheduler)
        ensures
            scheduler.wf(),
            scheduler@ == DrrState::fresh(capacity as nat),
    {
        let scheduler = DRRScheduler {
            timer: 0,
            flows: Vec::new(),
            weights: Vec::new(),
            deficit_counters: Vec::new(),
            output_port: Port::new(0, capacity),
            served: Vec::new(),
        };
        proof {
            let fresh = DrrState::fresh(capacity as nat);
            assert(scheduler@.link.flows =~= fresh.link.flows);
            assert(scheduler@.link.log =~= fresh.link.log);
            assert(scheduler@.weights =~= fresh.weights);
            assert(scheduler@.deficits =~= fresh.deficits);
        }
        scheduler
    }

    /// Registers `flow` with quantum `weight`. The weight must leave room
    /// for a replenishment at every tick up to the ceiling, and the total
    /// backlog must fit the port's load counter.
    pub fn add_flow(&mut self, flow: VariableLengthFlow, weight: usize)
        requires
            old(self).wf(),
            flow.wf(),
            weight * (TICK_CEILING + 1) <= usize::MAX,
            old(self)@.link.backlog() + old(self)@.link.load + backlog(flow.queue()) <= usize::MAX,
        ensures
            final(self).wf(),
            final(self)@ == old(self)@.register(flow.queue(), weight as nat),
    {
        let ghost queue = flow.queue();
        self.flows.push(flow);
        self.weights.push(weight);
        self.deficit_counters.push(weight);
        proof {
            let before = old(self)@;
            let after = before.register(queue, weight as nat);
            assert(self@.link.flows =~= after.link.flows);
            assert(self@.link.log =~= after.link.log);
            assert(self@.weights =~= after.weights);
            assert(self@.deficits =~= after.deficits);
            assert(self@ == after);
            lemma_register(before.link, queue);
            let spare = before.allowance();
            assert forall|i: int| 0 <= i < after.deficits.len() implies (#[trigger] after.deficits[i])
                + after.weights[i] * spare <= usize::MAX by {
                if i < before.deficits.len() {
                    assert(after.deficits[i] == before.deficits[i]);
                    assert(after.weights[i] == before.weights[i]);
                } else {
                    let w = weight as nat;
                    assert(w + w * spare <= w * (TICK_CEILING + 1)) by (nonlinear_arith)
                        requires
                            spare <= TICK_CEILING,
                    ;
                }
            }
        }
    }

    pub fn run(&mut self)
        requires
            old(self).wf(),
            old(self)@.settles(),
        ensures
            final(self).wf(),
            final(self)@ == old(self)@.outcome(),
            final(self)@.link.drained(),
            final(self)@.link.idle(),
            final(self)@.link.flows.len() == old(self)@.link.flows.len(),
            forall|i: int|
                0 <= i < old(self)@.link.flows.len() ==> departed(final(self)@.link.log, i) == old(
                    self,
                )@.link.ledger(i),
    {
        let ghost start = self@;
        loop
            invariant_except_break
                self.wf(),
                self@.after(self@.allowance()) == start.after(start.allowance()),
                self@.link.flows.len() == start.link.flows.len(),
                forall|i: int|
                    0 <= i < start.link.flows.len() ==> self@.link.ledger(i) == start.link.ledger(i),
                start.settles(),
            ensures
                self.wf(),
                self@ == start.after(start.allowance()),
                self@.link.drained(),
                self@.link.flows.len() == start.link.flows.len(),
                forall|i: int|
                    0 <= i < start.link.flows.len() ==> self@.link.ledger(i) == start.link.ledger(i),
            decreases TICK_CEILING - self.timer,
        {
            let ghost before = self@;
            proof {
                lemma_tick(before);
                if before.link.drained() {
                    lemma_after_drained(before, before.allowance());
                }
            }
            let more = self.tick();
            if !more {
                break;
            }
        }
        self.output_port.proceed_rest();
        proof {
            let settled = start.after(start.allowance());
            let done = self@;
            assert(done.link.log =~= settled.link.log);
            assert(done == settled.flush());
            assert forall|j: int| 0 <= j < done.link.flows.len() implies ordered(
                #[trigger] done.link.ledger(j),
            ) by {
                assert(done.link.ledger(j) == settled.link.ledger(j));
                assert(ordered(settled.link.ledger(j)));
            }
            assert forall|i: int| 0 <= i < start.link.flows.len() implies departed(done.link.log, i)
                == start.link.ledger(i) by {
                assert(settled.link.ledger(i) == start.link.ledger(i));
                assert(settled.link.ledger(i) =~= departed(settled.link.log, i));
            }
        }
    }

    /// The port, to read what departed from it. Whoever changes the port
    /// through this reference takes the scheduler's bookkeeping out of step.
    pub fn get_output_port(&mut self) -> (port: &mut Port)
        ensures
            *port == old(self).port(),
            final(self).port() == *final(port),
            *final(port) == *port ==> *final(self) == *old(self),
    {
        &mut self.output_port
    }

    /// Ticks elapsed.
    pub fn timer(&self) -> (ticks: usize)
        ensures
            ticks == self@.link.timer,
    {
        self.timer
    }

    /// For each packet the port admitted, in admission order: the index of
    /// the flow it came from and its arrival time.
    pub fn departures(&self) -> (served: &Vec<(usize, usize)>)
        requires
            self.wf(),
        ensures
            served@.len() == self@.link.log.len(),
            forall|k: int|
                0 <= k < served@.len() ==> (#[trigger] served@[k]).0 == self@.link.log[k].flow
                    && served@[k].1 == self@.link.log[k].arrival,
    {
        &self.served
    }

    /// One tick of simulated time. Returns whether the run goes on.
    pub fn tick(&mut self) -> (more: bool)
        requires
            old(self).wf(),
            old(self)@.link.drained() || old(self)@.link.timer < TICK_CEILING,
        ensures
            final(self).wf(),
            more == !old(self)@.link.drained(),
            final(self)@ == old(self)@.tick(),
    {
        let ghost before = self@;
        if all_empty(&self.flows) {
            assert(before.link.drained());
            return false;
        }
        assert(!before.link.drained()) by {
            let i = choose|i: int| 0 <= i < self.flows.len() && (#[trigger] self.flows[i]).queue().len() != 0;
            assert(before.link.flows[i].len() != 0);
        }
        self.timer += 1;
        self.output_port.tick();
        proof {
            lemma_tick(before);
            assert(self@.link.flows =~= before.advance().link.flows);
            assert(self@.link.log =~= before.advance().link.log);
            assert(self@ == before.advance());
            let spare = (TICK_CEILING - before.link.timer - 1) as nat;
            lemma_slack_spare(before, spare);
            assert forall|j: int| 0 <= j < self@.link.flows.len() implies ordered(
                #[trigger] self@.link.ledger(j),
            ) by {
                assert(self@.link.ledger(j) == before.link.ledger(j));
                assert(ordered(before.link.ledger(j)));
            }
        }
        if !self.output_port.empty() {
            return true;
        }
        if self.schedule() {
            let ghost swept = self@;
            let ghost mid = *self;
            proof {
                lemma_sweep(before.advance(), 0, self.flows.len() as int);
                assert forall|j: int| 0 <= j < swept.deficits.len() implies (#[trigger] swept.deficits[j])
                    + swept.weights[j] <= usize::MAX by {
                    assert(swept.deficits[j] == before.advance().settled(j));
                    assert(before.deficits[j] + before.weights[j] <= usize::MAX);
                }
                assert forall|j: int| 0 <= j < mid.deficit_counters.len() implies mid.deficit_counters[j]
                    + mid.weights[j] <= usize::MAX by {
                    assert(swept.deficits[j] + swept.weights[j] <= usize::MAX);
                }
            }
            let n = self.flows.len();
            let mut i: usize = 0;
            while i < n
                invariant
                    i <= n,
                    n == mid.deficit_counters.len(),
                    n == mid.weights.len(),
                    self.timer == mid.timer,
                    self.flows == mid.flows,
                    self.weights == mid.weights,
                    self.output_port == mid.output_port,
                    self.served == mid.served,
                    self.deficit_counters.len() == n,
                    forall|j: int|
                        0 <= j < n ==> mid.deficit_counters[j] + mid.weights[j] <= usize::MAX,
                    forall|j: int|
                        0 <= j < i ==> self.deficit_counters[j] == mid.deficit_counters[j]
                            + mid.weights[j],
                    forall|j: int|
                        i <= j < n ==> self.deficit_counters[j] == mid.deficit_counters[j],
                decreases n - i,
            {
                let credit = self.deficit_counters[i];
                self.deficit_counters[i] = credit + self.weights[i];
                i = i + 1;
            }
            proof {
                assert(self@.deficits =~= swept.replenish().deficits);
                assert(self@.weights =~= swept.weights);
                assert(self@ == swept.replenish());
            }
        }
        true
    }

    /// One round, if the port is idle: every flow in turn sends its head
    /// packet if that has arrived and the flow's deficit covers it, and
    /// forfeits its deficit if nothing has arrived. Returns whether the
    /// round was run.
    pub fn schedule(&mut self) -> (ran: bool)
        requires
            old(self).wf(),
        ensures
            final(self).wf(),
            ran == old(self)@.link.idle(),
            final(self)@ == if ran {
                old(self)@.sweep(0, old(self)@.link.flows.len() as int)
            } else {
                old(self)@
            },
    {
        if !self.output_port.empty() {
            return false;
        }
        let n = self.flows.len();
        let mut i: usize = 0;
        while i < n
            invariant
                i <= n,
                n == self.flows.len(),
                n == old(self)@.link.flows.len(),
                self.wf(),
                self@.sweep(i as int, n as int) == old(self)@.sweep(0, n as int),
            decreases n - i,
        {
            let ghost before = self@;
            proof {
                lemma_visit(before, i as int);
            }
            match self.flows[i].peek_packet(self.timer) {
                Some(packet) => {
                    let credit = self.deficit_counters[i];
                    if credit >= packet.len {
                        proof {
                            lemma_head_within_backlog(before.link.flows, i as int);
                        }
                        let arrival = self.flows[i].packet_states[0].1;
                        self.deficit_counters[i] = credit - packet.len;
                        self.output_port.submit(packet);
                        self.flows[i].pop_packet();
                        self.served.push((i, arrival));
                    }
                },
                None => {
                    self.deficit_counters[i] = 0;
                },
            }
            proof {
                let after = before.visit(i as int);
                assert(self@.link.flows =~= after.link.flows);
                assert(self@.link.log =~= after.link.log);
                assert(self@.weights =~= after.weights);
                assert(self@.deficits =~= after.deficits);
                assert(self@ == after);
                let spare = before.allowance();
                assert forall|j: int| 0 <= j < after.deficits.len() implies (#[trigger] after.deficits[j])
                    + after.weights[j] * spare <= usize::MAX by {
                    assert(after.deficits[j] <= before.deficits[j]);
                    assert(before.deficits[j] + before.weights[j] * spare <= usize::MAX);
                }
            }
            i = i + 1;
        }
        true
    }
}

} // verus!
