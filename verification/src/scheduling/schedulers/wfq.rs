//! Weighted Fair Queueing.

use crate::scheduling::flow::{backlog, ordered, Flow, VariableLengthFlow};
use crate::scheduling::link::{
    all_empty, departed, lemma_head_within_backlog, lemma_register, lemma_serve, link_of, Link,
    TICK_CEILING,
};
use crate::scheduling::{Packet, Port};
use rand::rngs::StdRng;
use rand::{Rng, SeedableRng};
use vstd::prelude::*;

verus! {

/// The seed of a scheduler that is built without one.
pub const DEFAULT_SEED: u64 = 0;

/// `rand::rngs::StdRng`, the generator that breaks ties. The proofs see
/// nothing inside it.
#[verifier::external_type_specification]
#[verifier::external_body]
pub struct ExStdRng(rand::rngs::StdRng);

/// Calls `rand::SeedableRng::seed_from_u64` for `StdRng`, which makes a
/// generator whose stream of values is fixed by `seed`. Nothing is claimed
/// of the generator that comes back.
#[verifier::external_body]
fn seeded(seed: u64) -> StdRng {
    StdRng::seed_from_u64(seed)
}

/// Calls `rand::Rng::gen` at type `bool`, which draws the next coin flip
/// from the generator. Nothing is claimed of the flip: the proofs hold
/// whichever way it falls.
#[verifier::external_body]
fn flip(generator: &mut StdRng) -> bool {
    generator.gen()
}

/// The finish-time estimate of a packet of length `len` in a flow that holds
/// `weight` of `total` is `len / (weight / total)`. This compares two such
/// estimates exactly, with the fractions cleared: the first is the smaller.
pub open spec fn sooner(len: nat, weight: nat, other_len: nat, other_weight: nat, total: nat) -> bool {
    len * total * other_weight < other_len * total * weight
}

/// The two estimates are equal.
pub open spec fn level(len: nat, weight: nat, other_len: nat, other_weight: nat, total: nat) -> bool {
    len * total * other_weight == other_len * total * weight
}

/// A weighted fair queueing scheduler at one instant: the link, the weight
/// of each flow, and the sum that the weights are shares of.
pub struct WfqState {
    pub link: Link,
    pub weights: Seq<nat>,
    pub total_weight: nat,
}

impl WfqState {
    /// A scheduler without flows, at tick zero.
    pub open spec fn fresh(capacity: nat) -> WfqState {
        WfqState {
            link: Link {
                timer: 0,
                flows: Seq::empty(),
                capacity,
                load: 0,
                log: Seq::empty(),
            },
            weights: Seq::empty(),
            total_weight: 0,
        }
    }

    /// The link is well-formed and every flow has a weight that is at least
    /// one and at most the total.
    pub open spec fn wf(self) -> bool {
        &&& self.link.wf()
        &&& self.weights.len() == self.link.flows.len()
        &&& forall|i: int|
            0 <= i < self.weights.len() ==> 1 <= (#[trigger] self.weights[i]) <= self.total_weight
    }

    /// No counter of the machine can overflow before the tick ceiling.
    pub open spec fn fits(self) -> bool {
        &&& self.link.timer <= TICK_CEILING
        &&& self.link.backlog() + self.link.load <= usize::MAX
        &&& self.total_weight <= usize::MAX
    }

    /// One more flow, whose weight adds to the total.
    pub open spec fn register(self, queue: Seq<(Packet, usize)>, weight: nat) -> WfqState {
        WfqState {
            link: self.link.register(queue),
            weights: self.weights.push(weight),
            total_weight: self.total_weight + weight,
        }
    }

    /// The length of the head packet of flow `i`.
    pub open spec fn head_len(self, i: int) -> nat {
        self.link.flows[i][0].0.len as nat
    }

    /// The head packet of flow `i` is estimated to finish before that of flow `j`.
    pub open spec fn before(self, i: int, j: int) -> bool {
        sooner(self.head_len(i), self.weights[i], self.head_len(j), self.weights[j], self.total_weight)
    }

    /// The head packets of the flows `i` and `j` are estimated to finish together.
    pub open spec fn tied(self, i: int, j: int) -> bool {
        level(self.head_len(i), self.weights[i], self.head_len(j), self.weights[j], self.total_weight)
    }

    /// The choice after flow `idx` was looked at, where `best` was the
    /// choice before. A flow whose head has not arrived changes nothing.
    /// Otherwise `idx` takes the place of `best` if there was none, if its
    /// estimate is the smaller, or if the two are tied and `flip` says so.
    pub open spec fn challenge(self, best: Option<int>, idx: int, flip: bool) -> Option<int> {
        if !self.link.eligible(idx) {
            best
        } else {
            match best {
                None => Some(idx),
                Some(b) => if self.before(idx, b) || (self.tied(idx, b) && flip) {
                    Some(idx)
                } else {
                    best
                },
            }
        }
    }

    /// The choice after the flows below `upto` were looked at in
    /// registration order, where `flips[i]` breaks a tie of flow `i` with
    /// the choice before it.
    pub open spec fn choice(self, flips: Seq<bool>, upto: int) -> Option<int>
        decreases upto,
    {
        if upto <= 0 {
            None
        } else {
            self.challenge(self.choice(flips, upto - 1), upto - 1, flips[upto - 1])
        }
    }

    /// The flow to serve, given one coin flip for each flow.
    pub open spec fn select(self, flips: Seq<bool>) -> Option<int> {
        self.choice(flips, self.link.flows.len() as int)
    }

    /// `pick` is a decision that weighted fair queueing allows: a flow whose
    /// head packet has arrived and that no other such flow is estimated to
    /// finish before; or no flow, where no head packet has arrived.
    pub open spec fn fair(self, pick: Option<int>) -> bool {
        match pick {
            None => forall|j: int| 0 <= j < self.link.flows.len() ==> !self.link.eligible(j),
            Some(i) => self.link.eligible(i) && forall|j: int|
                self.link.eligible(j) ==> !self.before(j, i),
        }
    }

    /// The picked flow, if any, sends its head packet.
    pub open spec fn decide(self, pick: Option<int>) -> WfqState {
        match pick {
            None => self,
            Some(i) => WfqState {
                link: self.link.serve(i),
                weights: self.weights,
                total_weight: self.total_weight,
            },
        }
    }

    /// The clock and the port move on by one tick.
    pub open spec fn advance(self) -> WfqState {
        WfqState {
            link: self.link.advance(),
            weights: self.weights,
            total_weight: self.total_weight,
        }
    }

    /// One tick with the decision `pick`: the decision is carried out, then
    /// time passes. The port is not asked whether it is busy.
    pub open spec fn step(self, pick: Option<int>) -> WfqState {
        self.decide(pick).advance()
    }

    /// The state after one tick for each of `picks`, in their order.
    pub open spec fn follow(self, picks: Seq<Option<int>>) -> WfqState
        decreases picks.len(),
    {
        if picks.len() == 0 {
            self
        } else {
            self.follow(picks.drop_last()).step(picks.last())
        }
    }

    /// `picks` is a run that weighted fair queueing allows: each decision is
    /// made while some flow still holds a packet, and is fair in the state
    /// in which it is made.
    pub open spec fn allows(self, picks: Seq<Option<int>>) -> bool
        decreases picks.len(),
    {
        picks.len() == 0 || (self.allows(picks.drop_last()) && !self.follow(
            picks.drop_last(),
        ).link.drained() && self.follow(picks.drop_last()).fair(picks.last()))
    }

    /// However the ties fall, all flows are drained after at most `ticks` ticks.
    pub open spec fn settles_within(self, ticks: nat) -> bool
        decreases ticks,
    {
        self.link.drained() || (ticks > 0 && forall|pick: Option<int>|
            self.fair(pick) ==> (#[trigger] self.step(pick)).settles_within((ticks - 1) as nat))
    }

    /// The ticks left before the ceiling.
    pub open spec fn allowance(self) -> nat {
        (TICK_CEILING - self.link.timer) as nat
    }

    /// However the ties fall, all flows are drained by the time the clock
    /// reaches the ceiling.
    pub open spec fn settles(self) -> bool {
        self.settles_within(self.allowance())
    }

    /// The port's remaining work is flushed.
    pub open spec fn flush(self) -> WfqState {
        WfqState { link: self.link.flush(), weights: self.weights, total_weight: self.total_weight }
    }
}

/// With a positive total, estimates compare as the products of each length
/// with the other weight do.
pub proof fn lemma_sooner_without_total(
    len: nat,
    weight: nat,
    other_len: nat,
    other_weight: nat,
    total: nat,
)
    requires
        total >= 1,
    ensures
        sooner(len, weight, other_len, other_weight, total) <==> len * other_weight < other_len
            * weight,
        level(len, weight, other_len, other_weight, total) <==> len * other_weight == other_len
            * weight,
{
    let left = len * other_weight;
    let right = other_len * weight;
    assert(len * total * other_weight == left * total) by (nonlinear_arith)
        requires
            left == len * other_weight,
    ;
    assert(other_len * total * weight == right * total) by (nonlinear_arith)
        requires
            right == other_len * weight,
    ;
    assert((left * total < right * total) <==> left < right) by (nonlinear_arith)
        requires
            total >= 1,
    ;
    assert((left * total == right * total) <==> left == right) by (nonlinear_arith)
        requires
            total >= 1,
    ;
}

/// Estimates are ordered as fractions are: if the first is no later than
/// the second and the second no later than the third, the first is no later
/// than the third.
pub proof fn lemma_estimates_chain(a: nat, x: nat, b: nat, y: nat, c: nat, z: nat)
    requires
        x >= 1,
        y >= 1,
        z >= 1,
        a * y <= b * x,
        b * z <= c * y,
    ensures
        a * z <= c * x,
{
    assert(a * y * z <= b * x * z) by (nonlinear_arith)
        requires
            a * y <= b * x,
    ;
    assert(b * z * x <= c * y * x) by (nonlinear_arith)
        requires
            b * z <= c * y,
    ;
    assert(b * x * z == b * z * x) by (nonlinear_arith);
    assert(a * y * z == a * z * y) by (nonlinear_arith);
    assert(c * y * x == c * x * y) by (nonlinear_arith);
    assert(a * z <= c * x) by (nonlinear_arith)
        requires
            a * z * y <= c * x * y,
            y >= 1,
    ;
}

/// Whatever the coin flips, the choice among the flows below `upto` is a
/// flow whose head packet has arrived and that none of them is estimated to
/// finish before; or none, where none of their head packets has arrived.
pub proof fn lemma_choice(state: WfqState, flips: Seq<bool>, upto: int)
    requires
        state.wf(),
        0 <= upto <= state.link.flows.len(),
    ensures
        match state.choice(flips, upto) {
            None => forall|j: int| 0 <= j < upto ==> !state.link.eligible(j),
            Some(i) => 0 <= i < upto && state.link.eligible(i) && forall|j: int|
                0 <= j < upto && state.link.eligible(j) ==> !state.before(j, i),
        },
    decreases upto,
{
    if upto > 0 {
        let idx = upto - 1;
        lemma_choice(state, flips, idx);
        let best = state.choice(flips, idx);
        let next = state.choice(flips, upto);
        if state.link.eligible(idx) {
            match best {
                None => {
                    lemma_before(state, idx, idx);
                },
                Some(b) => {
                    lemma_before(state, idx, b);
                    if next == Some(idx) {
                        assert forall|j: int|
                            0 <= j < upto && state.link.eligible(j) implies !state.before(
                            j,
                            idx,
                        ) by {
                            lemma_before(state, j, idx);
                            lemma_before(state, j, b);
                            if j < idx {
                                assert(!state.before(j, b));
                                lemma_estimates_chain(
                                    state.head_len(idx),
                                    state.weights[idx],
                                    state.head_len(b),
                                    state.weights[b],
                                    state.head_len(j),
                                    state.weights[j],
                                );
                            }
                        }
                    } else {
                        assert forall|j: int|
                            0 <= j < upto && state.link.eligible(j) implies !state.before(j, b) by {
                            lemma_before(state, b, idx);
                        }
                    }
                },
            }
        }
    }
}

/// Between two registered flows of a well-formed state, estimates compare
/// as the products of each head length with the other weight do.
pub proof fn lemma_before(state: WfqState, i: int, j: int)
    requires
        state.wf(),
        0 <= i < state.link.flows.len(),
        0 <= j < state.link.flows.len(),
    ensures
        state.before(i, j) <==> state.head_len(i) * state.weights[j] < state.head_len(j)
            * state.weights[i],
        state.tied(i, j) <==> state.head_len(i) * state.weights[j] == state.head_len(j)
            * state.weights[i],
        state.weights[i] >= 1,
        state.weights[j] >= 1,
        state.total_weight >= 1,
{
    assert(1 <= state.weights[i] <= state.total_weight);
    assert(1 <= state.weights[j]);
    lemma_sooner_without_total(
        state.head_len(i),
        state.weights[i],
        state.head_len(j),
        state.weights[j],
        state.total_weight,
    );
}

/// Whatever the coin flips, the selected flow is a fair pick.
pub proof fn lemma_select_fair(state: WfqState, flips: Seq<bool>)
    requires
        state.wf(),
    ensures
        state.fair(state.select(flips)),
{
    lemma_choice(state, flips, state.link.flows.len() as int);
}

/// A tick with a fair pick keeps the state well-formed, moves the clock by
/// one, and changes no ledger.
pub proof fn lemma_step_conserves(state: WfqState, pick: Option<int>)
    requires
        state.wf(),
        state.fair(pick),
    ensures
        state.step(pick).wf(),
        state.step(pick).weights == state.weights,
        state.step(pick).total_weight == state.total_weight,
        state.step(pick).link.flows.len() == state.link.flows.len(),
        state.step(pick).link.capacity == state.link.capacity,
        state.step(pick).link.timer == state.link.timer + 1,
        state.step(pick).link.backlog() + state.step(pick).link.load <= state.link.backlog()
            + state.link.load,
        forall|j: int|
            0 <= j < state.link.flows.len() ==> state.step(pick).link.ledger(j)
                == state.link.ledger(j),
{
    let decided = state.decide(pick);
    if let Some(i) = pick {
        lemma_serve(state.link, i);
    }
    let next = decided.advance();
    assert forall|j: int| 0 <= j < state.link.flows.len() implies next.link.ledger(j)
        == state.link.ledger(j) by {
        assert(next.link.ledger(j) == decided.link.ledger(j));
    }
    assert forall|j: int| 0 <= j < next.link.flows.len() implies ordered(
        #[trigger] next.link.ledger(j),
    ) by {
        assert(next.link.ledger(j) == state.link.ledger(j));
        assert(ordered(state.link.ledger(j)));
    }
}

/// The product of two machine words fits in sixteen bytes.
pub proof fn lemma_product_fits(x: nat, y: nat)
    requires
        x <= usize::MAX,
        y <= usize::MAX,
    ensures
        x * y <= u128::MAX,
{
    assert(x * y <= 0xffff_ffff_ffff_ffff * 0xffff_ffff_ffff_ffff) by (nonlinear_arith)
        requires
            x <= 0xffff_ffff_ffff_ffff,
            y <= 0xffff_ffff_ffff_ffff,
    ;
}

/// A pick as the state speaks of it.
pub open spec fn pick_of(pick: Option<usize>) -> Option<int> {
    match pick {
        None => None,
        Some(i) => Some(i as int),
    }
}

/// Weighted Fair Queueing (WFQ) scheduler. Weights are whole numbers of
/// shares: a flow's fair share of the link is its weight over the sum of all
/// weights. Ties between estimates are broken by a seeded generator, so that
/// a run with the same seed and the same flows is the same run.
pub struct WFQScheduler {
    timer: usize,
    weights: Vec<usize>,
    total_weight: usize,
    flows: Vec<VariableLengthFlow>,
    output_port: Port,
    /// For each packet the port admitted: the flow it came from and its
    /// arrival time.
    served: Vec<(usize, usize)>,
    generator: StdRng,
}

impl View for WFQScheduler {
    type V = WfqState;

    closed spec fn view(&self) -> WfqState {
        WfqState {
            link: link_of(self.timer, self.flows@, self.output_port@, self.served@),
            weights: Seq::new(self.weights@.len(), |i: int| self.weights@[i] as nat),
            total_weight: self.total_weight as nat,
        }
    }
}

impl WFQScheduler {
    /// The parts agree with each other, every flow is in order, and no
    /// counter can overflow before the tick ceiling.
    pub closed spec fn wf(&self) -> bool {
        &&& self.flows.len() == self.weights.len()
        &&& forall|i: int| 0 <= i < self.flows.len() ==> (#[trigger] self.flows[i]).wf()
        &&& self.served.len() == self.output_port@.history.len()
        &&& self@.wf()
        &&& self@.fits()
    }

    /// The port this scheduler feeds.
    pub closed spec fn port(&self) -> Port {
        self.output_port
    }

    /// A well-formed scheduler stands for a well-formed state within the
    /// machine's limits, and its port holds what the log says.
    pub proof fn lemma_wf(&self)
        requires
            self.wf(),
        ensures
            self@.wf(),
            self@.fits(),
            self.port()@ == self@.link.port(self.port()@.id),
    {
        assert(self.output_port@.history =~= self@.link.history());
    }

    /// A scheduler whose ties are broken from `DEFAULT_SEED`.
    pub fn new(bandwidth: usize) -> (scheduler: WFQScheduler)
        ensures
            scheduler.wf(),
            scheduler@ == WfqState::fresh(bandwidth as nat),
    {
        WFQScheduler::with_seed(bandwidth, DEFAULT_SEED)
    }

    /// A scheduler whose ties are broken from `seed`.
    pub fn with_seed(bandwidth: usize, seed: u64) -> (scheduler: WFQScheduler)
        ensures
            scheduler.wf(),
            scheduler@ == WfqState::fresh(bandwidth as nat),
    {
        let scheduler = WFQScheduler {
            timer: 0,
            weights: Vec::new(),
            total_weight: 0,
            flows: Vec::new(),
            output_port: Port::new(0, bandwidth),
            served: Vec::new(),
            generator: seeded(seed),
        };
        proof {
            let fresh = WfqState::fresh(bandwidth as nat);
            assert(scheduler@.link.flows =~= fresh.link.flows);
            assert(scheduler@.link.log =~= fresh.link.log);
            assert(scheduler@.weights =~= fresh.weights);
        }
        scheduler
    }

    /// Add a flow to the scheduler with a weight. The weight is a number of
    /// shares, at least one. The sum of the weights must fit a machine word,
    /// and the total backlog the port's load counter.
    pub fn add_flow(&mut self, flow: VariableLengthFlow, weight: usize)
        requires
            old(self).wf(),
            flow.wf(),
            weight >= 1,
            old(self)@.total_weight + weight <= usize::MAX,
            old(self)@.link.backlog() + old(self)@.link.load + backlog(flow.queue()) <= usize::MAX,
        ensures
            final(self).wf(),
            final(self)@ == old(self)@.register(flow.queue(), weight as nat),
    {
        let ghost queue = flow.queue();
        self.flows.push(flow);
        self.weights.push(weight);
        self.total_weight += weight;
        proof {
            let before = old(self)@;
            let after = before.register(queue, weight as nat);
            assert(self@.link.flows =~= after.link.flows);
            assert(self@.link.log =~= after.link.log);
            assert(self@.weights =~= after.weights);
            assert(self@ == after);
            lemma_register(before.link, queue);
            assert forall|i: int| 0 <= i < after.weights.len() implies 1 <= (
            #[trigger] after.weights[i]) <= after.total_weight by {
                if i < before.weights.len() {
                    assert(after.weights[i] == before.weights[i]);
                }
            }
        }
    }

    pub fn run(&mut self)
        requires
            old(self).wf(),
            old(self)@.settles(),
        ensures
            final(self).wf(),
            exists|picks: Seq<Option<int>>|
                old(self)@.allows(picks) && final(self)@ == (#[trigger] old(self)@.follow(
                    picks,
                )).flush(),
            final(self)@.link.drained(),
            final(self)@.link.idle(),
            final(self)@.link.flows.len() == old(self)@.link.flows.len(),
            forall|i: int|
                0 <= i < old(self)@.link.flows.len() ==> departed(final(self)@.link.log, i) == old(
                    self,
                )@.link.ledger(i),
    {
        let ghost start = self@;
        let ghost picks = Seq::<Option<int>>::empty();
        loop
            invariant_except_break
                self.wf(),
                start.allows(picks),
                self@ == start.follow(picks),
                self@.settles(),
                self@.link.flows.len() == start.link.flows.len(),
                forall|i: int|
                    0 <= i < start.link.flows.len() ==> self@.link.ledger(i) == start.link.ledger(i),
            ensures
                self.wf(),
                start.allows(picks),
                self@ == start.follow(picks),
                self@.link.drained(),
                self@.link.flows.len() == start.link.flows.len(),
                forall|i: int|
                    0 <= i < start.link.flows.len() ==> self@.link.ledger(i) == start.link.ledger(i),
            decreases TICK_CEILING - self.timer,
        {
            let ghost before = self@;
            let more = self.tick();
            if !more {
                break;
            }
            proof {
                let pick = choose|pick: Option<int>|
                    before.fair(pick) && self@ == #[trigger] before.step(pick);
                lemma_step_conserves(before, pick);
                let longer = picks.push(pick);
                assert(longer.drop_last() =~= picks);
                picks = longer;
                assert(before.step(pick).settles_within((before.allowance() - 1) as nat));
            }
        }
        self.output_port.proceed_rest();
        proof {
            let settled = start.follow(picks);
            let done = self@;
            assert(done.link.log =~= settled.link.log);
            assert(done == settled.flush());
            assert forall|j: int| 0 <= j < done.link.flows.len() implies ordered(
                #[trigger] done.link.ledger(j),
            ) by {
                assert(done.link.ledger(j) == settled.link.ledger(j));
                assert(ordered(settled.link.ledger(j)));
            }
            assert forall|i: int| 0 <= i < start.link.flows.len() implies departed(done.link.log, i)
                == start.link.ledger(i) by {
                assert(settled.link.ledger(i) == start.link.ledger(i));
                assert(settled.link.ledger(i) =~= departed(settled.link.log, i));
            }
        }
    }

    /// The port, to read what departed from it. Whoever changes the port
    /// through this reference takes the scheduler's bookkeeping out of step.
    pub fn get_output_port(&mut self) -> (port: &mut Port)
        ensures
            *port == old(self).port(),
            final(self).port() == *final(port),
            *final(port) == *port ==> *final(self) == *old(self),
    {
        &mut self.output_port
    }

    /// Ticks elapsed.
    pub fn timer(&self) -> (ticks: usize)
        ensures
            ticks == self@.link.timer,
    {
        self.timer
    }

    /// For each packet the port admitted, in admission order: the index of
    /// the flow it came from and its arrival time.
    pub fn departures(&self) -> (served: &Vec<(usize, usize)>)
        requires
            self.wf(),
        ensures
            served@.len() == self@.link.log.len(),
            forall|k: int|
                0 <= k < served@.len() ==> (#[trigger] served@[k]).0 == self@.link.log[k].flow
                    && served@[k].1 == self@.link.log[k].arrival,
    {
        &self.served
    }

    /// One tick of simulated time: a flow is picked and served, then time
    /// passes. Returns whether the run goes on.
    pub fn tick(&mut self) -> (more: bool)
        requires
            old(self).wf(),
            old(self)@.link.drained() || old(self)@.link.timer < TICK_CEILING,
        ensures
            final(self).wf(),
            more == !old(self)@.link.drained(),
            !more ==> final(self)@ == old(self)@,
            more ==> exists|pick: Option<int>|
                old(self)@.fair(pick) && final(self)@ == #[trigger] old(self)@.step(pick),
    {
        let ghost before = self@;
        if all_empty(&self.flows) {
            assert(before.link.drained());
            return false;
        }
        assert(!before.link.drained()) by {
            let i = choose|i: int|
                0 <= i < self.flows.len() && (#[trigger] self.flows[i]).queue().len() != 0;
            assert(before.link.flows[i].len() != 0);
        }
        let pick = self.schedule();
        self.step(pick);
        assert(self@ == before.step(pick_of(pick)));
        true
    }

    /// Carries out one tick with the decision `pick`: the picked flow, if
    /// any, sends its head packet to the port, busy or not; then the clock
    /// and the port move on.
    pub fn step(&mut self, pick: Option<usize>)
        requires
            old(self).wf(),
            old(self)@.fair(pick_of(pick)),
            old(self)@.link.timer < TICK_CEILING,
        ensures
            final(self).wf(),
            final(self)@ == old(self)@.step(pick_of(pick)),
    {
        let ghost before = self@;
        proof {
            lemma_step_conserves(before, pick_of(pick));
        }
        if let Some(idx) = pick {
            proof {
                lemma_head_within_backlog(before.link.flows, idx as int);
                lemma_serve(before.link, idx as int);
            }
            let arrival = self.flows[idx].packet_states[0].1;
            let packet = self.flows[idx].pop_packet();
            self.output_port.submit(packet);
            self.served.push((idx, arrival));
        }
        let ghost decided = self@;
        proof {
            let after = before.decide(pick_of(pick));
            assert(decided.link.flows =~= after.link.flows);
            assert(decided.link.log =~= after.link.log);
            assert(decided.weights =~= after.weights);
            assert(decided == after);
        }
        self.timer += 1;
        self.output_port.tick();
        proof {
            assert(self@.link.flows =~= decided.advance().link.flows);
            assert(self@.link.log =~= decided.advance().link.log);
            assert(self@.weights =~= decided.weights);
            assert(self@ == decided.advance());
        }
    }

    /// Schedule the next flow to be served, with ties broken by the
    /// scheduler's generator. Return the index of the flow to be served
    /// else None.
    pub fn schedule(&mut self) -> (pick: Option<usize>)
        requires
            old(self).wf(),
        ensures
            final(self).wf(),
            final(self)@ == old(self)@,
            old(self)@.fair(pick_of(pick)),
    {
        let ghost before = self@;
        let n = self.flows.len();
        let mut flips: Vec<bool> = Vec::new();
        while flips.len() < n
            invariant
                flips.len() <= n,
                n == self.flows.len(),
                self.wf(),
                self@ == before,
            decreases n - flips.len(),
        {
            let coin = flip(&mut self.generator);
            flips.push(coin);
        }
        self.schedule_with(&flips)
    }

    /// The flow to be served when `flips[i]` breaks a tie of flow `i` with
    /// the best flow before it: among the flows whose head packet has
    /// arrived, one whose estimated finish time is the least.
    pub fn schedule_with(&self, flips: &Vec<bool>) -> (pick: Option<usize>)
        requires
            self.wf(),
            flips.len() == self@.link.flows.len(),
        ensures
            pick_of(pick) == self@.select(flips@),
            self@.fair(pick_of(pick)),
    {
        let n = self.flows.len();
        let mut best: Option<usize> = None;
        let mut best_len: usize = 0;
        let mut idx: usize = 0;
        while idx < n
            invariant
                idx <= n,
                n == self.flows.len(),
                n == flips.len(),
                self.wf(),
                pick_of(best) == self@.choice(flips@, idx as int),
                match best {
                    None => true,
                    Some(b) => b < idx && self@.link.eligible(b as int) && best_len
                        == self@.head_len(b as int),
                },
            decreases n - idx,
        {
            if let Some(packet) = self.flows[idx].peek_packet(self.timer) {
                assert(self@.link.eligible(idx as int));
                match best {
                    None => {
                        best = Some(idx);
                        best_len = packet.len;
                    },
                    Some(b) => {
                        proof {
                            lemma_before(self@, idx as int, b as int);
                            lemma_product_fits(packet.len as nat, self.weights[b as int] as nat);
                            lemma_product_fits(best_len as nat, self.weights[idx as int] as nat);
                        }
                        let mine = (packet.len as u128) * (self.weights[b] as u128);
                        let theirs = (best_len as u128) * (self.weights[idx] as u128);
                        if mine < theirs || (mine == theirs && flips[idx]) {
                            best = Some(idx);
                            best_len = packet.len;
                        }
                    },
                }
            } else {
                assert(!self@.link.eligible(idx as int));
            }
            idx = idx + 1;
        }
        proof {
            lemma_select_fair(self@, flips@);
        }
        best
    }
}

} // verus!
