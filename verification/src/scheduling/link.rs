//! The state that every scheduling discipline shares: a clock, the flows, the
//! port's load, and the log of admissions.

use crate::scheduling::flow::{backlog, lemma_pop_backlog, ordered, Flow};
use crate::scheduling::{Packet, PortModel};
use vstd::prelude::*;

verus! {

/// The number of ticks a run may take. A run that would need more is a
/// scheduling fault, not a result.
pub const TICK_CEILING: usize = 100;

/// One admission to the port: the flow served, its packet, and the tick at
/// which that packet had arrived.
pub struct Departure {
    pub flow: nat,
    pub packet: Packet,
    pub arrival: usize,
}

/// Flows competing for one port, at one instant.
pub struct Link {
    /// Ticks elapsed.
    pub timer: nat,
    /// The queue of each flow, by flow index.
    pub flows: Seq<Seq<(Packet, usize)>>,
    /// Units the port drains per tick.
    pub capacity: nat,
    /// Units admitted to the port and not yet drained.
    pub load: nat,
    /// Every admission so far, oldest first.
    pub log: Seq<Departure>,
}

/// The entries of `flow` that the log holds, in the order of their admission.
pub open spec fn departed(log: Seq<Departure>, flow: int) -> Seq<(Packet, usize)>
    decreases log.len(),
{
    if log.len() == 0 {
        Seq::empty()
    } else if log.last().flow == flow {
        departed(log.drop_last(), flow).push((log.last().packet, log.last().arrival))
    } else {
        departed(log.drop_last(), flow)
    }
}

/// The total length of all queued packets of all flows.
pub open spec fn total_backlog(flows: Seq<Seq<(Packet, usize)>>) -> nat
    decreases flows.len(),
{
    if flows.len() == 0 {
        0
    } else {
        total_backlog(flows.drop_last()) + backlog(flows.last())
    }
}

/// The number of queued packets of all flows.
pub open spec fn total_queued(flows: Seq<Seq<(Packet, usize)>>) -> nat
    decreases flows.len(),
{
    if flows.len() == 0 {
        0
    } else {
        total_queued(flows.drop_last()) + flows.last().len()
    }
}

impl Link {
    /// Every log entry names a registered flow, and what each flow was ever
    /// given, admitted or still queued, is in order of arrival.
    pub open spec fn wf(self) -> bool {
        &&& forall|k: int| 0 <= k < self.log.len() ==> (#[trigger] self.log[k]).flow < self.flows.len()
        &&& forall|i: int| 0 <= i < self.flows.len() ==> ordered(#[trigger] self.ledger(i))
    }

    /// Everything flow `i` was ever given: what the port admitted of it,
    /// followed by what is still queued.
    pub open spec fn ledger(self, i: int) -> Seq<(Packet, usize)> {
        departed(self.log, i) + self.flows[i]
    }

    /// No flow holds a packet, eligible or not.
    pub open spec fn drained(self) -> bool {
        forall|i: int| 0 <= i < self.flows.len() ==> (#[trigger] self.flows[i]).len() == 0
    }

    /// Flow `i` has a head packet that has arrived.
    pub open spec fn eligible(self, i: int) -> bool {
        0 <= i < self.flows.len() && self.flows[i].len() > 0 && self.flows[i][0].1 <= self.timer
    }

    /// The port holds no work.
    pub open spec fn idle(self) -> bool {
        self.load == 0
    }

    /// The head packet of flow `i` leaves its queue and is admitted to the port.
    pub open spec fn serve(self, i: int) -> Link {
        let head = self.flows[i][0];
        Link {
            timer: self.timer,
            flows: self.flows.update(i, self.flows[i].drop_first()),
            capacity: self.capacity,
            load: self.load + head.0.len as nat,
            log: self.log.push(Departure { flow: i as nat, packet: head.0, arrival: head.1 }),
        }
    }

    /// One tick passes: the clock advances and the port drains by its capacity.
    pub open spec fn advance(self) -> Link {
        Link {
            timer: self.timer + 1,
            flows: self.flows,
            capacity: self.capacity,
            load: if self.load >= self.capacity {
                (self.load - self.capacity) as nat
            } else {
                0
            },
            log: self.log,
        }
    }

    /// The port's remaining work is flushed at once.
    pub open spec fn flush(self) -> Link {
        Link {
            timer: self.timer,
            flows: self.flows,
            capacity: self.capacity,
            load: 0,
            log: self.log,
        }
    }

    /// One more flow is registered.
    pub open spec fn register(self, queue: Seq<(Packet, usize)>) -> Link {
        Link {
            timer: self.timer,
            flows: self.flows.push(queue),
            capacity: self.capacity,
            load: self.load,
            log: self.log,
        }
    }

    /// The total length of all queued packets.
    pub open spec fn backlog(self) -> nat {
        total_backlog(self.flows)
    }

    /// The number of queued packets.
    pub open spec fn queued(self) -> nat {
        total_queued(self.flows)
    }

    /// The packets admitted so far, oldest first.
    pub open spec fn history(self) -> Seq<Packet> {
        Seq::new(self.log.len(), |k: int| self.log[k].packet)
    }

    /// The port as this link sees it.
    pub open spec fn port(self, id: nat) -> PortModel {
        PortModel { id, capacity: self.capacity, load: self.load, history: self.history() }
    }
}

/// The queues of a vector of flows.
pub open spec fn queues<F: Flow>(flows: Seq<F>) -> Seq<Seq<(Packet, usize)>> {
    Seq::new(flows.len(), |i: int| flows[i].queue())
}

/// The log that a list of served flows with arrival times and the port's
/// history stand for, entry by entry.
pub open spec fn departures(served: Seq<(usize, usize)>, history: Seq<Packet>) -> Seq<Departure> {
    Seq::new(
        served.len(),
        |k: int| Departure { flow: served[k].0 as nat, packet: history[k], arrival: served[k].1 },
    )
}

/// The link that a scheduler's parts stand for.
pub open spec fn link_of<F: Flow>(
    timer: usize,
    flows: Seq<F>,
    port: PortModel,
    served: Seq<(usize, usize)>,
) -> Link {
    Link {
        timer: timer as nat,
        flows: queues(flows),
        capacity: port.capacity,
        load: port.load,
        log: departures(served, port.history),
    }
}

/// What a new log entry adds to the departures of each flow.
pub proof fn lemma_departed_push(log: Seq<Departure>, entry: Departure, flow: int)
    ensures
        departed(log.push(entry), flow) == if entry.flow == flow {
            departed(log, flow).push((entry.packet, entry.arrival))
        } else {
            departed(log, flow)
        },
{
    assert(log.push(entry).drop_last() =~= log);
}

/// A flow that the log never names has no departures.
pub proof fn lemma_departed_absent(log: Seq<Departure>, flow: int)
    requires
        forall|k: int| 0 <= k < log.len() ==> (#[trigger] log[k]).flow != flow,
    ensures
        departed(log, flow) == Seq::<(Packet, usize)>::empty(),
    decreases log.len(),
{
    if log.len() > 0 {
        assert(log.last() == log[log.len() - 1]);
        assert forall|k: int| 0 <= k < log.drop_last().len() implies (#[trigger] log.drop_last()[k]).flow
            != flow by {
            assert(log.drop_last()[k] == log[k]);
        }
        lemma_departed_absent(log.drop_last(), flow);
    }
}

/// Replacing one queue changes the total backlog by the difference of the two.
pub proof fn lemma_total_backlog_update(
    flows: Seq<Seq<(Packet, usize)>>,
    i: int,
    queue: Seq<(Packet, usize)>,
)
    requires
        0 <= i < flows.len(),
    ensures
        total_backlog(flows.update(i, queue)) + backlog(flows[i]) == total_backlog(flows) + backlog(
            queue,
        ),
    decreases flows.len(),
{
    let after = flows.update(i, queue);
    if i == flows.len() - 1 {
        assert(after.drop_last() =~= flows.drop_last());
    } else {
        lemma_total_backlog_update(flows.drop_last(), i, queue);
        assert(after.drop_last() =~= flows.drop_last().update(i, queue));
    }
}

/// Replacing one queue changes the number of queued packets by the
/// difference of the two lengths.
pub proof fn lemma_total_queued_update(
    flows: Seq<Seq<(Packet, usize)>>,
    i: int,
    queue: Seq<(Packet, usize)>,
)
    requires
        0 <= i < flows.len(),
    ensures
        total_queued(flows.update(i, queue)) + flows[i].len() == total_queued(flows) + queue.len(),
    decreases flows.len(),
{
    let after = flows.update(i, queue);
    if i == flows.len() - 1 {
        assert(after.drop_last() =~= flows.drop_last());
    } else {
        lemma_total_queued_update(flows.drop_last(), i, queue);
        assert(after.drop_last() =~= flows.drop_last().update(i, queue));
    }
}

/// Serving a flow moves its head from the queue to the log and changes
/// nothing else: every ledger stays as it was, the backlog shrinks by what
/// the load grows, and one packet less is queued.
pub proof fn lemma_serve(link: Link, i: int)
    requires
        link.wf(),
        0 <= i < link.flows.len(),
        link.flows[i].len() > 0,
    ensures
        link.serve(i).wf(),
        link.serve(i).flows.len() == link.flows.len(),
        forall|j: int| 0 <= j < link.flows.len() ==> link.serve(i).ledger(j) == link.ledger(j),
        link.serve(i).backlog() + link.serve(i).load == link.backlog() + link.load,
        link.serve(i).queued() + 1 == link.queued(),
{
    let after = link.serve(i);
    let head = link.flows[i][0];
    let entry = Departure { flow: i as nat, packet: head.0, arrival: head.1 };
    assert forall|j: int| 0 <= j < link.flows.len() implies after.ledger(j) == link.ledger(j) by {
        lemma_departed_push(link.log, entry, j);
        if j == i {
            assert(after.ledger(j) =~= link.ledger(j));
        }
    }
    assert forall|j: int| 0 <= j < after.flows.len() implies ordered(#[trigger] after.ledger(j)) by {
        assert(ordered(link.ledger(j)));
    }
    assert forall|k: int| 0 <= k < after.log.len() implies (#[trigger] after.log[k]).flow
        < after.flows.len() by {
        if k < link.log.len() {
            assert(after.log[k] == link.log[k]);
        }
    }
    lemma_total_backlog_update(link.flows, i, link.flows[i].drop_first());
    lemma_total_queued_update(link.flows, i, link.flows[i].drop_first());
    lemma_pop_backlog(link.flows[i]);
}

/// Registering an ordered queue keeps the link well-formed, leaves the
/// ledgers of the other flows alone, and makes the queue the ledger of the
/// new flow.
pub proof fn lemma_register(link: Link, queue: Seq<(Packet, usize)>)
    requires
        link.wf(),
        ordered(queue),
    ensures
        link.register(queue).wf(),
        link.register(queue).backlog() == link.backlog() + backlog(queue),
        link.register(queue).queued() == link.queued() + queue.len(),
        link.register(queue).ledger(link.flows.len() as int) == queue,
        forall|j: int| 0 <= j < link.flows.len() ==> link.register(queue).ledger(j) == link.ledger(j),
{
    let after = link.register(queue);
    let n = link.flows.len() as int;
    lemma_departed_absent(link.log, n);
    assert(after.ledger(n) =~= queue);
    assert(after.flows.drop_last() =~= link.flows);
    assert forall|j: int| 0 <= j < after.flows.len() implies ordered(#[trigger] after.ledger(j)) by {
        if j < n {
            assert(after.ledger(j) == link.ledger(j));
            assert(ordered(link.ledger(j)));
        }
    }
}

/// A backlog is at least as long as its head packet, and a total backlog at
/// least as large as each of its queues.
pub proof fn lemma_head_within_backlog(flows: Seq<Seq<(Packet, usize)>>, i: int)
    requires
        0 <= i < flows.len(),
        flows[i].len() > 0,
    ensures
        flows[i][0].0.len <= total_backlog(flows),
{
    lemma_total_backlog_update(flows, i, flows[i].drop_first());
    lemma_pop_backlog(flows[i]);
}

/// Tells whether every flow is drained.
pub fn all_empty<F: Flow>(flows: &Vec<F>) -> (drained: bool)
    ensures
        drained == (forall|i: int| 0 <= i < flows.len() ==> (#[trigger] flows[i]).queue().len() == 0),
{
    let mut i: usize = 0;
    while i < flows.len()
        invariant
            i <= flows.len(),
            forall|j: int| 0 <= j < i ==> (#[trigger] flows[j]).queue().len() == 0,
        decreases flows.len() - i,
    {
        if !flows[i].empty() {
            return false;
        }
        i = i + 1;
    }
    true
}

/// Queues that are pointwise no longer hold no more packets in total.
pub proof fn lemma_total_queued_le(
    fewer: Seq<Seq<(Packet, usize)>>,
    more: Seq<Seq<(Packet, usize)>>,
)
    requires
        fewer.len() == more.len(),
        forall|i: int| 0 <= i < fewer.len() ==> (#[trigger] fewer[i]).len() <= more[i].len(),
    ensures
        total_queued(fewer) <= total_queued(more),
    decreases fewer.len(),
{
    if fewer.len() > 0 {
        assert forall|i: int| 0 <= i < fewer.drop_last().len() implies (#[trigger] fewer.drop_last()[i]).len()
            <= more.drop_last()[i].len() by {
            assert(fewer.drop_last()[i] == fewer[i]);
            assert(more.drop_last()[i] == more[i]);
        }
        lemma_total_queued_le(fewer.drop_last(), more.drop_last());
        assert(fewer.last() == fewer[fewer.len() - 1]);
    }
}

/// Queues that are pointwise no longer, and one of them shorter, hold fewer
/// packets in total.
pub proof fn lemma_total_queued_lt(
    fewer: Seq<Seq<(Packet, usize)>>,
    more: Seq<Seq<(Packet, usize)>>,
    shorter: int,
)
    requires
        fewer.len() == more.len(),
        forall|i: int| 0 <= i < fewer.len() ==> (#[trigger] fewer[i]).len() <= more[i].len(),
        0 <= shorter < fewer.len(),
        fewer[shorter].len() < more[shorter].len(),
    ensures
        total_queued(fewer) < total_queued(more),
    decreases fewer.len(),
{
    assert forall|i: int| 0 <= i < fewer.drop_last().len() implies (#[trigger] fewer.drop_last()[i]).len()
        <= more.drop_last()[i].len() by {
        assert(fewer.drop_last()[i] == fewer[i]);
        assert(more.drop_last()[i] == more[i]);
    }
    assert(fewer.last() == fewer[fewer.len() - 1]);
    if shorter == fewer.len() - 1 {
        lemma_total_queued_le(fewer.drop_last(), more.drop_last());
    } else {
        assert(fewer.drop_last()[shorter] == fewer[shorter]);
        assert(more.drop_last()[shorter] == more[shorter]);
        lemma_total_queued_lt(fewer.drop_last(), more.drop_last(), shorter);
    }
}

/// Flows that are all drained hold no packet, and flows that hold no packet
/// are all drained.
pub proof fn lemma_total_queued_zero(flows: Seq<Seq<(Packet, usize)>>)
    ensures
        total_queued(flows) == 0 <==> (forall|i: int|
            0 <= i < flows.len() ==> (#[trigger] flows[i]).len() == 0),
    decreases flows.len(),
{
    if flows.len() > 0 {
        lemma_total_queued_zero(flows.drop_last());
        assert(flows.last() == flows[flows.len() - 1]);
        if forall|i: int| 0 <= i < flows.len() ==> (#[trigger] flows[i]).len() == 0 {
            assert forall|i: int| 0 <= i < flows.drop_last().len() implies (#[trigger] flows.drop_last()[i]).len()
                == 0 by {
                assert(flows.drop_last()[i] == flows[i]);
            }
        }
        if total_queued(flows) == 0 {
            assert forall|i: int| 0 <= i < flows.len() implies (#[trigger] flows[i]).len() == 0 by {
                if i < flows.len() - 1 {
                    assert(flows.drop_last()[i] == flows[i]);
                }
            }
        }
    }
}

/// In a well-formed link, what the port admitted of a flow is in order of arrival.
pub proof fn lemma_departed_ordered(link: Link, i: int)
    requires
        link.wf(),
        0 <= i < link.flows.len(),
    ensures
        ordered(departed(link.log, i)),
{
    let given = link.ledger(i);
    let gone = departed(link.log, i);
    assert(ordered(given));
    assert forall|a: int, b: int| 0 <= a <= b < gone.len() implies gone[a].1 <= gone[b].1 by {
        assert(given[a] == gone[a]);
        assert(given[b] == gone[b]);
    }
}

/// The latest arrival time of any queued packet, or zero if none is queued.
pub open spec fn latest(flows: Seq<Seq<(Packet, usize)>>) -> nat
    decreases flows.len(),
{
    if flows.len() == 0 {
        0
    } else if flows.last().len() > 0 && flows.last().last().1 > latest(flows.drop_last()) {
        flows.last().last().1 as nat
    } else {
        latest(flows.drop_last())
    }
}

impl Link {
    /// The ticks until the last queued packet has arrived.
    pub open spec fn horizon(self) -> nat {
        if latest(self.flows) > self.timer {
            (latest(self.flows) - self.timer) as nat
        } else {
            0
        }
    }
}

/// No queue ends later than the latest arrival.
pub proof fn lemma_latest_covers(flows: Seq<Seq<(Packet, usize)>>, i: int)
    requires
        0 <= i < flows.len(),
        flows[i].len() > 0,
    ensures
        flows[i].last().1 <= latest(flows),
    decreases flows.len(),
{
    if i < flows.len() - 1 {
        lemma_latest_covers(flows.drop_last(), i);
    }
}

/// Replacing a queue by one that ends no later does not move the latest
/// arrival further away.
pub proof fn lemma_latest_shrinks(
    flows: Seq<Seq<(Packet, usize)>>,
    i: int,
    queue: Seq<(Packet, usize)>,
)
    requires
        0 <= i < flows.len(),
        queue.len() > 0 ==> flows[i].len() > 0 && queue.last().1 <= flows[i].last().1,
    ensures
        latest(flows.update(i, queue)) <= latest(flows),
    decreases flows.len(),
{
    let after = flows.update(i, queue);
    if i == flows.len() - 1 {
        assert(after.drop_last() =~= flows.drop_last());
    } else {
        lemma_latest_shrinks(flows.drop_last(), i, queue);
        assert(after.drop_last() =~= flows.drop_last().update(i, queue));
    }
}

/// In a well-formed link every queue is in order of arrival.
pub proof fn lemma_queue_ordered(link: Link, i: int)
    requires
        link.wf(),
        0 <= i < link.flows.len(),
    ensures
        ordered(link.flows[i]),
{
    let given = link.ledger(i);
    let gone = departed(link.log, i);
    let queue = link.flows[i];
    assert(ordered(given));
    assert forall|a: int, b: int| 0 <= a <= b < queue.len() implies queue[a].1 <= queue[b].1 by {
        assert(given[gone.len() + a] == queue[a]);
        assert(given[gone.len() + b] == queue[b]);
    }
}

/// Serving a flow does not move the horizon further away, and neither does
/// the passing of time. While some head packet has yet to arrive, the
/// passing of time brings the horizon one tick closer.
pub proof fn lemma_horizon(link: Link, i: int)
    requires
        link.wf(),
        0 <= i < link.flows.len(),
        link.flows[i].len() > 0,
    ensures
        link.serve(i).horizon() <= link.horizon(),
        link.advance().horizon() <= link.horizon(),
        link.serve(i).advance().horizon() <= link.horizon(),
        link.flows[i][0].1 > link.timer ==> link.advance().horizon() + 1 == link.horizon(),
{
    let rest = link.flows[i].drop_first();
    if rest.len() > 0 {
        assert(rest.last() == link.flows[i].last());
    }
    lemma_latest_shrinks(link.flows, i, rest);
    lemma_latest_covers(link.flows, i);
    lemma_queue_ordered(link, i);
}

} // verus!
