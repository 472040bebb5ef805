//! Per-flow packet queues, kept in order of arrival time.

use crate::scheduling::Packet;
use vstd::prelude::*;

verus! {

/// Every entry is at least as late as the ones before it.
pub open spec fn ordered(queue: Seq<(Packet, usize)>) -> bool {
    forall|i: int, j: int| 0 <= i <= j < queue.len() ==> queue[i].1 <= queue[j].1
}

/// Every packet in the queue has the same length.
pub open spec fn uniform(queue: Seq<(Packet, usize)>, len: usize) -> bool {
    forall|i: int| 0 <= i < queue.len() ==> (#[trigger] queue[i]).0.len == len
}

/// Where an arrival at `time` is placed: directly behind the last entry that
/// is not later than it, so that equal times keep their order of insertion.
pub open spec fn slot(queue: Seq<(Packet, usize)>, time: usize) -> int
    decreases queue.len(),
{
    if queue.len() == 0 || queue.last().1 <= time {
        queue.len() as int
    } else {
        slot(queue.drop_last(), time)
    }
}

/// The queue after `packet` arrived with arrival time `time`.
pub open spec fn arrive(queue: Seq<(Packet, usize)>, packet: Packet, time: usize) -> Seq<
    (Packet, usize),
> {
    queue.insert(slot(queue, time), (packet, time))
}

/// The head packet, if it has arrived by `now`.
pub open spec fn peek(queue: Seq<(Packet, usize)>, now: usize) -> Option<Packet> {
    if queue.len() > 0 && queue[0].1 <= now {
        Some(queue[0].0)
    } else {
        None
    }
}

/// The total length of the queued packets.
pub open spec fn backlog(queue: Seq<(Packet, usize)>) -> nat
    decreases queue.len(),
{
    if queue.len() == 0 {
        0
    } else {
        backlog(queue.drop_last()) + queue.last().0.len as nat
    }
}

/// `packet` with its length replaced by `len`.
pub open spec fn resized(packet: Packet, len: usize) -> Packet {
    Packet { name: packet.name, len }
}

/// In an ordered queue the slot for `time` separates the entries that are not
/// later than `time` from those that are.
pub proof fn lemma_slot_splits(queue: Seq<(Packet, usize)>, time: usize)
    requires
        ordered(queue),
    ensures
        0 <= slot(queue, time) <= queue.len(),
        forall|i: int| 0 <= i < slot(queue, time) ==> (#[trigger] queue[i]).1 <= time,
        forall|i: int| slot(queue, time) <= i < queue.len() ==> (#[trigger] queue[i]).1 > time,
    decreases queue.len(),
{
    if queue.len() == 0 || queue.last().1 <= time {
    } else {
        let front = queue.drop_last();
        lemma_slot_splits(front, time);
        assert forall|i: int| slot(queue, time) <= i < queue.len() implies (#[trigger] queue[i]).1
            > time by {
            if i < front.len() {
                assert(queue[i] == front[i]);
            }
        }
        assert forall|i: int| 0 <= i < slot(queue, time) implies (#[trigger] queue[i]).1
            <= time by {
            assert(queue[i] == front[i]);
        }
    }
}

/// An arrival keeps an ordered queue ordered, adds exactly the new entry, and
/// leaves every earlier entry in front of every later one.
pub proof fn lemma_arrive_keeps_order(queue: Seq<(Packet, usize)>, packet: Packet, time: usize)
    requires
        ordered(queue),
    ensures
        ordered(arrive(queue, packet, time)),
        arrive(queue, packet, time).len() == queue.len() + 1,
        arrive(queue, packet, time).to_multiset() == queue.to_multiset().insert((packet, time)),
        arrive(queue, packet, time).remove(slot(queue, time)) == queue,
{
    lemma_slot_splits(queue, time);
    let k = slot(queue, time);
    let after = arrive(queue, packet, time);
    assert forall|i: int, j: int| 0 <= i <= j < after.len() implies after[i].1 <= after[j].1 by {
        if i < k {
            assert(after[i] == queue[i]);
        } else if i > k {
            assert(after[i] == queue[i - 1]);
        }
        if j < k {
            assert(after[j] == queue[j]);
        } else if j > k {
            assert(after[j] == queue[j - 1]);
        }
    }
    vstd::seq_lib::to_multiset_insert(queue, k, (packet, time));
    assert(after.remove(k) =~= queue);
}

/// An arrival adds the packet's length to the backlog.
pub proof fn lemma_arrive_backlog(queue: Seq<(Packet, usize)>, packet: Packet, time: usize)
    ensures
        backlog(arrive(queue, packet, time)) == backlog(queue) + packet.len,
    decreases queue.len(),
{
    if queue.len() == 0 || queue.last().1 <= time {
        assert(arrive(queue, packet, time) =~= queue.push((packet, time)));
        assert(queue.push((packet, time)).drop_last() =~= queue);
    } else {
        let front = queue.drop_last();
        lemma_arrive_backlog(front, packet, time);
        lemma_slot_bounds(front, time);
        assert(arrive(queue, packet, time).drop_last() =~= arrive(front, packet, time));
        assert(arrive(queue, packet, time).last() == queue.last());
    }
}

/// The slot lies inside the queue or directly behind it.
pub proof fn lemma_slot_bounds(queue: Seq<(Packet, usize)>, time: usize)
    ensures
        0 <= slot(queue, time) <= queue.len(),
    decreases queue.len(),
{
    if queue.len() == 0 || queue.last().1 <= time {
    } else {
        lemma_slot_bounds(queue.drop_last(), time);
    }
}

/// Removing the head takes its length off the backlog.
pub proof fn lemma_pop_backlog(queue: Seq<(Packet, usize)>)
    requires
        queue.len() > 0,
    ensures
        backlog(queue.drop_first()) + queue[0].0.len == backlog(queue),
    decreases queue.len(),
{
    if queue.len() == 1 {
        assert(queue.drop_first() =~= Seq::empty());
        assert(queue.drop_last() =~= Seq::empty());
    } else {
        lemma_pop_backlog(queue.drop_last());
        assert(queue.drop_first().drop_last() =~= queue.drop_last().drop_first());
    }
}

/// Moves the last entry of `entries` to its slot among the others.
fn settle_last(entries: &mut Vec<(Packet, usize)>)
    requires
        old(entries).len() > 0,
    ensures
        final(entries)@ == arrive(
            old(entries)@.drop_last(),
            old(entries)@.last().0,
            old(entries)@.last().1,
        ),
{
    let entry = entries.pop().unwrap();
    let time = entry.1;
    let mut k: usize = entries.len();
    assert(entries@.take(k as int) =~= entries@);
    while k > 0 && entries[k - 1].1 > time
        invariant
            k <= entries.len(),
            slot(entries@, time) == slot(entries@.take(k as int), time),
        decreases k,
    {
        assert(entries@.take(k as int).drop_last() =~= entries@.take(k - 1));
        k = k - 1;
    }
    entries.insert(k, entry);
}

/// An ordered backlog of packets belonging to one traffic source.
pub trait Flow {
    /// The queued packets with their arrival times, head first.
    spec fn queue(&self) -> Seq<(Packet, usize)>;

    /// The packet as this flow stores it.
    spec fn stored(&self, packet: Packet) -> Packet;

    /// The queue is ordered and holds only packets this flow could have stored.
    spec fn wf(&self) -> bool;

    /// A well-formed flow is ordered by arrival time.
    proof fn lemma_wf_ordered(&self)
        requires
            self.wf(),
        ensures
            ordered(self.queue()),
    ;

    /// Add a packet to the flow.
    fn packet_arrive(&mut self, packet: Packet, time: usize)
        requires
            old(self).wf(),
        ensures
            final(self).wf(),
            final(self).queue() == arrive(old(self).queue(), old(self).stored(packet), time),
            backlog(final(self).queue()) == backlog(old(self).queue()) + old(self).stored(
                packet,
            ).len,
            forall|p: Packet| final(self).stored(p) == old(self).stored(p),
    ;

    /// Pop a packet from the flow.
    fn pop_packet(&mut self) -> (packet: Packet)
        requires
            old(self).wf(),
            old(self).queue().len() > 0,
        ensures
            final(self).wf(),
            packet == old(self).queue()[0].0,
            final(self).queue() == old(self).queue().drop_first(),
            backlog(final(self).queue()) + packet.len == backlog(old(self).queue()),
            forall|p: Packet| final(self).stored(p) == old(self).stored(p),
    ;

    /// Peek at the next packet in the flow at a given time.
    /// If there is no packet available, return None.
    fn peek_packet(&self, time: usize) -> (head: Option<Packet>)
        ensures
            head == peek(self.queue(), time),
    ;

    /// Check if the flow is empty.
    fn empty(&self) -> (drained: bool)
        ensures
            drained == (self.queue().len() == 0),
    ;
}

/// A flow with variable-length packets.
#[derive(Debug)]
pub struct VariableLengthFlow {
    pub packet_states: Vec<(Packet, usize)>,
}

/// A flow with fixed-length packets.
#[derive(Debug)]
pub struct FixedLengthFlow {
    pub packet_len: usize,
    pub packet_states: Vec<(Packet, usize)>,
}

impl VariableLengthFlow {
    pub fn new() -> (flow: VariableLengthFlow)
        ensures
            flow.wf(),
            flow.queue() == Seq::<(Packet, usize)>::empty(),
    {
        VariableLengthFlow { packet_states: Vec::new() }
    }
}

impl Flow for VariableLengthFlow {
    open spec fn queue(&self) -> Seq<(Packet, usize)> {
        self.packet_states@
    }

    open spec fn stored(&self, packet: Packet) -> Packet {
        packet
    }

    open spec fn wf(&self) -> bool {
        ordered(self.queue())
    }

    proof fn lemma_wf_ordered(&self) {
    }

    fn packet_arrive(&mut self, packet: Packet, time: usize) {
        self.packet_states.push((packet, time));
        proof {
            assert(self.packet_states@.drop_last() =~= old(self).packet_states@);
            lemma_arrive_keeps_order(old(self).queue(), packet, time);
            lemma_arrive_backlog(old(self).queue(), packet, time);
        }
        settle_last(&mut self.packet_states);
    }

    fn pop_packet(&mut self) -> (packet: Packet) {
        let entry = self.packet_states.remove(0);
        proof {
            assert(self.packet_states@ =~= old(self).packet_states@.drop_first());
            lemma_pop_backlog(old(self).queue());
        }
        entry.0
    }

    fn peek_packet(&self, time: usize) -> (head: Option<Packet>) {
        if self.packet_states.len() > 0 {
            let entry = &self.packet_states[0];
            if entry.1 <= time {
                Some(entry.0)
            } else {
                None
            }
        } else {
            None
        }
    }

    fn empty(&self) -> (drained: bool) {
        self.packet_states.len() == 0
    }
}

impl FixedLengthFlow {
    /// Create a new flow with fixed-length packets.
    pub fn new(packet_len: usize) -> (flow: FixedLengthFlow)
        ensures
            flow.wf(),
            flow.packet_len == packet_len,
            flow.queue() == Seq::<(Packet, usize)>::empty(),
    {
        FixedLengthFlow { packet_len, packet_states: Vec::new() }
    }

    /// The packet with the flow's own length in place of its own.
    fn ensure_packet_len(&mut self, packet: Packet) -> (sized: Packet)
        ensures
            sized == resized(packet, old(self).packet_len),
            *final(self) == *old(self),
    {
        if packet.len != self.packet_len {
            Packet { name: packet.name, len: self.packet_len }
        } else {
            packet
        }
    }

    /// Puts an entry that was appended to an ordered queue in its place.
    fn ensure_packet_order(&mut self)
        requires
            old(self).packet_states.len() > 0,
        ensures
            final(self).packet_len == old(self).packet_len,
            final(self).queue() == arrive(
                old(self).queue().drop_last(),
                old(self).queue().last().0,
                old(self).queue().last().1,
            ),
    {
        settle_last(&mut self.packet_states);
    }

    /// Queues a fresh packet called `name`, of the flow's length.
    pub fn add_packet(&mut self, name: &'static str, arrive_time: usize)
        requires
            old(self).wf(),
        ensures
            final(self).wf(),
            final(self).packet_len == old(self).packet_len,
            final(self).queue() == arrive(
                old(self).queue(),
                Packet { name, len: old(self).packet_len },
                arrive_time,
            ),
            backlog(final(self).queue()) == backlog(old(self).queue()) + old(self).packet_len,
    {
        let packet = Packet::new(name, self.packet_len);
        self.packet_states.push((packet, arrive_time));
        proof {
            assert(self.packet_states@.drop_last() =~= old(self).packet_states@);
            lemma_arrive_keeps_order(old(self).queue(), packet, arrive_time);
            lemma_arrive_uniform(old(self).queue(), packet, arrive_time);
            lemma_arrive_backlog(old(self).queue(), packet, arrive_time);
        }
        self.ensure_packet_order();
    }
}

/// An arrival of the common length keeps a queue uniform.
pub proof fn lemma_arrive_uniform(queue: Seq<(Packet, usize)>, packet: Packet, time: usize)
    requires
        uniform(queue, packet.len),
    ensures
        uniform(arrive(queue, packet, time), packet.len),
{
    lemma_slot_bounds(queue, time);
    let k = slot(queue, time);
    let after = arrive(queue, packet, time);
    assert forall|i: int| 0 <= i < after.len() implies (#[trigger] after[i]).0.len
        == packet.len by {
        if i < k {
            assert(after[i] == queue[i]);
        } else if i > k {
            assert(after[i] == queue[i - 1]);
        }
    }
}

impl Flow for FixedLengthFlow {
    open spec fn queue(&self) -> Seq<(Packet, usize)> {
        self.packet_states@
    }

    open spec fn stored(&self, packet: Packet) -> Packet {
        resized(packet, self.packet_len)
    }

    open spec fn wf(&self) -> bool {
        ordered(self.queue()) && uniform(self.queue(), self.packet_len)
    }

    proof fn lemma_wf_ordered(&self) {
    }

    /// Add a packet to the flow.
    ///
    /// If the packet length is different from the flow's packet length,
    /// the packet will be resized to the flow's packet length.
    fn packet_arrive(&mut self, packet: Packet, time: usize) {
        let packet = self.ensure_packet_len(packet);
        self.packet_states.push((packet, time));
        proof {
            assert(self.packet_states@.drop_last() =~= old(self).packet_states@);
            lemma_arrive_keeps_order(old(self).queue(), packet, time);
            lemma_arrive_uniform(old(self).queue(), packet, time);
            lemma_arrive_backlog(old(self).queue(), packet, time);
        }
        self.ensure_packet_order();
    }

    fn pop_packet(&mut self) -> (packet: Packet) {
        let entry = self.packet_states.remove(0);
        proof {
            assert(self.packet_states@ =~= old(self).packet_states@.drop_first());
            lemma_pop_backlog(old(self).queue());
        }
        entry.0
    }

    fn peek_packet(&self, time: usize) -> (head: Option<Packet>) {
        if self.packet_states.len() > 0 {
            let entry = &self.packet_states[0];
            if entry.1 <= time {
                return Some(entry.0);
            }
        }
        None
    }

    fn empty(&self) -> (drained: bool) {
        self.packet_states.len() == 0
    }
}

} // verus!
