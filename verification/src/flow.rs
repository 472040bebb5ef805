//! A queue of packets that carry their own arrival times.

use crate::packet::Packet;
use vstd::prelude::*;

verus! {

/// Every packet arrives no earlier than the ones before it.
pub open spec fn in_arrival_order(packets: Seq<Packet>) -> bool {
    forall|i: int, j: int|
        0 <= i <= j < packets.len() ==> packets[i].arrival_time <= packets[j].arrival_time
}

/// Where a packet arriving at `time` is placed: directly behind the last
/// packet that arrives no later, so that equal times keep their order of
/// insertion.
pub open spec fn place(packets: Seq<Packet>, time: usize) -> int
    decreases packets.len(),
{
    if packets.len() == 0 || packets.last().arrival_time <= time {
        packets.len() as int
    } else {
        place(packets.drop_last(), time)
    }
}

/// The queue after `packet` was added.
pub open spec fn with_packet(packets: Seq<Packet>, packet: Packet) -> Seq<Packet> {
    packets.insert(place(packets, packet.arrival_time), packet)
}

/// In an ordered queue the place for `time` separates the packets that
/// arrive no later than `time` from those that arrive later.
pub proof fn lemma_place_splits(packets: Seq<Packet>, time: usize)
    requires
        in_arrival_order(packets),
    ensures
        0 <= place(packets, time) <= packets.len(),
        forall|i: int| 0 <= i < place(packets, time) ==> (#[trigger] packets[i]).arrival_time <= time,
        forall|i: int|
            place(packets, time) <= i < packets.len() ==> (#[trigger] packets[i]).arrival_time
                > time,
    decreases packets.len(),
{
    if packets.len() == 0 || packets.last().arrival_time <= time {
    } else {
        let front = packets.drop_last();
        lemma_place_splits(front, time);
        assert forall|i: int| place(packets, time) <= i < packets.len() implies (
        #[trigger] packets[i]).arrival_time > time by {
            if i < front.len() {
                assert(packets[i] == front[i]);
            }
        }
        assert forall|i: int| 0 <= i < place(packets, time) implies (
        #[trigger] packets[i]).arrival_time <= time by {
            assert(packets[i] == front[i]);
        }
    }
}

/// Adding a packet keeps an ordered queue ordered and adds exactly that packet.
pub proof fn lemma_with_packet_keeps_order(packets: Seq<Packet>, packet: Packet)
    requires
        in_arrival_order(packets),
    ensures
        in_arrival_order(with_packet(packets, packet)),
        with_packet(packets, packet).len() == packets.len() + 1,
        with_packet(packets, packet).to_multiset() == packets.to_multiset().insert(packet),
        with_packet(packets, packet).remove(place(packets, packet.arrival_time)) == packets,
{
    let time = packet.arrival_time;
    lemma_place_splits(packets, time);
    let k = place(packets, time);
    let after = with_packet(packets, packet);
    assert forall|i: int, j: int| 0 <= i <= j < after.len() implies after[i].arrival_time
        <= after[j].arrival_time by {
        if i < k {
            assert(after[i] == packets[i]);
        } else if i > k {
            assert(after[i] == packets[i - 1]);
        }
        if j < k {
            assert(after[j] == packets[j]);
        } else if j > k {
            assert(after[j] == packets[j - 1]);
        }
    }
    vstd::seq_lib::to_multiset_insert(packets, k, packet);
    assert(after.remove(k) =~= packets);
}

/// A single traffic source's backlog, in order of arrival time.
#[derive(Debug)]
pub struct Flow {
    pub packets: Vec<Packet>,
}

impl Flow {
    /// The queue is in order of arrival time.
    pub open spec fn wf(&self) -> bool {
        in_arrival_order(self.packets@)
    }

    pub fn new() -> (flow: Flow)
        ensures
            flow.wf(),
            flow.packets@ == Seq::<Packet>::empty(),
    {
        Flow { packets: Vec::new() }
    }

    pub fn add_packet(&mut self, packet: Packet)
        requires
            old(self).wf(),
        ensures
            final(self).wf(),
            final(self).packets@ == with_packet(old(self).packets@, packet),
    {
        let time = packet.arrival_time;
        let mut k: usize = self.packets.len();
        assert(self.packets@.take(k as int) =~= self.packets@);
        while k > 0 && self.packets[k - 1].arrival_time > time
            invariant
                k <= self.packets.len(),
                *self == *old(self),
                place(self.packets@, time) == place(self.packets@.take(k as int), time),
            decreases k,
        {
            assert(self.packets@.take(k as int).drop_last() =~= self.packets@.take(k - 1));
            k = k - 1;
        }
        proof {
            lemma_with_packet_keeps_order(self.packets@, packet);
        }
        self.packets.insert(k, packet);
    }

    pub fn pop_packet(&mut self) -> (packet: Packet)
        requires
            old(self).wf(),
            old(self).packets.len() > 0,
        ensures
            final(self).wf(),
            packet == old(self).packets[0],
            final(self).packets@ == old(self).packets@.drop_first(),
    {
        let packet = self.packets.remove(0);
        assert(self.packets@ =~= old(self).packets@.drop_first());
        packet
    }

    pub fn peek_packet(&self, time: usize) -> (head: Option<Packet>)
        ensures
            head == if self.packets.len() > 0 && self.packets[0].arrival_time <= time {
                Some(self.packets[0])
            } else {
                None
            },
    {
        if self.packets.len() > 0 {
            let packet = &self.packets[0];
            if packet.arrival_time <= time {
                Some(*packet)
            } else {
                None
            }
        } else {
            None
        }
    }

    pub fn empty(&self) -> (drained: bool)
        ensures
            drained == (self.packets.len() == 0),
    {
        self.packets.len() == 0
    }
}

} // verus!
