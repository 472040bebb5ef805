//! A packet that carries its own arrival time.

use vstd::prelude::*;

verus! {

/// A packet: an index for tracing, the service cost, and the tick at which
/// it becomes eligible.
#[derive(Debug, Clone, Copy)]
pub struct Packet {
    pub index: usize,
    pub len: usize,
    pub arrival_time: usize,
}

impl Packet {
    pub fn new(index: usize, len: usize, arrival_time: usize) -> (packet: Packet)
        ensures
            packet.index == index,
            packet.len == len,
            packet.arrival_time == arrival_time,
    {
        Packet { index, len, arrival_time }
    }
}

} // verus!
