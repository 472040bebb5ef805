//! Packets and the egress port they depart through.

pub mod flow;
pub mod link;
pub mod schedulers;

use vstd::prelude::*;

verus! {

/// A unit of traffic: a label for tracing and the service cost in link units.
#[derive(Debug, Clone, Copy, PartialEq, Eq)]
pub struct Packet {
    pub name: &'static str,
    pub len: usize,
}

impl Packet {
    pub fn new(name: &'static str, len: usize) -> (packet: Packet)
        ensures
            packet.name == name,
            packet.len == len,
    {
        Packet { name, len }
    }
}

/// What a port is, mathematically: its identifier, how much it drains per
/// tick, how much admitted work is still inside it, and every packet it ever
/// admitted, in admission order.
pub struct PortModel {
    pub id: nat,
    pub capacity: nat,
    pub load: nat,
    pub history: Seq<Packet>,
}

impl PortModel {
    /// The port after admitting `packet`.
    pub open spec fn submit(self, packet: Packet) -> PortModel {
        PortModel {
            id: self.id,
            capacity: self.capacity,
            load: self.load + packet.len as nat,
            history: self.history.push(packet),
        }
    }

    /// The port one tick later: the load shrinks by the capacity, never below zero.
    pub open spec fn tick(self) -> PortModel {
        PortModel {
            id: self.id,
            capacity: self.capacity,
            load: if self.load >= self.capacity { (self.load - self.capacity) as nat } else { 0 },
            history: self.history,
        }
    }

    /// The port with all admitted work flushed at once.
    pub open spec fn flush(self) -> PortModel {
        PortModel { id: self.id, capacity: self.capacity, load: 0, history: self.history }
    }

    /// Ready for the next packet.
    pub open spec fn idle(self) -> bool {
        self.load == 0
    }
}

/// The shared egress resource.
#[derive(Debug)]
pub struct Port {
    pub id: usize,
    rate: usize,
    current_load: usize,
    history: Vec<Packet>,
}

impl View for Port {
    type V = PortModel;

    closed spec fn view(&self) -> PortModel {
        PortModel {
            id: self.id as nat,
            capacity: self.rate as nat,
            load: self.current_load as nat,
            history: self.history@,
        }
    }
}

impl Port {
    pub fn new(id: usize, rate: usize) -> (port: Port)
        ensures
            port@ == (PortModel {
                id: id as nat,
                capacity: rate as nat,
                load: 0,
                history: Seq::empty(),
            }),
    {
        Port { id, rate, current_load: 0, history: Vec::new() }
    }

    pub fn empty(&self) -> (idle: bool)
        ensures
            idle == self@.idle(),
    {
        self.current_load == 0
    }

    pub fn submit(&mut self, packet: Packet)
        requires
            old(self)@.load + packet.len <= usize::MAX,
        ensures
            final(self)@ == old(self)@.submit(packet),
    {
        self.current_load = self.current_load + packet.len;
        self.history.push(packet);
    }

    pub fn get_output(&mut self) -> (output: &Vec<Packet>)
        ensures
            output@ == old(self)@.history,
            *final(self) == *old(self),
    {
        &self.history
    }

    pub fn proceed_rest(&mut self)
        ensures
            final(self)@ == old(self)@.flush(),
    {
        self.current_load = 0;
    }

    pub fn get_bandwidth(&self) -> (rate: usize)
        ensures
            rate == self@.capacity,
    {
        self.rate
    }

    /// Advances the port by one tick. A port is never done on its own, so
    /// the answer is always `false`.
    pub fn tick(&mut self) -> (done: bool)
        ensures
            !done,
            final(self)@ == old(self)@.tick(),
    {
        if self.current_load >= self.rate {
            self.current_load = self.current_load - self.rate;
        } else {
            self.current_load = 0;
        }
        false
    }
}

} // verus!
