//! Discrete-time simulation of link scheduling: flows of packets compete
//! for one rate-limited egress port under Deficit Round Robin, Weighted
//! Round Robin or Weighted Fair Queueing.
//!
//! Every scheduler is a state machine that advances by ticks. Its contracts
//! are stated over a mathematical state (`DrrState`, `WrrState`, `WfqState`)
//! built on the shared `Link`; what holds of every schedule, such as
//! conservation of packets, first-in-first-out order within a flow and
//! termination, is proved over those states in the modules whose names end
//! in `_laws`.

pub mod flow;
pub mod packet;
pub mod scheduling;
