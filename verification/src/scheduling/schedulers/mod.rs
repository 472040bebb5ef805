//! The scheduling disciplines.

pub mod drr;
pub mod drr_laws;
pub mod wrr;
pub mod wrr_laws;
pub mod wfq;
pub mod wfq_laws;
