//! A verified VLSM (Variable Length Subnet Masking) allocator.
//!
//! Given a parent IPv4 network and a list of required host counts, the
//! allocator chooses a prefix length for each requirement, lays the resulting
//! sub-networks out contiguously inside the parent, largest first, and
//! reports a structured error when the parent has insufficient address space.

pub mod net;
pub mod sort;
pub mod vlsm;
pub mod laws;
pub mod form;
