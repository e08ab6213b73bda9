//! An IPv4 forwarding and distance-vector routing engine: addresses, the
//! routing-advertisement wire format, the routing table and its update rules,
//! protocol dispatch, and the decision made for every inbound frame.

pub mod addr;
pub mod cyclic;
pub mod dispatch;
pub mod dv;
pub mod interfaces;
pub mod ipv4;
pub mod partial_axioms;
pub mod rip;
pub mod routing;
pub mod state;
pub mod tcp;
pub mod total_axioms;
