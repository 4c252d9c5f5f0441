//! Link-state control plane for a programmable switch: a checked wire format,
//! shortest-path route computation over mutually advertised links, and the
//! per-switch discovery and route-installation state machine.

pub mod events;
pub mod ordered;
pub mod protocol;
pub mod routing;
pub mod switch;
