//! A discrete-time simulation of a minimal packet-switched network: devices
//! (emitters, sinks, hubs) joined by latency-bearing links exchange packets
//! through numbered ports, one tick at a time.
pub mod laws;
pub mod model;
pub mod systems;
pub mod topology;
