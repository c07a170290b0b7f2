//! Zero-loss cross-region packet relay mesh: the verified core.
//!
//! * [`relay`] - wire framing, tunnel encryption and forward error correction.
//! * [`mesh`] - latency bookkeeping, probing and shortest-path routing.
//! * [`config`] - configuration model and its validation.
//! * [`admin`] - authorization of admin API requests.
//! * [`lossy_proxy`] - decisions of the loss-simulating test proxy.
//! * [`edge`] - delivery to the TCP or QUIC edge, and cutting client data
//!   into relay payloads.

pub mod relay;
pub mod mesh;
pub mod config;
pub mod admin;
pub mod lossy_proxy;
pub mod edge;
