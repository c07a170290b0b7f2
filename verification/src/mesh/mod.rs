//! Mesh layer: latency bookkeeping, probing and shortest-path routing.

pub mod latency_matrix;
pub mod router;
pub mod probe;
