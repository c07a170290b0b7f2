//! User-facing edge: TCP and QUIC clients whose traffic is relayed over the
//! tunnel mesh.
//!
//! Flows get numeric ids; TCP flows are numbered below `QUIC_FLOW_ID_BASE`
//! and QUIC flows from it on, so that data coming back from the relay can be
//! handed to the right acceptor.

pub mod tcp_split;

use vstd::prelude::*;

verus! {

/// The first flow id of the QUIC edge; TCP flow ids lie below it.
pub const QUIC_FLOW_ID_BASE: u32 = 1_000_000;

/// The edge that serves a flow.
#[derive(Debug, Clone, Copy, PartialEq, Eq, Structural)]
pub enum EdgeKind {
    Tcp,
    Quic,
}

/// The edge that data for flow `flow_id` is delivered to: TCP below
/// `QUIC_FLOW_ID_BASE`, QUIC from it on.
pub fn delivery_edge(flow_id: u32) -> (e: EdgeKind)
    ensures
        e == (if flow_id < QUIC_FLOW_ID_BASE {
            EdgeKind::Tcp
        } else {
            EdgeKind::Quic
        }),
{
    if flow_id < QUIC_FLOW_ID_BASE {
        EdgeKind::Tcp
    } else {
        EdgeKind::Quic
    }
}

} // verus!
