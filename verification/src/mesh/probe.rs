//! Latency probing between PoP peers.
//!
//! A PING carries a 4-byte probe id; the PONG echoes it. The RTT between
//! sending the PING and handling its PONG is folded into the latency matrix in
//! both directions. Probes older than ten seconds are dropped.
use super::latency_matrix::{
    duration_as_micros, duration_from_micros, is_update, lemma_smoothing_follows_sample, LatencyMatrix,
};
use dashmap::DashMap;
use std::time::{Duration, Instant};
use vstd::prelude::*;

verus! {

/// Declares `dashmap::DashMap`.
#[verifier::external_type_specification]
#[verifier::external_body]
#[verifier::reject_recursive_types(K)]
#[verifier::reject_recursive_types(V)]
#[verifier::reject_recursive_types(S)]
pub struct ExDashMap<K, V, S>(DashMap<K, V, S>);

/// Pending probes: probe id to peer id and send time (microseconds).
pub type PendingMap = DashMap<u32, (String, u64)>;

/// Declares `std::time::Instant`.
#[verifier::external_type_specification]
#[verifier::external_body]
pub struct ExInstant(Instant);

/// What the map of pending probes holds: probe id to the peer it was sent to
/// and its send time in microseconds since the prober started.
pub uninterp spec fn pending_probes(m: PendingMap) -> Map<u32, (Seq<char>, u64)>;

/// Calls `DashMap::new`: an empty map.
#[verifier::external_body]
fn pending_new() -> (r: PendingMap)
    ensures
        pending_probes(r).dom() == Set::<u32>::empty(),
        pending_probes(r).dom().finite(),
{
    DashMap::new()
}

/// Calls `DashMap::insert`: the key now maps to the value (replacing any
/// earlier one), other entries unchanged; the map holds finitely many entries.
#[verifier::external_body]
fn pending_insert(m: &mut PendingMap, id: u32, peer: String, sent_us: u64)
    ensures
        pending_probes(*final(m)) == pending_probes(*old(m)).insert(id, (peer@, sent_us)),
        pending_probes(*final(m)).dom().finite(),
{
    m.insert(id, (peer, sent_us));
}

/// Calls `DashMap::remove`: the entry for `id` and the map without it, or
/// `None` and no change when there is none; the map holds finitely many entries.
#[verifier::external_body]
fn pending_remove(m: &mut PendingMap, id: &u32) -> (r: Option<(u32, (String, u64))>)
    ensures
        match r {
            Some((k, (peer, sent))) => pending_probes(*old(m)).dom().contains(*id) && k == *id
                && pending_probes(*old(m))[*id] == (peer@, sent) && pending_probes(*final(m))
                == pending_probes(*old(m)).remove(*id),
            None => !pending_probes(*old(m)).dom().contains(*id) && pending_probes(*final(m))
                == pending_probes(*old(m)),
        },
        pending_probes(*final(m)).dom().finite(),
{
    m.remove(id)
}

/// Calls `DashMap::len`: the number of entries.
#[verifier::external_body]
fn pending_len(m: &PendingMap) -> (n: usize)
    ensures
        n == pending_probes(*m).len(),
{
    m.len()
}

/// Calls `DashMap::retain` with a filter that keeps the probes that are
/// fresh at `now_us` (see `probe_is_fresh`): exactly those entries remain,
/// finitely many.
#[verifier::external_body]
fn pending_retain_fresh(m: &mut PendingMap, now_us: u64)
    ensures
        pending_probes(*final(m)) == fresh_probes(pending_probes(*old(m)), now_us),
        pending_probes(*final(m)).dom().finite(),
{
    m.retain(|_, v| probe_is_fresh(v.1, now_us));
}

/// Calls `Instant::now`; nothing is promised of the reading.
#[verifier::external_body]
fn instant_now() -> Instant {
    Instant::now()
}

/// Calls `Instant::elapsed`; nothing is promised of the reading.
#[verifier::external_body]
fn instant_elapsed(start: &Instant) -> Duration {
    start.elapsed()
}

/// Probes older than this many microseconds are dropped.
pub const PROBE_MAX_AGE_US: u64 = 10_000_000;

/// A probe sent at `sent_us` is still fresh at `now_us`.
pub open spec fn fresh(sent_us: u64, now_us: u64) -> bool {
    (if now_us >= sent_us {
        now_us - sent_us
    } else {
        0
    }) < PROBE_MAX_AGE_US
}

/// Microseconds from `sent_us` to `now_us`; 0 when the reading went back.
pub open spec fn elapsed_us(sent_us: u64, now_us: u64) -> u64 {
    if now_us >= sent_us {
        (now_us - sent_us) as u64
    } else {
        0
    }
}

/// The RTT a PONG measures is the time since its PING: `now_us - sent_us`
/// when the clock moved forward, 0 when it went back.
pub proof fn lemma_elapsed_is_time_since_ping(sent_us: u64, now_us: u64)
    ensures
        sent_us <= now_us ==> sent_us + elapsed_us(sent_us, now_us) == now_us,
        sent_us > now_us ==> elapsed_us(sent_us, now_us) == 0,
{
}

/// A PONG for a pair never measured before stores, in both directions, the
/// time since the PING was sent.
pub proof fn lemma_first_pong_stores_elapsed_time(
    m0: LatencyMatrix,
    mid: LatencyMatrix,
    m1: LatencyMatrix,
    local: Seq<char>,
    peer: Seq<char>,
    sent_us: u64,
    now_us: u64,
)
    requires
        is_update(m0, mid, local, peer, elapsed_us(sent_us, now_us)),
        is_update(mid, m1, peer, local, elapsed_us(sent_us, now_us)),
        local != peer,
        sent_us <= now_us,
        m0.rtt_of(local, peer) is None,
        m0.rtt_of(peer, local) is None,
    ensures
        m1.rtt_of(local, peer) == Some((now_us - sent_us) as u64),
        m1.rtt_of(peer, local) == Some((now_us - sent_us) as u64),
{
    lemma_smoothing_follows_sample(m0, mid, local, peer, elapsed_us(sent_us, now_us));
    lemma_smoothing_follows_sample(mid, m1, peer, local, elapsed_us(sent_us, now_us));
    assert(mid.rtt_of(peer, local) == m0.rtt_of(peer, local));
    assert(m1.rtt_of(local, peer) == mid.rtt_of(local, peer));
}

/// The probes of `m` that are fresh at `now_us`.
pub open spec fn fresh_probes(m: Map<u32, (Seq<char>, u64)>, now_us: u64) -> Map<u32, (Seq<char>, u64)> {
    Map::new(|k: u32| m.dom().contains(k) && fresh(m[k].1, now_us), |k: u32| m[k])
}

/// Whether a probe sent at `sent_us` is still fresh at `now_us`.
pub fn probe_is_fresh(sent_us: u64, now_us: u64) -> (b: bool)
    ensures
        b == fresh(sent_us, now_us),
        now_us >= sent_us ==> (b <==> now_us - sent_us < 10_000_000),
        now_us < sent_us ==> b,
{
    now_us.saturating_sub(sent_us) < PROBE_MAX_AGE_US
}

/// Dropping stale probes keeps exactly those sent less than ten seconds
/// (10,000,000 microseconds) before `now_us`, or stamped later than it, each
/// with its peer and send time unchanged.
pub proof fn lemma_fresh_probes_keep_last_ten_seconds(
    m: Map<u32, (Seq<char>, u64)>,
    now_us: u64,
    id: u32,
)
    ensures
        fresh_probes(m, now_us).dom().contains(id) ==> m.dom().contains(id) && fresh_probes(
            m,
            now_us,
        )[id] == m[id],
        m.dom().contains(id) && m[id].1 <= now_us ==> (fresh_probes(m, now_us).dom().contains(id)
            <==> now_us - m[id].1 < 10_000_000),
        m.dom().contains(id) && m[id].1 > now_us ==> fresh_probes(m, now_us).dom().contains(id),
{
}

/// The four little-endian bytes of `x`.
pub open spec fn le_bytes_u32(x: u32) -> Seq<u8> {
    seq![(x & 0xff) as u8, ((x >> 8) & 0xff) as u8, ((x >> 16) & 0xff) as u8, ((x >> 24) & 0xff) as u8]
}

/// The `u32` whose little-endian bytes are `b[0..4]`.
pub open spec fn u32_from_le(b: Seq<u8>) -> u32 {
    (b[0] as u32) | ((b[1] as u32) << 8) | ((b[2] as u32) << 16) | ((b[3] as u32) << 24)
}

/// Reading back the bytes of a probe id gives the id.
pub proof fn lemma_probe_id_roundtrip(x: u32)
    ensures
        u32_from_le(le_bytes_u32(x)) == x,
{
    assert(x == (((x & 0xff) as u8) as u32) | (((((x >> 8) & 0xff) as u8) as u32) << 8) | (((((x
        >> 16) & 0xff) as u8) as u32) << 16) | (((((x >> 24) & 0xff) as u8) as u32) << 24))
        by (bit_vector);
}

/// Continuous latency prober for the PoP peers of one node.
pub struct Prober {
    node_id: String,
    matrix: LatencyMatrix,
    pending: PendingMap,
    next_probe_id: u32,
    epoch: Instant,
}

impl Prober {
    /// The local node's identifier.
    pub closed spec fn local_id(&self) -> Seq<char> {
        self.node_id@
    }

    /// The latency matrix the prober feeds.
    pub closed spec fn latencies(&self) -> LatencyMatrix {
        self.matrix
    }

    /// Probes awaiting a PONG: id to peer and send time.
    pub closed spec fn pending(&self) -> Map<u32, (Seq<char>, u64)> {
        pending_probes(self.pending)
    }

    /// The id the next PING gets.
    pub closed spec fn next_id(&self) -> u32 {
        self.next_probe_id
    }

    /// Create a prober for `node_id` that feeds `matrix`.
    pub fn new(node_id: String, matrix: LatencyMatrix) -> (p: Self)
        ensures
            p.local_id() == node_id@,
            p.latencies() == matrix,
            p.pending().dom() == Set::<u32>::empty(),
            p.pending().dom().finite(),
            p.next_id() == 1,
    {
        Prober {
            node_id,
            matrix,
            pending: pending_new(),
            next_probe_id: 1,
            epoch: instant_now(),
        }
    }

    /// Microseconds since the prober was created (capped at `u64::MAX`).
    fn now_us(&self) -> u64 {
        let d = instant_elapsed(&self.epoch);
        let us = duration_as_micros(&d);
        if us > 0xffff_ffff_ffff_ffffu128 {
            u64::MAX
        } else {
            us as u64
        }
    }

    /// Create a PING payload at time `now_us` (microseconds since the prober
    /// started): the 4 little-endian bytes of a fresh probe id. The probe is
    /// recorded as pending with send time `now_us`, and probes that are no
    /// longer fresh at `now_us` are dropped.
    pub fn create_ping_at(&mut self, peer_id: &str, now_us: u64) -> (r: Vec<u8>)
        ensures
            r@ == le_bytes_u32(old(self).next_id()),
            final(self).next_id() == (old(self).next_id() + 1) % 0x1_0000_0000,
            final(self).local_id() == old(self).local_id(),
            final(self).latencies() == old(self).latencies(),
            final(self).pending() == fresh_probes(
                old(self).pending().insert(old(self).next_id(), (peer_id@, now_us)),
                now_us,
            ),
            final(self).pending().dom().finite(),
            final(self).pending().dom().contains(old(self).next_id()),
            final(self).pending()[old(self).next_id()] == (peer_id@, now_us),
            forall|k: u32|
                #[trigger] old(self).pending().dom().contains(k) && k != old(self).next_id()
                    && old(self).pending()[k].1 <= now_us ==> (final(self).pending().dom().contains(k)
                    <==> now_us - old(self).pending()[k].1 < 10_000_000),
    {
        let probe_id = self.next_probe_id;
        self.next_probe_id = probe_id.wrapping_add(1);
        let peer = peer_id.to_owned();
        let ghost inserted = old(self).pending().insert(probe_id, (peer_id@, now_us));
        pending_insert(&mut self.pending, probe_id, peer, now_us);
        pending_retain_fresh(&mut self.pending, now_us);
        assert(self.pending() == fresh_probes(inserted, now_us));
        assert(inserted.dom().contains(probe_id) && fresh(inserted[probe_id].1, now_us));
        assert forall|k: u32|
            #[trigger] old(self).pending().dom().contains(k) && k != probe_id && old(self).pending()[k].1
                <= now_us implies (self.pending().dom().contains(k) <==> now_us - old(
            self,
        ).pending()[k].1 < 10_000_000) by {
            lemma_fresh_probes_keep_last_ten_seconds(inserted, now_us, k);
            assert(inserted[k] == old(self).pending()[k]);
        }
        let mut r: Vec<u8> = Vec::new();
        r.push((probe_id & 0xff) as u8);
        r.push(((probe_id >> 8) & 0xff) as u8);
        r.push(((probe_id >> 16) & 0xff) as u8);
        r.push(((probe_id >> 24) & 0xff) as u8);
        assert(r@ =~= le_bytes_u32(probe_id));
        r
    }

    /// Create a PING payload (the 4 little-endian bytes of a fresh probe id),
    /// record the probe as pending with the current time, and drop probes
    /// older than ten seconds (see `create_ping_at`).
    pub fn create_ping(&mut self, peer_id: &str) -> (r: Vec<u8>)
        ensures
            r@ == le_bytes_u32(old(self).next_id()),
            final(self).next_id() == (old(self).next_id() + 1) % 0x1_0000_0000,
            final(self).local_id() == old(self).local_id(),
            final(self).latencies() == old(self).latencies(),
            exists|now: u64|
                final(self).pending() == fresh_probes(
                    #[trigger] old(self).pending().insert(old(self).next_id(), (peer_id@, now)),
                    now,
                ),
            final(self).pending().dom().finite(),
            final(self).pending().dom().contains(old(self).next_id()),
            final(self).pending()[old(self).next_id()].0 == peer_id@,
    {
        let now = self.now_us();
        self.create_ping_at(peer_id, now)
    }

    /// Create a PONG payload by echoing the PING payload.
    pub fn create_pong(ping_payload: &[u8]) -> (r: Vec<u8>)
        ensures
            r@ == ping_payload@,
    {
        let mut r: Vec<u8> = Vec::new();
        let n = ping_payload.len();
        for i in 0..n
            invariant
                n == ping_payload@.len(),
                r@ == ping_payload@.subrange(0, i as int),
        {
            r.push(ping_payload[i]);
            assert(r@ =~= ping_payload@.subrange(0, i + 1));
        }
        assert(ping_payload@.subrange(0, n as int) =~= ping_payload@);
        r
    }

    /// Handle an incoming PONG at time `now_us`: when its first four bytes
    /// name a pending probe, drop the probe and fold the RTT (`now_us` minus
    /// the probe's send time, 0 if the clock went back) into the matrix in
    /// both directions (local → peer, then peer → local). Shorter payloads
    /// and unknown ids change nothing.
    pub fn handle_pong_at(&mut self, from_peer: &str, payload: &[u8], now_us: u64)
        requires
            old(self).latencies().wf(),
        ensures
            final(self).latencies().wf(),
            final(self).local_id() == old(self).local_id(),
            final(self).next_id() == old(self).next_id(),
            old(self).pending().dom().finite() ==> final(self).pending().dom().finite(),
            payload@.len() < 4 ==> final(self).pending() == old(self).pending()
                && final(self).latencies() == old(self).latencies(),
            payload@.len() >= 4 && !old(self).pending().dom().contains(u32_from_le(payload@))
                ==> final(self).pending() == old(self).pending() && final(self).latencies() == old(
                self).latencies(),
            payload@.len() >= 4 && old(self).pending().dom().contains(u32_from_le(payload@))
                ==> final(self).pending() == old(self).pending().remove(u32_from_le(payload@)),
            payload@.len() >= 4 && old(self).pending().dom().contains(u32_from_le(payload@))
                && old(self).latencies().ids().len() + 4 <= usize::MAX ==> exists|mid: LatencyMatrix|
                is_update(
                    old(self).latencies(),
                    mid,
                    old(self).local_id(),
                    old(self).pending()[u32_from_le(payload@)].0,
                    elapsed_us(old(self).pending()[u32_from_le(payload@)].1, now_us),
                ) && #[trigger] is_update(
                    mid,
                    final(self).latencies(),
                    old(self).pending()[u32_from_le(payload@)].0,
                    old(self).local_id(),
                    elapsed_us(old(self).pending()[u32_from_le(payload@)].1, now_us),
                ),
            payload@.len() >= 4 && old(self).pending().dom().contains(u32_from_le(payload@))
                && old(self).latencies().ids().len() + 4 > usize::MAX ==> final(self).latencies()
                == old(self).latencies(),
            ({
                let id = u32_from_le(payload@);
                let (peer, sent) = old(self).pending()[id];
                payload@.len() >= 4 && old(self).pending().dom().contains(id)
                    && old(self).latencies().ids().len() + 4 <= usize::MAX && peer != old(
                    self,
                ).local_id() && sent <= now_us ==> {
                    &&& old(self).latencies().rtt_of(old(self).local_id(), peer) is None
                        ==> final(self).latencies().rtt_of(old(self).local_id(), peer) == Some(
                        (now_us - sent) as u64,
                    )
                    &&& old(self).latencies().rtt_of(old(self).local_id(), peer) matches Some(o) ==> {
                        &&& final(self).latencies().rtt_of(old(self).local_id(), peer) is Some
                        &&& 8 * final(self).latencies().rtt_of(old(self).local_id(), peer)->0 <= 7 * o
                            + (now_us - sent)
                        &&& 7 * o + (now_us - sent) < 8 * final(self).latencies().rtt_of(
                            old(self).local_id(),
                            peer,
                        )->0 + 8
                    }
                }
            }),
    {
        if payload.len() < 4 {
            return;
        }
        let probe_id: u32 = (payload[0] as u32) | ((payload[1] as u32) << 8) | ((payload[2] as u32)
            << 16) | ((payload[3] as u32) << 24);
        assert(probe_id == u32_from_le(payload@));
        match pending_remove(&mut self.pending, &probe_id) {
            None => {},
            Some((_, (peer_id, sent_us))) => {
                let us = now_us.saturating_sub(sent_us);
                let rtt = duration_from_micros(us);
                assert(super::latency_matrix::sample_micros(rtt) == us);
                assert(us == elapsed_us(sent_us, now_us));
                if self.matrix.node_count() <= usize::MAX - 4 {
                    let ghost m0 = self.matrix;
                    self.matrix.update(self.node_id.as_str(), peer_id.as_str(), rtt);
                    let ghost m1 = self.matrix;
                    self.matrix.update(peer_id.as_str(), self.node_id.as_str(), rtt);
                    assert(is_update(m0, m1, self.node_id@, peer_id@, us));
                    assert(is_update(m1, self.matrix, peer_id@, self.node_id@, us));
                    let ghost id = u32_from_le(payload@);
                    assert(peer_id@ == old(self).pending()[id].0);
                    assert(sent_us == old(self).pending()[id].1);
                    assert(is_update(
                        old(self).latencies(),
                        m1,
                        old(self).local_id(),
                        old(self).pending()[id].0,
                        elapsed_us(old(self).pending()[id].1, now_us),
                    ));
                    assert(is_update(
                        m1,
                        self.latencies(),
                        old(self).pending()[id].0,
                        old(self).local_id(),
                        elapsed_us(old(self).pending()[id].1, now_us),
                    ));
                    proof {
                        lemma_smoothing_follows_sample(m0, m1, self.node_id@, peer_id@, us);
                        lemma_elapsed_is_time_since_ping(sent_us, now_us);
                        if peer_id@ != self.node_id@ {
                            assert(self.matrix.rtt_of(self.node_id@, peer_id@) == m1.rtt_of(
                                self.node_id@,
                                peer_id@,
                            ));
                        }
                    }
                }
            },
        }
    }

    /// Handle an incoming PONG at the current time (see `handle_pong_at`).
    pub fn handle_pong(&mut self, from_peer: &str, payload: &[u8])
        requires
            old(self).latencies().wf(),
        ensures
            final(self).latencies().wf(),
            final(self).local_id() == old(self).local_id(),
            final(self).next_id() == old(self).next_id(),
            old(self).pending().dom().finite() ==> final(self).pending().dom().finite(),
            payload@.len() < 4 ==> final(self).pending() == old(self).pending()
                && final(self).latencies() == old(self).latencies(),
            payload@.len() >= 4 && !old(self).pending().dom().contains(u32_from_le(payload@))
                ==> final(self).pending() == old(self).pending() && final(self).latencies() == old(
                self).latencies(),
            payload@.len() >= 4 && old(self).pending().dom().contains(u32_from_le(payload@))
                ==> final(self).pending() == old(self).pending().remove(u32_from_le(payload@)),
            payload@.len() >= 4 && old(self).pending().dom().contains(u32_from_le(payload@))
                && old(self).latencies().ids().len() + 4 <= usize::MAX ==> exists|
                mid: LatencyMatrix,
                now: u64,
            |
                is_update(
                    old(self).latencies(),
                    mid,
                    old(self).local_id(),
                    old(self).pending()[u32_from_le(payload@)].0,
                    elapsed_us(old(self).pending()[u32_from_le(payload@)].1, now),
                ) && #[trigger] is_update(
                    mid,
                    final(self).latencies(),
                    old(self).pending()[u32_from_le(payload@)].0,
                    old(self).local_id(),
                    elapsed_us(old(self).pending()[u32_from_le(payload@)].1, now),
                ),
            payload@.len() >= 4 && old(self).pending().dom().contains(u32_from_le(payload@))
                && old(self).latencies().ids().len() + 4 > usize::MAX ==> final(self).latencies()
                == old(self).latencies(),
    {
        let now = self.now_us();
        self.handle_pong_at(from_peer, payload, now);
    }

    /// The latency matrix this prober feeds.
    pub fn matrix(&self) -> (m: &LatencyMatrix)
        ensures
            *m == self.latencies(),
    {
        &self.matrix
    }

    /// Number of probes awaiting a PONG reply.
    pub fn pending_count(&self) -> (n: usize)
        ensures
            n == self.pending().len(),
    {
        pending_len(&self.pending)
    }
}

} // verus!
