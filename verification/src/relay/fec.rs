//! Adaptive forward error correction (FEC) with Reed-Solomon codes.
//!
//! Data is grouped into blocks of `data_shards` shards and `parity_shards`
//! recovery shards are added; any `data_shards` of the total reconstruct the
//! block. The parity ratio follows the loss rate measured on the path.
use reed_solomon_erasure::galois_8::ReedSolomon;
use vstd::prelude::*;

verus! {

/// Declares the error type of the `reed-solomon-erasure` crate.
#[verifier::external_type_specification]
#[verifier::external_body]
pub struct ExRsError(reed_solomon_erasure::Error);

/// The parity shards that the Reed-Solomon code over GF(2^8) computes for the
/// data shards `data` (one code per pair of data and parity shard counts).
pub uninterp spec fn rs_parity(data: Seq<Seq<u8>>, parity_shards: nat) -> Seq<Seq<u8>>;

/// The full set of shards that Reed-Solomon reconstruction yields from the
/// partial set `shards`, of which the last `parity_shards` are parity.
pub uninterp spec fn rs_recovered(shards: Seq<Option<Seq<u8>>>, parity_shards: nat) -> Seq<Seq<u8>>;

/// A shard configuration that the Reed-Solomon codec accepts.
pub open spec fn codec_ok(data_shards: nat, parity_shards: nat) -> bool {
    data_shards > 0 && parity_shards > 0 && data_shards + parity_shards <= 256
}

/// Nonempty shards that all have the same nonzero length.
pub open spec fn uniform(s: Seq<Seq<u8>>) -> bool {
    &&& s.len() > 0
    &&& s[0].len() > 0
    &&& forall|i: int| 0 <= i < s.len() ==> #[trigger] s[i].len() == s[0].len()
}

/// The data shards followed by their parity shards.
pub open spec fn codeword(data: Seq<Seq<u8>>, parity_shards: nat) -> Seq<Seq<u8>> {
    data + rs_parity(data, parity_shards)
}

/// `cw` is a complete, uniform Reed-Solomon block with `data_shards` data shards.
pub open spec fn is_codeword(cw: Seq<Seq<u8>>, data_shards: nat, parity_shards: nat) -> bool {
    &&& cw.len() == data_shards + parity_shards
    &&& uniform(cw)
    &&& cw == codeword(cw.take(data_shards as int), parity_shards)
}

/// Number of shards present in a partial block.
pub open spec fn present_count(s: Seq<Option<Seq<u8>>>) -> nat
    decreases s.len(),
{
    if s.len() == 0 {
        0
    } else {
        present_count(s.drop_last()) + if s.last() is Some {
            1nat
        } else {
            0nat
        }
    }
}

/// The partial block has the right number of slots, its present shards have
/// one nonzero length, and at least `data_shards` of them are present.
pub open spec fn reconstructible(s: Seq<Option<Seq<u8>>>, data_shards: nat, parity_shards: nat) -> bool {
    &&& s.len() == data_shards + parity_shards
    &&& present_count(s) >= data_shards
    &&& forall|i: int| 0 <= i < s.len() && s[i] is Some ==> (#[trigger] s[i])->0.len() > 0
    &&& forall|i: int, j: int|
        0 <= i < s.len() && 0 <= j < s.len() && s[i] is Some && s[j] is Some ==> (#[trigger] s[i])->0.len()
            == (#[trigger] s[j])->0.len()
}

/// Every present shard of `s` is the shard at the same place in `cw`.
pub open spec fn agrees(s: Seq<Option<Seq<u8>>>, cw: Seq<Seq<u8>>) -> bool {
    &&& s.len() == cw.len()
    &&& forall|i: int| 0 <= i < s.len() && (#[trigger] s[i]) is Some ==> s[i]->0 == cw[i]
}

/// All shards present.
pub open spec fn all_present(cw: Seq<Seq<u8>>) -> Seq<Option<Seq<u8>>> {
    cw.map_values(|x: Seq<u8>| Some(x))
}

/// Calls `ReedSolomon::new(data_shards, parity_shards)` and `encode` on
/// `shards`. `ReedSolomon::new` accepts these counts and `encode` returns `Ok`
/// for a full set of equal, nonempty shards; it keeps the data shards and
/// overwrites the parity slots with the code's parity shards.
#[verifier::external_body]
fn rs_encode(data_shards: usize, parity_shards: usize, shards: &mut Vec<Vec<u8>>) -> (r: Result<
    (),
    reed_solomon_erasure::Error,
>)
    requires
        codec_ok(data_shards as nat, parity_shards as nat),
        old(shards)@.len() == data_shards + parity_shards,
        uniform(old(shards).deep_view()),
    ensures
        r is Ok,
        final(shards).deep_view().len() == old(shards).deep_view().len(),
        forall|i: int|
            0 <= i < old(shards)@.len() ==> (#[trigger] final(shards).deep_view()[i]).len() == old(
                shards,
            ).deep_view()[i].len(),
        final(shards).deep_view().take(data_shards as int) == old(shards).deep_view().take(
            data_shards as int,
        ),
        final(shards).deep_view().skip(data_shards as int) == rs_parity(
            old(shards).deep_view().take(data_shards as int),
            parity_shards as nat,
        ),
{
    match ReedSolomon::new(data_shards, parity_shards) {
        Ok(rs) => rs.encode(shards),
        Err(e) => Err(e),
    }
}

/// Calls `ReedSolomon::new(data_shards, parity_shards)` and `reconstruct` on
/// `shards`. `reconstruct` succeeds exactly when the slot count is right, the
/// present shards share one nonzero length and at least `data_shards` are
/// present; on an error nothing is touched; on success every slot is filled,
/// present shards unchanged. The code is a Reed-Solomon erasure code: a block
/// encoded by `encode` is restored from any `data_shards` of its shards.
#[verifier::external_body]
fn rs_reconstruct(data_shards: usize, parity_shards: usize, shards: &mut [Option<Vec<u8>>]) -> (r:
    Result<(), reed_solomon_erasure::Error>)
    requires
        codec_ok(data_shards as nat, parity_shards as nat),
    ensures
        r is Ok <==> reconstructible(old(shards).deep_view(), data_shards as nat, parity_shards as nat),
        r is Err ==> final(shards).deep_view() == old(shards).deep_view(),
        r is Ok ==> final(shards).deep_view() == all_present(
            rs_recovered(old(shards).deep_view(), parity_shards as nat),
        ),
        r is Ok ==> forall|i: int|
            0 <= i < old(shards).deep_view().len() && (#[trigger] old(shards).deep_view()[i]) is Some
                ==> final(shards).deep_view()[i] == old(shards).deep_view()[i],
        r is Ok ==> forall|cw: Seq<Seq<u8>>|
            is_codeword(cw, data_shards as nat, parity_shards as nat) && #[trigger] agrees(
                old(shards).deep_view(),
                cw,
            ) ==> rs_recovered(old(shards).deep_view(), parity_shards as nat) == cw,
{
    match ReedSolomon::new(data_shards, parity_shards) {
        Ok(rs) => rs.reconstruct(shards),
        Err(e) => Err(e),
    }
}

/// FEC configuration: shard counts per block.
#[derive(Debug, Clone, Copy)]
pub struct FecConfig {
    pub data_shards: usize,
    pub parity_shards: usize,
}

/// The configuration for a loss rate of `lost` out of `window` packets:
/// below 0.5% 20+1, below 1% 10+2, below 3% 10+4, below 5% 8+4, else 6+4.
pub open spec fn config_for_loss(lost: nat, window: nat) -> (usize, usize) {
    if 200 * lost < window {
        (20, 1)
    } else if 100 * lost < window {
        (10, 2)
    } else if 100 * lost < 3 * window {
        (10, 4)
    } else if 20 * lost < window {
        (8, 4)
    } else {
        (6, 4)
    }
}

impl FecConfig {
    /// Data plus parity shards.
    pub fn total_shards(&self) -> (t: usize)
        requires
            self.data_shards + self.parity_shards <= usize::MAX,
        ensures
            t == self.data_shards + self.parity_shards,
    {
        self.data_shards + self.parity_shards
    }
}

/// Reed-Solomon encoder/decoder for a fixed shard configuration.
pub struct FecEncoder {
    pub config: FecConfig,
}

impl FecEncoder {
    /// Create an encoder for the given data/parity shard counts.
    pub fn new(config: FecConfig) -> (e: Self)
        requires
            codec_ok(config.data_shards as nat, config.parity_shards as nat),
        ensures
            e.config == config,
    {
        FecEncoder { config }
    }

    /// Encode a block of data shards, all of one nonzero length: pads the
    /// block with zero shards up to the total shard count, then overwrites
    /// every slot after the first `data_shards` with the parity shards.
    pub fn encode(&self, shards: &mut Vec<Vec<u8>>)
        requires
            codec_ok(self.config.data_shards as nat, self.config.parity_shards as nat),
            1 <= old(shards)@.len() <= self.config.data_shards + self.config.parity_shards,
            uniform(old(shards).deep_view()),
        ensures
            final(shards).deep_view() == codeword(
                padded(
                    old(shards).deep_view(),
                    self.config.data_shards as nat,
                    old(shards).deep_view()[0].len(),
                ),
                self.config.parity_shards as nat,
            ),
            is_codeword(
                final(shards).deep_view(),
                self.config.data_shards as nat,
                self.config.parity_shards as nat,
            ),
    {
        let d = self.config.data_shards;
        let p = self.config.parity_shards;
        let total = self.config.total_shards();
        let shard_len = shards[0].len();
        let ghost old_dv = shards.deep_view();
        while shards.len() < total
            invariant
                total == d + p,
                old_dv.len() <= shards@.len() <= total,
                shard_len == old_dv[0].len(),
                shards.deep_view().take(old_dv.len() as int) == old_dv,
                forall|i: int|
                    old_dv.len() <= i < shards@.len() ==> #[trigger] shards.deep_view()[i]
                        == Seq::new(shard_len as nat, |k: int| 0u8),
                uniform(old_dv),
                uniform(shards.deep_view()),
            decreases total - shards@.len(),
        {
            let z: Vec<u8> = vec![0u8; shard_len];
            let ghost before = shards.deep_view();
            shards.push(z);
            proof {
                assert(shards.deep_view() =~= before.push(z.deep_view()));
                assert(z.deep_view() =~= Seq::new(shard_len as nat, |k: int| 0u8));
                assert(shards.deep_view().take(old_dv.len() as int) =~= before.take(
                    old_dv.len() as int,
                ));
            }
        }
        let ghost full = shards.deep_view();
        let r = rs_encode(d, p, shards);
        proof {
            let data = padded(old_dv, d as nat, old_dv[0].len());
            assert(full.take(d as int) =~= data) by {
                assert forall|i: int| 0 <= i < d implies #[trigger] full.take(d as int)[i] == data[i] by {
                    if i < old_dv.len() {
                        assert(full.take(old_dv.len() as int)[i] == old_dv[i]);
                    }
                }
            }
            let fin = shards.deep_view();
            assert(fin =~= fin.take(d as int) + fin.skip(d as int));
            assert(fin.take(d as int) == data);
            assert(uniform(fin)) by {
                assert forall|i: int| 0 <= i < fin.len() implies #[trigger] fin[i].len() == fin[0].len() by {
                    assert(fin[i].len() == full[i].len());
                    assert(fin[0].len() == full[0].len());
                }
            }
        }
    }

    /// Reconstruct missing shards; `None` marks a lost shard. On success every
    /// slot is filled; on failure nothing changes.
    pub fn reconstruct(&self, shards: &mut [Option<Vec<u8>>]) -> (r: Result<(), FecError>)
        requires
            codec_ok(self.config.data_shards as nat, self.config.parity_shards as nat),
        ensures
            r is Ok <==> reconstructible(
                old(shards).deep_view(),
                self.config.data_shards as nat,
                self.config.parity_shards as nat,
            ),
            r is Err ==> r == Err::<(), FecError>(FecError::TooManyLost) && final(shards).deep_view()
                == old(shards).deep_view(),
            r is Ok ==> final(shards).deep_view() == all_present(
                rs_recovered(old(shards).deep_view(), self.config.parity_shards as nat),
            ),
            r is Ok ==> forall|i: int|
                0 <= i < old(shards).deep_view().len() && (#[trigger] old(shards).deep_view()[i]) is Some
                    ==> final(shards).deep_view()[i] == old(shards).deep_view()[i],
            forall|cw: Seq<Seq<u8>>|
                is_codeword(cw, self.config.data_shards as nat, self.config.parity_shards as nat)
                    && #[trigger] agrees(old(shards).deep_view(), cw) && present_count(
                    old(shards).deep_view(),
                ) >= self.config.data_shards ==> r is Ok && final(shards).deep_view()
                    == all_present(cw),
    {
        let ghost o = shards.deep_view();
        let r = rs_reconstruct(self.config.data_shards, self.config.parity_shards, shards);
        proof {
            assert forall|cw: Seq<Seq<u8>>|
                is_codeword(cw, self.config.data_shards as nat, self.config.parity_shards as nat)
                    && #[trigger] agrees(o, cw) && present_count(o) >= self.config.data_shards
                    implies r is Ok && shards.deep_view() == all_present(cw) by {
                lemma_agreeing_is_reconstructible(
                    o,
                    cw,
                    self.config.data_shards as nat,
                    self.config.parity_shards as nat,
                );
            }
        }
        match r {
            Ok(()) => Ok(()),
            Err(_) => Err(FecError::TooManyLost),
        }
    }
}

/// The first `d` shards of a block, padded with zero shards of length `len`.
pub open spec fn padded(s: Seq<Seq<u8>>, d: nat, len: nat) -> Seq<Seq<u8>> {
    Seq::new(d, |i: int| if i < s.len() { s[i] } else { Seq::new(len, |k: int| 0u8) })
}

/// A partial block that agrees with a complete block and keeps at least
/// `d` shards can be reconstructed.
pub proof fn lemma_agreeing_is_reconstructible(s: Seq<Option<Seq<u8>>>, cw: Seq<Seq<u8>>, d: nat, p: nat)
    requires
        is_codeword(cw, d, p),
        agrees(s, cw),
        present_count(s) >= d,
    ensures
        reconstructible(s, d, p),
{
    assert forall|i: int| 0 <= i < s.len() && s[i] is Some implies (#[trigger] s[i])->0.len() > 0 by {
        assert(cw[i].len() == cw[0].len());
    }
    assert forall|i: int, j: int|
        0 <= i < s.len() && 0 <= j < s.len() && s[i] is Some && s[j] is Some implies (#[trigger] s[i])->0.len()
            == (#[trigger] s[j])->0.len() by {
        assert(cw[i].len() == cw[0].len());
        assert(cw[j].len() == cw[0].len());
    }
}

/// Losing at most `parity_shards` shards of an encoded block leaves it
/// reconstructible: a block of `d + p` slots with at most `p` empty ones has
/// at least `d` present.
pub proof fn lemma_loss_within_parity(s: Seq<Option<Seq<u8>>>, d: nat, p: nat)
    requires
        s.len() == d + p,
        s.len() - present_count(s) <= p,
    ensures
        present_count(s) >= d,
{
}

proof fn lemma_below_threshold(l1: nat, n1: nat, l2: nat, n2: nat, a: nat, b: nat)
    requires
        n1 > 0,
        n2 > 0,
        l1 * n2 <= l2 * n1,
        a * l2 < b * n2,
    ensures
        a * l1 < b * n1,
{
    assert(a * (l1 * n2) <= a * (l2 * n1)) by (nonlinear_arith)
        requires
            l1 * n2 <= l2 * n1,
    ;
    assert((a * l2) * n1 < (b * n2) * n1) by (nonlinear_arith)
        requires
            a * l2 < b * n2,
            n1 > 0,
    ;
    assert(a * l1 * n2 < b * n1 * n2) by (nonlinear_arith)
        requires
            a * (l1 * n2) <= a * (l2 * n1),
            (a * l2) * n1 < (b * n2) * n1,
    ;
    assert(a * l1 < b * n1) by (nonlinear_arith)
        requires
            a * l1 * n2 < b * n1 * n2,
            n2 > 0,
    ;
}

/// A loss rate no lower than another never gets less redundancy: at least as
/// many parity shards, and a parity-to-data ratio at least as high.
pub proof fn lemma_more_loss_more_parity(l1: nat, n1: nat, l2: nat, n2: nat)
    requires
        n1 > 0,
        n2 > 0,
        l1 * n2 <= l2 * n1,
    ensures
        config_for_loss(l1, n1).1 <= config_for_loss(l2, n2).1,
        config_for_loss(l1, n1).1 * config_for_loss(l2, n2).0 <= config_for_loss(l2, n2).1
            * config_for_loss(l1, n1).0,
{
    if 200 * l2 < n2 {
        lemma_below_threshold(l1, n1, l2, n2, 200, 1);
    }
    if 100 * l2 < n2 {
        lemma_below_threshold(l1, n1, l2, n2, 100, 1);
    }
    if 100 * l2 < 3 * n2 {
        lemma_below_threshold(l1, n1, l2, n2, 100, 3);
    }
    if 20 * l2 < n2 {
        lemma_below_threshold(l1, n1, l2, n2, 20, 1);
    }
}

/// Track loss rate over a sliding window.
pub struct LossTracker {
    window: Vec<bool>,
    pos: usize,
    count: usize,
}

/// Number of `false` (lost) entries.
pub open spec fn lost_in(w: Seq<bool>) -> nat
    decreases w.len(),
{
    if w.len() == 0 {
        0
    } else {
        lost_in(w.drop_last()) + if w.last() {
            0nat
        } else {
            1nat
        }
    }
}

pub(crate) proof fn lemma_lost_in_update(w: Seq<bool>, i: int, b: bool)
    requires
        0 <= i < w.len(),
    ensures
        lost_in(w.update(i, b)) + (if w[i] {
            0int
        } else {
            1int
        }) == lost_in(w) + (if b {
            0int
        } else {
            1int
        }),
        lost_in(w) <= w.len(),
    decreases w.len(),
{
    let w2 = w.update(i, b);
    if i == w.len() - 1 {
        assert(w2.drop_last() =~= w.drop_last());
        lemma_lost_in_bound(w.drop_last());
    } else {
        lemma_lost_in_update(w.drop_last(), i, b);
        assert(w2.drop_last() =~= w.drop_last().update(i, b));
    }
}

proof fn lemma_lost_in_bound(w: Seq<bool>)
    ensures
        lost_in(w) <= w.len(),
    decreases w.len(),
{
    if w.len() > 0 {
        lemma_lost_in_bound(w.drop_last());
    }
}

pub(crate) proof fn lemma_lost_in_all_received(n: nat)
    ensures
        lost_in(Seq::new(n, |i: int| true)) == 0,
    decreases n,
{
    if n > 0 {
        assert(Seq::new(n, |i: int| true).drop_last() =~= Seq::new((n - 1) as nat, |i: int| true));
        lemma_lost_in_all_received((n - 1) as nat);
    }
}

impl LossTracker {
    /// The window, oldest-overwritten slot at `position()`: `true` = received.
    pub closed spec fn entries(&self) -> Seq<bool> {
        self.window@
    }

    /// The slot the next record overwrites.
    pub closed spec fn position(&self) -> nat {
        self.pos as nat
    }

    /// The lost count matches the window, and the position is inside a
    /// nonempty window (or 0 for an empty one).
    pub closed spec fn wf(&self) -> bool {
        &&& self.count == lost_in(self.window@)
        &&& (self.window@.len() > 0 ==> self.pos < self.window@.len())
        &&& (self.window@.len() == 0 ==> self.pos == 0)
    }

    /// The next slot to overwrite lies inside a nonempty window.
    pub proof fn lemma_position_in_window(&self)
        requires
            self.wf(),
            self.entries().len() > 0,
        ensures
            self.position() < self.entries().len(),
    {
    }

    /// A window of `window_size` slots, all counted as received.
    pub fn new(window_size: usize) -> (t: Self)
        ensures
            t.wf(),
            t.entries() == Seq::new(window_size as nat, |i: int| true),
            t.position() == 0,
    {
        let window = vec![true; window_size];
        proof {
            assert(window@ =~= Seq::new(window_size as nat, |i: int| true));
            lemma_lost_in_all_received(window_size as nat);
        }
        LossTracker { window, pos: 0, count: 0 }
    }

    /// Record whether a packet was received, overwriting the oldest slot.
    pub fn record(&mut self, received: bool)
        requires
            old(self).wf(),
            old(self).entries().len() > 0,
        ensures
            final(self).wf(),
            final(self).entries() == old(self).entries().update(
                old(self).position() as int,
                received,
            ),
            final(self).position() == (old(self).position() + 1) % old(self).entries().len(),
    {
        proof {
            assert(self.window@.len() == self.window.len());
            lemma_lost_in_update(self.window@, self.pos as int, received);
            lemma_lost_in_update(self.window@, self.pos as int, true);
            lemma_lost_in_bound(self.window@.update(self.pos as int, received));
        }
        if !self.window[self.pos] {
            self.count = self.count.saturating_sub(1);
        }
        if !received {
            self.count += 1;
        }
        self.window.set(self.pos, received);
        self.pos = (self.pos + 1) % self.window.len();
    }

    /// Number of lost packets in the window.
    pub fn lost_count(&self) -> (c: usize)
        requires
            self.wf(),
        ensures
            c == lost_in(self.entries()),
    {
        self.count
    }

    /// Number of slots in the window.
    pub fn window_len(&self) -> (n: usize)
        ensures
            n == self.entries().len(),
    {
        self.window.len()
    }

    /// The recommended FEC config for the current loss rate (lost over window
    /// size, thresholds as in `config_for_loss`).
    pub fn recommended_config(&self) -> (c: FecConfig)
        requires
            self.wf(),
        ensures
            (c.data_shards, c.parity_shards) == config_for_loss(
                lost_in(self.entries()),
                self.entries().len(),
            ),
    {
        let lost = self.count as u128;
        let n = self.window.len() as u128;
        if 200 * lost < n {
            FecConfig { data_shards: 20, parity_shards: 1 }
        } else if 100 * lost < n {
            FecConfig { data_shards: 10, parity_shards: 2 }
        } else if 100 * lost < 3 * n {
            FecConfig { data_shards: 10, parity_shards: 4 }
        } else if 20 * lost < n {
            FecConfig { data_shards: 8, parity_shards: 4 }
        } else {
            FecConfig { data_shards: 6, parity_shards: 4 }
        }
    }
}

/// Errors of FEC reconstruction.
#[derive(Debug)]
pub enum FecError {
    TooManyLost,
}

impl FecError {
    /// The error's message.
    pub fn message(&self) -> (s: String)
        ensures
            s@ == "too many shards lost to reconstruct"@,
    {
        "too many shards lost to reconstruct".to_owned()
    }
}

} // verus!
