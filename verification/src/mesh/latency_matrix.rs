//! Latency matrix: the smoothed round-trip time between every pair of PoP
//! nodes that has been measured, in whole microseconds.
//!
//! Nodes are kept in a list of distinct identifiers; the matrix holds one
//! optional RTT for every ordered pair of listed nodes. New samples are folded
//! into the stored value with an exponentially weighted moving average that
//! gives the new sample a weight of 1/8.
use std::time::Duration;
use vstd::prelude::*;

verus! {

/// Whole microseconds that a `Duration` spans: the value of `Duration::as_micros`.
pub uninterp spec fn micros_of(d: Duration) -> nat;

/// Calls `Duration::as_micros`, which returns the whole number of microseconds
/// the duration spans; the contract only names that number.
#[verifier::external_body]
pub(crate) fn duration_as_micros(d: &Duration) -> (r: u128)
    ensures
        r == micros_of(*d),
{
    d.as_micros()
}

/// Calls `Duration::from_micros`; its documentation says the result spans
/// exactly `us` microseconds, so `as_micros` gives `us` back.
#[verifier::external_body]
pub(crate) fn duration_from_micros(us: u64) -> (r: Duration)
    ensures
        micros_of(r) == us,
{
    Duration::from_micros(us)
}

/// Calls `Duration::new(secs, nanos)` with `nanos` below one second (so no
/// carry into the seconds, which is where it could panic); its documentation
/// says the result spans `secs` seconds and `nanos` nanoseconds, so
/// `as_micros` gives `secs * 1_000_000 + nanos / 1000`.
#[verifier::external_body]
pub(crate) fn duration_new(secs: u64, nanos: u32) -> (r: Duration)
    requires
        nanos < 1_000_000_000,
    ensures
        micros_of(r) == secs * 1_000_000 + nanos / 1000,
{
    Duration::new(secs, nanos)
}

/// The largest whole number of microseconds a `Duration` spans.
pub open spec fn max_duration_micros() -> nat {
    0xffff_ffff_ffff_ffff * 1_000_000 + 999_999
}

/// The microsecond count that a measured RTT contributes, capped at `u64::MAX`.
pub open spec fn sample_micros(rtt: Duration) -> u64 {
    if micros_of(rtt) > u64::MAX {
        u64::MAX
    } else {
        micros_of(rtt) as u64
    }
}

/// The stored RTT after a new sample: the sample itself for a pair never
/// measured before, else seven eighths of the old value plus one eighth of
/// the sample (rounded down).
pub open spec fn smoothed(old: Option<u64>, sample: u64) -> u64 {
    match old {
        None => sample,
        Some(o) => ((7 * o + sample) / 8) as u64,
    }
}

/// `m1` is `m0` after folding `sample` into the entry `from` → `to`: that
/// entry is smoothed, every other pair keeps its RTT, and both nodes are listed.
pub open spec fn is_update(
    m0: LatencyMatrix,
    m1: LatencyMatrix,
    from: Seq<char>,
    to: Seq<char>,
    sample: u64,
) -> bool {
    &&& m1.wf()
    &&& m1.rtt_of(from, to) == Some(smoothed(m0.rtt_of(from, to), sample))
    &&& forall|a: Seq<char>, b: Seq<char>|
        !(a == from && b == to) ==> #[trigger] m1.rtt_of(a, b) == m0.rtt_of(a, b)
    &&& forall|a: Seq<char>|
        #[trigger] m1.ids().contains(a) <==> (m0.ids().contains(a) || a == from || a == to)
}

/// Smoothing follows the sample in both directions: the stored RTT after a
/// sample `s` is the sample itself for a new pair, and otherwise the floor of
/// `(7 * o + s) / 8` for the old RTT `o`; so a sample more than 7 below the old
/// RTT lowers it, and one more than 7 above raises it.
pub proof fn lemma_smoothing_follows_sample(
    m0: LatencyMatrix,
    m1: LatencyMatrix,
    from: Seq<char>,
    to: Seq<char>,
    s: u64,
)
    requires
        is_update(m0, m1, from, to, s),
    ensures
        m0.rtt_of(from, to) is None ==> m1.rtt_of(from, to) == Some(s),
        m0.rtt_of(from, to) matches Some(o) ==> {
            &&& m1.rtt_of(from, to) is Some
            &&& 8 * m1.rtt_of(from, to)->0 <= 7 * o + s
            &&& 7 * o + s < 8 * m1.rtt_of(from, to)->0 + 8
            &&& s + 7 < o ==> m1.rtt_of(from, to)->0 < o
            &&& s > o + 7 ==> m1.rtt_of(from, to)->0 > o
            &&& m1.rtt_of(from, to)->0 <= (if s > o { s } else { o })
            &&& m1.rtt_of(from, to)->0 >= (if s < o { s } else { o })
        },
{
    if let Some(o) = m0.rtt_of(from, to) {
        let v = m1.rtt_of(from, to)->0;
        let t: int = 7 * o + s;
        assert(v == t / 8);
        assert(8 * (t / 8) <= t && t < 8 * (t / 8) + 8) by (nonlinear_arith)
            requires
                t >= 0,
        ;
    }
}

/// Smoothed RTTs between measured PoP node pairs.
pub struct LatencyMatrix {
    names: Vec<String>,
    rtt: Vec<Vec<Option<u64>>>,
}

impl LatencyMatrix {
    /// The node identifiers, in the order they were first seen.
    pub closed spec fn ids(&self) -> Seq<Seq<char>> {
        self.names@.map_values(|s: String| s@)
    }

    /// The RTT matrix by node index: `weights()[i][j]` is the RTT from node
    /// `i` to node `j`, if one was measured.
    pub closed spec fn weights(&self) -> Seq<Seq<Option<u64>>> {
        self.rtt@.map_values(|r: Vec<Option<u64>>| r@)
    }

    /// Square matrix over the node list, with distinct node identifiers.
    pub closed spec fn wf(&self) -> bool {
        &&& self.rtt@.len() == self.names@.len()
        &&& forall|i: int| 0 <= i < self.rtt@.len() ==> #[trigger] self.rtt@[i]@.len() == self.names@.len()
        &&& forall|i: int, j: int|
            0 <= i < self.names@.len() && 0 <= j < self.names@.len() && i != j
                ==> #[trigger] self.names@[i]@ != #[trigger] self.names@[j]@
    }

    /// The smoothed RTT, in microseconds, measured from node `a` to node `b`.
    pub closed spec fn rtt_of(&self, a: Seq<char>, b: Seq<char>) -> Option<u64> {
        if exists|i: int, j: int|
            0 <= i < self.names@.len() && 0 <= j < self.names@.len() && #[trigger] self.names@[i]@
                == a && #[trigger] self.names@[j]@ == b {
            let (i, j) = choose|i: int, j: int|
                0 <= i < self.names@.len() && 0 <= j < self.names@.len() && #[trigger] self.names@[i]@
                    == a && #[trigger] self.names@[j]@ == b;
            self.rtt@[i]@[j]
        } else {
            None
        }
    }

    /// In a well-formed matrix the RTT between two listed nodes is the entry at
    /// their indices.
    pub proof fn lemma_rtt_of_index(&self, i: int, j: int)
        requires
            self.wf(),
            0 <= i < self.ids().len(),
            0 <= j < self.ids().len(),
        ensures
            self.weights().len() == self.ids().len(),
            self.weights()[i].len() == self.ids().len(),
            self.rtt_of(self.ids()[i], self.ids()[j]) == self.weights()[i][j],
    {
        let a = self.names@[i]@;
        let b = self.names@[j]@;
        assert(self.names@[i]@ == a && self.names@[j]@ == b);
        let (i2, j2) = choose|i2: int, j2: int|
            0 <= i2 < self.names@.len() && 0 <= j2 < self.names@.len() && #[trigger] self.names@[i2]@
                == a && #[trigger] self.names@[j2]@ == b;
        assert(i2 == i);
        assert(j2 == j);
        assert(self.rtt@[i]@.len() == self.names@.len());
    }

    /// The matrix is square over the listed nodes.
    pub proof fn lemma_shape(&self)
        requires
            self.wf(),
        ensures
            self.weights().len() == self.ids().len(),
            self.ids().len() <= usize::MAX,
            forall|i: int| 0 <= i < self.ids().len() ==> #[trigger] self.weights()[i].len() == self.ids().len(),
    {
        assert(self.names@.len() == self.names.len());
        assert forall|i: int| 0 <= i < self.ids().len() implies #[trigger] self.weights()[i].len()
            == self.ids().len() by {
            assert(self.rtt@[i]@.len() == self.names@.len());
        }
    }

    /// Listed node identifiers are distinct.
    pub proof fn lemma_ids_distinct(&self, i: int, j: int)
        requires
            self.wf(),
            0 <= i < self.ids().len(),
            0 <= j < self.ids().len(),
            self.ids()[i] == self.ids()[j],
        ensures
            i == j,
    {
        assert(self.names@[i]@ == self.ids()[i]);
        assert(self.names@[j]@ == self.ids()[j]);
    }

    /// A pair with an RTT has both of its nodes listed.
    pub proof fn lemma_rtt_of_listed(&self, a: Seq<char>, b: Seq<char>)
        requires
            self.wf(),
            self.rtt_of(a, b) is Some,
        ensures
            self.ids().contains(a),
            self.ids().contains(b),
    {
        let (i, j) = choose|i: int, j: int|
            0 <= i < self.names@.len() && 0 <= j < self.names@.len() && #[trigger] self.names@[i]@
                == a && #[trigger] self.names@[j]@ == b;
        assert(self.ids()[i] == a);
        assert(self.ids()[j] == b);
    }

    /// An empty matrix.
    pub fn new() -> (m: Self)
        ensures
            m.wf(),
            m.ids() == Seq::<Seq<char>>::empty(),
            forall|a: Seq<char>, b: Seq<char>| m.rtt_of(a, b) is None,
    {
        let m = LatencyMatrix { names: Vec::new(), rtt: Vec::new() };
        assert(m.ids() =~= Seq::<Seq<char>>::empty());
        m
    }

    /// Number of listed nodes.
    pub(crate) fn node_count(&self) -> (n: usize)
        requires
            self.wf(),
        ensures
            n == self.ids().len(),
            n == self.weights().len(),
    {
        self.names.len()
    }

    /// The identifier of node `i`.
    pub(crate) fn node_name(&self, i: usize) -> (s: &String)
        requires
            self.wf(),
            i < self.ids().len(),
        ensures
            s@ == self.ids()[i as int],
    {
        &self.names[i]
    }

    /// The RTT from node `i` to node `j`, by index.
    pub(crate) fn weight(&self, i: usize, j: usize) -> (w: Option<u64>)
        requires
            self.wf(),
            i < self.ids().len(),
            j < self.ids().len(),
        ensures
            w == self.weights()[i as int][j as int],
    {
        assert(self.rtt@[i as int]@.len() == self.names@.len());
        self.rtt[i][j]
    }

    /// The index of the node named `name`, if it is listed.
    pub(crate) fn index_of(&self, name: &str) -> (r: Option<usize>)
        requires
            self.wf(),
        ensures
            match r {
                Some(i) => i < self.ids().len() && self.ids()[i as int] == name@,
                None => !self.ids().contains(name@),
            },
    {
        let target = name.to_owned();
        let n = self.names.len();
        let mut i: usize = 0;
        while i < n
            invariant
                n == self.names@.len(),
                i <= n,
                target@ == name@,
                forall|k: int| 0 <= k < i ==> self.ids()[k] != name@,
            decreases n - i,
        {
            if self.names[i] == target {
                return Some(i);
            }
            i = i + 1;
        }
        assert forall|k: int| 0 <= k < self.ids().len() implies self.ids()[k] != name@ by {}
        None
    }

    /// Append a node that is not listed yet, with no RTT to or from it.
    fn add_node(&mut self, name: String) -> (idx: usize)
        requires
            old(self).wf(),
            !old(self).ids().contains(name@),
            old(self).ids().len() < usize::MAX,
        ensures
            final(self).wf(),
            idx == old(self).ids().len(),
            final(self).ids() == old(self).ids().push(name@),
            forall|i: int, j: int|
                0 <= i < old(self).ids().len() && 0 <= j < old(self).ids().len()
                    ==> #[trigger] final(self).weights()[i][j] == old(self).weights()[i][j],
            forall|k: int|
                0 <= k <= old(self).ids().len() ==> #[trigger] final(self).weights()[k][idx as int]
                    is None,
            forall|k: int|
                0 <= k <= old(self).ids().len() ==> #[trigger] final(self).weights()[idx as int][k]
                    is None,
    {
        let n = self.names.len();
        let ghost old_rtt = self.rtt@;
        let mut i: usize = 0;
        while i < n
            invariant
                n == self.names@.len(),
                n == old(self).names@.len(),
                self.names@ == old(self).names@,
                i <= n,
                self.rtt@.len() == n,
                old_rtt == old(self).rtt@,
                old(self).wf(),
                forall|k: int| 0 <= k < i ==> #[trigger] self.rtt@[k]@ == old_rtt[k]@.push(None),
                forall|k: int| i <= k < n ==> #[trigger] self.rtt@[k] == old_rtt[k],
            decreases n - i,
        {
            assert(self.rtt@[i as int] == old_rtt[i as int]);
            self.rtt[i].push(None);
            i = i + 1;
        }
        let row: Vec<Option<u64>> = vec![None; n + 1];
        self.rtt.push(row);
        self.names.push(name);
        proof {
            assert(self.ids() =~= old(self).ids().push(name@));
            assert forall|i: int| 0 <= i < self.rtt@.len() implies #[trigger] self.rtt@[i]@.len()
                == self.names@.len() by {
                if i < n {
                    assert(old_rtt[i]@.len() == n);
                }
            }
            assert forall|i: int, j: int|
                0 <= i < self.names@.len() && 0 <= j < self.names@.len() && i != j
                    implies #[trigger] self.names@[i]@ != #[trigger] self.names@[j]@ by {
                if i < n && j < n {
                    assert(old(self).names@[i]@ != old(self).names@[j]@);
                } else if i == n {
                    assert(old(self).ids()[j] == self.names@[j]@);
                } else {
                    assert(old(self).ids()[i] == self.names@[i]@);
                }
            }
            assert forall|i: int, j: int|
                0 <= i < old(self).ids().len() && 0 <= j < old(self).ids().len()
                    implies #[trigger] self.weights()[i][j] == old(self).weights()[i][j] by {
                assert(self.rtt@[i]@ == old_rtt[i]@.push(None));
            }
            assert forall|k: int| 0 <= k <= n implies #[trigger] self.weights()[k][n as int] is None
                && self.weights()[n as int][k] is None by {
                if k < n {
                    assert(self.rtt@[k]@ == old_rtt[k]@.push(None));
                }
            }
        }
        n
    }

    /// Fold a new RTT sample for the pair `from` → `to` into the matrix,
    /// listing either node first if it is new.
    pub fn update(&mut self, from: &str, to: &str, rtt: Duration)
        requires
            old(self).wf(),
            old(self).ids().len() + 2 <= usize::MAX,
        ensures
            is_update(*old(self), *final(self), from@, to@, sample_micros(rtt)),
            final(self).ids().len() <= old(self).ids().len() + 2,
            old(self).rtt_of(from@, to@) is None ==> final(self).rtt_of(from@, to@) == Some(
                sample_micros(rtt),
            ),
            old(self).rtt_of(from@, to@) matches Some(o) ==> {
                &&& final(self).rtt_of(from@, to@) is Some
                &&& 8 * final(self).rtt_of(from@, to@)->0 <= 7 * o + sample_micros(rtt)
                &&& 7 * o + sample_micros(rtt) < 8 * final(self).rtt_of(from@, to@)->0 + 8
            },
    {
        let m = duration_as_micros(&rtt);
        let sample: u64 = if m > 0xffff_ffff_ffff_ffffu128 {
            u64::MAX
        } else {
            m as u64
        };
        let ghost old_self = *self;
        let i = match self.index_of(from) {
            Some(i) => i,
            None => self.add_node(from.to_owned()),
        };
        let ghost mid = *self;
        let ghost old_len = old_self.ids().len() as int;
        assert(mid.ids().subrange(0, old_len) =~= old_self.ids());
        assert(forall|x: int, y: int|
            0 <= x < old_len && 0 <= y < old_len ==> #[trigger] mid.weights()[x][y]
                == old_self.weights()[x][y]);
        assert forall|x: int, y: int|
            0 <= x < mid.ids().len() && 0 <= y < mid.ids().len() && (x >= old_len || y >= old_len)
                implies #[trigger] mid.weights()[x][y] is None by {
            if x >= old_len {
                assert(mid.weights()[old_len][y] is None);
            } else {
                assert(mid.weights()[x][old_len] is None);
            }
        }
        let j = match self.index_of(to) {
            Some(j) => j,
            None => self.add_node(to.to_owned()),
        };
        let ghost mid2 = *self;
        let ghost mid_len = mid.ids().len() as int;
        assert(mid2.ids().subrange(0, mid_len) =~= mid.ids());
        assert(mid2.ids().subrange(0, old_len) =~= old_self.ids()) by {
            assert(mid2.ids().subrange(0, old_len) =~= mid2.ids().subrange(0, mid_len).subrange(
                0,
                old_len,
            ));
        }
        assert(forall|x: int, y: int|
            0 <= x < mid_len && 0 <= y < mid_len ==> #[trigger] mid2.weights()[x][y]
                == mid.weights()[x][y]);
        assert forall|x: int, y: int|
            0 <= x < mid2.ids().len() && 0 <= y < mid2.ids().len() && (x >= mid_len || y >= mid_len)
                implies #[trigger] mid2.weights()[x][y] is None by {
            if x >= mid_len {
                assert(mid2.weights()[mid_len][y] is None);
            } else {
                assert(mid2.weights()[x][mid_len] is None);
            }
        }
        assert forall|x: int, y: int|
            0 <= x < mid2.ids().len() && 0 <= y < mid2.ids().len() && (x >= old_len || y >= old_len)
                implies #[trigger] mid2.weights()[x][y] is None by {
            if x < mid_len && y < mid_len {
                assert(mid2.weights()[x][y] == mid.weights()[x][y]);
            }
        }
        assert forall|x: int, y: int|
            0 <= x < old_len && 0 <= y < old_len implies #[trigger] mid2.weights()[x][y]
                == old_self.weights()[x][y] by {
            assert(mid2.weights()[x][y] == mid.weights()[x][y]);
        }
        proof {
            assert(self.ids()[i as int] == from@);
            assert(self.ids()[j as int] == to@);
            self.lemma_rtt_of_index(i as int, j as int);
            if old_self.ids().contains(from@) && old_self.ids().contains(to@) {
                let oi = choose|k: int| 0 <= k < old_self.ids().len() && old_self.ids()[k] == from@;
                let oj = choose|k: int| 0 <= k < old_self.ids().len() && old_self.ids()[k] == to@;
                old_self.lemma_rtt_of_index(oi, oj);
                assert(oi == i as int);
                assert(oj == j as int);
            } else {
                if old_self.rtt_of(from@, to@) is Some {
                    old_self.lemma_rtt_of_listed(from@, to@);
                }
                if (i as int) < old_len && (j as int) < old_len {
                    assert(old_self.ids()[i as int] == mid2.ids()[i as int]);
                    assert(old_self.ids()[j as int] == mid2.ids()[j as int]);
                }
                assert(self.weights()[i as int][j as int] is None);
            }
        }
        let prev = self.weight(i, j);
        let next: u64 = match prev {
            None => sample,
            Some(o) => {
                let s: u128 = (7 * (o as u128) + (sample as u128)) / 8;
                s as u64
            },
        };
        assert(self.rtt@[i as int]@.len() == self.names@.len());
        self.rtt[i][j] = Some(next);
        proof {
            assert(self.wf()) by {
                assert forall|k: int| 0 <= k < self.rtt@.len() implies #[trigger] self.rtt@[k]@.len()
                    == self.names@.len() by {
                    assert(mid2.rtt@[k]@.len() == mid2.names@.len());
                }
            }
            self.lemma_rtt_of_index(i as int, j as int);
            assert forall|a: Seq<char>, b: Seq<char>|
                !(a == from@ && b == to@) implies #[trigger] self.rtt_of(a, b) == old_self.rtt_of(
                    a,
                    b,
                ) by {
                self.lemma_pair_unchanged(old_self, mid2, a, b, i as int, j as int);
            }
            assert forall|a: Seq<char>| #[trigger] self.ids().contains(a) <==> (
            old_self.ids().contains(a) || a == from@ || a == to@) by {
                if self.ids().contains(a) {
                    let k = choose|k: int| 0 <= k < self.ids().len() && self.ids()[k] == a;
                    if k >= old_self.ids().len() && k < mid.ids().len() {
                        assert(mid.ids()[k] == a);
                    }
                }
                if old_self.ids().contains(a) {
                    let k = choose|k: int| 0 <= k < old_self.ids().len() && old_self.ids()[k] == a;
                    assert(self.ids()[k] == a);
                }
                if a == from@ {
                    assert(self.ids()[i as int] == a);
                }
                if a == to@ {
                    assert(self.ids()[j as int] == a);
                }
            }
        }
        proof {
            lemma_smoothing_follows_sample(old_self, *self, from@, to@, sample);
        }
    }

    /// The relation between the matrix before an update (`old_self`), after
    /// its nodes were listed (`mid`), and after the entry `(i, j)` was set.
    proof fn lemma_pair_unchanged(
        &self,
        old_self: LatencyMatrix,
        mid: LatencyMatrix,
        a: Seq<char>,
        b: Seq<char>,
        i: int,
        j: int,
    )
        requires
            old_self.wf(),
            mid.wf(),
            self.wf(),
            self.ids() == mid.ids(),
            mid.ids().len() >= old_self.ids().len(),
            mid.ids().subrange(0, old_self.ids().len() as int) == old_self.ids(),
            0 <= i < mid.ids().len(),
            0 <= j < mid.ids().len(),
            forall|x: int, y: int|
                0 <= x < old_self.ids().len() && 0 <= y < old_self.ids().len()
                    ==> #[trigger] mid.weights()[x][y] == old_self.weights()[x][y],
            forall|x: int, y: int|
                0 <= x < mid.ids().len() && 0 <= y < mid.ids().len() && (x >= old_self.ids().len()
                    || y >= old_self.ids().len()) && !(x == i && y == j)
                    ==> #[trigger] mid.weights()[x][y] is None,
            forall|x: int, y: int|
                0 <= x < mid.ids().len() && 0 <= y < mid.ids().len() && !(x == i && y == j)
                    ==> #[trigger] self.weights()[x][y] == mid.weights()[x][y],
            !(a == mid.ids()[i] && b == mid.ids()[j]),
        ensures
            self.rtt_of(a, b) == old_self.rtt_of(a, b),
    {
        if self.ids().contains(a) && self.ids().contains(b) {
            let x = choose|x: int| 0 <= x < self.ids().len() && self.ids()[x] == a;
            let y = choose|y: int| 0 <= y < self.ids().len() && self.ids()[y] == b;
            self.lemma_rtt_of_index(x, y);
            assert(!(x == i && y == j));
            if x < old_self.ids().len() && y < old_self.ids().len() {
                assert(old_self.ids()[x] == mid.ids()[x]);
                assert(old_self.ids()[y] == mid.ids()[y]);
                old_self.lemma_rtt_of_index(x, y);
            } else {
                assert(self.weights()[x][y] is None);
                if old_self.rtt_of(a, b) is Some {
                    old_self.lemma_rtt_of_listed(a, b);
                    let x2 = choose|x2: int|
                        0 <= x2 < old_self.ids().len() && old_self.ids()[x2] == a;
                    let y2 = choose|y2: int|
                        0 <= y2 < old_self.ids().len() && old_self.ids()[y2] == b;
                    assert(mid.ids()[x2] == a);
                    assert(mid.ids()[y2] == b);
                    assert(self.names@[x2]@ == a);
                    assert(x2 == x);
                    assert(y2 == y);
                }
            }
        } else {
            if self.rtt_of(a, b) is Some {
                self.lemma_rtt_of_listed(a, b);
            }
            if old_self.rtt_of(a, b) is Some {
                old_self.lemma_rtt_of_listed(a, b);
                let x2 = choose|x2: int| 0 <= x2 < old_self.ids().len() && old_self.ids()[x2] == a;
                let y2 = choose|y2: int| 0 <= y2 < old_self.ids().len() && old_self.ids()[y2] == b;
                assert(mid.ids()[x2] == a);
                assert(mid.ids()[y2] == b);
            }
        }
    }

    /// The smoothed RTT from `from` to `to`, if one has been measured.
    pub fn get_rtt(&self, from: &str, to: &str) -> (r: Option<Duration>)
        requires
            self.wf(),
        ensures
            r is Some <==> self.rtt_of(from@, to@) is Some,
            r matches Some(d) ==> micros_of(d) == self.rtt_of(from@, to@)->0,
    {
        match (self.index_of(from), self.index_of(to)) {
            (Some(i), Some(j)) => {
                proof {
                    self.lemma_rtt_of_index(i as int, j as int);
                }
                match self.weight(i, j) {
                    Some(us) => Some(duration_from_micros(us)),
                    None => None,
                }
            },
            _ => {
                proof {
                    if self.rtt_of(from@, to@) is Some {
                        self.lemma_rtt_of_listed(from@, to@);
                    }
                }
                None
            },
        }
    }

    /// Identifiers of all listed nodes, in the order they were first seen.
    pub fn nodes(&self) -> (r: Vec<String>)
        requires
            self.wf(),
        ensures
            r@.map_values(|s: String| s@) == self.ids(),
    {
        let mut r: Vec<String> = Vec::new();
        let n = self.names.len();
        for i in 0..n
            invariant
                n == self.names@.len(),
                r@.len() == i,
                forall|k: int| 0 <= k < i ==> #[trigger] r@[k]@ == self.names@[k]@,
        {
            r.push(self.names[i].clone());
        }
        assert(r@.map_values(|s: String| s@) =~= self.ids());
        r
    }
}

} // verus!
