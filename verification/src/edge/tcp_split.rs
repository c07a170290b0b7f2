//! Splitting a TCP client's byte stream into relay payloads.
//!
//! Each read from the client is cut into pieces of at most
//! `MAX_RELAY_DATA` bytes, so that a piece, with the relay, FEC and wire
//! headers and the authentication tag added, stays under the path MTU.
use vstd::prelude::*;

verus! {

/// Most user bytes carried by one relay payload.
pub const MAX_RELAY_DATA: usize = 1400;

/// Number of pieces `len` bytes are cut into.
pub open spec fn piece_count(len: nat) -> nat {
    if len % (MAX_RELAY_DATA as nat) == 0 {
        len / (MAX_RELAY_DATA as nat)
    } else {
        len / (MAX_RELAY_DATA as nat) + 1
    }
}

/// Piece `i` of `data`: bytes `i * MAX_RELAY_DATA` up to the next multiple
/// or the end.
pub open spec fn piece(data: Seq<u8>, i: int) -> Seq<u8> {
    let start = i * MAX_RELAY_DATA;
    let end = if start + MAX_RELAY_DATA <= data.len() {
        start + MAX_RELAY_DATA
    } else {
        data.len() as int
    };
    data.subrange(start, end)
}

/// Cut `data` into consecutive pieces of `MAX_RELAY_DATA` bytes, the last one
/// possibly shorter; no pieces for empty data.
pub fn relay_chunks(data: &[u8]) -> (r: Vec<Vec<u8>>)
    ensures
        r@.len() == piece_count(data@.len()),
        forall|i: int| 0 <= i < r@.len() ==> (#[trigger] r@[i])@ == piece(data@, i),
        r.deep_view().flatten() == data@,
        forall|i: int| 0 <= i < r@.len() ==> 0 < (#[trigger] r@[i])@.len() <= MAX_RELAY_DATA,
        forall|i: int| 0 <= i < r@.len() - 1 ==> (#[trigger] r@[i])@.len() == MAX_RELAY_DATA,
{
    let n = data.len();
    let mut r: Vec<Vec<u8>> = Vec::new();
    let mut start: usize = 0;
    while start < n
        invariant
            n == data@.len(),
            start <= n,
            start < n ==> start == r@.len() * MAX_RELAY_DATA,
            forall|i: int| 0 <= i < r@.len() ==> (#[trigger] r@[i])@ == piece(data@, i),
            r@.len() < piece_count(n as nat) <==> start < n,
            r@.len() <= piece_count(n as nat),
            r.deep_view().flatten() == data@.subrange(0, start as int),
            forall|i: int| 0 <= i < r@.len() ==> 0 < (#[trigger] r@[i])@.len() <= MAX_RELAY_DATA,
            forall|i: int| 0 <= i < r@.len() - 1 ==> (#[trigger] r@[i])@.len() == MAX_RELAY_DATA,
            start < n ==> forall|i: int| 0 <= i < r@.len() ==> (#[trigger] r@[i])@.len() == MAX_RELAY_DATA,
        decreases n - start,
    {
        let end: usize = if n - start > MAX_RELAY_DATA {
            start + MAX_RELAY_DATA
        } else {
            n
        };
        let mut chunk: Vec<u8> = Vec::new();
        let mut k: usize = start;
        while k < end
            invariant
                start <= k <= end,
                end <= n,
                n == data@.len(),
                chunk@ == data@.subrange(start as int, k as int),
            decreases end - k,
        {
            chunk.push(data[k]);
            k = k + 1;
            assert(chunk@ =~= data@.subrange(start as int, k as int));
        }
        let ghost idx = r@.len() as int;
        assert(chunk@ == piece(data@, idx));
        let ghost before = r.deep_view();
        r.push(chunk);
        proof {
            assert(chunk.deep_view() =~= chunk@);
            assert(r.deep_view() =~= before.push(chunk@));
            before.lemma_flatten_push(chunk@);
            assert(data@.subrange(0, end as int) =~= data@.subrange(0, start as int) + chunk@);
        }
        start = end;
    }
    assert(data@.subrange(0, n as int) =~= data@);
    r
}

/// The pieces of `len` bytes are the fewest of at most `MAX_RELAY_DATA`
/// bytes that hold them all: none for no data, at least one otherwise.
pub proof fn lemma_piece_count_is_least(len: nat)
    ensures
        piece_count(len) * 1400 >= len,
        len > 0 ==> piece_count(len) >= 1 && (piece_count(len) - 1) * 1400 < len,
        len == 0 ==> piece_count(len) == 0,
{
    let c = piece_count(len);
    assert(c * 1400 >= len && (len > 0 ==> c >= 1 && (c - 1) * 1400 < len)) by (nonlinear_arith)
        requires
            c == (if len % 1400 == 0 {
                len / 1400
            } else {
                len / 1400 + 1
            }),
    ;
}

} // verus!
