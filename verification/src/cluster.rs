//! The cluster client pool's deterministic node picker: splits are
//! assigned to leaf nodes by rendezvous hashing on the split id, so
//! that every root picks the same node for the same split and node
//! churn only reshuffles the splits of the nodes that changed.

use vstd::prelude::*;

use vstd::utf8::encode_utf8;

verus! {

broadcast use vstd::std_specs::vec::group_vec_axioms;

/// Offset basis of the 64-bit FNV-1a hash.
pub const FNV_OFFSET_BASIS: u64 = 0xcbf29ce484222325;

/// Prime of the 64-bit FNV-1a hash.
pub const FNV_PRIME: u64 = 0x100000001b3;

/// One FNV-1a round: fold one byte into the running hash.
pub open spec fn fnv1a_step(h: u64, b: u8) -> u64 {
    (h ^ (b as u64)).wrapping_mul(FNV_PRIME)
}

/// The FNV-1a hash of a byte sequence folded onto a running hash.
pub open spec fn fnv1a_from(h: u64, bytes: Seq<u8>) -> u64
    decreases bytes.len(),
{
    if bytes.len() == 0 {
        h
    } else {
        fnv1a_step(fnv1a_from(h, bytes.drop_last()), bytes.last())
    }
}

/// The rendezvous score of a node for a key: the hash of the node's
/// address followed by the key. A deterministic function of the two
/// strings alone, so every caller computes the same score.
pub open spec fn rendezvous_score(node: Seq<char>, key: Seq<char>) -> u64 {
    fnv1a_from(fnv1a_from(FNV_OFFSET_BASIS, encode_utf8(node)), encode_utf8(key))
}

/// Folds a byte slice into a running FNV-1a hash.
#[verifier::loop_isolation(false)]
fn fnv1a_fold(h0: u64, bytes: &[u8]) -> (r: u64)
    ensures
        r == fnv1a_from(h0, bytes@),
{
    let mut h = h0;
    let mut i: usize = 0;
    while i < bytes.len()
        invariant
            i <= bytes@.len(),
            h == fnv1a_from(h0, bytes@.take(i as int)),
        decreases bytes@.len() - i,
    {
        proof {
            assert(bytes@.take(i + 1).drop_last() =~= bytes@.take(i as int));
            assert(bytes@.take(i + 1).last() == bytes@[i as int]);
        }
        h = (h ^ (bytes[i] as u64)).wrapping_mul(FNV_PRIME);
        i = i + 1;
    }
    proof {
        assert(bytes@.take(bytes@.len() as int) =~= bytes@);
    }
    h
}

/// Computes the rendezvous score of a node for a key.
pub fn node_score(node: &String, key: &String) -> (r: u64)
    ensures
        r == rendezvous_score(node@, key@),
{
    let h = fnv1a_fold(FNV_OFFSET_BASIS, node.as_str().as_bytes());
    fnv1a_fold(h, key.as_str().as_bytes())
}

/// Picks the node responsible for a key: the first node with the
/// highest rendezvous score. Deterministic in the node list and the
/// key; it fails only on an empty pool.
#[verifier::loop_isolation(false)]
pub fn pick_node(nodes: &Vec<String>, key: &String) -> (r: Option<usize>)
    ensures
        match r {
            Some(i) => {
                &&& i < nodes@.len()
                &&& forall|j: int|
                    0 <= j < nodes@.len() ==> rendezvous_score((#[trigger] nodes@[j])@, key@)
                        <= rendezvous_score(nodes@[i as int]@, key@)
                &&& forall|j: int|
                    0 <= j < i ==> rendezvous_score((#[trigger] nodes@[j])@, key@)
                        < rendezvous_score(nodes@[i as int]@, key@)
            },
            None => nodes@.len() == 0,
        },
{
    if nodes.len() == 0 {
        return None;
    }
    let mut best: usize = 0;
    let mut best_score = node_score(&nodes[0], key);
    let mut j: usize = 1;
    while j < nodes.len()
        invariant
            best < j <= nodes@.len(),
            best_score == rendezvous_score(nodes@[best as int]@, key@),
            forall|q: int|
                0 <= q < j ==> rendezvous_score((#[trigger] nodes@[q])@, key@) <= best_score,
            forall|q: int|
                0 <= q < best ==> rendezvous_score((#[trigger] nodes@[q])@, key@) < best_score,
        decreases nodes@.len() - j,
    {
        let score = node_score(&nodes[j], key);
        if score > best_score {
            best = j;
            best_score = score;
        }
        j = j + 1;
    }
    Some(best)
}

/// Assigns each split to its responsible node. The assignment is a
/// deterministic function of the pool and the split ids: each split
/// goes to the first node with the highest rendezvous score for its
/// id.
#[verifier::loop_isolation(false)]
pub fn assign_splits(nodes: &Vec<String>, split_ids: &Vec<String>) -> (r: Vec<usize>)
    requires
        nodes@.len() > 0,
    ensures
        r@.len() == split_ids@.len(),
        forall|k: int|
            0 <= k < r@.len() ==> (#[trigger] r@[k]) < nodes@.len() && (forall|j: int|
                0 <= j < nodes@.len() ==> rendezvous_score((#[trigger] nodes@[j])@, split_ids@[k]@)
                    <= rendezvous_score(nodes@[r@[k] as int]@, split_ids@[k]@)),
{
    let mut out: Vec<usize> = Vec::new();
    let mut k: usize = 0;
    while k < split_ids.len()
        invariant
            k <= split_ids@.len(),
            out@.len() == k,
            forall|q: int|
                0 <= q < k ==> (#[trigger] out@[q]) < nodes@.len() && (forall|j: int|
                    0 <= j < nodes@.len() ==> rendezvous_score(
                        (#[trigger] nodes@[j])@,
                        split_ids@[q]@,
                    ) <= rendezvous_score(nodes@[out@[q] as int]@, split_ids@[q]@)),
        decreases split_ids@.len() - k,
    {
        match pick_node(nodes, &split_ids[k]) {
            Some(i) => {
                out.push(i);
            },
            None => {
                proof {
                    assert(false);
                }
            },
        }
        k = k + 1;
    }
    out
}

} // verus!
