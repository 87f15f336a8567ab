//! The breakpoint classifier: finds the unary bridges between two nodes that
//! can be contracted without losing information.
use crate::adjacency::Adjacency;
use crate::graph::{flip, flip_key, is_forward, node_of};
use std::collections::HashSet;
use vstd::prelude::*;

verus! {

broadcast use vstd::std_specs::hash::group_hash_axioms;

/// `x` has exactly one successor `y`, on the same strand and not `x` itself;
/// the reverse of `y` leads nowhere or back to the reverse of `x` alone; and
/// `x` is the only predecessor of `y`.
pub open spec fn is_candidate(succ: Map<u64, Seq<u64>>, pred: Map<u64, Seq<u64>>, x: u64) -> bool {
    &&& succ.contains_key(x)
    &&& succ[x].len() == 1
    &&& succ[x][0] != x
    &&& is_forward(x) == is_forward(succ[x][0])
    &&& (!succ.contains_key(flip(succ[x][0])) || (succ[flip(succ[x][0])].len() == 1
        && succ[flip(succ[x][0])][0] == flip(x)))
    &&& pred.contains_key(succ[x][0])
    &&& pred[succ[x][0]].len() == 1
}

/// The node pair of the hop `x -> y`, in the order of the forward strand: a hop
/// read on the reverse strand runs from the second node to the first.
pub open spec fn forward_pair(x: u64, y: u64) -> (u32, u32) {
    if is_forward(x) {
        (node_of(x), node_of(y))
    } else {
        (node_of(y), node_of(x))
    }
}

/// The pair as an unordered key: the smaller id in the high half.
pub open spec fn unordered_key(p: (u32, u32)) -> u64 {
    if p.0 <= p.1 {
        (p.0 * 0x1_0000_0000 + p.1) as u64
    } else {
        (p.1 * 0x1_0000_0000 + p.0) as u64
    }
}

/// Candidate pairs found among the first `n` sources, each unordered pair once,
/// in the order in which the sources are listed.
pub open spec fn candidates_upto(
    succ: Map<u64, Seq<u64>>,
    pred: Map<u64, Seq<u64>>,
    sources: Seq<u64>,
    n: nat,
) -> Seq<(u32, u32)>
    decreases n,
{
    if n == 0 || n > sources.len() {
        Seq::empty()
    } else {
        let prev = candidates_upto(succ, pred, sources, (n - 1) as nat);
        let x = sources[n - 1];
        if is_candidate(succ, pred, x) && !prev.map_values(|p: (u32, u32)| unordered_key(p)).contains(
            unordered_key(forward_pair(x, succ[x][0])),
        ) {
            prev.push(forward_pair(x, succ[x][0]))
        } else {
            prev
        }
    }
}

/// All candidate pairs of the adjacency model.
pub open spec fn candidates(adj: &Adjacency) -> Seq<(u32, u32)> {
    candidates_upto(adj.succ(), adj.pred(), adj.sources@, adj.sources@.len())
}

/// The sole successor of `x` if the hop from `x` is a contraction candidate.
pub fn candidate_successor(adj: &Adjacency, x: u64) -> (r: Option<u64>)
    ensures
        r.is_some() == is_candidate(adj.succ(), adj.pred(), x),
        r.is_some() ==> r == Some(adj.succ()[x][0]),
{
    let succ_x = match adj.successors.get(&x) {
        Some(v) => v,
        None => return None,
    };
    if succ_x.len() != 1 {
        return None;
    }
    let y = succ_x[0];
    if y == x || (x % 2 == 0) != (y % 2 == 0) {
        return None;
    }
    let back_ok = match adj.successors.get(&flip_key(y)) {
        None => true,
        Some(v) => v.len() == 1 && v[0] == flip_key(x),
    };
    if !back_ok {
        return None;
    }
    match adj.predecessors.get(&y) {
        Some(v) => if v.len() == 1 {
            Some(y)
        } else {
            None
        },
        None => None,
    }
}

fn pair_key(p: (u32, u32)) -> (k: u64)
    ensures
        k == unordered_key(p),
{
    if p.0 <= p.1 {
        (p.0 as u64) * 0x1_0000_0000 + (p.1 as u64)
    } else {
        (p.1 as u64) * 0x1_0000_0000 + (p.0 as u64)
    }
}

/// Two-pass filter over the sources of the model: the contraction candidates,
/// each unordered pair once, as pairs in the order of the forward strand.
pub fn find_candidates(adj: &Adjacency) -> (c: Vec<(u32, u32)>)
    ensures
        c@ == candidates(adj),
{
    let mut found: Vec<(u32, u32)> = Vec::new();
    let mut seen: HashSet<u64> = HashSet::new();
    let mut i: usize = 0;
    while i < adj.sources.len()
        invariant
            i <= adj.sources.len(),
            found@ == candidates_upto(adj.succ(), adj.pred(), adj.sources@, i as nat),
            seen@ == found@.map_values(|p: (u32, u32)| unordered_key(p)).to_set(),
        decreases adj.sources.len() - i,
    {
        let x = adj.sources[i];
        let ghost prev = found@;
        if let Some(y) = candidate_successor(adj, x) {
            let p: (u32, u32) = if x % 2 == 0 {
                ((x / 2) as u32, (y / 2) as u32)
            } else {
                ((y / 2) as u32, (x / 2) as u32)
            };
            let k = pair_key(p);
            if !seen.contains(&k) {
                found.push(p);
                seen.insert(k);
                assert(found@.map_values(|p: (u32, u32)| unordered_key(p)) =~= prev.map_values(
                    |p: (u32, u32)| unordered_key(p),
                ).push(k));
                proof {
                    prev.map_values(|p: (u32, u32)| unordered_key(p)).lemma_push_to_set_commute(k);
                }
                assert(seen@ =~= found@.map_values(|p: (u32, u32)| unordered_key(p)).to_set());
            }
        }
        i += 1;
    }
    found
}

} // verus!
