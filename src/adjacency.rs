//! The adjacency model: successors and predecessors of each signed reference,
//! built from the link records of a graph.
use crate::graph::{key_of, signed_key, views, Record, RecordView};
use std::collections::HashMap;
use vstd::prelude::*;

verus! {

broadcast use vstd::std_specs::hash::group_hash_axioms;

/// Adds the edge `a -> b` to an adjacency map; an edge already there is kept once.
pub open spec fn add_edge(m: Map<u64, Seq<u64>>, a: u64, b: u64) -> Map<u64, Seq<u64>> {
    if m.contains_key(a) {
        if m[a].contains(b) {
            m
        } else {
            m.insert(a, m[a].push(b))
        }
    } else {
        m.insert(a, seq![b])
    }
}

/// Successors of each key after the first `n` records.
pub open spec fn successors_upto(recs: Seq<RecordView>, n: nat) -> Map<u64, Seq<u64>>
    decreases n,
{
    if n == 0 || n > recs.len() {
        Map::empty()
    } else {
        let prev = successors_upto(recs, (n - 1) as nat);
        match recs[n - 1] {
            RecordView::Link { from, to, .. } => add_edge(prev, key_of(from), key_of(to)),
            _ => prev,
        }
    }
}

/// Predecessors of each key after the first `n` records.
pub open spec fn predecessors_upto(recs: Seq<RecordView>, n: nat) -> Map<u64, Seq<u64>>
    decreases n,
{
    if n == 0 || n > recs.len() {
        Map::empty()
    } else {
        let prev = predecessors_upto(recs, (n - 1) as nat);
        match recs[n - 1] {
            RecordView::Link { from, to, .. } => add_edge(prev, key_of(to), key_of(from)),
            _ => prev,
        }
    }
}

/// Keys that have successors after the first `n` records, in the order in which
/// each was first seen as the source of a link.
pub open spec fn sources_upto(recs: Seq<RecordView>, n: nat) -> Seq<u64>
    decreases n,
{
    if n == 0 || n > recs.len() {
        Seq::empty()
    } else {
        let prev = sources_upto(recs, (n - 1) as nat);
        match recs[n - 1] {
            RecordView::Link { from, .. } => if successors_upto(recs, (n - 1) as nat).contains_key(
                key_of(from),
            ) {
                prev
            } else {
                prev.push(key_of(from))
            },
            _ => prev,
        }
    }
}

/// Successors and predecessors of each signed reference (by key), and the keys
/// with successors in order of first appearance.
pub struct Adjacency {
    pub successors: HashMap<u64, Vec<u64>>,
    pub predecessors: HashMap<u64, Vec<u64>>,
    pub sources: Vec<u64>,
}

impl Adjacency {
    pub open spec fn succ(&self) -> Map<u64, Seq<u64>> {
        self.successors@.map_values(|v: Vec<u64>| v@)
    }

    pub open spec fn pred(&self) -> Map<u64, Seq<u64>> {
        self.predecessors@.map_values(|v: Vec<u64>| v@)
    }

    /// The model of the links among the given records.
    pub open spec fn models(&self, recs: Seq<RecordView>) -> bool {
        &&& self.succ() == successors_upto(recs, recs.len())
        &&& self.pred() == predecessors_upto(recs, recs.len())
        &&& self.sources@ == sources_upto(recs, recs.len())
    }
}

/// Whether `v` holds `x`.
pub fn contains_key_u64(v: &Vec<u64>, x: u64) -> (r: bool)
    ensures
        r == v@.contains(x),
{
    let mut i: usize = 0;
    while i < v.len()
        invariant
            i <= v.len(),
            forall|j: int| 0 <= j < i ==> v@[j] != x,
        decreases v.len() - i,
    {
        if v[i] == x {
            return true;
        }
        i += 1;
    }
    false
}

/// Adds the edge `a -> b` to a map of adjacency lists.
fn insert_edge(m: &mut HashMap<u64, Vec<u64>>, a: u64, b: u64) -> (was_new_source: bool)
    ensures
        final(m)@.map_values(|v: Vec<u64>| v@) == add_edge(
            old(m)@.map_values(|v: Vec<u64>| v@),
            a,
            b,
        ),
        was_new_source == !old(m)@.contains_key(a),
{
    let ghost before = old(m)@.map_values(|v: Vec<u64>| v@);
    match m.remove(&a) {
        Some(list) => {
            if contains_key_u64(&list, b) {
                m.insert(a, list);
                assert(m@ == old(m)@);
            } else {
                let mut list = list;
                list.push(b);
                m.insert(a, list);
                assert(m@.map_values(|v: Vec<u64>| v@) =~= add_edge(before, a, b));
            }
            false
        },
        None => {
            let single = vec![b];
            assert(single@ =~= seq![b]);
            m.insert(a, single);
            assert(m@.map_values(|v: Vec<u64>| v@) =~= add_edge(before, a, b));
            true
        },
    }
}

/// Builds the adjacency model of the link records; other records are ignored.
pub fn build_adjacency(records: &Vec<Record>) -> (adj: Adjacency)
    ensures
        adj.models(views(records@)),
{
    let mut adj = Adjacency {
        successors: HashMap::new(),
        predecessors: HashMap::new(),
        sources: Vec::new(),
    };
    assert(adj.succ() =~= Map::empty());
    assert(adj.pred() =~= Map::empty());
    let mut i: usize = 0;
    while i < records.len()
        invariant
            i <= records.len(),
            adj.succ() == successors_upto(views(records@), i as nat),
            adj.pred() == predecessors_upto(views(records@), i as nat),
            adj.sources@ == sources_upto(views(records@), i as nat),
        decreases records.len() - i,
    {
        match &records[i] {
            Record::Link { from, to, .. } => {
                let a = signed_key(*from);
                let b = signed_key(*to);
                let fresh = insert_edge(&mut adj.successors, a, b);
                insert_edge(&mut adj.predecessors, b, a);
                if fresh {
                    adj.sources.push(a);
                }
            },
            _ => {},
        }
        i += 1;
    }
    adj
}

} // verus!
