//! The backbone graph of a file's edge (`E`) lines, held in a graph of the
//! petgraph crate: each edge line adds its two end nodes and an edge between them.
use crate::graph::GfaError;
use crate::text::{split, split_bytes, TAB};
use petgraph::graph::{Graph, NodeIndex};
use petgraph::Directed;
use vstd::prelude::*;

verus! {

#[verifier::external_type_specification]
#[verifier::external_body]
#[verifier::reject_recursive_types(N)]
#[verifier::reject_recursive_types(E)]
#[verifier::reject_recursive_types(Ty)]
#[verifier::reject_recursive_types(Ix)]
pub struct ExGraph<N, E, Ty, Ix>(Graph<N, E, Ty, Ix>);

#[verifier::external_type_specification]
#[verifier::external_body]
pub struct ExDirected(Directed);

/// The node weights of a graph, by node index.
pub uninterp spec fn graph_nodes(g: Graph<Vec<u8>, Vec<u8>>) -> Seq<Seq<u8>>;

/// The edges of a graph, by edge index: source, target, weight.
pub uninterp spec fn graph_edges(g: Graph<Vec<u8>, Vec<u8>>) -> Seq<(nat, nat, Seq<u8>)>;

/// Relies on `Graph::new`: a graph without nodes or edges.
#[verifier::external_body]
fn backbone_new() -> (g: Graph<Vec<u8>, Vec<u8>>)
    ensures
        graph_nodes(g) == Seq::<Seq<u8>>::empty(),
        graph_edges(g) == Seq::<(nat, nat, Seq<u8>)>::empty(),
{
    Graph::new()
}

/// Relies on `Graph::add_node`: the node goes last and its index is returned;
/// below the index limit of `u32` it does not panic.
#[verifier::external_body]
fn backbone_add_node(g: &mut Graph<Vec<u8>, Vec<u8>>, w: Vec<u8>) -> (i: usize)
    requires
        graph_nodes(*old(g)).len() < u32::MAX,
    ensures
        i == graph_nodes(*old(g)).len(),
        graph_nodes(*final(g)) == graph_nodes(*old(g)).push(w@),
        graph_edges(*final(g)) == graph_edges(*old(g)),
{
    g.add_node(w).index()
}

/// Relies on `Graph::add_edge`: the edge goes last; with both ends in the graph
/// and below the index limit of `u32` it does not panic.
#[verifier::external_body]
fn backbone_add_edge(g: &mut Graph<Vec<u8>, Vec<u8>>, a: usize, b: usize, w: Vec<u8>)
    requires
        a < graph_nodes(*old(g)).len(),
        b < graph_nodes(*old(g)).len(),
        graph_edges(*old(g)).len() < u32::MAX,
    ensures
        graph_nodes(*final(g)) == graph_nodes(*old(g)),
        graph_edges(*final(g)) == graph_edges(*old(g)).push((a as nat, b as nat, w@)),
{
    g.add_edge(NodeIndex::new(a), NodeIndex::new(b), w);
}

/// Nodes and edges after the first `n` lines: an edge line (first byte `E`)
/// with at least four fields adds a node for its second field, one for its
/// fourth, and an edge between them weighted by its second to fourth fields
/// run together; an edge line with fewer fields is a format error.
pub open spec fn backbone_upto(lines: Seq<Seq<u8>>, n: nat) -> Result<
    (Seq<Seq<u8>>, Seq<(nat, nat, Seq<u8>)>),
    GfaError,
>
    decreases n,
{
    if n == 0 || n > lines.len() {
        Ok((Seq::empty(), Seq::empty()))
    } else {
        match backbone_upto(lines, (n - 1) as nat) {
            Err(e) => Err(e),
            Ok((nodes, edges)) => if lines[n - 1].len() > 0 && lines[n - 1][0] == 69u8 {
                let f = split(lines[n - 1], TAB);
                if f.len() >= 4 {
                    Ok(
                        (
                            nodes.push(f[1]).push(f[3]),
                            edges.push((nodes.len(), nodes.len() + 1, f[1] + f[2] + f[3])),
                        ),
                    )
                } else {
                    Err(GfaError::Format { line: n as usize })
                }
            } else {
                Ok((nodes, edges))
            },
        }
    }
}

proof fn lemma_backbone_size(lines: Seq<Seq<u8>>, n: nat)
    requires
        n <= lines.len(),
        backbone_upto(lines, n) is Ok,
    ensures
        backbone_upto(lines, n)->Ok_0.0.len() <= 2 * n,
        backbone_upto(lines, n)->Ok_0.1.len() <= n,
    decreases n,
{
    if n > 0 {
        lemma_backbone_size(lines, (n - 1) as nat);
    }
}

proof fn lemma_backbone_err_extends(lines: Seq<Seq<u8>>, m: nat)
    requires
        m <= lines.len(),
        backbone_upto(lines, m) is Err,
    ensures
        backbone_upto(lines, lines.len()) == backbone_upto(lines, m),
    decreases lines.len() - m,
{
    if m < lines.len() {
        lemma_backbone_err_extends(lines, m + 1);
    }
}

/// Builds the backbone graph of the edge lines; an edge line with fewer than
/// four fields is a format error at its line number (from one).
pub fn load_graph(lines: &Vec<Vec<u8>>) -> (r: Result<Graph<Vec<u8>, Vec<u8>>, GfaError>)
    requires
        lines.len() < u32::MAX / 2,
    ensures
        match r {
            Ok(g) => backbone_upto(lines@.map_values(|l: Vec<u8>| l@), lines@.len()) == Ok::<
                (Seq<Seq<u8>>, Seq<(nat, nat, Seq<u8>)>),
                GfaError,
            >((graph_nodes(g), graph_edges(g))),
            Err(e) => backbone_upto(lines@.map_values(|l: Vec<u8>| l@), lines@.len()) == Err::<
                (Seq<Seq<u8>>, Seq<(nat, nat, Seq<u8>)>),
                GfaError,
            >(e),
        },
{
    let ghost lv = lines@.map_values(|l: Vec<u8>| l@);
    let mut g = backbone_new();
    let mut n: usize = 0;
    while n < lines.len()
        invariant
            n <= lines.len() < u32::MAX / 2,
            lv == lines@.map_values(|l: Vec<u8>| l@),
            backbone_upto(lv, n as nat) == Ok::<(Seq<Seq<u8>>, Seq<(nat, nat, Seq<u8>)>), GfaError>(
                (graph_nodes(g), graph_edges(g)),
            ),
        decreases lines.len() - n,
    {
        proof {
            lemma_backbone_size(lv, n as nat);
        }
        let line = &lines[n];
        assert(lv[n as int] == line@);
        if line.len() > 0 && line[0] == 69u8 {
            let f = split_bytes(line, TAB);
            if f.len() < 4 {
                proof {
                    lemma_backbone_err_extends(lv, (n + 1) as nat);
                }
                return Err(GfaError::Format { line: n + 1 });
            }
            let ghost nodes = graph_nodes(g);
            let ghost edges = graph_edges(g);
            let mut weight = crate::graph::copy_bytes(&f[1]);
            let mut mid = crate::graph::copy_bytes(&f[2]);
            let mut end = crate::graph::copy_bytes(&f[3]);
            weight.append(&mut mid);
            weight.append(&mut end);
            let p = backbone_add_node(&mut g, crate::graph::copy_bytes(&f[1]));
            let s = backbone_add_node(&mut g, crate::graph::copy_bytes(&f[3]));
            backbone_add_edge(&mut g, p, s, weight);
            assert(f@[1]@ == split(lv[n as int], TAB)[1]);
        }
        n += 1;
    }
    Ok(g)
}

} // verus!
