//! Pruning of spurious breakpoints: the whole contraction, from the records of
//! a graph to the records that describe the contracted graph.
use crate::adjacency::{build_adjacency, predecessors_upto, sources_upto, successors_upto};
use crate::classify::{candidates_upto, find_candidates};
use crate::contraction::{
    contract_upto, initial_state, lemma_contract_ok, lemma_initial_ok, segment_ids, segment_seqs,
    merge_pair, segment_seqs_upto, weight, Contraction, ContractionView,
};
use crate::graph::{views, GfaError, Record, RecordView};
use crate::text::{graph_text, parse_graph, parse_spec, write_graph};
use crate::rewrite::{kept_steps, rewrite_record, rewrite_records, rewrite_upto, survives};
use vstd::prelude::*;

verus! {

/// Candidate pairs of the links among the records.
pub open spec fn candidate_pairs(recs: Seq<RecordView>) -> Seq<(u32, u32)> {
    let src = sources_upto(recs, recs.len());
    candidates_upto(
        successors_upto(recs, recs.len()),
        predecessors_upto(recs, recs.len()),
        src,
        src.len(),
    )
}

/// The state after every candidate pair of the records has been contracted.
pub open spec fn contracted(recs: Seq<RecordView>) -> ContractionView {
    contract_upto(initial_state(recs), candidate_pairs(recs), candidate_pairs(recs).len())
}

/// The records of the contracted graph.
pub open spec fn pruned(recs: Seq<RecordView>) -> Seq<RecordView> {
    let fin = contracted(recs);
    rewrite_upto(recs, fin.reps, fin.seqs, recs.len())
}

/// Contracts every spurious breakpoint among the records and returns the
/// records of the contracted graph.
pub fn prune_spurious_breakpoints(records: &Vec<Record>) -> (out: Vec<Record>)
    ensures
        views(out@) == pruned(views(records@)),
{
    let adj = build_adjacency(records);
    let cands = find_candidates(&adj);
    let mut c = Contraction::contract(records, &cands);
    let reps = c.representatives();
    rewrite_records(records, &reps, &c.sequences)
}

/// Every line of the text reads as a record.
pub open spec fn all_parse(lines: Seq<Seq<u8>>) -> bool {
    forall|i: int| 0 <= i < lines.len() ==> (#[trigger] parse_spec(lines[i])).is_some()
}

/// The records of the lines, where every line reads as one.
pub open spec fn parsed(lines: Seq<Seq<u8>>) -> Seq<RecordView> {
    Seq::new(lines.len(), |i: int| parse_spec(lines[i]).unwrap())
}

/// The text of the contracted graph.
pub open spec fn pruned_text(lines: Seq<Seq<u8>>) -> Seq<u8> {
    graph_text(pruned(parsed(lines)))
}

/// Reads the lines of a graph (without their line breaks), contracts every
/// spurious breakpoint, and writes the contracted graph; the first malformed
/// line, numbered from one, is a format error.
pub fn prune_spurious_text(lines: &Vec<Vec<u8>>) -> (r: Result<Vec<u8>, GfaError>)
    requires
        lines.len() < usize::MAX,
    ensures
        match r {
            Ok(out) => all_parse(lines@.map_values(|l: Vec<u8>| l@)) && out@ == pruned_text(
                lines@.map_values(|l: Vec<u8>| l@),
            ),
            Err(e) => exists|k: int|
                0 <= k < lines@.len() && parse_spec(#[trigger] lines@[k]@).is_none() && e == (
                GfaError::Format { line: (k + 1) as usize }) && forall|j: int|
                    0 <= j < k ==> parse_spec(#[trigger] lines@[j]@).is_some(),
        },
{
    let ghost lv = lines@.map_values(|l: Vec<u8>| l@);
    match parse_graph(lines) {
        Err(e) => Err(e),
        Ok(records) => {
            proof {
                assert forall|i: int| 0 <= i < lv.len() implies (#[trigger] parse_spec(
                    lv[i],
                )).is_some() by {
                    assert(lv[i] == lines@[i]@);
                }
                assert(views(records@) =~= parsed(lv));
            }
            let out = prune_spurious_breakpoints(&records);
            Ok(write_graph(&out))
        },
    }
}

/// The id of a segment record.
pub open spec fn segment_id(r: RecordView) -> Option<u32> {
    match r {
        RecordView::Segment { id, .. } => Some(id),
        _ => None,
    }
}

/// Some record of `out` is a segment with this id.
pub open spec fn has_segment(out: Seq<RecordView>, id: u32) -> bool {
    exists|i: int| 0 <= i < out.len() && #[trigger] segment_id(out[i]) == Some(id)
}

/// The record names node `id` in a link end or a step.
pub open spec fn mentions(r: RecordView, id: u32) -> bool {
    match r {
        RecordView::Link { from, to, .. } => from.id == id || to.id == id,
        RecordView::Path { steps, .. } => exists|k: int| 0 <= k < steps.len() && #[trigger] steps[k].id == id,
        RecordView::Walk { steps, .. } => exists|k: int| 0 <= k < steps.len() && #[trigger] steps[k].id == id,
        _ => false,
    }
}

proof fn lemma_segment_source(recs: Seq<RecordView>, n: nat, y: u32)
    requires
        n <= recs.len(),
        segment_seqs_upto(recs, n).contains_key(y),
    ensures
        exists|j: int| 0 <= j < n && #[trigger] segment_id(recs[j]) == Some(y),
    decreases n,
{
    if n > 0 {
        if segment_id(recs[n - 1]) == Some(y) {
            assert(segment_id(recs[n - 1]) == Some(y));
        } else {
            lemma_segment_source(recs, (n - 1) as nat, y);
            let j = choose|j: int| 0 <= j < n - 1 && #[trigger] segment_id(recs[j]) == Some(y);
            assert(segment_id(recs[j]) == Some(y));
        }
    }
}

proof fn lemma_rewrite_keeps_segment(
    recs: Seq<RecordView>,
    reps: Map<u32, u32>,
    seqs: Map<u32, Seq<u8>>,
    n: nat,
    j: int,
    r: u32,
)
    requires
        0 <= j < n <= recs.len(),
        segment_id(recs[j]) == Some(r),
        survives(reps, r),
    ensures
        has_segment(rewrite_upto(recs, reps, seqs, n), r),
    decreases n,
{
    let out = rewrite_upto(recs, reps, seqs, n);
    let prev = rewrite_upto(recs, reps, seqs, (n - 1) as nat);
    if j == n - 1 {
        assert(segment_id(out[out.len() - 1]) == Some(r));
    } else {
        lemma_rewrite_keeps_segment(recs, reps, seqs, (n - 1) as nat, j, r);
        let i = choose|i: int| 0 <= i < prev.len() && #[trigger] segment_id(prev[i]) == Some(r);
        assert(out[i] == prev[i]);
        assert(segment_id(out[i]) == Some(r));
    }
}

proof fn lemma_rewrite_source(
    recs: Seq<RecordView>,
    reps: Map<u32, u32>,
    seqs: Map<u32, Seq<u8>>,
    n: nat,
    i: int,
)
    requires
        n <= recs.len(),
        0 <= i < rewrite_upto(recs, reps, seqs, n).len(),
    ensures
        exists|j: int|
            0 <= j < n && #[trigger] rewrite_record(recs[j], reps, seqs) == Some(
                rewrite_upto(recs, reps, seqs, n)[i],
            ),
    decreases n,
{
    let out = rewrite_upto(recs, reps, seqs, n);
    let prev = rewrite_upto(recs, reps, seqs, (n - 1) as nat);
    if i < prev.len() {
        lemma_rewrite_source(recs, reps, seqs, (n - 1) as nat, i);
        let j = choose|j: int|
            0 <= j < n - 1 && #[trigger] rewrite_record(recs[j], reps, seqs) == Some(prev[i]);
        assert(out[i] == prev[i]);
        assert(rewrite_record(recs[j], reps, seqs) == Some(out[i]));
    } else {
        assert(rewrite_record(recs[n - 1], reps, seqs) == Some(out[i]));
    }
}

proof fn lemma_kept_steps(steps: Seq<crate::graph::SignedRef>, reps: Map<u32, u32>, n: nat, k: int)
    requires
        n <= steps.len(),
        0 <= k < kept_steps(steps, reps, n).len(),
    ensures
        survives(reps, kept_steps(steps, reps, n)[k].id),
    decreases n,
{
    if n > 0 {
        let prev = kept_steps(steps, reps, (n - 1) as nat);
        if k < prev.len() {
            lemma_kept_steps(steps, reps, (n - 1) as nat, k);
        }
    }
}

proof fn lemma_final_ok(recs: Seq<RecordView>)
    ensures
        crate::contraction::state_ok(contracted(recs), segment_ids(recs), segment_seqs(recs)),
        contracted(recs).reps.dom() == segment_seqs(recs).dom(),
{
    lemma_initial_ok(recs);
    lemma_contract_ok(
        initial_state(recs),
        candidate_pairs(recs),
        candidate_pairs(recs).len(),
        segment_ids(recs),
        segment_seqs(recs),
    );
    crate::contraction::lemma_segment_ids(recs, recs.len());
}

/// A representative that survives has its segment in the output.
proof fn lemma_survivor_emitted(recs: Seq<RecordView>, r: u32)
    requires
        survives(contracted(recs).reps, r),
    ensures
        has_segment(pruned(recs), r),
{
    let fin = contracted(recs);
    lemma_final_ok(recs);
    lemma_segment_source(recs, recs.len(), r);
    let j = choose|j: int| 0 <= j < recs.len() && #[trigger] segment_id(recs[j]) == Some(r);
    lemma_rewrite_keeps_segment(recs, fin.reps, fin.seqs, recs.len(), j, r);
}

/// Every segment id resolves to a representative that represents itself and
/// whose segment is among the output records.
pub proof fn law_resolve_total(recs: Seq<RecordView>, x: u32)
    requires
        segment_seqs(recs).contains_key(x),
    ensures
        contracted(recs).reps.contains_key(x),
        survives(contracted(recs).reps, contracted(recs).reps[x]),
        has_segment(pruned(recs), contracted(recs).reps[x]),
{
    lemma_final_ok(recs);
    lemma_survivor_emitted(recs, contracted(recs).reps[x]);
}

/// Every node that a link, path or walk of the output names is a segment of
/// the output.
pub proof fn law_no_dangling(recs: Seq<RecordView>, i: int, id: u32)
    requires
        0 <= i < pruned(recs).len(),
        mentions(pruned(recs)[i], id),
    ensures
        has_segment(pruned(recs), id),
{
    let fin = contracted(recs);
    let out = pruned(recs);
    lemma_final_ok(recs);
    lemma_rewrite_source(recs, fin.reps, fin.seqs, recs.len(), i);
    let j = choose|j: int|
        0 <= j < recs.len() && #[trigger] rewrite_record(recs[j], fin.reps, fin.seqs) == Some(
            out[i],
        );
    match recs[j] {
        RecordView::Link { from, to, .. } => {
            assert(fin.reps.contains_key(fin.reps[from.id]));
            assert(fin.reps.contains_key(fin.reps[to.id]));
            assert(survives(fin.reps, id));
        },
        RecordView::Path { steps, .. } => {
            let kept = kept_steps(steps, fin.reps, steps.len());
            let k = choose|k: int| 0 <= k < kept.len() && #[trigger] kept[k].id == id;
            lemma_kept_steps(steps, fin.reps, steps.len(), k);
        },
        RecordView::Walk { steps, .. } => {
            let kept = kept_steps(steps, fin.reps, steps.len());
            let k = choose|k: int| 0 <= k < kept.len() && #[trigger] kept[k].id == id;
            lemma_kept_steps(steps, fin.reps, steps.len(), k);
        },
        _ => {},
    }
    lemma_survivor_emitted(recs, id);
}

/// Each segment of the output carries a sequence exactly as long as the
/// sequences of all the input segments that resolve to it, together.
pub proof fn law_conservation(recs: Seq<RecordView>, i: int)
    requires
        0 <= i < pruned(recs).len(),
        pruned(recs)[i] is Segment,
    ensures
        ({
            let fin = contracted(recs);
            match pruned(recs)[i] {
                RecordView::Segment { id, sequence, .. } => fin.reps.contains_key(id) && fin.reps[id]
                    == id && sequence.len() == weight(segment_ids(recs), fin.reps, segment_seqs(recs), id),
                _ => false,
            }
        }),
{
    let fin = contracted(recs);
    let out = pruned(recs);
    lemma_final_ok(recs);
    lemma_rewrite_source(recs, fin.reps, fin.seqs, recs.len(), i);
    let j = choose|j: int|
        0 <= j < recs.len() && #[trigger] rewrite_record(recs[j], fin.reps, fin.seqs) == Some(
            out[i],
        );
    match recs[j] {
        RecordView::Segment { id, .. } => {
            assert(fin.seqs.contains_key(id));
        },
        _ => {},
    }
}

proof fn lemma_merge_keeps_together(st: ContractionView, c: (u32, u32), a: u32, b: u32)
    requires
        st.reps.contains_key(a),
        st.reps.contains_key(b),
        st.reps[a] == st.reps[b],
    ensures
        merge_pair(st, c).reps.contains_key(a),
        merge_pair(st, c).reps.contains_key(b),
        merge_pair(st, c).reps[a] == merge_pair(st, c).reps[b],
{
}

proof fn lemma_contract_joins(st: ContractionView, cands: Seq<(u32, u32)>, i: int, n: nat)
    requires
        0 <= i < n <= cands.len(),
        st.reps.contains_key(cands[i].0),
        st.reps.contains_key(cands[i].1),
    ensures
        contract_upto(st, cands, n).reps.contains_key(cands[i].0),
        contract_upto(st, cands, n).reps.contains_key(cands[i].1),
        contract_upto(st, cands, n).reps[cands[i].0] == contract_upto(st, cands, n).reps[cands[i].1],
    decreases n,
{
    lemma_dom_kept(st, cands, (n - 1) as nat);
    let prev = contract_upto(st, cands, (n - 1) as nat);
    if i == n - 1 {
        assert(prev.reps.contains_key(cands[i].0));
        assert(prev.reps.contains_key(cands[i].1));
    } else {
        lemma_contract_joins(st, cands, i, (n - 1) as nat);
        lemma_merge_keeps_together(prev, cands[n - 1], cands[i].0, cands[i].1);
    }
}

proof fn lemma_dom_kept(st: ContractionView, cands: Seq<(u32, u32)>, n: nat)
    ensures
        contract_upto(st, cands, n).reps.dom() == st.reps.dom(),
    decreases n,
{
    if n > 0 && n <= cands.len() {
        lemma_dom_kept(st, cands, (n - 1) as nat);
        let prev = contract_upto(st, cands, (n - 1) as nat);
        assert(merge_pair(prev, cands[n - 1]).reps.dom() =~= prev.reps.dom());
    }
}

/// Every candidate pair of the input, when both of its nodes are segments,
/// ends inside one node: its two ids resolve to the same representative.
pub proof fn law_pairs_merged(recs: Seq<RecordView>, i: int)
    requires
        0 <= i < candidate_pairs(recs).len(),
        segment_seqs(recs).contains_key(candidate_pairs(recs)[i].0),
        segment_seqs(recs).contains_key(candidate_pairs(recs)[i].1),
    ensures
        contracted(recs).reps[candidate_pairs(recs)[i].0] == contracted(recs).reps[candidate_pairs(
            recs,
        )[i].1],
{
    let st = initial_state(recs);
    lemma_contract_joins(st, candidate_pairs(recs), i, candidate_pairs(recs).len());
}

/// Equal inputs give byte-identical outputs: the text written depends on the
/// lines read alone, and ties are broken by their order.
pub proof fn law_determinism(a: Seq<Seq<u8>>, b: Seq<Seq<u8>>)
    requires
        a == b,
    ensures
        pruned_text(a) == pruned_text(b),
{
}

} // verus!
