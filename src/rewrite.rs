//! The record rewriter: re-emits the records of a graph consistently with a
//! completed mapping of node ids to representatives.
use crate::graph::copy_bytes;
use crate::graph::{fields_view, views, Record, RecordView, SignedRef};
use std::collections::HashMap;
use vstd::prelude::*;

verus! {

broadcast use vstd::std_specs::hash::group_hash_axioms;

/// `id` is its own representative.
pub open spec fn survives(reps: Map<u32, u32>, id: u32) -> bool {
    reps.contains_key(id) && reps[id] == id
}

/// The first `n` steps of a traversal, without those whose node was absorbed.
pub open spec fn kept_steps(steps: Seq<SignedRef>, reps: Map<u32, u32>, n: nat) -> Seq<SignedRef>
    decreases n,
{
    if n == 0 || n > steps.len() {
        Seq::empty()
    } else {
        let prev = kept_steps(steps, reps, (n - 1) as nat);
        if survives(reps, steps[n - 1].id) {
            prev.push(steps[n - 1])
        } else {
            prev
        }
    }
}

/// A signed reference moved to the representative of its node.
pub open spec fn resolved(r: SignedRef, reps: Map<u32, u32>) -> SignedRef {
    SignedRef { id: reps[r.id], forward: r.forward }
}

/// The fields after a rewritten path's steps: one placeholder overlap field,
/// since the old one no longer matches the steps it describes.
pub open spec fn unknown_field() -> Seq<Seq<u8>> {
    seq![seq![42u8]]
}

/// What becomes of one record: a segment is kept only if it represents itself,
/// with its merged sequence; a link is moved to the representatives of its ends
/// and dropped if they coincide or one is unknown; paths and walks lose the
/// steps on absorbed nodes; any other record is kept as it is.
pub open spec fn rewrite_record(
    r: RecordView,
    reps: Map<u32, u32>,
    seqs: Map<u32, Seq<u8>>,
) -> Option<RecordView> {
    match r {
        RecordView::Segment { id, .. } => if survives(reps, id) {
            Some(RecordView::Segment { id, sequence: seqs[id], tags: Seq::empty() })
        } else {
            None
        },
        RecordView::Link { from, to, overlap, .. } => if reps.contains_key(from.id) && reps.contains_key(
            to.id,
        ) && reps[from.id] != reps[to.id] {
            Some(
                RecordView::Link {
                    from: resolved(from, reps),
                    to: resolved(to, reps),
                    overlap,
                    tags: Seq::empty(),
                },
            )
        } else {
            None
        },
        RecordView::Path { name, steps, .. } => Some(
            RecordView::Path {
                name,
                steps: kept_steps(steps, reps, steps.len()),
                rest: unknown_field(),
            },
        ),
        RecordView::Walk { sample, hap_index, seq_id, start, end, steps, .. } => Some(
            RecordView::Walk {
                sample,
                hap_index,
                seq_id,
                start,
                end,
                steps: kept_steps(steps, reps, steps.len()),
                tags: Seq::empty(),
            },
        ),
        RecordView::Other { line } => Some(RecordView::Other { line }),
    }
}

/// The rewritten form of the first `n` records, in order.
pub open spec fn rewrite_upto(
    recs: Seq<RecordView>,
    reps: Map<u32, u32>,
    seqs: Map<u32, Seq<u8>>,
    n: nat,
) -> Seq<RecordView>
    decreases n,
{
    if n == 0 || n > recs.len() {
        Seq::empty()
    } else {
        let prev = rewrite_upto(recs, reps, seqs, (n - 1) as nat);
        match rewrite_record(recs[n - 1], reps, seqs) {
            Some(r) => prev.push(r),
            None => prev,
        }
    }
}

fn is_survivor(reps: &HashMap<u32, u32>, id: u32) -> (b: bool)
    ensures
        b == survives(reps@, id),
{
    match reps.get(&id) {
        Some(r) => *r == id,
        None => false,
    }
}

/// The steps of a traversal whose node represents itself, in order.
pub fn keep_steps(steps: &Vec<SignedRef>, reps: &HashMap<u32, u32>) -> (r: Vec<SignedRef>)
    ensures
        r@ == kept_steps(steps@, reps@, steps@.len()),
{
    let mut kept: Vec<SignedRef> = Vec::new();
    let mut i: usize = 0;
    while i < steps.len()
        invariant
            i <= steps.len(),
            kept@ == kept_steps(steps@, reps@, i as nat),
        decreases steps.len() - i,
    {
        let s = steps[i];
        if is_survivor(reps, s.id) {
            kept.push(s);
        }
        i += 1;
    }
    kept
}

/// Rewrites one record; `None` when it is dropped.
pub fn rewrite_one(
    rec: &Record,
    reps: &HashMap<u32, u32>,
    seqs: &HashMap<u32, Vec<u8>>,
) -> (r: Option<Record>)
    requires
        forall|y: u32| #[trigger] survives(reps@, y) ==> seqs@.contains_key(y),
    ensures
        match r {
            Some(x) => rewrite_record(rec@, reps@, seqs@.map_values(|v: Vec<u8>| v@)) == Some(x@),
            None => rewrite_record(rec@, reps@, seqs@.map_values(|v: Vec<u8>| v@)).is_none(),
        },
{
    match rec {
        Record::Segment { id, .. } => {
            if is_survivor(reps, *id) {
                let sequence = copy_bytes(seqs.get(id).unwrap());
                let r = Record::Segment { id: *id, sequence, tags: Vec::new() };
                assert(r@ == RecordView::Segment { id: *id, sequence: sequence@, tags: Seq::empty() }) by {
                    assert(fields_view(Seq::<Vec<u8>>::empty()) =~= Seq::empty());
                }
                Some(r)
            } else {
                None
            }
        },
        Record::Link { from, to, overlap, .. } => {
            assert(fields_view(Seq::<Vec<u8>>::empty()) =~= Seq::<Seq<u8>>::empty());
            match (reps.get(&from.id), reps.get(&to.id)) {
                (Some(a), Some(b)) => {
                    if *a == *b {
                        None
                    } else {
                        Some(
                            Record::Link {
                                from: SignedRef { id: *a, forward: from.forward },
                                to: SignedRef { id: *b, forward: to.forward },
                                overlap: copy_bytes(overlap),
                                tags: Vec::new(),
                            },
                        )
                    }
                },
                _ => None,
            }
        },
        Record::Path { name, steps, .. } => {
            let star = vec![42u8];
            assert(star@ =~= seq![42u8]);
            let mut rest: Vec<Vec<u8>> = Vec::new();
            rest.push(star);
            assert(fields_view(rest@) =~= unknown_field());
            Some(Record::Path { name: copy_bytes(name), steps: keep_steps(steps, reps), rest })
        },
        Record::Walk { sample, hap_index, seq_id, start, end, steps, .. } => {
            assert(fields_view(Seq::<Vec<u8>>::empty()) =~= Seq::<Seq<u8>>::empty());
            Some(
            Record::Walk {
                sample: copy_bytes(sample),
                hap_index: copy_bytes(hap_index),
                seq_id: copy_bytes(seq_id),
                start: copy_bytes(start),
                end: copy_bytes(end),
                steps: keep_steps(steps, reps),
                tags: Vec::new(),
            },
        )
        },
        Record::Other { line } => Some(Record::Other { line: copy_bytes(line) }),
    }
}

/// Rewrites every record, in order, leaving out those that are dropped.
pub fn rewrite_records(
    records: &Vec<Record>,
    reps: &HashMap<u32, u32>,
    seqs: &HashMap<u32, Vec<u8>>,
) -> (out: Vec<Record>)
    requires
        forall|y: u32| #[trigger] survives(reps@, y) ==> seqs@.contains_key(y),
    ensures
        views(out@) == rewrite_upto(
            views(records@),
            reps@,
            seqs@.map_values(|v: Vec<u8>| v@),
            records@.len(),
        ),
{
    let ghost recs = views(records@);
    let ghost sv = seqs@.map_values(|v: Vec<u8>| v@);
    let mut out: Vec<Record> = Vec::new();
    let mut i: usize = 0;
    proof {
        assert(views(out@) =~= Seq::empty());
    }
    while i < records.len()
        invariant
            i <= records.len(),
            recs == views(records@),
            sv == seqs@.map_values(|v: Vec<u8>| v@),
            forall|y: u32| #[trigger] survives(reps@, y) ==> seqs@.contains_key(y),
            views(out@) == rewrite_upto(recs, reps@, sv, i as nat),
        decreases records.len() - i,
    {
        let ghost prev = out@;
        match rewrite_one(&records[i], reps, seqs) {
            Some(r) => {
                out.push(r);
                assert(views(out@) =~= views(prev).push(r@));
            },
            None => {},
        }
        assert(recs[i as int] == records@[i as int]@);
        i += 1;
    }
    out
}

} // verus!
