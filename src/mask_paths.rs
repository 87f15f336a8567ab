//! Masking of paths: removes chosen paths and walks from a graph, together
//! with the nodes and links that only they used.
use crate::graph::{bytes_equal, contains_name, copy_bytes, copy_record, views, GfaError, Record, RecordView, SignedRef};
use std::collections::HashSet;
use vstd::prelude::*;

verus! {

broadcast use vstd::std_specs::hash::group_hash_axioms;

pub const HASH: u8 = 35;

/// The name under which a path or walk is chosen: a path's name, or a walk's
/// sample, haplotype and sequence id joined by `#`.
pub open spec fn traversal_name(r: RecordView) -> Option<Seq<u8>> {
    match r {
        RecordView::Path { name, .. } => Some(name),
        RecordView::Walk { sample, hap_index, seq_id, .. } => Some(
            sample + seq![HASH] + hap_index + seq![HASH] + seq_id,
        ),
        _ => None,
    }
}

pub open spec fn traversal_steps(r: RecordView) -> Seq<SignedRef> {
    match r {
        RecordView::Path { steps, .. } => steps,
        RecordView::Walk { steps, .. } => steps,
        _ => Seq::empty(),
    }
}

/// The record is a path or walk whose name is among `sel`, or (with `chosen`
/// false) one whose name is not.
pub open spec fn is_traversal_of(r: RecordView, sel: Seq<Seq<u8>>, chosen: bool) -> bool {
    traversal_name(r) is Some && sel.contains(traversal_name(r)->Some_0) == chosen
}

/// The ids of the nodes that the steps visit.
pub open spec fn step_ids(steps: Seq<SignedRef>) -> Set<u32> {
    steps.map_values(|s: SignedRef| s.id).to_set()
}

/// Nodes that the chosen paths and walks among the first `n` records step on
/// (with `chosen` false: the other paths and walks).
pub open spec fn stepped_upto(recs: Seq<RecordView>, sel: Seq<Seq<u8>>, chosen: bool, n: nat) -> Set<
    u32,
>
    decreases n,
{
    if n == 0 || n > recs.len() {
        Set::empty()
    } else if is_traversal_of(recs[n - 1], sel, chosen) {
        stepped_upto(recs, sel, chosen, (n - 1) as nat).union(
            step_ids(traversal_steps(recs[n - 1])),
        )
    } else {
        stepped_upto(recs, sel, chosen, (n - 1) as nat)
    }
}

/// A node that only the chosen paths and walks step on.
pub open spec fn masked(recs: Seq<RecordView>, sel: Seq<Seq<u8>>, id: u32) -> bool {
    stepped_upto(recs, sel, true, recs.len()).contains(id) && !stepped_upto(
        recs,
        sel,
        false,
        recs.len(),
    ).contains(id)
}

/// Whether a record stays: segments and links off the masked nodes, paths and
/// walks not chosen, and every other record.
pub open spec fn stays(r: RecordView, recs: Seq<RecordView>, sel: Seq<Seq<u8>>) -> bool {
    match r {
        RecordView::Segment { id, .. } => !masked(recs, sel, id),
        RecordView::Link { from, to, .. } => !masked(recs, sel, from.id) && !masked(recs, sel, to.id),
        RecordView::Path { .. } => !is_traversal_of(r, sel, true),
        RecordView::Walk { .. } => !is_traversal_of(r, sel, true),
        _ => true,
    }
}

/// The records of the first `n` that stay, in order.
pub open spec fn kept_upto(recs: Seq<RecordView>, sel: Seq<Seq<u8>>, n: nat) -> Seq<RecordView>
    decreases n,
{
    if n == 0 || n > recs.len() {
        Seq::empty()
    } else if stays(recs[n - 1], recs, sel) {
        kept_upto(recs, sel, (n - 1) as nat).push(recs[n - 1])
    } else {
        kept_upto(recs, sel, (n - 1) as nat)
    }
}

/// Some path or walk of the records has this name.
pub open spec fn names_traversal(recs: Seq<RecordView>, name: Seq<u8>) -> bool {
    exists|i: int| 0 <= i < recs.len() && #[trigger] traversal_name(recs[i]) == Some(name)
}

fn name_of(rec: &Record) -> (r: Option<Vec<u8>>)
    ensures
        match r {
            Some(v) => traversal_name(rec@) == Some(v@),
            None => traversal_name(rec@).is_none(),
        },
{
    match rec {
        Record::Path { name, .. } => Some(copy_bytes(name)),
        Record::Walk { sample, hap_index, seq_id, .. } => {
            let mut v = copy_bytes(sample);
            v.push(HASH);
            let mut h = copy_bytes(hap_index);
            v.append(&mut h);
            v.push(HASH);
            let mut q = copy_bytes(seq_id);
            v.append(&mut q);
            assert(v@ =~= sample@ + seq![HASH] + hap_index@ + seq![HASH] + seq_id@);
            Some(v)
        },
        _ => None,
    }
}

/// Adds the node ids of the steps to a set.
fn add_step_ids(set: &mut HashSet<u32>, steps: &Vec<SignedRef>)
    ensures
        final(set)@ == old(set)@.union(step_ids(steps@)),
{
    let mut j: usize = 0;
    assert(old(set)@.union(step_ids(steps@.subrange(0, 0))) =~= old(set)@);
    while j < steps.len()
        invariant
            j <= steps.len(),
            set@ == old(set)@.union(step_ids(steps@.subrange(0, j as int))),
        decreases steps.len() - j,
    {
        set.insert(steps[j].id);
        proof {
            let p = steps@.subrange(0, j as int);
            assert(steps@.subrange(0, j + 1) =~= p.push(steps@[j as int]));
            assert(steps@.subrange(0, j + 1).map_values(|s: SignedRef| s.id) =~= p.map_values(
                |s: SignedRef| s.id,
            ).push(steps@[j as int].id));
            p.map_values(|s: SignedRef| s.id).lemma_push_to_set_commute(steps@[j as int].id);
            assert(set@ =~= old(set)@.union(step_ids(steps@.subrange(0, j + 1))));
        }
        j += 1;
    }
    assert(steps@.subrange(0, steps@.len() as int) =~= steps@);
}

/// Removes the chosen paths and walks (by name; a walk is named by its sample,
/// haplotype and sequence id joined by `#`), the segments that only they step
/// on, and the links that touch those segments. Each chosen name must name a
/// path or walk of the graph: the position of the first that does not is the
/// error.
pub fn mask_paths(records: &Vec<Record>, selected: &Vec<Vec<u8>>) -> (r: Result<Vec<Record>, GfaError>)
    ensures
        match r {
            Ok(out) => (forall|i: int|
                0 <= i < selected@.len() ==> names_traversal(views(records@), #[trigger] selected@[i]@))
                && views(out@) == kept_upto(
                views(records@),
                selected@.map_values(|v: Vec<u8>| v@),
                records@.len(),
            ),
            Err(e) => exists|i: int|
                0 <= i < selected@.len() && !names_traversal(views(records@), #[trigger] selected@[i]@)
                    && e == (GfaError::MissingPath { index: i as usize }),
        },
{
    let ghost recs = views(records@);
    let ghost sel = selected@.map_values(|v: Vec<u8>| v@);
    // every chosen name must be there
    let mut i: usize = 0;
    while i < selected.len()
        invariant
            i <= selected.len(),
            recs == views(records@),
            forall|x: int| 0 <= x < i ==> names_traversal(recs, #[trigger] selected@[x]@),
        decreases selected.len() - i,
    {
        let mut found = false;
        let mut n: usize = 0;
        while n < records.len() && !found
            invariant
                n <= records.len(),
                recs == views(records@),
                i < selected.len(),
                found ==> names_traversal(recs, selected@[i as int]@),
                !found ==> forall|y: int| 0 <= y < n ==> #[trigger] traversal_name(recs[y]) != Some(
                    selected@[i as int]@,
                ),
            decreases records.len() - n,
        {
            assert(recs[n as int] == records@[n as int]@);
            match name_of(&records[n]) {
                Some(nm) => {
                    if bytes_equal(&nm, &selected[i]) {
                        found = true;
                        assert(traversal_name(recs[n as int]) == Some(selected@[i as int]@));
                    }
                },
                None => {},
            }
            n += 1;
        }
        if !found {
            assert(recs.len() == records@.len());
            assert(!names_traversal(recs, selected@[i as int]@));
            return Err(GfaError::MissingPath { index: i });
        }
        i += 1;
    }
    // nodes of the chosen traversals, and of the others
    let mut chosen: HashSet<u32> = HashSet::new();
    let mut others: HashSet<u32> = HashSet::new();
    let mut n: usize = 0;
    assert(chosen@ =~= stepped_upto(recs, sel, true, 0));
    assert(others@ =~= stepped_upto(recs, sel, false, 0));
    while n < records.len()
        invariant
            n <= records.len(),
            recs == views(records@),
            sel == selected@.map_values(|v: Vec<u8>| v@),
            chosen@ == stepped_upto(recs, sel, true, n as nat),
            others@ == stepped_upto(recs, sel, false, n as nat),
        decreases records.len() - n,
    {
        assert(recs[n as int] == records@[n as int]@);
        match name_of(&records[n]) {
            Some(nm) => {
                let is_chosen = contains_name(selected, &nm);
                match &records[n] {
                    Record::Path { steps, .. } => {
                        if is_chosen {
                            add_step_ids(&mut chosen, steps);
                        } else {
                            add_step_ids(&mut others, steps);
                        }
                    },
                    Record::Walk { steps, .. } => {
                        if is_chosen {
                            add_step_ids(&mut chosen, steps);
                        } else {
                            add_step_ids(&mut others, steps);
                        }
                    },
                    _ => {},
                }
            },
            None => {},
        }
        n += 1;
    }
    assert(recs.len() == records@.len());
    // the records that stay
    let mut out: Vec<Record> = Vec::new();
    let mut n: usize = 0;
    assert(views(out@) =~= Seq::empty());
    while n < records.len()
        invariant
            n <= records.len(),
            recs == views(records@),
            sel == selected@.map_values(|v: Vec<u8>| v@),
            chosen@ == stepped_upto(recs, sel, true, recs.len()),
            others@ == stepped_upto(recs, sel, false, recs.len()),
            views(out@) == kept_upto(recs, sel, n as nat),
        decreases records.len() - n,
    {
        let rec = &records[n];
        assert(recs[n as int] == rec@);
        let stay = match rec {
            Record::Segment { id, .. } => !(chosen.contains(id) && !others.contains(id)),
            Record::Link { from, to, .. } => !(chosen.contains(&from.id) && !others.contains(
                &from.id,
            )) && !(chosen.contains(&to.id) && !others.contains(&to.id)),
            Record::Path { .. } | Record::Walk { .. } => match name_of(rec) {
                Some(nm) => !contains_name(selected, &nm),
                None => true,
            },
            Record::Other { .. } => true,
        };
        if stay {
            let ghost before = views(out@);
            out.push(copy_record(rec));
            assert(views(out@) =~= before.push(rec@));
        }
        n += 1;
    }
    Ok(out)
}
} // verus!
