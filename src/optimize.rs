//! Renumbering of node ids: segments take the ids 1, 2, 3, ... in the order of
//! the file, and every reference follows.
use crate::graph::{copy_bytes, copy_fields, copy_record};
use crate::graph::{fields_view, views, GfaError, Record, RecordView, SignedRef};
use std::collections::HashMap;
use vstd::prelude::*;

verus! {

broadcast use vstd::std_specs::hash::group_hash_axioms;

/// Progress of a renumbering: the records written so far, the links held back
/// until every segment is known, the new id of each old id, the pairs
/// (old, new) in order, and the next free id.
pub ghost struct RelocView {
    pub out: Seq<RecordView>,
    pub links: Seq<RecordView>,
    pub map: Map<u32, u32>,
    pub pairs: Seq<(u32, u32)>,
    pub next: nat,
}

/// The first of the first `n` steps whose node has no new id yet.
pub open spec fn first_unmapped(steps: Seq<SignedRef>, map: Map<u32, u32>, n: nat) -> Option<u32>
    decreases n,
{
    if n == 0 || n > steps.len() {
        None
    } else {
        match first_unmapped(steps, map, (n - 1) as nat) {
            Some(x) => Some(x),
            None => if map.contains_key(steps[n - 1].id) {
                None
            } else {
                Some(steps[n - 1].id)
            },
        }
    }
}

/// The steps with their new ids.
pub open spec fn renamed(steps: Seq<SignedRef>, map: Map<u32, u32>) -> Seq<SignedRef> {
    Seq::new(steps.len(), |k: int| SignedRef { id: map[steps[k].id], forward: steps[k].forward })
}

/// Renumbering after the first `n` records. A path on a node without a new id
/// yet is an error, and so is a walk, which this renumbering does not handle.
pub open spec fn reloc_upto(recs: Seq<RecordView>, n: nat) -> Result<RelocView, GfaError>
    decreases n,
{
    if n == 0 || n > recs.len() {
        Ok(RelocView { out: Seq::empty(), links: Seq::empty(), map: Map::empty(), pairs: Seq::empty(), next: 1 })
    } else {
        match reloc_upto(recs, (n - 1) as nat) {
            Err(e) => Err(e),
            Ok(v) => match recs[n - 1] {
                RecordView::Segment { id, sequence, .. } => Ok(
                    RelocView {
                        out: v.out.push(RecordView::Segment { id: v.next as u32, sequence, tags: Seq::empty() }),
                        map: v.map.insert(id, v.next as u32),
                        pairs: v.pairs.push((id, v.next as u32)),
                        next: v.next + 1,
                        ..v
                    },
                ),
                RecordView::Link { .. } => Ok(RelocView { links: v.links.push(recs[n - 1]), ..v }),
                RecordView::Path { name, steps, .. } => match first_unmapped(
                    steps,
                    v.map,
                    steps.len(),
                ) {
                    Some(x) => Err(GfaError::NotFound { node: x }),
                    None => Ok(
                        RelocView {
                            out: v.out.push(
                                RecordView::Path { name, steps: renamed(steps, v.map), rest: Seq::empty() },
                            ),
                            ..v
                        },
                    ),
                },
                RecordView::Walk { .. } => Err(GfaError::Format { line: n as usize }),
                RecordView::Other { .. } => Ok(RelocView { out: v.out.push(recs[n - 1]), ..v }),
            },
        }
    }
}

/// The held-back links whose two ends have new ids, moved to them.
pub open spec fn relinked(links: Seq<RecordView>, map: Map<u32, u32>, n: nat) -> Seq<RecordView>
    decreases n,
{
    if n == 0 || n > links.len() {
        Seq::empty()
    } else {
        let prev = relinked(links, map, (n - 1) as nat);
        match links[n - 1] {
            RecordView::Link { from, to, overlap, .. } => if map.contains_key(from.id)
                && map.contains_key(to.id) {
                prev.push(
                    RecordView::Link {
                        from: SignedRef { id: map[from.id], forward: from.forward },
                        to: SignedRef { id: map[to.id], forward: to.forward },
                        overlap,
                        tags: Seq::empty(),
                    },
                )
            } else {
                prev
            },
            _ => prev,
        }
    }
}

proof fn lemma_reloc_err_extends(recs: Seq<RecordView>, m: nat)
    requires
        m <= recs.len(),
        reloc_upto(recs, m) is Err,
    ensures
        reloc_upto(recs, recs.len()) == reloc_upto(recs, m),
    decreases recs.len() - m,
{
    if m < recs.len() {
        lemma_reloc_err_extends(recs, m + 1);
    }
}

proof fn lemma_unmapped_extends(steps: Seq<SignedRef>, map: Map<u32, u32>, n: nat)
    requires
        n <= steps.len(),
        first_unmapped(steps, map, n).is_some(),
    ensures
        first_unmapped(steps, map, steps.len()) == first_unmapped(steps, map, n),
    decreases steps.len() - n,
{
    if n < steps.len() {
        lemma_unmapped_extends(steps, map, n + 1);
    }
}

proof fn lemma_reloc_next(recs: Seq<RecordView>, n: nat)
    requires
        n <= recs.len(),
        reloc_upto(recs, n) is Ok,
    ensures
        reloc_upto(recs, n)->Ok_0.next <= n + 1,
    decreases n,
{
    if n > 0 {
        lemma_reloc_next(recs, (n - 1) as nat);
    }
}

/// Renumbers the segments 1, 2, 3, ... in order, moves the paths to the new
/// ids, and puts the links, moved likewise, after every other record (a link
/// with an end that no segment names is left out). Returns the records and the
/// pairs (old id, new id) in the order of the segments. A path on a node
/// without an earlier segment, or a walk, is an error.
pub fn relocate_ids(records: &Vec<Record>) -> (r: Result<(Vec<Record>, Vec<(u32, u32)>), GfaError>)
    requires
        records.len() < u32::MAX,
    ensures
        match r {
            Ok((out, pairs)) => reloc_upto(views(records@), records@.len()) is Ok && {
                let v = reloc_upto(views(records@), records@.len())->Ok_0;
                &&& views(out@) == v.out + relinked(v.links, v.map, v.links.len())
                &&& pairs@ == v.pairs
            },
            Err(e) => reloc_upto(views(records@), records@.len()) == Err::<RelocView, GfaError>(e),
        },
{
    let ghost recs = views(records@);
    let mut out: Vec<Record> = Vec::new();
    let mut links: Vec<Record> = Vec::new();
    let mut map: HashMap<u32, u32> = HashMap::new();
    let mut pairs: Vec<(u32, u32)> = Vec::new();
    let mut next: u32 = 1;
    let mut n: usize = 0;
    assert(views(out@) =~= Seq::empty());
    assert(views(links@) =~= Seq::empty());
    assert(map@ =~= Map::empty());
    while n < records.len()
        invariant
            n <= records.len() < u32::MAX,
            recs == views(records@),
            reloc_upto(recs, n as nat) is Ok,
            ({
                let v = reloc_upto(recs, n as nat)->Ok_0;
                &&& views(out@) == v.out
                &&& views(links@) == v.links
                &&& map@ == v.map
                &&& pairs@ == v.pairs
                &&& next as nat == v.next
            }),
        decreases records.len() - n,
    {
        proof {
            lemma_reloc_next(recs, n as nat);
        }
        assert(recs[n as int] == records@[n as int]@);
        let ghost before_out = views(out@);
        let ghost before_links = views(links@);
        match &records[n] {
            Record::Segment { id, sequence, .. } => {
                out.push(Record::Segment { id: next, sequence: copy_bytes(sequence), tags: Vec::new() });
                map.insert(*id, next);
                pairs.push((*id, next));
                next = next + 1;
                assert(fields_view(Seq::<Vec<u8>>::empty()) =~= Seq::<Seq<u8>>::empty());
                assert(views(out@) =~= before_out.push(
                    RecordView::Segment { id: (next - 1) as u32, sequence: sequence@, tags: Seq::empty() },
                ));
            },
            Record::Link { .. } => {
                links.push(copy_record(&records[n]));
                assert(views(links@) =~= before_links.push(recs[n as int]));
            },
            Record::Path { name, steps, rest } => {
                let ghost m = map@;
                let mut moved: Vec<SignedRef> = Vec::new();
                let mut j: usize = 0;
                while j < steps.len()
                    invariant
                        j <= steps.len(),
                        m == map@,
                        first_unmapped(steps@, m, j as nat).is_none(),
                        moved@ == renamed(steps@.subrange(0, j as int), m),
                        n < records.len(),
                        recs == views(records@),
                        reloc_upto(recs, n as nat) is Ok,
                        reloc_upto(recs, n as nat)->Ok_0.map == m,
                        recs[n as int] is Path && recs[n as int]->Path_steps == steps@,
                    decreases steps.len() - j,
                {
                    let s = steps[j];
                    match map.get(&s.id) {
                        None => {
                            proof {
                                assert(first_unmapped(steps@, m, (j + 1) as nat) == Some(s.id));
                                lemma_unmapped_extends(steps@, m, (j + 1) as nat);
                                lemma_reloc_err_extends(recs, (n + 1) as nat);
                            }
                            return Err(GfaError::NotFound { node: s.id });
                        },
                        Some(new_id) => {
                            moved.push(SignedRef { id: *new_id, forward: s.forward });
                            assert(moved@ =~= renamed(steps@.subrange(0, j + 1), m));
                        },
                    }
                    j += 1;
                }
                assert(steps@.subrange(0, steps@.len() as int) =~= steps@);
                out.push(Record::Path { name: copy_bytes(name), steps: moved, rest: Vec::new() });
                assert(fields_view(Seq::<Vec<u8>>::empty()) =~= Seq::<Seq<u8>>::empty());
                assert(views(out@) =~= before_out.push(
                    RecordView::Path { name: name@, steps: renamed(steps@, m), rest: Seq::empty() },
                ));
            },
            Record::Walk { .. } => {
                proof {
                    lemma_reloc_err_extends(recs, (n + 1) as nat);
                }
                return Err(GfaError::Format { line: n + 1 });
            },
            Record::Other { line } => {
                out.push(Record::Other { line: copy_bytes(line) });
                assert(views(out@) =~= before_out.push(recs[n as int]));
            },
        }
        n += 1;
    }
    assert(recs.len() == records@.len());
    let ghost v = reloc_upto(recs, recs.len());
    let ghost body = views(out@);
    let mut k: usize = 0;
    assert(views(out@) =~= body + relinked(views(links@), map@, 0));
    while k < links.len()
        invariant
            k <= links.len(),
            views(out@) == body + relinked(views(links@), map@, k as nat),
        decreases links.len() - k,
    {
        let ghost before = views(out@);
        assert(views(links@)[k as int] == links@[k as int]@);
        match &links[k] {
            Record::Link { from, to, overlap, .. } => {
                match (map.get(&from.id), map.get(&to.id)) {
                    (Some(a), Some(b)) => {
                        assert(fields_view(Seq::<Vec<u8>>::empty()) =~= Seq::<Seq<u8>>::empty());
                        out.push(
                            Record::Link {
                                from: SignedRef { id: *a, forward: from.forward },
                                to: SignedRef { id: *b, forward: to.forward },
                                overlap: copy_bytes(overlap),
                                tags: Vec::new(),
                            },
                        );
                        assert(views(out@) =~= before.push(
                            RecordView::Link {
                                from: SignedRef { id: *a, forward: from.forward },
                                to: SignedRef { id: *b, forward: to.forward },
                                overlap: overlap@,
                                tags: Seq::empty(),
                            },
                        ));
                        assert(relinked(views(links@), map@, (k + 1) as nat) == relinked(
                            views(links@),
                            map@,
                            k as nat,
                        ).push(
                            RecordView::Link {
                                from: SignedRef { id: *a, forward: from.forward },
                                to: SignedRef { id: *b, forward: to.forward },
                                overlap: overlap@,
                                tags: Seq::empty(),
                            },
                        ));
                        assert(views(out@) =~= body + relinked(views(links@), map@, (k + 1) as nat));
                    },
                    _ => {},
                }
            },
            _ => {},
        }
        k += 1;
    }
    Ok((out, pairs))
}

/// The largest segment id among the first `n` records, zero without one.
pub open spec fn max_segment_id(recs: Seq<RecordView>, n: nat) -> u32
    decreases n,
{
    if n == 0 || n > recs.len() {
        0
    } else {
        match recs[n - 1] {
            RecordView::Segment { id, .. } => if id > max_segment_id(recs, (n - 1) as nat) {
                id
            } else {
                max_segment_id(recs, (n - 1) as nat)
            },
            _ => max_segment_id(recs, (n - 1) as nat),
        }
    }
}

/// Renumbering of an appended graph after its first `n` records: segments
/// take the ids from `start` on and keep their tags, paths follow, links are
/// held back, and other records are left out. A path on a node without a new
/// id yet, a walk, or an id beyond 32 bits is an error.
pub open spec fn append_upto(recs: Seq<RecordView>, start: nat, n: nat) -> Result<RelocView, GfaError>
    decreases n,
{
    if n == 0 || n > recs.len() {
        Ok(RelocView { out: Seq::empty(), links: Seq::empty(), map: Map::empty(), pairs: Seq::empty(), next: start })
    } else {
        match append_upto(recs, start, (n - 1) as nat) {
            Err(e) => Err(e),
            Ok(v) => match recs[n - 1] {
                RecordView::Segment { id, sequence, tags } => if v.next > u32::MAX {
                    Err(GfaError::Overflow { node: id })
                } else {
                    Ok(
                        RelocView {
                            out: v.out.push(RecordView::Segment { id: v.next as u32, sequence, tags }),
                            map: v.map.insert(id, v.next as u32),
                            pairs: v.pairs.push((id, v.next as u32)),
                            next: v.next + 1,
                            ..v
                        },
                    )
                },
                RecordView::Link { .. } => Ok(RelocView { links: v.links.push(recs[n - 1]), ..v }),
                RecordView::Path { name, steps, rest } => match first_unmapped(
                    steps,
                    v.map,
                    steps.len(),
                ) {
                    Some(x) => Err(GfaError::NotFound { node: x }),
                    None => Ok(
                        RelocView {
                            out: v.out.push(
                                RecordView::Path { name, steps: renamed(steps, v.map), rest },
                            ),
                            ..v
                        },
                    ),
                },
                RecordView::Walk { .. } => Err(GfaError::Format { line: n as usize }),
                RecordView::Other { .. } => Ok(v),
            },
        }
    }
}

proof fn lemma_append_err_extends(recs: Seq<RecordView>, start: nat, m: nat)
    requires
        m <= recs.len(),
        append_upto(recs, start, m) is Err,
    ensures
        append_upto(recs, start, recs.len()) == append_upto(recs, start, m),
    decreases recs.len() - m,
{
    if m < recs.len() {
        lemma_append_err_extends(recs, start, m + 1);
    }
}

proof fn lemma_append_next(recs: Seq<RecordView>, start: nat, n: nat)
    requires
        n <= recs.len(),
        start <= u32::MAX + 1,
        append_upto(recs, start, n) is Ok,
    ensures
        append_upto(recs, start, n)->Ok_0.next <= u32::MAX + 1,
        append_upto(recs, start, n)->Ok_0.next >= start,
    decreases n,
{
    if n > 0 {
        lemma_append_next(recs, start, (n - 1) as nat);
    }
}

/// Appends a second graph to a first one: the first graph's records come
/// unchanged; then the second graph's segments, numbered on from the largest
/// segment id of the first and keeping their tags, and its paths, moved to the
/// new ids; then its links, moved likewise (a link with an end that no segment
/// names is left out). Other records of the second graph are left out. A path
/// of the second graph on a node without an earlier segment, a walk in it, or
/// an id beyond 32 bits is an error.
pub fn concat_graphs(first: &Vec<Record>, second: &Vec<Record>) -> (r: Result<Vec<Record>, GfaError>)
    ensures
        match r {
            Ok(out) => append_upto(
                views(second@),
                (max_segment_id(views(first@), first@.len()) + 1) as nat,
                second@.len(),
            ) is Ok && {
                let v = append_upto(
                    views(second@),
                    (max_segment_id(views(first@), first@.len()) + 1) as nat,
                    second@.len(),
                )->Ok_0;
                views(out@) == views(first@) + v.out + relinked(v.links, v.map, v.links.len())
            },
            Err(e) => append_upto(
                views(second@),
                (max_segment_id(views(first@), first@.len()) + 1) as nat,
                second@.len(),
            ) == Err::<RelocView, GfaError>(e),
        },
{
    let ghost a = views(first@);
    let ghost b = views(second@);
    let mut out: Vec<Record> = Vec::new();
    let mut top: u32 = 0;
    let mut n: usize = 0;
    assert(views(out@) =~= a.subrange(0, 0));
    while n < first.len()
        invariant
            n <= first.len(),
            a == views(first@),
            views(out@) == a.subrange(0, n as int),
            top == max_segment_id(a, n as nat),
        decreases first.len() - n,
    {
        assert(a[n as int] == first@[n as int]@);
        match &first[n] {
            Record::Segment { id, .. } => {
                if *id > top {
                    top = *id;
                }
            },
            _ => {},
        }
        let ghost before = views(out@);
        out.push(crate::graph::copy_record(&first[n]));
        assert(views(out@) =~= before.push(a[n as int]));
        assert(a.subrange(0, n + 1) =~= a.subrange(0, n as int).push(a[n as int]));
        n += 1;
    }
    assert(a.subrange(0, a.len() as int) =~= a);
    let ghost start: nat = top as nat + 1;
    let ghost head = views(out@);
    let mut links: Vec<Record> = Vec::new();
    let mut map: HashMap<u32, u32> = HashMap::new();
    let mut next: u64 = top as u64 + 1;
    assert(views(links@) =~= Seq::empty());
    assert(map@ =~= Map::empty());
    assert(views(out@) =~= head + Seq::empty());
    let mut n: usize = 0;
    while n < second.len()
        invariant
            n <= second.len(),
            b == views(second@),
            a == views(first@),
            a.len() == first@.len(),
            top == max_segment_id(a, a.len()),
            start == top as nat + 1,
            append_upto(b, start, n as nat) is Ok,
            ({
                let v = append_upto(b, start, n as nat)->Ok_0;
                &&& views(out@) == head + v.out
                &&& views(links@) == v.links
                &&& map@ == v.map
                &&& next as nat == v.next
            }),
        decreases second.len() - n,
    {
        proof {
            lemma_append_next(b, start, n as nat);
        }
        assert(b[n as int] == second@[n as int]@);
        let ghost before_out = views(out@);
        let ghost before_links = views(links@);
        match &second[n] {
            Record::Segment { id, sequence, tags } => {
                if next > 4294967295 {
                    proof {
                        lemma_append_err_extends(b, start, (n + 1) as nat);
                    }
                    return Err(GfaError::Overflow { node: *id });
                }
                let new_id = next as u32;
                let copy = crate::graph::copy_record(&second[n]);
                match copy {
                    Record::Segment { sequence: s2, tags: t2, .. } => {
                        out.push(Record::Segment { id: new_id, sequence: s2, tags: t2 });
                    },
                    _ => {},
                }
                map.insert(*id, new_id);
                next = next + 1;
                assert(views(out@) =~= before_out.push(
                    RecordView::Segment { id: new_id, sequence: sequence@, tags: fields_view(tags@) },
                ));
            },
            Record::Link { .. } => {
                links.push(copy_record(&second[n]));
                assert(views(links@) =~= before_links.push(b[n as int]));
            },
            Record::Path { name, steps, rest } => {
                let ghost m = map@;
                let mut moved: Vec<SignedRef> = Vec::new();
                let mut j: usize = 0;
                while j < steps.len()
                    invariant
                        j <= steps.len(),
                        m == map@,
                        first_unmapped(steps@, m, j as nat).is_none(),
                        moved@ == renamed(steps@.subrange(0, j as int), m),
                        n < second.len(),
                        b == views(second@),
                        append_upto(b, start, n as nat) is Ok,
                        append_upto(b, start, n as nat)->Ok_0.map == m,
                        a == views(first@),
                        a.len() == first@.len(),
                        top == max_segment_id(a, a.len()),
                        start == top as nat + 1,
                        b[n as int] is Path && b[n as int]->Path_steps == steps@,
                    decreases steps.len() - j,
                {
                    let s = steps[j];
                    match map.get(&s.id) {
                        None => {
                            proof {
                                assert(first_unmapped(steps@, m, (j + 1) as nat) == Some(s.id));
                                lemma_unmapped_extends(steps@, m, (j + 1) as nat);
                                lemma_append_err_extends(b, start, (n + 1) as nat);
                            }
                            return Err(GfaError::NotFound { node: s.id });
                        },
                        Some(new_id) => {
                            moved.push(SignedRef { id: *new_id, forward: s.forward });
                            assert(moved@ =~= renamed(steps@.subrange(0, j + 1), m));
                        },
                    }
                    j += 1;
                }
                assert(steps@.subrange(0, steps@.len() as int) =~= steps@);
                out.push(Record::Path { name: copy_bytes(name), steps: moved, rest: copy_fields(rest) });
                assert(views(out@) =~= before_out.push(
                    RecordView::Path { name: name@, steps: renamed(steps@, m), rest: fields_view(rest@) },
                ));
            },
            Record::Walk { .. } => {
                proof {
                    lemma_append_err_extends(b, start, (n + 1) as nat);
                }
                return Err(GfaError::Format { line: n + 1 });
            },
            Record::Other { .. } => {},
        }
        n += 1;
    }
    assert(b.len() == second@.len());
    let ghost v = append_upto(b, start, b.len())->Ok_0;
    let ghost body = views(out@);
    assert(body == head + v.out);
    let mut k: usize = 0;
    assert(views(out@) =~= body + relinked(views(links@), map@, 0));
    while k < links.len()
        invariant
            k <= links.len(),
            views(out@) == body + relinked(views(links@), map@, k as nat),
        decreases links.len() - k,
    {
        let ghost before = views(out@);
        assert(views(links@)[k as int] == links@[k as int]@);
        match &links[k] {
            Record::Link { from, to, overlap, .. } => {
                match (map.get(&from.id), map.get(&to.id)) {
                    (Some(x), Some(y)) => {
                        assert(fields_view(Seq::<Vec<u8>>::empty()) =~= Seq::<Seq<u8>>::empty());
                        let l = Record::Link {
                            from: SignedRef { id: *x, forward: from.forward },
                            to: SignedRef { id: *y, forward: to.forward },
                            overlap: copy_bytes(overlap),
                            tags: Vec::new(),
                        };
                        out.push(l);
                        assert(views(out@) =~= before.push(l@));
                        assert(relinked(views(links@), map@, (k + 1) as nat) == relinked(
                            views(links@),
                            map@,
                            k as nat,
                        ).push(l@));
                        assert(views(out@) =~= body + relinked(views(links@), map@, (k + 1) as nat));
                    },
                    _ => {},
                }
            },
            _ => {},
        }
        k += 1;
    }
    assert(views(out@) =~= a + v.out + relinked(v.links, v.map, v.links.len()));
    Ok(out)
}

} // verus!
