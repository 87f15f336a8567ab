//! Anchor ranks: for each node, how many paths cross it, kept in an
//! insertion-ordered map so that nodes are reported in the order of the file.
use crate::graph::{views, GfaError, Record, RecordView, SignedRef};
use indexmap::IndexMap;
use vstd::prelude::*;

verus! {

#[verifier::external_type_specification]
#[verifier::external_body]
#[verifier::reject_recursive_types(K)]
#[verifier::reject_recursive_types(V)]
#[verifier::reject_recursive_types(S)]
pub struct ExIndexMap<K, V, S>(IndexMap<K, V, S>);

/// The entries of an insertion-ordered map of node ids to counts, in order.
pub uninterp spec fn rank_entries(m: IndexMap<u32, i32>) -> Seq<(u32, i32)>;

/// Position of the first entry of key `k`, or -1.
pub open spec fn key_index(e: Seq<(u32, i32)>, k: u32) -> int
    decreases e.len(),
{
    if e.len() == 0 {
        -1
    } else if key_index(e.drop_last(), k) >= 0 {
        key_index(e.drop_last(), k)
    } else if e.last().0 == k {
        e.len() - 1
    } else {
        -1
    }
}

/// An insertion: a known key keeps its place and takes the new value, a new
/// key goes last.
pub open spec fn put(e: Seq<(u32, i32)>, k: u32, v: i32) -> Seq<(u32, i32)> {
    if key_index(e, k) >= 0 {
        e.update(key_index(e, k), (k, v))
    } else {
        e.push((k, v))
    }
}

/// Relies on `IndexMap::new`: the map starts empty.
#[verifier::external_body]
fn rank_map_new() -> (m: IndexMap<u32, i32>)
    ensures
        rank_entries(m) == Seq::<(u32, i32)>::empty(),
{
    IndexMap::new()
}

/// Relies on `IndexMap::insert`: an existing key keeps its place in the order
/// and takes the new value; a new key is inserted last.
#[verifier::external_body]
fn rank_map_insert(m: &mut IndexMap<u32, i32>, k: u32, v: i32)
    ensures
        rank_entries(*final(m)) == put(rank_entries(*old(m)), k, v),
{
    m.insert(k, v);
}

/// Relies on `IndexMap::get_index_of`: the position of a key, if present.
#[verifier::external_body]
fn rank_map_index_of(m: &IndexMap<u32, i32>, k: u32) -> (r: Option<usize>)
    ensures
        key_index(rank_entries(*m), k) >= 0 ==> r == Some(key_index(rank_entries(*m), k) as usize),
        key_index(rank_entries(*m), k) < 0 ==> r.is_none(),
{
    m.get_index_of(&k)
}

/// Relies on `IndexMap::len`: the number of entries.
#[verifier::external_body]
fn rank_map_len(m: &IndexMap<u32, i32>) -> (r: usize)
    ensures
        r == rank_entries(*m).len(),
{
    m.len()
}

/// Relies on `IndexMap::get_index`: the entry at a position below the length.
#[verifier::external_body]
fn rank_map_entry(m: &IndexMap<u32, i32>, i: usize) -> (r: (u32, i32))
    requires
        i < rank_entries(*m).len(),
    ensures
        r == rank_entries(*m)[i as int],
{
    let (k, v) = m.get_index(i).unwrap();
    (*k, *v)
}

/// Some step of the traversal is on node `id`.
pub open spec fn crosses(steps: Seq<SignedRef>, id: u32) -> bool {
    exists|k: int| 0 <= k < steps.len() && #[trigger] steps[k].id == id
}

/// Every node that the traversal crosses counts one more path.
pub open spec fn bump_crossed(e: Seq<(u32, i32)>, steps: Seq<SignedRef>) -> Seq<(u32, i32)> {
    Seq::new(
        e.len(),
        |i: int|
            if crosses(steps, e[i].0) {
                (e[i].0, (e[i].1 + 1) as i32)
            } else {
                e[i]
            },
    )
}

/// The first of the first `n` steps whose node has no entry.
pub open spec fn first_missing(e: Seq<(u32, i32)>, steps: Seq<SignedRef>, n: nat) -> Option<u32>
    decreases n,
{
    if n == 0 || n > steps.len() {
        None
    } else {
        match first_missing(e, steps, (n - 1) as nat) {
            Some(x) => Some(x),
            None => if key_index(e, steps[n - 1].id) < 0 {
                Some(steps[n - 1].id)
            } else {
                None
            },
        }
    }
}

/// Path counts after the first `n` records: a segment enters with count zero
/// (again, if it was there), a path adds one to each node it crosses, and a
/// path on a node not yet seen is an error.
pub open spec fn ranks_upto(recs: Seq<RecordView>, n: nat) -> Result<Seq<(u32, i32)>, GfaError>
    decreases n,
{
    if n == 0 || n > recs.len() {
        Ok(Seq::empty())
    } else {
        match ranks_upto(recs, (n - 1) as nat) {
            Err(x) => Err(x),
            Ok(e) => match recs[n - 1] {
                RecordView::Segment { id, .. } => Ok(put(e, id, 0)),
                RecordView::Path { steps, .. } => match first_missing(e, steps, steps.len()) {
                    Some(x) => Err(GfaError::NotFound { node: x }),
                    None => Ok(bump_crossed(e, steps)),
                },
                _ => Ok(e),
            },
        }
    }
}

/// The largest count, zero if there is none.
pub open spec fn max_count(e: Seq<(u32, i32)>) -> i32
    decreases e.len(),
{
    if e.len() == 0 {
        0
    } else if e.len() == 1 || e.last().1 > max_count(e.drop_last()) {
        e.last().1
    } else {
        max_count(e.drop_last())
    }
}

/// The entries of the first `n` whose count is within `rank` of `top`, or all
/// of them without a rank.
pub open spec fn within_rank(e: Seq<(u32, i32)>, top: i32, rank: Option<i32>, n: nat) -> Seq<
    (u32, i32),
>
    decreases n,
{
    if n == 0 || n > e.len() {
        Seq::empty()
    } else {
        let prev = within_rank(e, top, rank, (n - 1) as nat);
        match rank {
            Some(r) => if e[n - 1].1 >= top - r {
                prev.push(e[n - 1])
            } else {
                prev
            },
            None => prev.push(e[n - 1]),
        }
    }
}

pub open spec fn unique_keys(e: Seq<(u32, i32)>) -> bool {
    forall|i: int, j: int| 0 <= i < j < e.len() ==> e[i].0 != e[j].0
}

proof fn lemma_key_index(e: Seq<(u32, i32)>, k: u32)
    ensures
        -1 <= key_index(e, k) < e.len(),
        key_index(e, k) >= 0 ==> e[key_index(e, k)].0 == k,
        key_index(e, k) < 0 ==> forall|j: int| 0 <= j < e.len() ==> e[j].0 != k,
        unique_keys(e) ==> forall|j: int| 0 <= j < e.len() && e[j].0 == k ==> key_index(e, k) == j,
    decreases e.len(),
{
    if e.len() > 0 {
        let prev = e.drop_last();
        lemma_key_index(prev, k);
        assert forall|j: int| 0 <= j < prev.len() implies e[j] == prev[j] by {}
    }
}

proof fn lemma_put_unique(e: Seq<(u32, i32)>, k: u32, v: i32)
    requires
        unique_keys(e),
    ensures
        unique_keys(put(e, k, v)),
{
    lemma_key_index(e, k);
}

proof fn lemma_ranks_err_extends(recs: Seq<RecordView>, m: nat)
    requires
        m <= recs.len(),
        ranks_upto(recs, m) is Err,
    ensures
        ranks_upto(recs, recs.len()) == ranks_upto(recs, m),
    decreases recs.len() - m,
{
    if m < recs.len() {
        lemma_ranks_err_extends(recs, m + 1);
    }
}

proof fn lemma_missing_extends(e: Seq<(u32, i32)>, steps: Seq<SignedRef>, n: nat)
    requires
        n <= steps.len(),
        first_missing(e, steps, n).is_some(),
    ensures
        first_missing(e, steps, steps.len()) == first_missing(e, steps, n),
    decreases steps.len() - n,
{
    if n < steps.len() {
        lemma_missing_extends(e, steps, n + 1);
    }
}

/// Counts, for each segment, the paths that cross it, and keeps those within
/// `max_rank` of the largest count (all of them without a rank), in the order
/// in which the segments were first listed. A path step on a node that no
/// earlier segment record names is an error.
pub fn anchor_nodes(records: &Vec<Record>, max_rank: Option<i32>) -> (r: Result<
    Vec<(u32, i32)>,
    GfaError,
>)
    requires
        records.len() < i32::MAX,
    ensures
        match r {
            Ok(v) => ranks_upto(views(records@), records@.len()) is Ok && v@ == within_rank(
                ranks_upto(views(records@), records@.len())->Ok_0,
                max_count(ranks_upto(views(records@), records@.len())->Ok_0),
                max_rank,
                ranks_upto(views(records@), records@.len())->Ok_0.len(),
            ),
            Err(x) => ranks_upto(views(records@), records@.len()) == Err::<Seq<(u32, i32)>, GfaError>(
                x,
            ),
        },
{
    let ghost recs = views(records@);
    let mut map = rank_map_new();
    let mut n: usize = 0;
    while n < records.len()
        invariant
            n <= records.len() < i32::MAX,
            recs == views(records@),
            ranks_upto(recs, n as nat) == Ok::<Seq<(u32, i32)>, GfaError>(rank_entries(map)),
            unique_keys(rank_entries(map)),
            forall|i: int|
                0 <= i < rank_entries(map).len() ==> 0 <= #[trigger] rank_entries(map)[i].1 <= n,
        decreases records.len() - n,
    {
        let ghost e = rank_entries(map);
        assert(recs[n as int] == records@[n as int]@);
        match &records[n] {
            Record::Segment { id, .. } => {
                rank_map_insert(&mut map, *id, 0);
                proof {
                    lemma_put_unique(e, *id, 0);
                    lemma_key_index(e, *id);
                }
            },
            Record::Path { steps, .. } => {
                let len = rank_map_len(&map);
                let mut crossed: Vec<bool> = Vec::new();
                while crossed.len() < len
                    invariant
                        crossed.len() <= len,
                        forall|i: int| 0 <= i < crossed.len() ==> !crossed[i],
                    decreases len - crossed.len(),
                {
                    crossed.push(false);
                }
                let mut j: usize = 0;
                while j < steps.len()
                    invariant
                        j <= steps.len(),
                        e == rank_entries(map),
                        len == e.len(),
                        crossed.len() == len,
                        unique_keys(e),
                        first_missing(e, steps@, j as nat).is_none(),
                        n < records.len(),
                        recs == views(records@),
                        ranks_upto(recs, n as nat) == Ok::<Seq<(u32, i32)>, GfaError>(e),
                        recs[n as int] is Path && recs[n as int]->Path_steps == steps@,
                        forall|i: int|
                            0 <= i < len ==> (crossed[i] <==> exists|k: int|
                                0 <= k < j && #[trigger] steps@[k].id == e[i].0),
                    decreases steps.len() - j,
                {
                    let id = steps[j].id;
                    proof {
                        lemma_key_index(e, id);
                    }
                    match rank_map_index_of(&map, id) {
                        None => {
                            proof {
                                assert(first_missing(e, steps@, (j + 1) as nat) == Some(id));
                                lemma_missing_extends(e, steps@, (j + 1) as nat);
                                assert(ranks_upto(recs, (n + 1) as nat) == Err::<Seq<(u32, i32)>, GfaError>(
                                    GfaError::NotFound { node: id },
                                ));
                                lemma_ranks_err_extends(recs, (n + 1) as nat);
                            }
                            return Err(GfaError::NotFound { node: id });
                        },
                        Some(idx) => {
                            crossed.set(idx, true);
                            proof {
                                assert forall|i: int| 0 <= i < len implies (crossed[i] <==> exists|k: int|
                                    0 <= k < j + 1 && #[trigger] steps@[k].id == e[i].0) by {
                                    if i == idx {
                                        assert(steps@[j as int].id == e[i].0);
                                    } else if crossed[i] {
                                        let k = choose|k: int| 0 <= k < j && #[trigger] steps@[k].id == e[i].0;
                                        assert(steps@[k].id == e[i].0);
                                    } else {
                                        assert(e[i].0 != id);
                                    }
                                }
                            }
                        },
                    }
                    j += 1;
                }
                let ghost bumped = bump_crossed(e, steps@);
                proof {
                    assert forall|i: int| 0 <= i < len implies (crossed[i] <==> crosses(steps@, e[i].0)) by {
                        if crosses(steps@, e[i].0) {
                            let k = choose|k: int| 0 <= k < steps@.len() && #[trigger] steps@[k].id == e[i].0;
                            assert(steps@[k].id == e[i].0);
                        }
                    }
                }
                let mut i: usize = 0;
                while i < len
                    invariant
                        i <= len,
                        len == e.len(),
                        crossed.len() == len,
                        unique_keys(e),
                        n < i32::MAX,
                        forall|x: int| 0 <= x < len ==> 0 <= #[trigger] e[x].1 <= n,
                        forall|x: int| 0 <= x < len ==> (crossed[x] <==> crosses(steps@, e[x].0)),
                        bumped == bump_crossed(e, steps@),
                        rank_entries(map) == Seq::new(
                            len as nat,
                            |x: int|
                                if x < i {
                                    bumped[x]
                                } else {
                                    e[x]
                                },
                        ),
                    decreases len - i,
                {
                    if crossed[i] {
                        let ghost before = rank_entries(map);
                        let (k, v) = rank_map_entry(&map, i);
                        proof {
                            assert(before[i as int] == e[i as int]);
                            assert forall|a: int, b: int| 0 <= a < b < before.len() implies before[a].0 != before[b].0 by {
                                assert(before[a].0 == e[a].0);
                                assert(before[b].0 == e[b].0);
                            }
                            lemma_key_index(before, k);
                        }
                        rank_map_insert(&mut map, k, v + 1);
                    }
                    i += 1;
                    proof {
                        assert(rank_entries(map) =~= Seq::new(
                            len as nat,
                            |x: int|
                                if x < i {
                                    bumped[x]
                                } else {
                                    e[x]
                                },
                        ));
                    }
                }
                proof {
                    assert(rank_entries(map) =~= bumped);
                }
            },
            _ => {},
        }
        n += 1;
    }
    assert(recs.len() == records@.len());
    let entries_len = rank_map_len(&map);
    let ghost fin = rank_entries(map);
    // the largest count
    let mut top: i32 = 0;
    let mut i: usize = 0;
    while i < entries_len
        invariant
            i <= entries_len,
            entries_len == fin.len(),
            fin == rank_entries(map),
            top == max_count(fin.subrange(0, i as int)),
        decreases entries_len - i,
    {
        let (_, v) = rank_map_entry(&map, i);
        assert(fin.subrange(0, i + 1).drop_last() =~= fin.subrange(0, i as int));
        if i == 0 || v > top {
            top = v;
        }
        i += 1;
    }
    assert(fin.subrange(0, fin.len() as int) =~= fin);
    let mut out: Vec<(u32, i32)> = Vec::new();
    let mut i: usize = 0;
    while i < entries_len
        invariant
            i <= entries_len,
            entries_len == fin.len(),
            fin == rank_entries(map),
            top == max_count(fin),
            out@ == within_rank(fin, top, max_rank, i as nat),
        decreases entries_len - i,
    {
        let (k, v) = rank_map_entry(&map, i);
        let keep = match max_rank {
            Some(r) => v as i64 >= top as i64 - r as i64,
            None => true,
        };
        if keep {
            out.push((k, v));
        }
        i += 1;
    }
    Ok(out)
}

} // verus!
