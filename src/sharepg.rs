//! Shared parts of a pangenome: for each node, which of the chosen paths
//! cross it, and how many of those are to be shared or avoided.
use crate::graph::{views, GfaError, Record, RecordView, SignedRef};
use crate::graph::copy_bytes;
use crate::graph::{bytes_equal, contains_name};
use std::collections::HashMap;
use vstd::prelude::*;

verus! {

broadcast use vstd::std_specs::hash::group_hash_axioms;

/// Position of the first entry of node `k`, or -1.
pub open spec fn pos_of(e: Seq<(u32, Seq<bool>)>, k: u32) -> int
    decreases e.len(),
{
    if e.len() == 0 {
        -1
    } else if pos_of(e.drop_last(), k) >= 0 {
        pos_of(e.drop_last(), k)
    } else if e.last().0 == k {
        e.len() - 1
    } else {
        -1
    }
}

/// A node enters (again) with no path marked; a new node goes last.
pub open spec fn enter(e: Seq<(u32, Seq<bool>)>, k: u32, width: nat) -> Seq<(u32, Seq<bool>)> {
    let blank = Seq::new(width, |i: int| false);
    if pos_of(e, k) >= 0 {
        e.update(pos_of(e, k), (k, blank))
    } else {
        e.push((k, blank))
    }
}

/// The first of the steps whose node has no entry.
pub open spec fn first_absent(e: Seq<(u32, Seq<bool>)>, steps: Seq<SignedRef>, n: nat) -> Option<u32>
    decreases n,
{
    if n == 0 || n > steps.len() {
        None
    } else {
        match first_absent(e, steps, (n - 1) as nat) {
            Some(x) => Some(x),
            None => if pos_of(e, steps[n - 1].id) < 0 {
                Some(steps[n - 1].id)
            } else {
                None
            },
        }
    }
}

/// The path crosses node `id`.
pub open spec fn crosses(steps: Seq<SignedRef>, id: u32) -> bool {
    exists|k: int| 0 <= k < steps.len() && #[trigger] steps[k].id == id
}

/// Every node that a path named `name` crosses gets a mark at each position
/// of `names` that holds that name.
pub open spec fn mark(e: Seq<(u32, Seq<bool>)>, steps: Seq<SignedRef>, name: Seq<u8>, names: Seq<Seq<u8>>) -> Seq<
    (u32, Seq<bool>),
> {
    Seq::new(
        e.len(),
        |i: int|
            if crosses(steps, e[i].0) {
                (e[i].0, Seq::new(e[i].1.len(), |j: int| e[i].1[j] || (j < names.len() && names[j] == name)))
            } else {
                e[i]
            },
    )
}

/// The marks after the first `n` records: a segment enters unmarked, a path
/// marks the nodes it crosses, and a path on a node not yet entered is an error.
pub open spec fn marks_upto(recs: Seq<RecordView>, names: Seq<Seq<u8>>, n: nat) -> Result<
    Seq<(u32, Seq<bool>)>,
    GfaError,
>
    decreases n,
{
    if n == 0 || n > recs.len() {
        Ok(Seq::empty())
    } else {
        match marks_upto(recs, names, (n - 1) as nat) {
            Err(x) => Err(x),
            Ok(e) => match recs[n - 1] {
                RecordView::Segment { id, .. } => Ok(enter(e, id, names.len())),
                RecordView::Path { name, steps, .. } => match first_absent(e, steps, steps.len()) {
                    Some(x) => Err(GfaError::NotFound { node: x }),
                    None => Ok(mark(e, steps, name, names)),
                },
                _ => Ok(e),
            },
        }
    }
}

/// Marked positions among the first `n` whose name is in `group`.
pub open spec fn count_in(flags: Seq<bool>, names: Seq<Seq<u8>>, group: Seq<Seq<u8>>, n: nat) -> nat
    decreases n,
{
    if n == 0 || n > flags.len() || n > names.len() {
        0
    } else {
        count_in(flags, names, group, (n - 1) as nat) + if flags[n - 1] && group.contains(
            names[n - 1],
        ) {
            1nat
        } else {
            0nat
        }
    }
}

/// A node with the marks of the chosen paths (the ones to share first, then the
/// ones to avoid) and how many of the marked ones are of each kind.
pub struct NodeShare {
    pub node: u32,
    pub flags: Vec<bool>,
    pub inside_count: u64,
    pub outside_count: u64,
}

pub open spec fn entry_view(v: Seq<(u32, Vec<bool>)>) -> Seq<(u32, Seq<bool>)> {
    v.map_values(|p: (u32, Vec<bool>)| (p.0, p.1@))
}

pub open spec fn distinct_nodes(e: Seq<(u32, Seq<bool>)>) -> bool {
    forall|i: int, j: int| 0 <= i < j < e.len() ==> e[i].0 != e[j].0
}

proof fn lemma_pos_of(e: Seq<(u32, Seq<bool>)>, k: u32)
    ensures
        -1 <= pos_of(e, k) < e.len(),
        pos_of(e, k) >= 0 ==> e[pos_of(e, k)].0 == k,
        pos_of(e, k) < 0 ==> forall|j: int| 0 <= j < e.len() ==> e[j].0 != k,
        distinct_nodes(e) ==> forall|j: int| 0 <= j < e.len() && e[j].0 == k ==> pos_of(e, k) == j,
    decreases e.len(),
{
    if e.len() > 0 {
        let prev = e.drop_last();
        lemma_pos_of(prev, k);
        assert forall|j: int| 0 <= j < prev.len() implies e[j] == prev[j] by {}
    }
}

proof fn lemma_absent_extends(e: Seq<(u32, Seq<bool>)>, steps: Seq<SignedRef>, n: nat)
    requires
        n <= steps.len(),
        first_absent(e, steps, n).is_some(),
    ensures
        first_absent(e, steps, steps.len()) == first_absent(e, steps, n),
    decreases steps.len() - n,
{
    if n < steps.len() {
        lemma_absent_extends(e, steps, n + 1);
    }
}

proof fn lemma_marks_err_extends(recs: Seq<RecordView>, names: Seq<Seq<u8>>, m: nat)
    requires
        m <= recs.len(),
        marks_upto(recs, names, m) is Err,
    ensures
        marks_upto(recs, names, recs.len()) == marks_upto(recs, names, m),
    decreases recs.len() - m,
{
    if m < recs.len() {
        lemma_marks_err_extends(recs, names, m + 1);
    }
}

/// The state of the marking loop: distinct nodes, every mark vector as long as
/// the list of names, and an index from node to position.
pub open spec fn marks_ok(e: Seq<(u32, Seq<bool>)>, index: Map<u32, usize>, width: nat) -> bool {
    &&& distinct_nodes(e)
    &&& forall|i: int| 0 <= i < e.len() ==> (#[trigger] e[i]).1.len() == width
    &&& forall|k: u32| #[trigger] index.contains_key(k) <==> pos_of(e, k) >= 0
    &&& forall|k: u32| #[trigger] index.contains_key(k) ==> index[k] == pos_of(e, k)
}

fn enter_node(entries: &mut Vec<(u32, Vec<bool>)>, index: &mut HashMap<u32, usize>, k: u32, width: usize)
    requires
        marks_ok(entry_view(old(entries)@), old(index)@, width as nat),
        old(entries)@.len() < usize::MAX,
    ensures
        marks_ok(entry_view(final(entries)@), final(index)@, width as nat),
        entry_view(final(entries)@) == enter(entry_view(old(entries)@), k, width as nat),
{
    let ghost e = entry_view(entries@);
    let mut blank: Vec<bool> = Vec::new();
    while blank.len() < width
        invariant
            blank.len() <= width,
            blank@ == Seq::new(blank.len() as nat, |i: int| false),
        decreases width - blank.len(),
    {
        blank.push(false);
        assert(blank@ =~= Seq::new(blank.len() as nat, |i: int| false));
    }
    proof {
        lemma_pos_of(e, k);
    }
    match index.get(&k) {
        Some(p) => {
            let p = *p;
            entries.set(p, (k, blank));
            proof {
                let e2 = entry_view(entries@);
                assert(e2 =~= enter(e, k, width as nat));
                assert forall|x: u32| #[trigger] index@.contains_key(x) implies index@[x] == pos_of(e2, x) by {
                    lemma_pos_of(e, x);
                    lemma_pos_of(e2, x);
                    assert(e2[index@[x] as int].0 == x);
                }
                assert forall|x: u32| #[trigger] index@.contains_key(x) <==> pos_of(e2, x) >= 0 by {
                    lemma_pos_of(e, x);
                    lemma_pos_of(e2, x);
                    if pos_of(e2, x) >= 0 {
                        assert(e[pos_of(e2, x)].0 == x);
                    }
                }
            }
        },
        None => {
            let p = entries.len();
            entries.push((k, blank));
            index.insert(k, p);
            proof {
                let e2 = entry_view(entries@);
                assert(e2 =~= enter(e, k, width as nat));
                assert forall|x: u32| #[trigger] index@.contains_key(x) <==> pos_of(e2, x) >= 0 by {
                    lemma_pos_of(e, x);
                    lemma_pos_of(e2, x);
                    assert(index@.contains_key(x) <==> (old(index)@.contains_key(x) || x == k));
                    assert(old(index)@.contains_key(x) <==> pos_of(e, x) >= 0);
                    if x == k {
                        assert(e2[p as int].0 == k);
                    } else if pos_of(e2, x) >= 0 {
                        assert(e2[pos_of(e2, x)].0 == x);
                        assert(pos_of(e2, x) != p);
                        assert(e[pos_of(e2, x)].0 == x);
                    } else if pos_of(e, x) >= 0 {
                        assert(e2[pos_of(e, x)].0 == x);
                    }
                }
                assert forall|x: u32| #[trigger] index@.contains_key(x) implies index@[x] == pos_of(e2, x) by {
                    lemma_pos_of(e, x);
                    lemma_pos_of(e2, x);
                    if x == k {
                        assert(e2[p as int].0 == k);
                    } else {
                        assert(e2[index@[x] as int].0 == x);
                    }
                }
            }
        },
    }
}

pub open spec fn name_views(v: Seq<Vec<u8>>) -> Seq<Seq<u8>> {
    v.map_values(|x: Vec<u8>| x@)
}

fn mark_path(
    entries: &mut Vec<(u32, Vec<bool>)>,
    index: &HashMap<u32, usize>,
    steps: &Vec<SignedRef>,
    name: &Vec<u8>,
    names: &Vec<Vec<u8>>,
) -> (r: Result<(), GfaError>)
    requires
        marks_ok(entry_view(old(entries)@), index@, names@.len()),
    ensures
        match r {
            Ok(()) => first_absent(entry_view(old(entries)@), steps@, steps@.len()).is_none()
                && entry_view(final(entries)@) == mark(
                entry_view(old(entries)@),
                steps@,
                name@,
                name_views(names@),
            ) && marks_ok(entry_view(final(entries)@), index@, names@.len()),
            Err(x) => first_absent(entry_view(old(entries)@), steps@, steps@.len()) == Some(
                x->NotFound_node,
            ) && x is NotFound,
        },
{
    let ghost e = entry_view(entries@);
    let ghost nv = name_views(names@);
    let len = entries.len();
    let mut hit: Vec<bool> = Vec::new();
    while hit.len() < len
        invariant
            hit.len() <= len,
            forall|i: int| 0 <= i < hit.len() ==> !hit[i],
        decreases len - hit.len(),
    {
        hit.push(false);
    }
    let mut j: usize = 0;
    while j < steps.len()
        invariant
            j <= steps.len(),
            e == entry_view(entries@),
            len == e.len(),
            hit.len() == len,
            marks_ok(e, index@, names@.len()),
            first_absent(e, steps@, j as nat).is_none(),
            forall|i: int|
                0 <= i < len ==> (hit[i] <==> exists|k: int| 0 <= k < j && #[trigger] steps@[k].id == e[i].0),
        decreases steps.len() - j,
    {
        let id = steps[j].id;
        proof {
            lemma_pos_of(e, id);
        }
        match index.get(&id) {
            None => {
                proof {
                    assert(first_absent(e, steps@, (j + 1) as nat) == Some(id));
                    lemma_absent_extends(e, steps@, (j + 1) as nat);
                }
                return Err(GfaError::NotFound { node: id });
            },
            Some(p) => {
                let p = *p;
                hit.set(p, true);
                proof {
                    assert forall|i: int| 0 <= i < len implies (hit[i] <==> exists|k: int|
                        0 <= k < j + 1 && #[trigger] steps@[k].id == e[i].0) by {
                        if i == p {
                            assert(steps@[j as int].id == e[i].0);
                        } else if hit[i] {
                            let k = choose|k: int| 0 <= k < j && #[trigger] steps@[k].id == e[i].0;
                            assert(steps@[k].id == e[i].0);
                        } else {
                            assert(e[i].0 != id);
                        }
                    }
                }
            },
        }
        j += 1;
    }
    proof {
        assert forall|i: int| 0 <= i < len implies (hit[i] <==> crosses(steps@, e[i].0)) by {
            if crosses(steps@, e[i].0) {
                let k = choose|k: int| 0 <= k < steps@.len() && #[trigger] steps@[k].id == e[i].0;
                assert(steps@[k].id == e[i].0);
            }
        }
    }
    // which positions hold this path's name
    let mut which: Vec<bool> = Vec::new();
    while which.len() < names.len()
        invariant
            which.len() <= names.len(),
            nv == name_views(names@),
            forall|x: int| 0 <= x < which.len() ==> which[x] == (nv[x] == name@),
        decreases names.len() - which.len(),
    {
        let w = bytes_equal(&names[which.len()], name);
        which.push(w);
    }
    let ghost marked = mark(e, steps@, name@, nv);
    let mut i: usize = 0;
    while i < len
        invariant
            i <= len,
            len == e.len(),
            hit.len() == len,
            which.len() == names.len(),
            nv == name_views(names@),
            forall|x: int| 0 <= x < which.len() ==> which[x] == (nv[x] == name@),
            forall|x: int| 0 <= x < len ==> (hit[x] <==> crosses(steps@, e[x].0)),
            marks_ok(e, index@, names@.len()),
            marked == mark(e, steps@, name@, nv),
            entries@.len() == len,
            entry_view(entries@) == Seq::new(
                len as nat,
                |x: int|
                    if x < i {
                        marked[x]
                    } else {
                        e[x]
                    },
            ),
        decreases len - i,
    {
        assert(!hit[i as int] ==> marked[i as int] == e[i as int]);
        if hit[i] {
            let ghost before = entry_view(entries@);
            assert(before[i as int] == e[i as int]);
            let node = entries[i].0;
            let mut flags: Vec<bool> = Vec::new();
            let mut j: usize = 0;
            while j < names.len()
                invariant
                    j <= names.len(),
                    i < len,
                    entries@.len() == len,
                    which.len() == names.len(),
                    e[i as int].1.len() == names.len(),
                    entry_view(entries@)[i as int] == e[i as int],
                    flags@.len() == j,
                    forall|x: int| 0 <= x < j ==> flags@[x] == (e[i as int].1[x] || which[x]),
                decreases names.len() - j,
            {
                assert(entry_view(entries@)[i as int].1 == entries@[i as int].1@);
                let f = entries[i].1[j] || which[j];
                flags.push(f);
                j += 1;
            }
            assert(flags@ =~= marked[i as int].1);
            entries.set(i, (node, flags));
            proof {
                assert(entry_view(entries@) =~= before.update(i as int, marked[i as int]));
            }
        }
        i += 1;
        proof {
            assert(entry_view(entries@) =~= Seq::new(
                len as nat,
                |x: int|
                    if x < i {
                        marked[x]
                    } else {
                        e[x]
                    },
            ));
        }
    }
    proof {
        let e2 = entry_view(entries@);
        assert(e2 =~= marked);
        assert forall|x: u32| #[trigger] index@.contains_key(x) <==> pos_of(e2, x) >= 0 by {
            lemma_pos_of(e, x);
            lemma_pos_of(e2, x);
            if pos_of(e2, x) >= 0 {
                assert(e[pos_of(e2, x)].0 == x);
            }
            if pos_of(e, x) >= 0 {
                assert(e2[pos_of(e, x)].0 == x);
            }
        }
        assert forall|x: u32| #[trigger] index@.contains_key(x) implies index@[x] == pos_of(e2, x) by {
            lemma_pos_of(e, x);
            lemma_pos_of(e2, x);
            assert(e2[index@[x] as int].0 == x);
        }
    }
    Ok(())
}

fn count_marked(flags: &Vec<bool>, names: &Vec<Vec<u8>>, group: &Vec<Vec<u8>>) -> (c: u64)
    requires
        flags@.len() == names@.len(),
    ensures
        c == count_in(flags@, name_views(names@), name_views(group@), names@.len()),
{
    let ghost nv = name_views(names@);
    let ghost gv = name_views(group@);
    let mut c: u64 = 0;
    let mut j: usize = 0;
    while j < names.len()
        invariant
            j <= names.len() == flags@.len(),
            nv == name_views(names@),
            gv == name_views(group@),
            c == count_in(flags@, nv, gv, j as nat),
            c <= j,
        decreases names.len() - j,
    {
        if flags[j] && contains_name(group, &names[j]) {
            c = c + 1;
        }
        j += 1;
    }
    c
}

/// For each segment, in the order of its latest segment record: which of the
/// chosen paths (the ones to share, then the ones to avoid) cross it, and how
/// many of the crossing ones are among the ones to share and among the ones to avoid
/// names. A path on a node without an earlier segment record is an error.
pub fn shared_nodes(records: &Vec<Record>, inside: &Vec<Vec<u8>>, outside: &Vec<Vec<u8>>) -> (r: Result<
    Vec<NodeShare>,
    GfaError,
>)
    requires
        records.len() < usize::MAX,
    ensures
        match r {
            Ok(v) => {
                let names = name_views(inside@) + name_views(outside@);
                &&& marks_upto(views(records@), names, records@.len()) is Ok
                &&& v@.len() == marks_upto(views(records@), names, records@.len())->Ok_0.len()
                &&& forall|i: int|
                    0 <= i < v@.len() ==> {
                        let e = marks_upto(views(records@), names, records@.len())->Ok_0[i];
                        &&& (#[trigger] v@[i]).node == e.0
                        &&& v@[i].flags@ == e.1
                        &&& v@[i].inside_count == count_in(e.1, names, name_views(inside@), names.len())
                        &&& v@[i].outside_count == count_in(e.1, names, name_views(outside@), names.len())
                    }
            },
            Err(x) => marks_upto(
                views(records@),
                name_views(inside@) + name_views(outside@),
                records@.len(),
            ) == Err::<Seq<(u32, Seq<bool>)>, GfaError>(x),
        },
{
    let ghost recs = views(records@);
    let mut names: Vec<Vec<u8>> = Vec::new();
    let mut i: usize = 0;
    while i < inside.len()
        invariant
            i <= inside.len(),
            name_views(names@) == name_views(inside@).subrange(0, i as int),
        decreases inside.len() - i,
    {
        let ghost before = name_views(names@);
        names.push(copy_bytes(&inside[i]));
        assert(name_views(names@) =~= before.push(inside@[i as int]@));
        assert(name_views(inside@).subrange(0, i + 1) =~= name_views(inside@).subrange(0, i as int).push(inside@[i as int]@));
        i += 1;
        assert(name_views(names@) =~= name_views(inside@).subrange(0, i as int));
    }
    let mut i: usize = 0;
    while i < outside.len()
        invariant
            i <= outside.len(),
            name_views(names@) == name_views(inside@) + name_views(outside@).subrange(0, i as int),
        decreases outside.len() - i,
    {
        let ghost before = name_views(names@);
        names.push(copy_bytes(&outside[i]));
        assert(name_views(names@) =~= before.push(outside@[i as int]@));
        assert(name_views(outside@).subrange(0, i + 1) =~= name_views(outside@).subrange(0, i as int).push(outside@[i as int]@));
        i += 1;
        assert(name_views(names@) =~= name_views(inside@) + name_views(outside@).subrange(0, i as int));
    }
    assert(name_views(outside@).subrange(0, outside@.len() as int) =~= name_views(outside@));
    let ghost nv = name_views(names@);
    let mut entries: Vec<(u32, Vec<bool>)> = Vec::new();
    let mut index: HashMap<u32, usize> = HashMap::new();
    assert(entry_view(entries@) =~= Seq::empty());
    let mut n: usize = 0;
    while n < records.len()
        invariant
            n <= records.len() < usize::MAX,
            recs == views(records@),
            recs.len() == records@.len(),
            nv == name_views(names@),
            nv == name_views(inside@) + name_views(outside@),
            entries@.len() <= n,
            marks_upto(recs, nv, n as nat) == Ok::<Seq<(u32, Seq<bool>)>, GfaError>(entry_view(entries@)),
            marks_ok(entry_view(entries@), index@, names@.len()),
        decreases records.len() - n,
    {
        assert(recs[n as int] == records@[n as int]@);
        match &records[n] {
            Record::Segment { id, .. } => {
                let ghost before = entry_view(entries@);
                proof {
                    lemma_pos_of(before, *id);
                }
                enter_node(&mut entries, &mut index, *id, names.len());
                assert(entries@.len() == entry_view(entries@).len());
            },
            Record::Path { name, steps, .. } => {
                match mark_path(&mut entries, &index, steps, name, &names) {
                    Ok(()) => {},
                    Err(x) => {
                        proof {
                            assert(x == GfaError::NotFound { node: x->NotFound_node });
                            assert(marks_upto(recs, nv, (n + 1) as nat) == Err::<Seq<(u32, Seq<bool>)>, GfaError>(x));
                            lemma_marks_err_extends(recs, nv, (n + 1) as nat);
                        }
                        return Err(x);
                    },
                }
                assert(entries@.len() == entry_view(entries@).len());
            },
            _ => {},
        }
        n += 1;
    }
    assert(recs.len() == records@.len());
    let ghost fin = entry_view(entries@);
    let mut out: Vec<NodeShare> = Vec::new();
    let mut i: usize = 0;
    while i < entries.len()
        invariant
            i <= entries.len(),
            fin == entry_view(entries@),
            nv == name_views(names@),
            nv == name_views(inside@) + name_views(outside@),
            marks_ok(fin, index@, names@.len()),
            out@.len() == i,
            forall|x: int|
                0 <= x < i ==> {
                    &&& (#[trigger] out@[x]).node == fin[x].0
                    &&& out@[x].flags@ == fin[x].1
                    &&& out@[x].inside_count == count_in(fin[x].1, nv, name_views(inside@), nv.len())
                    &&& out@[x].outside_count == count_in(fin[x].1, nv, name_views(outside@), nv.len())
                },
        decreases entries.len() - i,
    {
        assert(fin[i as int] == (entries@[i as int].0, entries@[i as int].1@));
        let mut flags: Vec<bool> = Vec::new();
        let mut j: usize = 0;
        while j < entries[i].1.len()
            invariant
                i < entries.len(),
                j <= entries@[i as int].1.len(),
                flags@ == entries@[i as int].1@.subrange(0, j as int),
            decreases entries@[i as int].1.len() - j,
        {
            flags.push(entries[i].1[j]);
            j += 1;
            assert(flags@ =~= entries@[i as int].1@.subrange(0, j as int));
        }
        assert(flags@ =~= entries@[i as int].1@);
        let inc = count_marked(&flags, &names, inside);
        let exc = count_marked(&flags, &names, outside);
        out.push(NodeShare { node: entries[i].0, flags, inside_count: inc, outside_count: exc });
        i += 1;
    }
    Ok(out)
}

} // verus!
