//! Node occurrences along paths, the basis for unrolling nodes that a path
//! visits more than once.
use crate::graph::copy_bytes;
use crate::graph::bytes_equal;
use crate::graph::{fields_view, GfaError};
use crate::text::{split, split_bytes, TAB};
use vstd::prelude::*;

verus! {

pub const COMMA: u8 = 44;

/// Index of the first `+` or `-` at or after `pos`, or the length.
pub open spec fn next_sign(data: Seq<u8>, pos: int) -> int
    decreases data.len() - pos,
{
    if pos < 0 || pos >= data.len() {
        data.len() as int
    } else if data[pos] == 43u8 || data[pos] == 45u8 {
        pos
    } else {
        next_sign(data, pos + 1)
    }
}

/// The bytes of `s` other than commas.
pub open spec fn drop_commas(s: Seq<u8>) -> Seq<u8>
    decreases s.len(),
{
    if s.len() == 0 {
        s
    } else if s.last() == COMMA {
        drop_commas(s.drop_last())
    } else {
        drop_commas(s.drop_last()).push(s.last())
    }
}

proof fn lemma_next_sign(data: Seq<u8>, pos: int)
    requires
        0 <= pos <= data.len(),
    ensures
        pos <= next_sign(data, pos) <= data.len(),
    decreases data.len() - pos,
{
    if pos < data.len() && !(data[pos] == 43u8 || data[pos] == 45u8) {
        lemma_next_sign(data, pos + 1);
    }
}

/// Reads the next node name of a path from `pos`: the bytes up to the next
/// sign, commas left out; `pos` moves past that sign, or to the end.
pub fn read_next_node(data: &Vec<u8>, pos: &mut usize) -> (node: Vec<u8>)
    requires
        *old(pos) <= data.len(),
    ensures
        node@ == drop_commas(data@.subrange(*old(pos) as int, next_sign(data@, *old(pos) as int))),
        *final(pos) == if next_sign(data@, *old(pos) as int) < data.len() {
            next_sign(data@, *old(pos) as int) + 1
        } else {
            data.len() as int
        },
{
    let ghost start = *pos as int;
    let mut node: Vec<u8> = Vec::new();
    proof {
        lemma_next_sign(data@, start);
        assert(data@.subrange(start, start) =~= Seq::<u8>::empty());
    }
    while *pos < data.len()
        invariant
            start == *old(pos) as int,
            start <= *pos <= next_sign(data@, start) <= data.len(),
            next_sign(data@, *pos as int) == next_sign(data@, start),
            node@ == drop_commas(data@.subrange(start, *pos as int)),
        decreases data.len() - *pos,
    {
        let b = data[*pos];
        if b == 43u8 || b == 45u8 {
            assert(next_sign(data@, *pos as int) == *pos as int);
            *pos = *pos + 1;
            return node;
        }
        assert(next_sign(data@, *pos as int) == next_sign(data@, *pos as int + 1));
        assert(data@.subrange(start, *pos + 1).drop_last() =~= data@.subrange(start, *pos as int));
        if b != COMMA {
            node.push(b);
        }
        *pos = *pos + 1;
        proof {
            lemma_next_sign(data@, *pos as int);
        }
    }
    node
}

pub open spec fn entry_views(v: Seq<(Vec<u8>, u8)>) -> Seq<(Seq<u8>, u8)> {
    v.map_values(|e: (Vec<u8>, u8)| (e.0@, e.1))
}

/// The entries whose count exceeds the threshold, in order.
pub open spec fn above(occ: Seq<(Seq<u8>, u8)>, threshold: u8) -> Seq<(Seq<u8>, u8)>
    decreases occ.len(),
{
    if occ.len() == 0 {
        occ
    } else if occ.last().1 > threshold {
        above(occ.drop_last(), threshold).push(occ.last())
    } else {
        above(occ.drop_last(), threshold)
    }
}

/// Keeps the nodes that occur more often than `threshold`.
pub fn filter_occurences(occurences: &Vec<(Vec<u8>, u8)>, threshold: u8) -> (r: Vec<(Vec<u8>, u8)>)
    ensures
        entry_views(r@) == above(entry_views(occurences@), threshold),
{
    let ghost ov = entry_views(occurences@);
    let mut out: Vec<(Vec<u8>, u8)> = Vec::new();
    let mut i: usize = 0;
    assert(ov.subrange(0, 0) =~= Seq::<(Seq<u8>, u8)>::empty());
    assert(entry_views(out@) =~= Seq::<(Seq<u8>, u8)>::empty());
    while i < occurences.len()
        invariant
            i <= occurences.len(),
            ov == entry_views(occurences@),
            entry_views(out@) == above(ov.subrange(0, i as int), threshold),
        decreases occurences.len() - i,
    {
        assert(ov.subrange(0, i + 1).drop_last() =~= ov.subrange(0, i as int));
        let ghost before = entry_views(out@);
        if occurences[i].1 > threshold {
            let name = copy_bytes(&occurences[i].0);
            out.push((name, occurences[i].1));
            assert(entry_views(out@) =~= before.push(ov[i as int]));
        }
        i += 1;
    }
    assert(ov.subrange(0, ov.len() as int) =~= ov);
    out
}

/// Index of the entry named `k`, or -1.
pub open spec fn index_of(acc: Seq<(Seq<u8>, u8)>, k: Seq<u8>) -> int
    decreases acc.len(),
{
    if acc.len() == 0 {
        -1
    } else if index_of(acc.drop_last(), k) >= 0 {
        index_of(acc.drop_last(), k)
    } else if acc.last().0 == k {
        acc.len() - 1
    } else {
        -1
    }
}

/// Records one count: a new name is appended, a known one keeps the larger count.
pub open spec fn keep_max(acc: Seq<(Seq<u8>, u8)>, e: (Seq<u8>, u8)) -> Seq<(Seq<u8>, u8)> {
    let i = index_of(acc, e.0);
    if i >= 0 {
        if e.1 > acc[i].1 {
            acc.update(i, e)
        } else {
            acc
        }
    } else {
        acc.push(e)
    }
}

/// The counts of the first `n` entries of a path, folded into `acc`.
pub open spec fn fold_max(acc: Seq<(Seq<u8>, u8)>, occ: Seq<(Seq<u8>, u8)>, n: nat) -> Seq<
    (Seq<u8>, u8),
>
    decreases n,
{
    if n == 0 || n > occ.len() {
        acc
    } else {
        keep_max(fold_max(acc, occ, (n - 1) as nat), occ[n - 1])
    }
}

/// The counts of the first `n` paths, each name once with its largest count.
pub open spec fn aggregate(paths: Seq<Seq<(Seq<u8>, u8)>>, n: nat) -> Seq<(Seq<u8>, u8)>
    decreases n,
{
    if n == 0 || n > paths.len() {
        Seq::empty()
    } else {
        fold_max(aggregate(paths, (n - 1) as nat), paths[n - 1], paths[n - 1].len())
    }
}

proof fn lemma_index_of(acc: Seq<(Seq<u8>, u8)>, k: Seq<u8>)
    ensures
        -1 <= index_of(acc, k) < acc.len(),
        index_of(acc, k) >= 0 ==> acc[index_of(acc, k)].0 == k,
        index_of(acc, k) >= 0 ==> forall|j: int| 0 <= j < index_of(acc, k) ==> acc[j].0 != k,
        index_of(acc, k) < 0 ==> forall|j: int| 0 <= j < acc.len() ==> acc[j].0 != k,
    decreases acc.len(),
{
    if acc.len() > 0 {
        let prev = acc.drop_last();
        lemma_index_of(prev, k);
        assert forall|j: int| 0 <= j < prev.len() implies acc[j] == prev[j] by {}
    }
}

fn find_entry(acc: &Vec<(Vec<u8>, u8)>, k: &Vec<u8>) -> (r: Option<usize>)
    ensures
        match r {
            Some(i) => index_of(entry_views(acc@), k@) == i as int && i < acc@.len(),
            None => index_of(entry_views(acc@), k@) < 0,
        },
{
    let ghost av = entry_views(acc@);
    proof {
        lemma_index_of(av, k@);
    }
    let mut i: usize = 0;
    while i < acc.len()
        invariant
            i <= acc.len(),
            av == entry_views(acc@),
            forall|j: int| 0 <= j < i ==> av[j].0 != k@,
            -1 <= index_of(av, k@) < av.len(),
            index_of(av, k@) >= 0 ==> av[index_of(av, k@)].0 == k@ && forall|j: int|
                0 <= j < index_of(av, k@) ==> av[j].0 != k@,
            index_of(av, k@) < 0 ==> forall|j: int| 0 <= j < av.len() ==> av[j].0 != k@,
        decreases acc.len() - i,
    {
        if bytes_equal(&acc[i].0, k) {
            assert(av[i as int].0 == k@);
            return Some(i);
        }
        i += 1;
    }
    None
}

/// Across all paths, keeps for each node the largest number of occurrences,
/// nodes in order of first appearance.
pub fn aggregate_occurences(occurences_map: &Vec<Vec<(Vec<u8>, u8)>>) -> (r: Vec<(Vec<u8>, u8)>)
    ensures
        entry_views(r@) == aggregate(
            occurences_map@.map_values(|p: Vec<(Vec<u8>, u8)>| entry_views(p@)),
            occurences_map@.len(),
        ),
{
    let ghost pv = occurences_map@.map_values(|p: Vec<(Vec<u8>, u8)>| entry_views(p@));
    let mut acc: Vec<(Vec<u8>, u8)> = Vec::new();
    assert(entry_views(acc@) =~= Seq::<(Seq<u8>, u8)>::empty());
    let mut p: usize = 0;
    while p < occurences_map.len()
        invariant
            p <= occurences_map.len(),
            pv == occurences_map@.map_values(|p: Vec<(Vec<u8>, u8)>| entry_views(p@)),
            entry_views(acc@) == aggregate(pv, p as nat),
        decreases occurences_map.len() - p,
    {
        let path = &occurences_map[p];
        let ghost base = entry_views(acc@);
        let ghost ov = entry_views(path@);
        assert(pv[p as int] == ov);
        let mut i: usize = 0;
        while i < path.len()
            invariant
                i <= path.len(),
                ov == entry_views(path@),
                entry_views(acc@) == fold_max(base, ov, i as nat),
            decreases path.len() - i,
        {
            let ghost before = entry_views(acc@);
            let count = path[i].1;
            match find_entry(&acc, &path[i].0) {
                Some(j) => {
                    if count > acc[j].1 {
                        let name = copy_bytes(&path[i].0);
                        acc.set(j, (name, count));
                        assert(entry_views(acc@) =~= before.update(j as int, ov[i as int]));
                    }
                },
                None => {
                    let name = copy_bytes(&path[i].0);
                    acc.push((name, count));
                    assert(entry_views(acc@) =~= before.push(ov[i as int]));
                },
            }
            i += 1;
        }
        p += 1;
    }
    acc
}

/// The node read from `pos`, and the position after it.
pub open spec fn node_at(data: Seq<u8>, pos: int) -> Seq<u8> {
    drop_commas(data.subrange(pos, next_sign(data, pos)))
}

pub open spec fn after_node(data: Seq<u8>, pos: int) -> int {
    if next_sign(data, pos) < data.len() {
        next_sign(data, pos) + 1
    } else {
        data.len() as int
    }
}

/// The nodes read one after the other from `pos` until an empty one, for at
/// most `fuel` nodes.
pub open spec fn nodes_from(data: Seq<u8>, pos: int, fuel: nat) -> Seq<Seq<u8>>
    decreases fuel,
{
    if fuel == 0 || node_at(data, pos).len() == 0 {
        Seq::empty()
    } else {
        seq![node_at(data, pos)] + nodes_from(data, after_node(data, pos), (fuel - 1) as nat)
    }
}

/// Where reading node after node from `pos` leaves off: just past the first
/// empty node, for at most `fuel` nodes.
pub open spec fn end_of_nodes(data: Seq<u8>, pos: int, fuel: nat) -> int
    decreases fuel,
{
    if fuel == 0 {
        pos
    } else if node_at(data, pos).len() == 0 {
        after_node(data, pos)
    } else {
        end_of_nodes(data, after_node(data, pos), (fuel - 1) as nat)
    }
}

proof fn lemma_end_fuel(data: Seq<u8>, pos: int, f: nat)
    requires
        0 <= pos <= data.len(),
        f >= data.len() + 1 - pos,
    ensures
        end_of_nodes(data, pos, f) == end_of_nodes(data, pos, (data.len() + 1 - pos) as nat),
    decreases f,
{
    if node_at(data, pos).len() > 0 {
        lemma_node_advances(data, pos);
        let p2 = after_node(data, pos);
        lemma_end_fuel(data, p2, (f - 1) as nat);
        lemma_end_fuel(data, p2, (data.len() - pos) as nat);
    }
}

/// One more occurrence of `k`; a count stops at 255.
pub open spec fn bump(acc: Seq<(Seq<u8>, u8)>, k: Seq<u8>) -> Seq<(Seq<u8>, u8)> {
    let i = index_of(acc, k);
    if i >= 0 {
        acc.update(
            i,
            (
                k,
                if acc[i].1 < 255 {
                    (acc[i].1 + 1) as u8
                } else {
                    255u8
                },
            ),
        )
    } else {
        acc.push((k, 1u8))
    }
}

/// Occurrences of the nodes, counted in order into `acc`.
pub open spec fn tally(acc: Seq<(Seq<u8>, u8)>, nodes: Seq<Seq<u8>>) -> Seq<(Seq<u8>, u8)>
    decreases nodes.len(),
{
    if nodes.len() == 0 {
        acc
    } else {
        tally(bump(acc, nodes[0]), nodes.drop_first())
    }
}

proof fn lemma_node_advances(data: Seq<u8>, pos: int)
    requires
        0 <= pos <= data.len(),
        node_at(data, pos).len() > 0,
    ensures
        pos < after_node(data, pos) <= data.len(),
{
    lemma_next_sign(data, pos);
    if next_sign(data, pos) == pos {
        assert(data.subrange(pos, pos) =~= Seq::<u8>::empty());
    }
}

proof fn lemma_nodes_fuel(data: Seq<u8>, pos: int, f: nat)
    requires
        0 <= pos <= data.len(),
        f >= data.len() + 1 - pos,
    ensures
        nodes_from(data, pos, f) == nodes_from(data, pos, (data.len() + 1 - pos) as nat),
    decreases f,
{
    if node_at(data, pos).len() > 0 {
        lemma_node_advances(data, pos);
        let p2 = after_node(data, pos);
        lemma_nodes_fuel(data, p2, (f - 1) as nat);
        lemma_nodes_fuel(data, p2, (data.len() - pos) as nat);
    }
}

/// Counts the occurrences of each node of a path, reading node after node from
/// `pos` until a node is empty; a count stops at 255. Nodes come in order of
/// first occurrence; `pos` is left just past the empty node.
pub fn count_number_occurences_in_path(data: &Vec<u8>, pos: &mut usize) -> (r: Vec<(Vec<u8>, u8)>)
    requires
        *old(pos) <= data.len(),
    ensures
        *final(pos) == end_of_nodes(data@, *old(pos) as int, (data@.len() + 1 - *old(pos)) as nat),
        entry_views(r@) == tally(
            Seq::empty(),
            nodes_from(data@, *old(pos) as int, (data@.len() + 1 - *old(pos)) as nat),
        ),
{
    let ghost start = *pos as int;
    let ghost whole = tally(Seq::empty(), nodes_from(data@, start, (data@.len() + 1 - start) as nat));
    let mut acc: Vec<(Vec<u8>, u8)> = Vec::new();
    assert(entry_views(acc@) =~= Seq::empty());
    loop
        invariant
            start == *old(pos) as int,
            *pos <= data.len(),
            whole == tally(Seq::empty(), nodes_from(data@, start, (data@.len() + 1 - start) as nat)),
            whole == tally(
                entry_views(acc@),
                nodes_from(data@, *pos as int, (data@.len() + 1 - *pos) as nat),
            ),
            end_of_nodes(data@, start, (data@.len() + 1 - start) as nat) == end_of_nodes(
                data@,
                *pos as int,
                (data@.len() + 1 - *pos) as nat,
            ),
        decreases data.len() - *pos,
    {
        let ghost p = *pos as int;
        let node = read_next_node(data, pos);
        if node.len() == 0 {
            assert(nodes_from(data@, p, (data@.len() + 1 - p) as nat) =~= Seq::<Seq<u8>>::empty());
            return acc;
        }
        proof {
            lemma_node_advances(data@, p);
            lemma_nodes_fuel(data@, *pos as int, (data@.len() - p) as nat);
            lemma_end_fuel(data@, *pos as int, (data@.len() - p) as nat);
            let rest = nodes_from(data@, *pos as int, (data@.len() + 1 - *pos) as nat);
            assert(nodes_from(data@, p, (data@.len() + 1 - p) as nat) == seq![node@] + rest);
            assert((seq![node@] + rest)[0] == node@);
            assert((seq![node@] + rest).drop_first() =~= rest);
        }
        let ghost before = entry_views(acc@);
        match find_entry(&acc, &node) {
            Some(j) => {
                let c = acc[j].1;
                let bumped = if c < 255 {
                    c + 1
                } else {
                    255
                };
                acc.set(j, (node, bumped));
                assert(entry_views(acc@) =~= bump(before, node@));
            },
            None => {
                acc.push((node, 1));
                assert(entry_views(acc@) =~= bump(before, node@));
            },
        }
    }
}

/// The counts of one path's steps field above the threshold.
pub open spec fn path_counts(steps: Seq<u8>, threshold: u8) -> Seq<(Seq<u8>, u8)> {
    above(tally(Seq::empty(), nodes_from(steps, 0, (steps.len() + 1) as nat)), threshold)
}

/// Segment lines and the counts of each path line among the first `n` lines;
/// a walk line, or a path line with fewer than three fields, is an error.
pub open spec fn loops_upto(lines: Seq<Seq<u8>>, threshold: u8, n: nat) -> Result<
    (nat, Seq<Seq<(Seq<u8>, u8)>>),
    GfaError,
>
    decreases n,
{
    if n == 0 || n > lines.len() {
        Ok((0, Seq::empty()))
    } else {
        match loops_upto(lines, threshold, (n - 1) as nat) {
            Err(e) => Err(e),
            Ok((segs, paths)) => {
                let l = lines[n - 1];
                if l.len() > 0 && l[0] == 83u8 {
                    Ok((segs + 1, paths))
                } else if l.len() > 0 && l[0] == 87u8 {
                    Err(GfaError::Format { line: n as usize })
                } else if l.len() > 0 && l[0] == 80u8 {
                    if split(l, TAB).len() >= 3 {
                        Ok((segs, paths.push(path_counts(split(l, TAB)[2], threshold))))
                    } else {
                        Err(GfaError::Format { line: n as usize })
                    }
                } else {
                    Ok((segs, paths))
                }
            },
        }
    }
}

/// The sum of the counts.
pub open spec fn count_sum(e: Seq<(Seq<u8>, u8)>) -> nat
    decreases e.len(),
{
    if e.len() == 0 {
        0
    } else {
        count_sum(e.drop_last()) + e.last().1 as nat
    }
}

proof fn lemma_loops_err_extends(lines: Seq<Seq<u8>>, threshold: u8, m: nat)
    requires
        m <= lines.len(),
        loops_upto(lines, threshold, m) is Err,
    ensures
        loops_upto(lines, threshold, lines.len()) == loops_upto(lines, threshold, m),
    decreases lines.len() - m,
{
    if m < lines.len() {
        lemma_loops_err_extends(lines, threshold, m + 1);
    }
}

proof fn lemma_loops_segments(lines: Seq<Seq<u8>>, threshold: u8, n: nat)
    requires
        n <= lines.len(),
        loops_upto(lines, threshold, n) is Ok,
    ensures
        loops_upto(lines, threshold, n)->Ok_0.0 <= n,
    decreases n,
{
    if n > 0 {
        lemma_loops_segments(lines, threshold, (n - 1) as nat);
    }
}

/// How many nodes the graph has, and how many labels unrolling its repeated
/// nodes takes: one more than the largest number of times, over all paths, that
/// a path visits each node more often than `threshold`, summed over the nodes.
/// A walk line, or a path line with fewer than three fields, is an error.
pub fn remove_loops(lines: &Vec<Vec<u8>>, threshold: u8) -> (r: Result<(u64, u128), GfaError>)
    ensures
        match r {
            Ok((nodes, labels)) => loops_upto(fields_view(lines@), threshold, lines@.len()) is Ok && {
                let (segs, paths) = loops_upto(fields_view(lines@), threshold, lines@.len())->Ok_0;
                &&& nodes == segs
                &&& labels == 1 + count_sum(aggregate(paths, paths.len()))
            },
            Err(e) => loops_upto(fields_view(lines@), threshold, lines@.len()) == Err::<
                (nat, Seq<Seq<(Seq<u8>, u8)>>),
                GfaError,
            >(e),
        },
{
    let ghost lv = fields_view(lines@);
    let mut nodes: u64 = 0;
    let mut paths: Vec<Vec<(Vec<u8>, u8)>> = Vec::new();
    let mut n: usize = 0;
    assert(paths@.map_values(|p: Vec<(Vec<u8>, u8)>| entry_views(p@)) =~= Seq::empty());
    while n < lines.len()
        invariant
            n <= lines.len(),
            lv == fields_view(lines@),
            loops_upto(lv, threshold, n as nat) == Ok::<(nat, Seq<Seq<(Seq<u8>, u8)>>), GfaError>(
                (nodes as nat, paths@.map_values(|p: Vec<(Vec<u8>, u8)>| entry_views(p@))),
            ),
        decreases lines.len() - n,
    {
        proof {
            lemma_loops_segments(lv, threshold, n as nat);
        }
        let line = &lines[n];
        assert(lv[n as int] == line@);
        if line.len() > 0 && line[0] == 83u8 {
            nodes = nodes + 1;
        } else if line.len() > 0 && line[0] == 87u8 {
            proof {
                lemma_loops_err_extends(lv, threshold, (n + 1) as nat);
            }
            return Err(GfaError::Format { line: n + 1 });
        } else if line.len() > 0 && line[0] == 80u8 {
            let f = split_bytes(line, TAB);
            if f.len() < 3 {
                proof {
                    lemma_loops_err_extends(lv, threshold, (n + 1) as nat);
                }
                return Err(GfaError::Format { line: n + 1 });
            }
            let mut pos: usize = 0;
            let counts = count_number_occurences_in_path(&f[2], &mut pos);
            let kept = filter_occurences(&counts, threshold);
            let ghost before = paths@.map_values(|p: Vec<(Vec<u8>, u8)>| entry_views(p@));
            paths.push(kept);
            assert(paths@.map_values(|p: Vec<(Vec<u8>, u8)>| entry_views(p@)) =~= before.push(
                path_counts(f@[2]@, threshold),
            ));
        }
        n += 1;
    }
    assert(lv.len() == lines@.len());
    let aggregated = aggregate_occurences(&paths);
    let ghost av = entry_views(aggregated@);
    let mut labels: u128 = 1;
    let mut i: usize = 0;
    assert(av.subrange(0, 0) =~= Seq::<(Seq<u8>, u8)>::empty());
    while i < aggregated.len()
        invariant
            i <= aggregated.len(),
            av == entry_views(aggregated@),
            labels == 1 + count_sum(av.subrange(0, i as int)),
            labels <= 1 + 255 * i,
        decreases aggregated.len() - i,
    {
        assert(av.subrange(0, i + 1).drop_last() =~= av.subrange(0, i as int));
        assert(av[i as int].1 == aggregated@[i as int].1);
        labels = labels + aggregated[i].1 as u128;
        i += 1;
    }
    assert(av.subrange(0, av.len() as int) =~= av);
    Ok((nodes, labels))
}

} // verus!
