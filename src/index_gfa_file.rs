//! Path statistics and renaming: how many bases each path spells, in total and
//! by strand, where each step of a path lies, and new names for paths.
use crate::graph::copy_bytes;
use crate::graph::{fields_view, views, GfaError, Record, RecordView, SignedRef};
use crate::graph::{bytes_equal, copy_record};
use crate::text::{split, split_bytes, TAB};
use std::collections::HashMap;
use vstd::prelude::*;

verus! {

broadcast use vstd::std_specs::hash::group_hash_axioms;

/// Sequence length of each segment id among the first `n` records; a later
/// record of the same id replaces an earlier one.
pub open spec fn lengths_upto(recs: Seq<RecordView>, n: nat) -> Map<u32, nat>
    decreases n,
{
    if n == 0 || n > recs.len() {
        Map::empty()
    } else {
        let prev = lengths_upto(recs, (n - 1) as nat);
        match recs[n - 1] {
            RecordView::Segment { id, sequence, .. } => prev.insert(id, sequence.len()),
            _ => prev,
        }
    }
}

/// The first of the first `n` steps whose node has no known length.
pub open spec fn first_unknown(steps: Seq<SignedRef>, lens: Map<u32, nat>, n: nat) -> Option<u32>
    decreases n,
{
    if n == 0 || n > steps.len() {
        None
    } else {
        match first_unknown(steps, lens, (n - 1) as nat) {
            Some(x) => Some(x),
            None => if lens.contains_key(steps[n - 1].id) {
                None
            } else {
                Some(steps[n - 1].id)
            },
        }
    }
}

/// Bases of the first `n` steps read on the forward strand.
pub open spec fn forward_bases(steps: Seq<SignedRef>, lens: Map<u32, nat>, n: nat) -> nat
    decreases n,
{
    if n == 0 || n > steps.len() {
        0
    } else {
        forward_bases(steps, lens, (n - 1) as nat) + if steps[n - 1].forward {
            lens[steps[n - 1].id]
        } else {
            0
        }
    }
}

/// Bases of the first `n` steps read on the reverse strand.
pub open spec fn reverse_bases(steps: Seq<SignedRef>, lens: Map<u32, nat>, n: nat) -> nat
    decreases n,
{
    if n == 0 || n > steps.len() {
        0
    } else {
        reverse_bases(steps, lens, (n - 1) as nat) + if steps[n - 1].forward {
            0
        } else {
            lens[steps[n - 1].id]
        }
    }
}

/// The length of a path, split by strand.
pub struct PathLength {
    pub name: Vec<u8>,
    pub length: u128,
    pub forward: u128,
    pub reverse: u128,
}

/// Path name with its forward and reverse bases.
pub open spec fn path_lengths_upto(recs: Seq<RecordView>, n: nat) -> Result<
    Seq<(Seq<u8>, nat, nat)>,
    GfaError,
>
    decreases n,
{
    if n == 0 || n > recs.len() {
        Ok(Seq::empty())
    } else {
        match path_lengths_upto(recs, (n - 1) as nat) {
            Err(e) => Err(e),
            Ok(prev) => match recs[n - 1] {
                RecordView::Path { name, steps, .. } => {
                    let lens = lengths_upto(recs, (n - 1) as nat);
                    match first_unknown(steps, lens, steps.len()) {
                        Some(x) => Err(GfaError::NotFound { node: x }),
                        None => Ok(
                            prev.push(
                                (
                                    name,
                                    forward_bases(steps, lens, steps.len()),
                                    reverse_bases(steps, lens, steps.len()),
                                ),
                            ),
                        ),
                    }
                },
                _ => Ok(prev),
            },
        }
    }
}

pub open spec fn length_views(v: Seq<PathLength>) -> Seq<(Seq<u8>, nat, nat)> {
    v.map_values(|p: PathLength| (p.name@, p.forward as nat, p.reverse as nat))
}

proof fn lemma_unknown_extends(steps: Seq<SignedRef>, lens: Map<u32, nat>, n: nat)
    requires
        n <= steps.len(),
        first_unknown(steps, lens, n).is_some(),
    ensures
        first_unknown(steps, lens, steps.len()) == first_unknown(steps, lens, n),
    decreases steps.len() - n,
{
    if n < steps.len() {
        lemma_unknown_extends(steps, lens, n + 1);
    }
}

proof fn lemma_lengths_err_extends(recs: Seq<RecordView>, m: nat)
    requires
        m <= recs.len(),
        path_lengths_upto(recs, m) is Err,
    ensures
        path_lengths_upto(recs, recs.len()) == path_lengths_upto(recs, m),
    decreases recs.len() - m,
{
    if m < recs.len() {
        lemma_lengths_err_extends(recs, m + 1);
    }
}

proof fn lemma_bases_bound(steps: Seq<SignedRef>, lens: Map<u32, nat>, n: nat)
    requires
        n <= steps.len(),
        forall|k: u32| #[trigger] lens.contains_key(k) ==> lens[k] <= u64::MAX,
        first_unknown(steps, lens, n).is_none(),
    ensures
        forward_bases(steps, lens, n) + reverse_bases(steps, lens, n) <= n * (u64::MAX as nat),
    decreases n,
{
    if n > 0 {
        lemma_bases_bound(steps, lens, (n - 1) as nat);
        assert(lens.contains_key(steps[n - 1].id) ==> lens[steps[n - 1].id] <= u64::MAX);
        assert((n - 1) * (u64::MAX as nat) + u64::MAX == n * (u64::MAX as nat)) by (nonlinear_arith);
    }
}

/// For each path, in order: its name, its length, and the bases read on each
/// strand, from the lengths of the segments listed before it. A step on a
/// node without an earlier segment record is an error.
pub fn index_gfa(records: &Vec<Record>) -> (r: Result<Vec<PathLength>, GfaError>)
    ensures
        match r {
            Ok(v) => path_lengths_upto(views(records@), records@.len()) == Ok::<
                Seq<(Seq<u8>, nat, nat)>,
                GfaError,
            >(length_views(v@)) && forall|i: int|
                0 <= i < v@.len() ==> #[trigger] v@[i].length == v@[i].forward + v@[i].reverse,
            Err(e) => path_lengths_upto(views(records@), records@.len()) == Err::<
                Seq<(Seq<u8>, nat, nat)>,
                GfaError,
            >(e),
        },
{
    let ghost recs = views(records@);
    let mut lens: HashMap<u32, u64> = HashMap::new();
    let mut out: Vec<PathLength> = Vec::new();
    let mut n: usize = 0;
    assert(lens@.map_values(|l: u64| l as nat) =~= lengths_upto(recs, 0));
    assert(length_views(out@) =~= Seq::empty());
    while n < records.len()
        invariant
            n <= records.len(),
            recs == views(records@),
            lens@.map_values(|l: u64| l as nat) == lengths_upto(recs, n as nat),
            path_lengths_upto(recs, n as nat) == Ok::<Seq<(Seq<u8>, nat, nat)>, GfaError>(
                length_views(out@),
            ),
            forall|i: int|
                0 <= i < out@.len() ==> #[trigger] out@[i].length == out@[i].forward
                    + out@[i].reverse,
        decreases records.len() - n,
    {
        assert(recs[n as int] == records@[n as int]@);
        let ghost lv = lengths_upto(recs, n as nat);
        match &records[n] {
            Record::Segment { id, sequence, .. } => {
                lens.insert(*id, sequence.len() as u64);
                assert(lens@.map_values(|l: u64| l as nat) =~= lengths_upto(recs, (n + 1) as nat));
            },
            Record::Path { name, steps, .. } => {
                let mut fwd: u128 = 0;
                let mut rev: u128 = 0;
                let mut j: usize = 0;
                proof {
                    assert forall|k: u32| #[trigger] lv.contains_key(k) implies lv[k] <= u64::MAX by {
                        assert(lens@.contains_key(k));
                    }
                }
                while j < steps.len()
                    invariant
                        j <= steps.len(),
                        lv == lens@.map_values(|l: u64| l as nat),
                        forall|k: u32| #[trigger] lv.contains_key(k) ==> lv[k] <= u64::MAX,
                        first_unknown(steps@, lv, j as nat).is_none(),
                        fwd == forward_bases(steps@, lv, j as nat),
                        rev == reverse_bases(steps@, lv, j as nat),
                        n < records.len(),
                        recs == views(records@),
                        path_lengths_upto(recs, n as nat) == Ok::<Seq<(Seq<u8>, nat, nat)>, GfaError>(
                            length_views(out@),
                        ),
                        recs[n as int] is Path && recs[n as int]->Path_steps == steps@,
                        lv == lengths_upto(recs, n as nat),
                    decreases steps.len() - j,
                {
                    let step = steps[j];
                    match lens.get(&step.id) {
                        None => {
                            proof {
                                assert(first_unknown(steps@, lv, (j + 1) as nat) == Some(step.id));
                                lemma_unknown_extends(steps@, lv, (j + 1) as nat);
                                lemma_lengths_err_extends(recs, (n + 1) as nat);
                            }
                            return Err(GfaError::NotFound { node: step.id });
                        },
                        Some(l) => {
                            proof {
                                lemma_bases_bound(steps@, lv, j as nat);
                                assert(lv.contains_key(step.id));
                                assert(j * (u64::MAX as nat) + u64::MAX <= u64::MAX * u64::MAX)
                                    by (nonlinear_arith)
                                    requires
                                        j < u64::MAX,
                                ;
                                assert(lv[step.id] == *l as nat);
                            }
                            if step.forward {
                                fwd = fwd + *l as u128;
                            } else {
                                rev = rev + *l as u128;
                            }
                        },
                    }
                    j += 1;
                }
                proof {
                    lemma_bases_bound(steps@, lv, steps@.len());
                    assert(steps@.len() * (u64::MAX as nat) <= u64::MAX * u64::MAX) by (nonlinear_arith)
                        requires
                            steps@.len() <= u64::MAX,
                    ;
                }
                let ghost before = length_views(out@);
                out.push(PathLength { name: crate::graph::copy_bytes(name), length: fwd + rev, forward: fwd, reverse: rev });
                assert(length_views(out@) =~= before.push((name@, fwd as nat, rev as nat)));
            },
            _ => {},
        }
        n += 1;
    }
    assert(recs.len() == records@.len());
    Ok(out)
}

/// Bases of the first `n` steps.
pub open spec fn bases(steps: Seq<SignedRef>, lens: Map<u32, nat>, n: nat) -> nat
    decreases n,
{
    if n == 0 || n > steps.len() {
        0
    } else {
        bases(steps, lens, (n - 1) as nat) + lens[steps[n - 1].id]
    }
}

/// Where a step of a path lies: its node, the path, the bases of the path
/// before the step, that plus the step's length, the length, and the strand.
pub struct StepOffset {
    pub node: u32,
    pub path: Vec<u8>,
    pub start: u128,
    pub end: u128,
    pub length: u128,
    pub forward: bool,
}

pub open spec fn offset_view(o: StepOffset) -> (u32, Seq<u8>, nat, nat, nat, bool) {
    (o.node, o.path@, o.start as nat, o.end as nat, o.length as nat, o.forward)
}

/// The rows of the first `k` steps of one path.
pub open spec fn step_rows(steps: Seq<SignedRef>, lens: Map<u32, nat>, name: Seq<u8>, k: nat) -> Seq<
    (u32, Seq<u8>, nat, nat, nat, bool),
>
    decreases k,
{
    if k == 0 || k > steps.len() {
        Seq::empty()
    } else {
        step_rows(steps, lens, name, (k - 1) as nat).push(
            (
                steps[k - 1].id,
                name,
                bases(steps, lens, (k - 1) as nat),
                bases(steps, lens, k),
                lens[steps[k - 1].id],
                steps[k - 1].forward,
            ),
        )
    }
}

/// The rows of every path among the first `n` records, from the lengths of
/// the segments listed before each path; a step on a node without an earlier
/// segment record is an error.
pub open spec fn offsets_upto(recs: Seq<RecordView>, n: nat) -> Result<
    Seq<(u32, Seq<u8>, nat, nat, nat, bool)>,
    GfaError,
>
    decreases n,
{
    if n == 0 || n > recs.len() {
        Ok(Seq::empty())
    } else {
        match offsets_upto(recs, (n - 1) as nat) {
            Err(e) => Err(e),
            Ok(prev) => match recs[n - 1] {
                RecordView::Path { name, steps, .. } => {
                    let lens = lengths_upto(recs, (n - 1) as nat);
                    match first_unknown(steps, lens, steps.len()) {
                        Some(x) => Err(GfaError::NotFound { node: x }),
                        None => Ok(prev + step_rows(steps, lens, name, steps.len())),
                    }
                },
                _ => Ok(prev),
            },
        }
    }
}

proof fn lemma_offsets_err_extends(recs: Seq<RecordView>, m: nat)
    requires
        m <= recs.len(),
        offsets_upto(recs, m) is Err,
    ensures
        offsets_upto(recs, recs.len()) == offsets_upto(recs, m),
    decreases recs.len() - m,
{
    if m < recs.len() {
        lemma_offsets_err_extends(recs, m + 1);
    }
}

proof fn lemma_bases_total(steps: Seq<SignedRef>, lens: Map<u32, nat>, n: nat)
    requires
        n <= steps.len(),
        forall|k: u32| #[trigger] lens.contains_key(k) ==> lens[k] <= u64::MAX,
        first_unknown(steps, lens, n).is_none(),
    ensures
        bases(steps, lens, n) <= n * (u64::MAX as nat),
    decreases n,
{
    if n > 0 {
        lemma_bases_total(steps, lens, (n - 1) as nat);
        assert(lens.contains_key(steps[n - 1].id));
        assert((n - 1) * (u64::MAX as nat) + u64::MAX == n * (u64::MAX as nat)) by (nonlinear_arith);
    }
}

/// For each step of each path, in order: its node, the path's name, the
/// bases of the path before the step, that plus the step's length, the length
/// and the strand, from the lengths of the segments listed
/// before the path. A step on a node without an earlier segment record is an
/// error.
pub fn offset_gfa(records: &Vec<Record>) -> (r: Result<Vec<StepOffset>, GfaError>)
    ensures
        match r {
            Ok(v) => offsets_upto(views(records@), records@.len()) == Ok::<
                Seq<(u32, Seq<u8>, nat, nat, nat, bool)>,
                GfaError,
            >(v@.map_values(|o: StepOffset| offset_view(o))),
            Err(e) => offsets_upto(views(records@), records@.len()) == Err::<
                Seq<(u32, Seq<u8>, nat, nat, nat, bool)>,
                GfaError,
            >(e),
        },
{
    let ghost recs = views(records@);
    let mut lens: HashMap<u32, u64> = HashMap::new();
    let mut out: Vec<StepOffset> = Vec::new();
    let mut n: usize = 0;
    assert(lens@.map_values(|l: u64| l as nat) =~= lengths_upto(recs, 0));
    assert(out@.map_values(|o: StepOffset| offset_view(o)) =~= Seq::empty());
    while n < records.len()
        invariant
            n <= records.len(),
            recs == views(records@),
            lens@.map_values(|l: u64| l as nat) == lengths_upto(recs, n as nat),
            offsets_upto(recs, n as nat) == Ok::<Seq<(u32, Seq<u8>, nat, nat, nat, bool)>, GfaError>(
                out@.map_values(|o: StepOffset| offset_view(o)),
            ),
        decreases records.len() - n,
    {
        assert(recs[n as int] == records@[n as int]@);
        let ghost lv = lengths_upto(recs, n as nat);
        match &records[n] {
            Record::Segment { id, sequence, .. } => {
                lens.insert(*id, sequence.len() as u64);
                assert(lens@.map_values(|l: u64| l as nat) =~= lengths_upto(recs, (n + 1) as nat));
            },
            Record::Path { name, steps, .. } => {
                let ghost base = out@.map_values(|o: StepOffset| offset_view(o));
                let mut through: u128 = 0;
                let mut j: usize = 0;
                proof {
                    assert forall|k: u32| #[trigger] lv.contains_key(k) implies lv[k] <= u64::MAX by {
                        assert(lens@.contains_key(k));
                    }
                    assert(base + step_rows(steps@, lv, name@, 0) =~= base);
                }
                while j < steps.len()
                    invariant
                        j <= steps.len(),
                        lv == lens@.map_values(|l: u64| l as nat),
                        forall|k: u32| #[trigger] lv.contains_key(k) ==> lv[k] <= u64::MAX,
                        first_unknown(steps@, lv, j as nat).is_none(),
                        through == bases(steps@, lv, j as nat),
                        out@.map_values(|o: StepOffset| offset_view(o)) == base + step_rows(
                            steps@,
                            lv,
                            name@,
                            j as nat,
                        ),
                        n < records.len(),
                        recs == views(records@),
                        offsets_upto(recs, n as nat) == Ok::<
                            Seq<(u32, Seq<u8>, nat, nat, nat, bool)>,
                            GfaError,
                        >(base),
                        recs[n as int] is Path && recs[n as int]->Path_steps == steps@
                            && recs[n as int]->Path_name == name@,
                        lv == lengths_upto(recs, n as nat),
                    decreases steps.len() - j,
                {
                    let step = steps[j];
                    match lens.get(&step.id) {
                        None => {
                            proof {
                                assert(first_unknown(steps@, lv, (j + 1) as nat) == Some(step.id));
                                lemma_unknown_extends(steps@, lv, (j + 1) as nat);
                                lemma_offsets_err_extends(recs, (n + 1) as nat);
                            }
                            return Err(GfaError::NotFound { node: step.id });
                        },
                        Some(l) => {
                            proof {
                                lemma_bases_total(steps@, lv, j as nat);
                                assert(lv[step.id] == *l as nat);
                                assert(j * (u64::MAX as nat) + 2 * (u64::MAX as nat) <= u64::MAX * u64::MAX + u64::MAX)
                                    by (nonlinear_arith)
                                    requires
                                        j < u64::MAX,
                                ;
                            }
                            let length = *l as u128;
                            let start = through;
                            through = through + length;
                            let ghost before = out@.map_values(|o: StepOffset| offset_view(o));
                            out.push(
                                StepOffset {
                                    node: step.id,
                                    path: copy_bytes(name),
                                    start,
                                    end: through,
                                    length,
                                    forward: step.forward,
                                },
                            );
                            proof {
                                assert(first_unknown(steps@, lv, (j + 1) as nat).is_none());
                                assert(out@.map_values(|o: StepOffset| offset_view(o)) =~= before.push(
                                    (step.id, name@, start as nat, through as nat, length as nat, step.forward),
                                ));
                                assert(base + step_rows(steps@, lv, name@, (j + 1) as nat) =~= (base + step_rows(
                                    steps@,
                                    lv,
                                    name@,
                                    j as nat,
                                )).push(
                                    (step.id, name@, start as nat, through as nat, length as nat, step.forward),
                                ));
                            }
                        },
                    }
                    j += 1;
                }
            },
            _ => {},
        }
        n += 1;
    }
    assert(recs.len() == records@.len());
    Ok(out)
}

/// The new name of a path: the second field of the last pair whose first
/// field is the old name.
pub open spec fn new_name(renames: Seq<(Seq<u8>, Seq<u8>)>, old: Seq<u8>) -> Option<Seq<u8>>
    decreases renames.len(),
{
    if renames.len() == 0 {
        None
    } else if renames.last().0 == old {
        Some(renames.last().1)
    } else {
        new_name(renames.drop_last(), old)
    }
}

/// The records of the first `n` with every path under its new name; a path
/// without one is an error at its line (from one).
pub open spec fn renamed_upto(recs: Seq<RecordView>, renames: Seq<(Seq<u8>, Seq<u8>)>, n: nat) -> Result<
    Seq<RecordView>,
    GfaError,
>
    decreases n,
{
    if n == 0 || n > recs.len() {
        Ok(Seq::empty())
    } else {
        match renamed_upto(recs, renames, (n - 1) as nat) {
            Err(e) => Err(e),
            Ok(prev) => match recs[n - 1] {
                RecordView::Path { name, steps, rest } => match new_name(renames, name) {
                    Some(m) => Ok(prev.push(RecordView::Path { name: m, steps, rest })),
                    None => Err(GfaError::NoNewName { line: n as usize }),
                },
                _ => Ok(prev.push(recs[n - 1])),
            },
        }
    }
}

pub open spec fn pair_views(v: Seq<(Vec<u8>, Vec<u8>)>) -> Seq<(Seq<u8>, Seq<u8>)> {
    v.map_values(|p: (Vec<u8>, Vec<u8>)| (p.0@, p.1@))
}

/// Each line of a renaming table: the old name, a tab, the new name (further
/// fields are ignored); a line without a tab is a format error.
pub open spec fn rename_pairs_upto(lines: Seq<Seq<u8>>, n: nat) -> Result<Seq<(Seq<u8>, Seq<u8>)>, GfaError>
    decreases n,
{
    if n == 0 || n > lines.len() {
        Ok(Seq::empty())
    } else {
        match rename_pairs_upto(lines, (n - 1) as nat) {
            Err(e) => Err(e),
            Ok(prev) => if split(lines[n - 1], TAB).len() >= 2 {
                Ok(prev.push((split(lines[n - 1], TAB)[0], split(lines[n - 1], TAB)[1])))
            } else {
                Err(GfaError::Format { line: n as usize })
            },
        }
    }
}

proof fn lemma_pairs_err_extends(lines: Seq<Seq<u8>>, m: nat)
    requires
        m <= lines.len(),
        rename_pairs_upto(lines, m) is Err,
    ensures
        rename_pairs_upto(lines, lines.len()) == rename_pairs_upto(lines, m),
    decreases lines.len() - m,
{
    if m < lines.len() {
        lemma_pairs_err_extends(lines, m + 1);
    }
}

proof fn lemma_renamed_err_extends(recs: Seq<RecordView>, renames: Seq<(Seq<u8>, Seq<u8>)>, m: nat)
    requires
        m <= recs.len(),
        renamed_upto(recs, renames, m) is Err,
    ensures
        renamed_upto(recs, renames, recs.len()) == renamed_upto(recs, renames, m),
    decreases recs.len() - m,
{
    if m < recs.len() {
        lemma_renamed_err_extends(recs, renames, m + 1);
    }
}

/// Reads a renaming table, one pair of names per line.
pub fn parse_renames(lines: &Vec<Vec<u8>>) -> (r: Result<Vec<(Vec<u8>, Vec<u8>)>, GfaError>)
    ensures
        match r {
            Ok(v) => rename_pairs_upto(lines@.map_values(|l: Vec<u8>| l@), lines@.len()) == Ok::<
                Seq<(Seq<u8>, Seq<u8>)>,
                GfaError,
            >(pair_views(v@)),
            Err(e) => rename_pairs_upto(lines@.map_values(|l: Vec<u8>| l@), lines@.len()) == Err::<
                Seq<(Seq<u8>, Seq<u8>)>,
                GfaError,
            >(e),
        },
{
    let ghost lv = lines@.map_values(|l: Vec<u8>| l@);
    let mut out: Vec<(Vec<u8>, Vec<u8>)> = Vec::new();
    let mut n: usize = 0;
    assert(pair_views(out@) =~= Seq::empty());
    while n < lines.len()
        invariant
            n <= lines.len(),
            lv == lines@.map_values(|l: Vec<u8>| l@),
            rename_pairs_upto(lv, n as nat) == Ok::<Seq<(Seq<u8>, Seq<u8>)>, GfaError>(
                pair_views(out@),
            ),
        decreases lines.len() - n,
    {
        assert(lv[n as int] == lines@[n as int]@);
        let f = split_bytes(&lines[n], TAB);
        if f.len() < 2 {
            proof {
                lemma_pairs_err_extends(lv, (n + 1) as nat);
            }
            return Err(GfaError::Format { line: n + 1 });
        }
        let ghost before = pair_views(out@);
        out.push((copy_bytes(&f[0]), copy_bytes(&f[1])));
        assert(pair_views(out@) =~= before.push((f@[0]@, f@[1]@)));
        n += 1;
    }
    Ok(out)
}

fn lookup_new_name(renames: &Vec<(Vec<u8>, Vec<u8>)>, old: &Vec<u8>) -> (r: Option<Vec<u8>>)
    ensures
        match r {
            Some(v) => new_name(pair_views(renames@), old@) == Some(v@),
            None => new_name(pair_views(renames@), old@).is_none(),
        },
{
    let ghost pv = pair_views(renames@);
    let mut i: usize = renames.len();
    assert(pv.subrange(0, pv.len() as int) =~= pv);
    while i > 0
        invariant
            i <= renames.len(),
            pv == pair_views(renames@),
            new_name(pv, old@) == new_name(pv.subrange(0, i as int), old@),
        decreases i,
    {
        assert(pv.subrange(0, i as int).drop_last() =~= pv.subrange(0, i - 1));
        assert(pv.subrange(0, i as int).last() == pv[i - 1]);
        if bytes_equal(&renames[i - 1].0, old) {
            return Some(copy_bytes(&renames[i - 1].1));
        }
        i -= 1;
    }
    None
}

/// Gives every path its new name from the table; other records are kept as
/// they are. A path without a new name is an error at its line (from one).
pub fn rename_paths(records: &Vec<Record>, renames: &Vec<(Vec<u8>, Vec<u8>)>) -> (r: Result<
    Vec<Record>,
    GfaError,
>)
    ensures
        match r {
            Ok(v) => renamed_upto(views(records@), pair_views(renames@), records@.len()) == Ok::<
                Seq<RecordView>,
                GfaError,
            >(views(v@)),
            Err(e) => renamed_upto(views(records@), pair_views(renames@), records@.len()) == Err::<
                Seq<RecordView>,
                GfaError,
            >(e),
        },
{
    let ghost recs = views(records@);
    let ghost pv = pair_views(renames@);
    let mut out: Vec<Record> = Vec::new();
    let mut n: usize = 0;
    assert(views(out@) =~= Seq::empty());
    while n < records.len()
        invariant
            n <= records.len(),
            recs == views(records@),
            pv == pair_views(renames@),
            renamed_upto(recs, pv, n as nat) == Ok::<Seq<RecordView>, GfaError>(views(out@)),
        decreases records.len() - n,
    {
        assert(recs[n as int] == records@[n as int]@);
        let ghost before = views(out@);
        match &records[n] {
            Record::Path { name, steps, rest } => {
                match lookup_new_name(renames, name) {
                    Some(m) => {
                        let copy = copy_record(&records[n]);
                        match copy {
                            Record::Path { steps: s2, rest: o2, .. } => {
                                out.push(Record::Path { name: m, steps: s2, rest: o2 });
                                assert(views(out@) =~= before.push(
                                    RecordView::Path { name: m@, steps: steps@, rest: fields_view(rest@) },
                                ));
                            },
                            _ => {},
                        }
                    },
                    None => {
                        proof {
                            lemma_renamed_err_extends(recs, pv, (n + 1) as nat);
                        }
                        return Err(GfaError::NoNewName { line: n + 1 });
                    },
                }
            },
            _ => {
                out.push(copy_record(&records[n]));
                assert(views(out@) =~= before.push(recs[n as int]));
            },
        }
        n += 1;
    }
    assert(recs.len() == records@.len());
    Ok(out)
}

} // verus!
