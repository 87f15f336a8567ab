//! The sequence merger: applies the candidate pairs to a mapping of node ids to
//! representatives and merges the sequences of each contracted pair.
use crate::graph::{copy_bytes, views, Record, RecordView};
use crate::mapping::Mapping;
use std::collections::HashMap;
use vstd::prelude::*;

verus! {

broadcast use vstd::std_specs::hash::group_hash_axioms;

/// Sequence of each segment id among the first `n` records; a later record of
/// the same id replaces an earlier one.
pub open spec fn segment_seqs_upto(recs: Seq<RecordView>, n: nat) -> Map<u32, Seq<u8>>
    decreases n,
{
    if n == 0 || n > recs.len() {
        Map::empty()
    } else {
        let prev = segment_seqs_upto(recs, (n - 1) as nat);
        match recs[n - 1] {
            RecordView::Segment { id, sequence, .. } => prev.insert(id, sequence),
            _ => prev,
        }
    }
}

/// Segment ids among the first `n` records, in order of first appearance.
pub open spec fn segment_ids_upto(recs: Seq<RecordView>, n: nat) -> Seq<u32>
    decreases n,
{
    if n == 0 || n > recs.len() {
        Seq::empty()
    } else {
        let prev = segment_ids_upto(recs, (n - 1) as nat);
        match recs[n - 1] {
            RecordView::Segment { id, .. } => if segment_seqs_upto(
                recs,
                (n - 1) as nat,
            ).contains_key(id) {
                prev
            } else {
                prev.push(id)
            },
            _ => prev,
        }
    }
}

/// The segment ids of all records, and their sequences.
pub open spec fn segment_ids(recs: Seq<RecordView>) -> Seq<u32> {
    segment_ids_upto(recs, recs.len())
}

pub open spec fn segment_seqs(recs: Seq<RecordView>) -> Map<u32, Seq<u8>> {
    segment_seqs_upto(recs, recs.len())
}

/// State of a contraction: the representative of each node id, and the
/// sequence of each representative.
pub ghost struct ContractionView {
    pub reps: Map<u32, u32>,
    pub seqs: Map<u32, Seq<u8>>,
}

/// Before any contraction every segment represents itself.
pub open spec fn initial_state(recs: Seq<RecordView>) -> ContractionView {
    ContractionView {
        reps: Map::new(|y: u32| segment_seqs(recs).contains_key(y), |y: u32| y),
        seqs: segment_seqs(recs),
    }
}

/// Contracts the pair `c`, given in the order of the forward strand: the groups
/// of its two nodes become one, represented by the smaller representative, and
/// carrying the sequence of the first group followed by that of the second.
/// A pair with an unknown id, or within one group already, changes nothing.
/// A pair found on the reverse strand arrives in forward order too, so both
/// sequences are always read forward and none is reverse-complemented.
pub open spec fn merge_pair(st: ContractionView, c: (u32, u32)) -> ContractionView {
    if st.reps.contains_key(c.0) && st.reps.contains_key(c.1) && st.reps[c.0] != st.reps[c.1] {
        let ru = st.reps[c.0];
        let rv = st.reps[c.1];
        let s = if ru < rv {
            ru
        } else {
            rv
        };
        let t = if ru < rv {
            rv
        } else {
            ru
        };
        ContractionView {
            reps: Map::new(
                |y: u32| st.reps.contains_key(y),
                |y: u32|
                    if st.reps[y] == t {
                        s
                    } else {
                        st.reps[y]
                    },
            ),
            seqs: st.seqs.remove(t).insert(s, st.seqs[ru] + st.seqs[rv]),
        }
    } else {
        st
    }
}

/// The state after the first `n` candidate pairs.
pub open spec fn contract_upto(st: ContractionView, cands: Seq<(u32, u32)>, n: nat) -> ContractionView
    decreases n,
{
    if n == 0 || n > cands.len() {
        st
    } else {
        merge_pair(contract_upto(st, cands, (n - 1) as nat), cands[n - 1])
    }
}

/// Total length of the input sequences of the ids that `r` represents.
pub open spec fn weight(ids: Seq<u32>, reps: Map<u32, u32>, orig: Map<u32, Seq<u8>>, r: u32) -> int
    decreases ids.len(),
{
    if ids.len() == 0 {
        0
    } else {
        weight(ids.drop_last(), reps, orig, r) + if reps[ids.last()] == r {
            orig[ids.last()].len() as int
        } else {
            0
        }
    }
}

/// The shape that every contraction state keeps: each id has a representative
/// that represents itself, and exactly the representatives carry a sequence,
/// as long as the sequences of the ids they represent.
pub open spec fn state_ok(st: ContractionView, ids: Seq<u32>, orig: Map<u32, Seq<u8>>) -> bool {
    &&& ids.no_duplicates()
    &&& st.reps.dom() == ids.to_set()
    &&& forall|y: u32| #[trigger]
        st.reps.contains_key(y) ==> st.reps.contains_key(st.reps[y]) && st.reps[st.reps[y]]
            == st.reps[y]
    &&& forall|y: u32| #[trigger]
        st.seqs.contains_key(y) <==> st.reps.contains_key(y) && st.reps[y] == y
    &&& forall|r: u32| #[trigger]
        st.seqs.contains_key(r) ==> st.seqs[r].len() == weight(ids, st.reps, orig, r)
}

pub proof fn lemma_segment_ids(recs: Seq<RecordView>, n: nat)
    requires
        n <= recs.len(),
    ensures
        segment_ids_upto(recs, n).no_duplicates(),
        segment_ids_upto(recs, n).to_set() == segment_seqs_upto(recs, n).dom(),
    decreases n,
{
    if n > 0 {
        lemma_segment_ids(recs, (n - 1) as nat);
        let prev = segment_ids_upto(recs, (n - 1) as nat);
        match recs[n - 1] {
            RecordView::Segment { id, .. } => {
                if !segment_seqs_upto(recs, (n - 1) as nat).contains_key(id) {
                    prev.lemma_push_to_set_commute(id);
                }
                assert(segment_ids_upto(recs, n).to_set() =~= segment_seqs_upto(recs, n).dom());
            },
            _ => {},
        }
    } else {
        assert(segment_ids_upto(recs, n).to_set() =~= segment_seqs_upto(recs, n).dom());
    }
}

proof fn lemma_weight_identity(ids: Seq<u32>, reps: Map<u32, u32>, orig: Map<u32, Seq<u8>>, r: u32)
    requires
        ids.no_duplicates(),
        forall|i: int| 0 <= i < ids.len() ==> reps[#[trigger] ids[i]] == ids[i],
    ensures
        weight(ids, reps, orig, r) == if ids.contains(r) {
            orig[r].len() as int
        } else {
            0
        },
    decreases ids.len(),
{
    if ids.len() > 0 {
        let prev = ids.drop_last();
        assert forall|i: int| 0 <= i < prev.len() implies reps[#[trigger] prev[i]] == prev[i] by {
            assert(prev[i] == ids[i]);
        }
        lemma_weight_identity(prev, reps, orig, r);
        assert(ids == prev.push(ids.last()));
        if ids.last() == r {
            assert(!prev.contains(r));
        } else {
            assert(ids.contains(r) == prev.contains(r));
        }
    }
}

proof fn lemma_weight_merge(
    ids: Seq<u32>,
    reps: Map<u32, u32>,
    reps2: Map<u32, u32>,
    orig: Map<u32, Seq<u8>>,
    s: u32,
    t: u32,
    r: u32,
)
    requires
        s != t,
        forall|i: int| 0 <= i < ids.len() ==> reps.contains_key(#[trigger] ids[i]),
        forall|y: u32| #[trigger]
            reps.contains_key(y) ==> reps2[y] == if reps[y] == t {
                s
            } else {
                reps[y]
            },
    ensures
        r == s ==> weight(ids, reps2, orig, r) == weight(ids, reps, orig, s) + weight(
            ids,
            reps,
            orig,
            t,
        ),
        r != s && r != t ==> weight(ids, reps2, orig, r) == weight(ids, reps, orig, r),
    decreases ids.len(),
{
    if ids.len() > 0 {
        let prev = ids.drop_last();
        assert forall|i: int| 0 <= i < prev.len() implies reps.contains_key(#[trigger] prev[i]) by {
            assert(prev[i] == ids[i]);
        }
        assert(reps.contains_key(ids[ids.len() - 1]));
        lemma_weight_merge(prev, reps, reps2, orig, s, t, r);
    }
}

pub proof fn lemma_initial_ok(recs: Seq<RecordView>)
    ensures
        state_ok(initial_state(recs), segment_ids(recs), segment_seqs(recs)),
{
    let st = initial_state(recs);
    let ids = segment_ids(recs);
    lemma_segment_ids(recs, recs.len());
    assert(st.reps.dom() =~= ids.to_set());
    assert forall|i: int| 0 <= i < ids.len() implies st.reps[#[trigger] ids[i]] == ids[i] by {
        assert(ids.to_set().contains(ids[i]));
    }
    assert forall|r: u32| #[trigger] st.seqs.contains_key(r) implies st.seqs[r].len() == weight(
        ids,
        st.reps,
        segment_seqs(recs),
        r,
    ) by {
        lemma_weight_identity(ids, st.reps, segment_seqs(recs), r);
        assert(ids.to_set().contains(r));
    }
}

proof fn lemma_merge_ok(st: ContractionView, c: (u32, u32), ids: Seq<u32>, orig: Map<u32, Seq<u8>>)
    requires
        state_ok(st, ids, orig),
    ensures
        state_ok(merge_pair(st, c), ids, orig),
{
    let st2 = merge_pair(st, c);
    if st.reps.contains_key(c.0) && st.reps.contains_key(c.1) && st.reps[c.0] != st.reps[c.1] {
        let ru = st.reps[c.0];
        let rv = st.reps[c.1];
        let s = if ru < rv {
            ru
        } else {
            rv
        };
        let t = if ru < rv {
            rv
        } else {
            ru
        };
        assert(st2.reps.dom() =~= st.reps.dom());
        assert(st.seqs.contains_key(ru) && st.seqs.contains_key(rv));
        assert forall|i: int| 0 <= i < ids.len() implies st.reps.contains_key(#[trigger] ids[i]) by {
            assert(ids.to_set().contains(ids[i]));
        }
        assert forall|r: u32| #[trigger] st2.seqs.contains_key(r) implies st2.seqs[r].len()
            == weight(ids, st2.reps, orig, r) by {
            lemma_weight_merge(ids, st.reps, st2.reps, orig, s, t, r);
        }
        assert forall|y: u32| #[trigger] st2.seqs.contains_key(y) <==> st2.reps.contains_key(y)
            && st2.reps[y] == y by {
            if st2.reps.contains_key(y) && st2.reps[y] == y {
                assert(st.reps[st.reps[y]] == st.reps[y]);
            }
        }
    }
}

pub proof fn lemma_contract_ok(
    st: ContractionView,
    cands: Seq<(u32, u32)>,
    n: nat,
    ids: Seq<u32>,
    orig: Map<u32, Seq<u8>>,
)
    requires
        state_ok(st, ids, orig),
    ensures
        state_ok(contract_upto(st, cands, n), ids, orig),
    decreases n,
{
    if n > 0 && n <= cands.len() {
        lemma_contract_ok(st, cands, (n - 1) as nat, ids, orig);
        lemma_merge_ok(contract_upto(st, cands, (n - 1) as nat), cands[n - 1], ids, orig);
    }
}

/// The merged sequence of each surviving node is as long as the sequences of
/// all the segments that it represents, together: contraction neither loses
/// nor duplicates sequence.
pub proof fn lemma_conservation(recs: Seq<RecordView>, cands: Seq<(u32, u32)>, r: u32)
    requires
        contract_upto(initial_state(recs), cands, cands.len()).seqs.contains_key(r),
    ensures
        ({
            let fin = contract_upto(initial_state(recs), cands, cands.len());
            fin.reps.contains_key(r) && fin.reps[r] == r && fin.seqs[r].len() == weight(
                segment_ids(recs),
                fin.reps,
                segment_seqs(recs),
                r,
            )
        }),
{
    lemma_initial_ok(recs);
    lemma_contract_ok(
        initial_state(recs),
        cands,
        cands.len(),
        segment_ids(recs),
        segment_seqs(recs),
    );
}

/// The exec state of a contraction: a mapping that resolves each segment id to
/// its representative, the sequence of each representative, and the segment ids
/// in order of first appearance.
pub struct Contraction {
    pub mapping: Mapping,
    pub sequences: HashMap<u32, Vec<u8>>,
    pub ids: Vec<u32>,
}

impl View for Contraction {
    type V = ContractionView;

    open spec fn view(&self) -> ContractionView {
        ContractionView {
            reps: Map::new(
                |y: u32| self.mapping.parent@.contains_key(y),
                |y: u32| self.mapping.rep(y),
            ),
            seqs: self.sequences@.map_values(|v: Vec<u8>| v@),
        }
    }
}

impl Contraction {
    pub open spec fn wf(&self) -> bool {
        &&& self.mapping.wf()
        &&& self.mapping.parent@.dom() == self.ids@.to_set()
        &&& forall|y: u32| #[trigger]
            self.sequences@.contains_key(y) <==> self.mapping.parent@.contains_key(y)
                && self.mapping.rep(y) == y
    }

    /// Collects the segments: each id represents itself and carries its sequence.
    pub fn load_segments(records: &Vec<Record>) -> (c: Contraction)
        ensures
            c.wf(),
            c@ == initial_state(views(records@)),
            c.ids@ == segment_ids(views(records@)),
    {
        let ghost recs = views(records@);
        let mut c = Contraction { mapping: Mapping::new(), sequences: HashMap::new(), ids: Vec::new() };
        let mut i: usize = 0;
        proof {
            assert(c.sequences@.map_values(|v: Vec<u8>| v@) =~= Map::empty());
        }
        while i < records.len()
            invariant
                i <= records.len(),
                recs == views(records@),
                c.mapping.wf(),
                c.ids@ == segment_ids_upto(recs, i as nat),
                c.sequences@.map_values(|v: Vec<u8>| v@) == segment_seqs_upto(recs, i as nat),
                c.mapping.parent@.dom() == c.sequences@.dom(),
                forall|y: u32| #[trigger]
                    c.mapping.parent@.contains_key(y) ==> c.mapping.rep(y) == y,
            decreases records.len() - i,
        {
            match &records[i] {
                Record::Segment { id, sequence, .. } => {
                    let ghost before = c.sequences@;
                    if !c.sequences.contains_key(id) {
                        c.ids.push(*id);
                    }
                    let copy = copy_bytes(sequence);
                    c.sequences.insert(*id, copy);
                    c.mapping.observe(*id);
                    proof {
                        assert(c.sequences@.map_values(|v: Vec<u8>| v@) =~= segment_seqs_upto(
                            recs,
                            (i + 1) as nat,
                        ));
                        assert(c.mapping.parent@.dom() =~= c.sequences@.dom());
                    }
                },
                _ => {},
            }
            i += 1;
        }
        proof {
            lemma_segment_ids(recs, recs.len());
            assert(c@.reps =~= initial_state(recs).reps);
            assert(c.mapping.parent@.dom() =~= c.ids@.to_set());
        }
        c
    }

    /// Contracts one candidate pair, given in the order of the forward strand.
    pub fn merge_candidate(&mut self, c: (u32, u32))
        requires
            old(self).wf(),
        ensures
            final(self).wf(),
            final(self).ids == old(self).ids,
            final(self)@ == merge_pair(old(self)@, c),
    {
        let (u, v) = c;
        if !self.mapping.parent.contains_key(&u) || !self.mapping.parent.contains_key(&v) {
            return;
        }
        let ghost mp0 = self.mapping;
        let ghost st = self@;
        let ru = self.mapping.resolve(u);
        let ghost mp1 = self.mapping;
        let rv = self.mapping.resolve(v);
        proof {
            assert(mp1.parent@.contains_key(ru));
            assert(self.mapping.parent@.contains_key(rv));
            assert(self.mapping.rep(ru) == mp1.rep(ru));
            assert(mp0.rep(ru) == ru);
            assert(mp0.rep(rv) == rv);
            assert(self.sequences@.contains_key(ru));
            assert(self.sequences@.contains_key(rv));
            assert(self@.reps =~= st.reps);
        }
        if ru == rv {
            return;
        }
        let (s, t) = if ru < rv {
            (ru, rv)
        } else {
            (rv, ru)
        };
        let mut first = self.sequences.remove(&ru).unwrap();
        let mut second = self.sequences.remove(&rv).unwrap();
        first.append(&mut second);
        self.mapping.union_roots(s, t);
        self.sequences.insert(s, first);
        proof {
            let post = merge_pair(st, c);
            assert(self@.reps =~= post.reps);
            assert(self@.seqs =~= post.seqs);
        }
    }

    /// Contracts every candidate pair, in order.
    pub fn contract(records: &Vec<Record>, cands: &Vec<(u32, u32)>) -> (c: Contraction)
        ensures
            c.wf(),
            c@ == contract_upto(initial_state(views(records@)), cands@, cands@.len()),
            c.ids@ == segment_ids(views(records@)),
    {
        let mut c = Contraction::load_segments(records);
        let mut i: usize = 0;
        while i < cands.len()
            invariant
                i <= cands.len(),
                c.wf(),
                c@ == contract_upto(initial_state(views(records@)), cands@, i as nat),
                c.ids@ == segment_ids(views(records@)),
            decreases cands.len() - i,
        {
            c.merge_candidate(cands[i]);
            i += 1;
        }
        c
    }

    /// The representative of every segment id, each resolved to its fixed point.
    pub fn representatives(&mut self) -> (reps: HashMap<u32, u32>)
        requires
            old(self).wf(),
        ensures
            final(self).wf(),
            final(self)@ == old(self)@,
            final(self).ids == old(self).ids,
            reps@ == old(self)@.reps,
    {
        let ghost st = self@;
        let mut reps: HashMap<u32, u32> = HashMap::new();
        let mut i: usize = 0;
        while i < self.ids.len()
            invariant
                i <= self.ids.len(),
                self.wf(),
                self@ == st,
                self.ids == old(self).ids,
                reps@.dom() == self.ids@.subrange(0, i as int).to_set(),
                forall|y: u32| #[trigger] reps@.contains_key(y) ==> reps@[y] == st.reps[y],
            decreases self.ids.len() - i,
        {
            let id = self.ids[i];
            let ghost before = self@;
            proof {
                assert(self.ids@.to_set().contains(id));
            }
            let r = self.mapping.resolve(id);
            proof {
                assert(self@.reps =~= before.reps);
            }
            reps.insert(id, r);
            proof {
                self.ids@.subrange(0, i as int).lemma_push_to_set_commute(id);
                assert(self.ids@.subrange(0, i + 1) =~= self.ids@.subrange(0, i as int).push(id));
            }
            i += 1;
        }
        proof {
            assert(self.ids@.subrange(0, self.ids@.len() as int) =~= self.ids@);
            assert(reps@ =~= st.reps);
        }
        reps
    }
}

} // verus!
