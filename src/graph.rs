//! Records of a sequence graph and the signed node references they carry.
use vstd::prelude::*;

verus! {

/// A node id together with the strand it is read on.
#[derive(Clone, Copy, Debug, PartialEq, Eq, Structural)]
pub struct SignedRef {
    pub id: u32,
    pub forward: bool,
}

/// One line of a graph file, by kind.
#[derive(Clone, Debug)]
pub enum Record {
    /// A node and its sequence.
    Segment { id: u32, sequence: Vec<u8>, tags: Vec<Vec<u8>> },
    /// A directed edge between two signed references, with its overlap field
    /// and any further fields.
    Link { from: SignedRef, to: SignedRef, overlap: Vec<u8>, tags: Vec<Vec<u8>> },
    /// A named traversal, with the fields after its steps (overlaps, tags).
    Path { name: Vec<u8>, steps: Vec<SignedRef>, rest: Vec<Vec<u8>> },
    /// A traversal of one haplotype, in run-length form.
    Walk {
        sample: Vec<u8>,
        hap_index: Vec<u8>,
        seq_id: Vec<u8>,
        start: Vec<u8>,
        end: Vec<u8>,
        steps: Vec<SignedRef>,
        tags: Vec<Vec<u8>>,
    },
    /// Any other line, kept as it is.
    Other { line: Vec<u8> },
}

/// A record with its byte fields seen as sequences.
pub ghost enum RecordView {
    Segment { id: u32, sequence: Seq<u8>, tags: Seq<Seq<u8>> },
    Link { from: SignedRef, to: SignedRef, overlap: Seq<u8>, tags: Seq<Seq<u8>> },
    Path { name: Seq<u8>, steps: Seq<SignedRef>, rest: Seq<Seq<u8>> },
    Walk {
        sample: Seq<u8>,
        hap_index: Seq<u8>,
        seq_id: Seq<u8>,
        start: Seq<u8>,
        end: Seq<u8>,
        steps: Seq<SignedRef>,
        tags: Seq<Seq<u8>>,
    },
    Other { line: Seq<u8> },
}

impl View for Record {
    type V = RecordView;

    open spec fn view(&self) -> RecordView {
        match self {
            Record::Segment { id, sequence, tags } => RecordView::Segment {
                id: *id,
                sequence: sequence@,
                tags: fields_view(tags@),
            },
            Record::Link { from, to, overlap, tags } => RecordView::Link {
                from: *from,
                to: *to,
                overlap: overlap@,
                tags: fields_view(tags@),
            },
            Record::Path { name, steps, rest } => RecordView::Path {
                name: name@,
                steps: steps@,
                rest: fields_view(rest@),
            },
            Record::Walk { sample, hap_index, seq_id, start, end, steps, tags } => RecordView::Walk {
                sample: sample@,
                hap_index: hap_index@,
                seq_id: seq_id@,
                start: start@,
                end: end@,
                steps: steps@,
                tags: fields_view(tags@),
            },
            Record::Other { line } => RecordView::Other { line: line@ },
        }
    }
}

/// The views of a list of byte fields.
pub open spec fn fields_view(v: Seq<Vec<u8>>) -> Seq<Seq<u8>> {
    v.map_values(|x: Vec<u8>| x@)
}

/// The views of a list of records.
pub open spec fn views(recs: Seq<Record>) -> Seq<RecordView> {
    recs.map_values(|r: Record| r@)
}

/// Errors of the graph tools.
#[derive(Clone, Copy, Debug, PartialEq, Eq, Structural)]
pub enum GfaError {
    /// A field could not be read, a column is missing, or the kind is unknown.
    Format { line: usize },
    /// A lookup on an id that the state does not hold.
    NotFound { node: u32 },
    /// Following the mapping from a node revisits a node before a fixed point.
    Cycle { node: u32 },
    /// The path named at this position of a request is not in the graph.
    MissingPath { index: usize },
    /// The path on this line has no new name.
    NoNewName { line: usize },
    /// An id, a length or an offset of this node does not fit in 32 bits.
    Overflow { node: u32 },
}

/// Key of a signed reference in the adjacency model: twice the id, plus one on
/// the reverse strand.
pub open spec fn key_of(r: SignedRef) -> u64 {
    if r.forward {
        (2 * r.id) as u64
    } else {
        (2 * r.id + 1) as u64
    }
}

/// The same node read on the other strand.
pub open spec fn flip(k: u64) -> u64 {
    if k % 2 == 0 {
        (k + 1) as u64
    } else {
        (k - 1) as u64
    }
}

/// The node id of a key.
pub open spec fn node_of(k: u64) -> u32 {
    (k / 2) as u32
}

/// Whether a key reads its node on the forward strand.
pub open spec fn is_forward(k: u64) -> bool {
    k % 2 == 0
}

/// Key of a signed reference.
pub fn signed_key(r: SignedRef) -> (k: u64)
    ensures
        k == key_of(r),
{
    if r.forward {
        2 * (r.id as u64)
    } else {
        2 * (r.id as u64) + 1
    }
}

/// The key of the reverse complement.
pub fn flip_key(k: u64) -> (r: u64)
    ensures
        r == flip(k),
{
    if k % 2 == 0 {
        k + 1
    } else {
        k - 1
    }
}

/// A copy of a byte vector.
pub fn copy_bytes(v: &Vec<u8>) -> (r: Vec<u8>)
    ensures
        r@ == v@,
{
    let mut r: Vec<u8> = Vec::with_capacity(v.len());
    let mut i: usize = 0;
    while i < v.len()
        invariant
            i <= v.len(),
            r@ == v@.subrange(0, i as int),
        decreases v.len() - i,
    {
        r.push(v[i]);
        i += 1;
        assert(r@ =~= v@.subrange(0, i as int));
    }
    assert(r@ =~= v@);
    r
}

/// Whether two byte strings are equal.
pub fn bytes_equal(a: &Vec<u8>, b: &Vec<u8>) -> (r: bool)
    ensures
        r == (a@ == b@),
{
    if a.len() != b.len() {
        return false;
    }
    let mut i: usize = 0;
    while i < a.len()
        invariant
            i <= a.len() == b.len(),
            forall|j: int| 0 <= j < i ==> a@[j] == b@[j],
        decreases a.len() - i,
    {
        if a[i] != b[i] {
            return false;
        }
        i += 1;
    }
    assert(a@ =~= b@);
    true
}

/// Whether `name` is one of `sel`.
pub fn contains_name(sel: &Vec<Vec<u8>>, name: &Vec<u8>) -> (r: bool)
    ensures
        r == sel@.map_values(|v: Vec<u8>| v@).contains(name@),
{
    let ghost sv = sel@.map_values(|v: Vec<u8>| v@);
    let mut i: usize = 0;
    while i < sel.len()
        invariant
            i <= sel.len(),
            sv == sel@.map_values(|v: Vec<u8>| v@),
            forall|j: int| 0 <= j < i ==> sv[j] != name@,
        decreases sel.len() - i,
    {
        if bytes_equal(&sel[i], name) {
            assert(sv[i as int] == name@);
            return true;
        }
        i += 1;
    }
    false
}

/// A copy of a record.
pub fn copy_record(rec: &Record) -> (r: Record)
    ensures
        r@ == rec@,
{
    match rec {
        Record::Segment { id, sequence, tags } => Record::Segment {
            id: *id,
            sequence: copy_bytes(sequence),
            tags: copy_fields(tags),
        },
        Record::Link { from, to, overlap, tags } => Record::Link {
            from: *from,
            to: *to,
            overlap: copy_bytes(overlap),
            tags: copy_fields(tags),
        },
        Record::Path { name, steps, rest } => Record::Path {
            name: copy_bytes(name),
            steps: copy_steps(steps),
            rest: copy_fields(rest),
        },
        Record::Walk { sample, hap_index, seq_id, start, end, steps, tags } => Record::Walk {
            sample: copy_bytes(sample),
            hap_index: copy_bytes(hap_index),
            seq_id: copy_bytes(seq_id),
            start: copy_bytes(start),
            end: copy_bytes(end),
            steps: copy_steps(steps),
            tags: copy_fields(tags),
        },
        Record::Other { line } => Record::Other { line: copy_bytes(line) },
    }
}

/// A copy of a list of fields.
pub fn copy_fields(v: &Vec<Vec<u8>>) -> (r: Vec<Vec<u8>>)
    ensures
        fields_view(r@) == fields_view(v@),
{
    let r = crate::text::copy_fields_from(v, 0);
    assert(fields_view(v@).subrange(0, v@.len() as int) =~= fields_view(v@));
    r
}

fn copy_steps(steps: &Vec<SignedRef>) -> (s: Vec<SignedRef>)
    ensures
        s@ == steps@,
{
    let mut s: Vec<SignedRef> = Vec::new();
    let mut i: usize = 0;
    while i < steps.len()
        invariant
            i <= steps.len(),
            s@ == steps@.subrange(0, i as int),
        decreases steps.len() - i,
    {
        s.push(steps[i]);
        i += 1;
        assert(s@ =~= steps@.subrange(0, i as int));
    }
    assert(s@ =~= steps@);
    s
}

} // verus!
