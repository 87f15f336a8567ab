//! The offset tree behind the conversion to reference-annotated graphs: each
//! node remembers the path it was first met on, its length and its offset.
use crate::graph::copy_bytes;
use crate::graph::{views, GfaError, Record, RecordView, SignedRef};
use crate::index_gfa_file::lengths_upto;
use crate::text::{decimal, push_all, push_byte, push_decimal, render, write_record};
use std::collections::HashMap;
use vstd::prelude::*;

verus! {

broadcast use vstd::std_specs::hash::group_hash_axioms;

/// A path, by name and by rank (zero for the reference).
#[derive(Clone, Debug)]
pub struct Path {
    pub name: Vec<u8>,
    pub index: i32,
}

/// A node of the tree: its id, the path that placed it, its length, its offset
/// on that path, and the ids of its children.
#[derive(Clone, Debug)]
pub struct Node {
    pub id: i32,
    pub path: Path,
    pub length: i32,
    pub offset: i32,
    pub children: Vec<i32>,
}

/// The nodes of the tree, by id.
pub struct Tree {
    pub nodes: HashMap<i32, Node>,
}

impl Path {
    pub fn new(name: Vec<u8>, index: i32) -> (p: Path)
        ensures
            p.name@ == name@,
            p.index == index,
    {
        Path { name, index }
    }

    pub fn get_name(&self) -> (r: &Vec<u8>)
        ensures
            r@ == self.name@,
    {
        &self.name
    }

    pub fn get_index(&self) -> (r: i32)
        ensures
            r == self.index,
    {
        self.index
    }
}

impl Node {
    /// A node without children.
    pub fn new(id: i32, path: Path, length: i32, offset: i32) -> (n: Node)
        ensures
            n.id == id,
            n.path == path,
            n.length == length,
            n.offset == offset,
            n.children@ == Seq::<i32>::empty(),
    {
        Node { id, path, length, offset, children: Vec::new() }
    }

    pub fn get_path(&self) -> (r: &Path)
        ensures
            *r == self.path,
    {
        &self.path
    }

    pub fn get_offset(&self) -> (r: i32)
        ensures
            r == self.offset,
    {
        self.offset
    }
}

impl Tree {
    /// An empty tree.
    pub fn new() -> (t: Tree)
        ensures
            t.nodes@ == Map::<i32, Node>::empty(),
    {
        Tree { nodes: HashMap::new() }
    }

    /// Places a node without children; a node of the same id is replaced.
    pub fn add_node(&mut self, id: i32, path: Path, length: i32, offset: i32)
        ensures
            final(self).nodes@.dom() == old(self).nodes@.dom().insert(id),
            forall|k: i32| k != id && #[trigger] old(self).nodes@.contains_key(k)
                ==> final(self).nodes@[k] == old(self).nodes@[k],
            final(self).nodes@[id].id == id,
            final(self).nodes@[id].path == path,
            final(self).nodes@[id].length == length,
            final(self).nodes@[id].offset == offset,
            final(self).nodes@[id].children@ == Seq::<i32>::empty(),
    {
        self.nodes.insert(id, Node::new(id, path, length, offset));
    }

    /// Appends `child_id` to the children of the node `parent_id`.
    pub fn add_child(&mut self, parent_id: i32, child_id: i32)
        requires
            old(self).nodes@.contains_key(parent_id),
        ensures
            final(self).nodes@.dom() == old(self).nodes@.dom(),
            forall|k: i32| k != parent_id && #[trigger] old(self).nodes@.contains_key(k)
                ==> final(self).nodes@[k] == old(self).nodes@[k],
            final(self).nodes@[parent_id].id == old(self).nodes@[parent_id].id,
            final(self).nodes@[parent_id].path == old(self).nodes@[parent_id].path,
            final(self).nodes@[parent_id].length == old(self).nodes@[parent_id].length,
            final(self).nodes@[parent_id].offset == old(self).nodes@[parent_id].offset,
            final(self).nodes@[parent_id].children@ == old(self).nodes@[parent_id].children@.push(
                child_id,
            ),
    {
        let mut node = self.nodes.remove(&parent_id).unwrap();
        node.children.push(child_id);
        self.nodes.insert(parent_id, node);
        assert(self.nodes@.dom() =~= old(self).nodes@.dom());
    }

    /// The node of id `id`.
    pub fn get_node(&self, id: i32) -> (r: &Node)
        requires
            self.nodes@.contains_key(id),
        ensures
            *r == self.nodes@[id],
    {
        self.nodes.get(&id).unwrap()
    }
}

/// What a node of the tree holds.
pub ghost struct NodeView {
    pub id: i32,
    pub name: Seq<u8>,
    pub index: i32,
    pub length: i32,
    pub offset: i32,
    pub children: Seq<i32>,
}

pub open spec fn node_view(n: Node) -> NodeView {
    NodeView {
        id: n.id,
        name: n.path.name@,
        index: n.path.index,
        length: n.length,
        offset: n.offset,
        children: n.children@,
    }
}

impl Tree {
    pub open spec fn model(&self) -> Map<i32, NodeView> {
        self.nodes@.map_values(|n: Node| node_view(n))
    }
}

/// The tree after `parent` gains the child `id`.
pub open spec fn with_child(t: Map<i32, NodeView>, parent: Option<i32>, id: i32) -> Map<i32, NodeView> {
    match parent {
        Some(p) => t.insert(p, NodeView { children: t[p].children.push(id), ..t[p] }),
        None => t,
    }
}

/// The id of a step as a key of the tree, its length, or why it has none:
/// an id or a length beyond `i32`, or a node without a segment.
pub open spec fn step_length(s: SignedRef, lens: Map<u32, nat>) -> Result<i32, GfaError> {
    if s.id > i32::MAX {
        Err(GfaError::Overflow { node: s.id })
    } else if !lens.contains_key(s.id) {
        Err(GfaError::NotFound { node: s.id })
    } else if lens[s.id] > i32::MAX {
        Err(GfaError::Overflow { node: s.id })
    } else {
        Ok(lens[s.id] as i32)
    }
}

/// Walks the first `n` steps of the reference path: each node not yet in the
/// tree enters at the current offset, becomes the child of the node before it,
/// and the offset grows by its length.
pub open spec fn reference_walk(
    t: Map<i32, NodeView>,
    steps: Seq<SignedRef>,
    lens: Map<u32, nat>,
    name: Seq<u8>,
    n: nat,
) -> Result<(Map<i32, NodeView>, Option<i32>, int), GfaError>
    decreases n,
{
    if n == 0 || n > steps.len() {
        Ok((t, None, 0))
    } else {
        match reference_walk(t, steps, lens, name, (n - 1) as nat) {
            Err(e) => Err(e),
            Ok((t0, prev, off)) => match step_length(steps[n - 1], lens) {
                Err(e) => Err(e),
                Ok(len) => if off + len > i32::MAX {
                    Err(GfaError::Overflow { node: steps[n - 1].id })
                } else {
                    let id = steps[n - 1].id as i32;
                    let t1 = if t0.contains_key(id) {
                        t0
                    } else {
                        t0.insert(
                            id,
                            NodeView { id, name, index: 0, length: len, offset: off as i32, children: Seq::empty() },
                        )
                    };
                    Ok((with_child(t1, prev, id), Some(id), off + len))
                },
            },
        }
    }
}

/// Walks the first `n` steps of another path: a node not yet in the tree
/// enters only after a node of the tree, at the end of that node, and becomes
/// its child; the last node of the tree met is the parent of the next step.
pub open spec fn branch_walk(
    t: Map<i32, NodeView>,
    steps: Seq<SignedRef>,
    lens: Map<u32, nat>,
    name: Seq<u8>,
    index: i32,
    n: nat,
) -> Result<(Map<i32, NodeView>, Option<i32>), GfaError>
    decreases n,
{
    if n == 0 || n > steps.len() {
        Ok((t, None))
    } else {
        match branch_walk(t, steps, lens, name, index, (n - 1) as nat) {
            Err(e) => Err(e),
            Ok((t0, prev)) => match step_length(steps[n - 1], lens) {
                Err(e) => Err(e),
                Ok(len) => {
                    let id = steps[n - 1].id as i32;
                    if !t0.contains_key(id) && prev is Some && t0[prev->Some_0].offset
                        + t0[prev->Some_0].length > i32::MAX {
                        Err(GfaError::Overflow { node: steps[n - 1].id })
                    } else {
                        let t1 = if !t0.contains_key(id) && prev is Some {
                            t0.insert(
                                id,
                                NodeView {
                                    id,
                                    name,
                                    index,
                                    length: len,
                                    offset: (t0[prev->Some_0].offset + t0[prev->Some_0].length) as i32,
                                    children: Seq::empty(),
                                },
                            )
                        } else {
                            t0
                        };
                        let t2 = with_child(t1, prev, id);
                        Ok((t2, if t2.contains_key(id) { Some(id) } else { prev }))
                    }
                },
            },
        }
    }
}

/// Position of the last path named `name` among the first `n` records.
pub open spec fn last_path(recs: Seq<RecordView>, name: Seq<u8>, n: nat) -> Option<int>
    decreases n,
{
    if n == 0 || n > recs.len() {
        None
    } else if recs[n - 1] is Path && recs[n - 1]->Path_name == name {
        Some(n - 1)
    } else {
        last_path(recs, name, (n - 1) as nat)
    }
}

/// The tree after the other paths among the first `n` records, in order, each
/// ranked one more than the one before; and the next rank.
pub open spec fn branches_upto(
    recs: Seq<RecordView>,
    lens: Map<u32, nat>,
    reference: Seq<u8>,
    t: Map<i32, NodeView>,
    n: nat,
) -> Result<(Map<i32, NodeView>, int), GfaError>
    decreases n,
{
    if n == 0 || n > recs.len() {
        Ok((t, 1))
    } else {
        match branches_upto(recs, lens, reference, t, (n - 1) as nat) {
            Err(e) => Err(e),
            Ok((t0, k)) => match recs[n - 1] {
                RecordView::Path { name, steps, .. } => if name == reference {
                    Ok((t0, k))
                } else {
                    match branch_walk(t0, steps, lens, name, k as i32, steps.len()) {
                        Err(e) => Err(e),
                        Ok((t1, _)) => Ok((t1, k + 1)),
                    }
                },
                _ => Ok((t0, k)),
            },
        }
    }
}

/// The offset tree of a graph: the reference path (the last path of that
/// name) laid out from offset zero, then every other path in order.
pub open spec fn offset_tree(recs: Seq<RecordView>, reference: Seq<u8>) -> Result<Map<i32, NodeView>, GfaError> {
    let lens = lengths_upto(recs, recs.len());
    match last_path(recs, reference, recs.len()) {
        None => Err(GfaError::MissingPath { index: 0 }),
        Some(r) => match reference_walk(
            Map::empty(),
            recs[r]->Path_steps,
            lens,
            reference,
            recs[r]->Path_steps.len(),
        ) {
            Err(e) => Err(e),
            Ok((t, _, _)) => match branches_upto(recs, lens, reference, t, recs.len()) {
                Err(e) => Err(e),
                Ok((t1, _)) => Ok(t1),
            },
        },
    }
}

proof fn lemma_last_path(recs: Seq<RecordView>, name: Seq<u8>, n: nat)
    requires
        n <= recs.len(),
        last_path(recs, name, n) is Some,
    ensures
        0 <= last_path(recs, name, n)->Some_0 < n,
        recs[last_path(recs, name, n)->Some_0] is Path,
        recs[last_path(recs, name, n)->Some_0]->Path_name == name,
    decreases n,
{
    if n > 0 && !(recs[n - 1] is Path && recs[n - 1]->Path_name == name) {
        lemma_last_path(recs, name, (n - 1) as nat);
    }
}

proof fn lemma_reference_err(
    t: Map<i32, NodeView>,
    steps: Seq<SignedRef>,
    lens: Map<u32, nat>,
    name: Seq<u8>,
    m: nat,
)
    requires
        m <= steps.len(),
        reference_walk(t, steps, lens, name, m) is Err,
    ensures
        reference_walk(t, steps, lens, name, steps.len()) == reference_walk(t, steps, lens, name, m),
    decreases steps.len() - m,
{
    if m < steps.len() {
        lemma_reference_err(t, steps, lens, name, m + 1);
    }
}

proof fn lemma_branch_err(
    t: Map<i32, NodeView>,
    steps: Seq<SignedRef>,
    lens: Map<u32, nat>,
    name: Seq<u8>,
    index: i32,
    m: nat,
)
    requires
        m <= steps.len(),
        branch_walk(t, steps, lens, name, index, m) is Err,
    ensures
        branch_walk(t, steps, lens, name, index, steps.len()) == branch_walk(t, steps, lens, name, index, m),
    decreases steps.len() - m,
{
    if m < steps.len() {
        lemma_branch_err(t, steps, lens, name, index, m + 1);
    }
}

proof fn lemma_branches_err(
    recs: Seq<RecordView>,
    lens: Map<u32, nat>,
    reference: Seq<u8>,
    t: Map<i32, NodeView>,
    m: nat,
)
    requires
        m <= recs.len(),
        branches_upto(recs, lens, reference, t, m) is Err,
    ensures
        branches_upto(recs, lens, reference, t, recs.len()) == branches_upto(recs, lens, reference, t, m),
    decreases recs.len() - m,
{
    if m < recs.len() {
        lemma_branches_err(recs, lens, reference, t, m + 1);
    }
}

proof fn lemma_branches_rank(
    recs: Seq<RecordView>,
    lens: Map<u32, nat>,
    reference: Seq<u8>,
    t: Map<i32, NodeView>,
    m: nat,
)
    requires
        m <= recs.len(),
        branches_upto(recs, lens, reference, t, m) is Ok,
    ensures
        branches_upto(recs, lens, reference, t, m)->Ok_0.1 <= m + 1,
    decreases m,
{
    if m > 0 {
        lemma_branches_rank(recs, lens, reference, t, (m - 1) as nat);
    }
}

/// Places a node in the tree, as `Tree::add_node` does, in terms of the model.
fn place(tree: &mut Tree, id: i32, name: &Vec<u8>, index: i32, length: i32, offset: i32)
    requires
        !old(tree).model().contains_key(id),
    ensures
        final(tree).model() == old(tree).model().insert(
            id,
            NodeView { id, name: name@, index, length, offset, children: Seq::empty() },
        ),
{
    tree.add_node(id, Path::new(copy_bytes(name), index), length, offset);
    assert(tree.model() =~= old(tree).model().insert(
        id,
        NodeView { id, name: name@, index, length, offset, children: Seq::empty() },
    ));
}

/// Appends a child, as `Tree::add_child` does, in terms of the model.
fn link_child(tree: &mut Tree, parent: Option<i32>, id: i32)
    requires
        parent is Some ==> old(tree).model().contains_key(parent->Some_0),
    ensures
        final(tree).model() == with_child(old(tree).model(), parent, id),
{
    if let Some(p) = parent {
        tree.add_child(p, id);
        assert(tree.model() =~= with_child(old(tree).model(), parent, id));
    }
}

fn tree_contains(tree: &Tree, id: i32) -> (b: bool)
    ensures
        b == tree.model().contains_key(id),
{
    tree.nodes.contains_key(&id)
}

fn length_of(s: SignedRef, lens: &HashMap<u32, usize>) -> (r: Result<i32, GfaError>)
    ensures
        r == step_length(s, lens@.map_values(|l: usize| l as nat)),
{
    if s.id > 2147483647 {
        return Err(GfaError::Overflow { node: s.id });
    }
    match lens.get(&s.id) {
        None => Err(GfaError::NotFound { node: s.id }),
        Some(l) => if *l > 2147483647 {
            Err(GfaError::Overflow { node: s.id })
        } else {
            Ok(*l as i32)
        },
    }
}

fn walk_reference(tree: &mut Tree, steps: &Vec<SignedRef>, lens: &HashMap<u32, usize>, name: &Vec<u8>) -> (r:
    Result<(), GfaError>)
    requires
        forall|k: i32| #[trigger] old(tree).model().contains_key(k) ==> old(tree).model()[k].offset >= 0
            && old(tree).model()[k].length >= 0,
    ensures
        match r {
            Ok(()) => reference_walk(
                old(tree).model(),
                steps@,
                lens@.map_values(|l: usize| l as nat),
                name@,
                steps@.len(),
            ) is Ok && final(tree).model() == reference_walk(
                old(tree).model(),
                steps@,
                lens@.map_values(|l: usize| l as nat),
                name@,
                steps@.len(),
            )->Ok_0.0,
            Err(e) => reference_walk(
                old(tree).model(),
                steps@,
                lens@.map_values(|l: usize| l as nat),
                name@,
                steps@.len(),
            ) == Err::<(Map<i32, NodeView>, Option<i32>, int), GfaError>(e),
        },
        forall|k: i32| #[trigger] final(tree).model().contains_key(k) ==> final(tree).model()[k].offset >= 0
            && final(tree).model()[k].length >= 0,
{
    let ghost t = tree.model();
    let ghost lv = lens@.map_values(|l: usize| l as nat);
    let mut prev: Option<i32> = None;
    let mut off: i32 = 0;
    let mut j: usize = 0;
    while j < steps.len()
        invariant
            j <= steps.len(),
            t == old(tree).model(),
            lv == lens@.map_values(|l: usize| l as nat),
            reference_walk(t, steps@, lv, name@, j as nat) == Ok::<
                (Map<i32, NodeView>, Option<i32>, int),
                GfaError,
            >((tree.model(), prev, off as int)),
            prev is Some ==> tree.model().contains_key(prev->Some_0),
            off >= 0,
            forall|k: i32| #[trigger] tree.model().contains_key(k) ==> tree.model()[k].offset >= 0
                && tree.model()[k].length >= 0,
        decreases steps.len() - j,
    {
        let s = steps[j];
        let len = match length_of(s, lens) {
            Err(e) => {
                proof {
                    lemma_reference_err(t, steps@, lv, name@, (j + 1) as nat);
                }
                return Err(e);
            },
            Ok(len) => len,
        };
        if off as i64 + len as i64 > 2147483647 {
            proof {
                lemma_reference_err(t, steps@, lv, name@, (j + 1) as nat);
            }
            return Err(GfaError::Overflow { node: s.id });
        }
        let id = s.id as i32;
        if !tree_contains(tree, id) {
            place(tree, id, name, 0, len, off);
        }
        link_child(tree, prev, id);
        prev = Some(id);
        off = off + len;
        j += 1;
    }
    Ok(())
}

fn walk_branch(
    tree: &mut Tree,
    steps: &Vec<SignedRef>,
    lens: &HashMap<u32, usize>,
    name: &Vec<u8>,
    index: i32,
) -> (r: Result<(), GfaError>)
    requires
        forall|k: i32| #[trigger] old(tree).model().contains_key(k) ==> old(tree).model()[k].offset >= 0
            && old(tree).model()[k].length >= 0,
    ensures
        forall|k: i32| #[trigger] final(tree).model().contains_key(k) ==> final(tree).model()[k].offset >= 0
            && final(tree).model()[k].length >= 0,
        match r {
            Ok(()) => branch_walk(
                old(tree).model(),
                steps@,
                lens@.map_values(|l: usize| l as nat),
                name@,
                index,
                steps@.len(),
            ) is Ok && final(tree).model() == branch_walk(
                old(tree).model(),
                steps@,
                lens@.map_values(|l: usize| l as nat),
                name@,
                index,
                steps@.len(),
            )->Ok_0.0,
            Err(e) => branch_walk(
                old(tree).model(),
                steps@,
                lens@.map_values(|l: usize| l as nat),
                name@,
                index,
                steps@.len(),
            ) == Err::<(Map<i32, NodeView>, Option<i32>), GfaError>(e),
        },
{
    let ghost t = tree.model();
    let ghost lv = lens@.map_values(|l: usize| l as nat);
    let mut prev: Option<i32> = None;
    let mut j: usize = 0;
    while j < steps.len()
        invariant
            j <= steps.len(),
            t == old(tree).model(),
            lv == lens@.map_values(|l: usize| l as nat),
            branch_walk(t, steps@, lv, name@, index, j as nat) == Ok::<
                (Map<i32, NodeView>, Option<i32>),
                GfaError,
            >((tree.model(), prev)),
            prev is Some ==> tree.model().contains_key(prev->Some_0),
            forall|k: i32| #[trigger] tree.model().contains_key(k) ==> tree.model()[k].offset >= 0
                && tree.model()[k].length >= 0,
        decreases steps.len() - j,
    {
        let s = steps[j];
        let len = match length_of(s, lens) {
            Err(e) => {
                proof {
                    lemma_branch_err(t, steps@, lv, name@, index, (j + 1) as nat);
                }
                return Err(e);
            },
            Ok(len) => len,
        };
        let id = s.id as i32;
        let present = tree_contains(tree, id);
        if !present {
            if let Some(p) = prev {
                let parent = tree.get_node(p);
                assert(tree.model()[p] == node_view(*parent));
                let start = parent.offset as i64 + parent.length as i64;
                if start > 2147483647 {
                    proof {
                        lemma_branch_err(t, steps@, lv, name@, index, (j + 1) as nat);
                    }
                    return Err(GfaError::Overflow { node: s.id });
                }
                place(tree, id, name, index, len, start as i32);
            }
        }
        link_child(tree, prev, id);
        if tree_contains(tree, id) {
            prev = Some(id);
        }
        j += 1;
    }
    Ok(())
}

/// Builds the offset tree: the reference path (the last path of that name) is
/// laid out from offset zero and ranked zero; every other path follows in the
/// order of the records, ranked 1, 2, ...; a node off the reference enters the
/// tree after a node of the tree, at the end of that node. A missing reference
/// path, a step on a node without a segment, and an id, length or offset beyond
/// 32 bits are errors.
pub fn build_offset_tree(records: &Vec<Record>, reference: &Vec<u8>) -> (r: Result<Tree, GfaError>)
    requires
        records.len() < i32::MAX,
    ensures
        match r {
            Ok(t) => offset_tree(views(records@), reference@) == Ok::<Map<i32, NodeView>, GfaError>(
                t.model(),
            ),
            Err(e) => offset_tree(views(records@), reference@) == Err::<Map<i32, NodeView>, GfaError>(e),
        },
{
    let ghost recs = views(records@);
    // segment lengths, and the last reference path
    let mut lens: HashMap<u32, usize> = HashMap::new();
    let mut found: Option<usize> = None;
    let mut n: usize = 0;
    assert(lens@.map_values(|l: usize| l as nat) =~= lengths_upto(recs, 0));
    while n < records.len()
        invariant
            n <= records.len(),
            recs == views(records@),
            lens@.map_values(|l: usize| l as nat) == lengths_upto(recs, n as nat),
            match found {
                Some(x) => last_path(recs, reference@, n as nat) == Some(x as int),
                None => last_path(recs, reference@, n as nat).is_none(),
            },
        decreases records.len() - n,
    {
        assert(recs[n as int] == records@[n as int]@);
        match &records[n] {
            Record::Segment { id, sequence, .. } => {
                lens.insert(*id, sequence.len());
                assert(lens@.map_values(|l: usize| l as nat) =~= lengths_upto(recs, (n + 1) as nat));
            },
            Record::Path { name, .. } => {
                if crate::graph::bytes_equal(name, reference) {
                    found = Some(n);
                }
            },
            _ => {},
        }
        n += 1;
    }
    assert(recs.len() == records@.len());
    let ghost lv = lens@.map_values(|l: usize| l as nat);
    let r = match found {
        None => return Err(GfaError::MissingPath { index: 0 }),
        Some(r) => r,
    };
    proof {
        lemma_last_path(recs, reference@, recs.len());
    }
    let mut tree = Tree::new();
    assert(tree.model() =~= Map::empty());
    assert(recs[r as int] == records@[r as int]@);
    match &records[r] {
        Record::Path { steps, .. } => {
            match walk_reference(&mut tree, steps, &lens, reference) {
                Ok(()) => {},
                Err(e) => return Err(e),
            }
        },
        _ => {
            return Err(GfaError::MissingPath { index: 0 });
        },
    }
    let ghost t0 = tree.model();
    let mut k: i32 = 1;
    let mut n: usize = 0;
    while n < records.len()
        invariant
            n <= records.len() < i32::MAX,
            recs == views(records@),
            recs.len() == records@.len(),
            lv == lens@.map_values(|l: usize| l as nat),
            lv == lengths_upto(recs, recs.len()),
            last_path(recs, reference@, recs.len()) == Some(r as int),
            recs[r as int] is Path,
            reference_walk(
                Map::empty(),
                recs[r as int]->Path_steps,
                lv,
                reference@,
                recs[r as int]->Path_steps.len(),
            ) is Ok,
            reference_walk(
                Map::empty(),
                recs[r as int]->Path_steps,
                lv,
                reference@,
                recs[r as int]->Path_steps.len(),
            )->Ok_0.0 == t0,
            branches_upto(recs, lv, reference@, t0, n as nat) == Ok::<(Map<i32, NodeView>, int), GfaError>(
                (tree.model(), k as int),
            ),
            forall|x: i32| #[trigger] tree.model().contains_key(x) ==> tree.model()[x].offset >= 0
                && tree.model()[x].length >= 0,
        decreases records.len() - n,
    {
        proof {
            lemma_branches_rank(recs, lv, reference@, t0, n as nat);
        }
        assert(recs[n as int] == records@[n as int]@);
        match &records[n] {
            Record::Path { name, steps, .. } => {
                if !crate::graph::bytes_equal(name, reference) {
                    match walk_branch(&mut tree, steps, &lens, name, k) {
                        Ok(()) => {},
                        Err(e) => {
                            proof {
                                assert(branches_upto(recs, lv, reference@, t0, (n + 1) as nat) == Err::<
                                    (Map<i32, NodeView>, int),
                                    GfaError,
                                >(e));
                                lemma_branches_err(recs, lv, reference@, t0, (n + 1) as nat);
                            }
                            return Err(e);
                        },
                    }
                    k = k + 1;
                }
            },
            _ => {},
        }
        n += 1;
    }
    Ok(tree)
}

/// The decimal digits of a signed number, after a minus sign if it is negative.
pub open spec fn signed_decimal(v: i32) -> Seq<u8> {
    if v < 0 {
        seq![45u8] + decimal((-v) as nat)
    } else {
        decimal(v as nat)
    }
}

/// What a record becomes in the reference-annotated output: a segment of the
/// tree gains its path name (`SN:Z:`), offset (`SO:i:`) and rank (`SR:i:`); a
/// segment off the tree is written as it is; an edge line (first byte `E`) is
/// kept; anything else is left out.
pub open spec fn rgfa_line(r: RecordView, t: Map<i32, NodeView>) -> Option<Seq<u8>> {
    match r {
        RecordView::Segment { id, .. } => if id <= i32::MAX && t.contains_key(id as i32) {
            Some(
                render(r) + seq![9u8, 83u8, 78u8, 58u8, 90u8, 58u8] + t[id as i32].name + seq![
                    9u8,
                    83u8,
                    79u8,
                    58u8,
                    105u8,
                    58u8,
                ] + signed_decimal(t[id as i32].offset) + seq![9u8, 83u8, 82u8, 58u8, 105u8, 58u8]
                    + signed_decimal(t[id as i32].index),
            )
        } else {
            Some(render(r))
        },
        RecordView::Other { line } => if line.len() > 0 && line[0] == 69u8 {
            Some(line)
        } else {
            None
        },
        _ => None,
    }
}

/// The annotated lines of the first `n` records, each followed by a line break.
pub open spec fn rgfa_text(recs: Seq<RecordView>, t: Map<i32, NodeView>, n: nat) -> Seq<u8>
    decreases n,
{
    if n == 0 || n > recs.len() {
        Seq::empty()
    } else {
        match rgfa_line(recs[n - 1], t) {
            Some(l) => rgfa_text(recs, t, (n - 1) as nat) + l + seq![10u8],
            None => rgfa_text(recs, t, (n - 1) as nat),
        }
    }
}

fn push_signed(out: &mut Vec<u8>, v: i32)
    ensures
        final(out)@ == old(out)@ + signed_decimal(v),
{
    if v < 0 {
        push_byte(out, 45u8);
        let m = (-(v as i64)) as u32;
        push_decimal(out, m);
        assert(out@ =~= old(out)@ + signed_decimal(v));
    } else {
        push_decimal(out, v as u32);
    }
}

fn push_bytes6(out: &mut Vec<u8>, a: u8, b: u8, c: u8, d: u8, e: u8, f: u8)
    ensures
        final(out)@ == old(out)@ + seq![a, b, c, d, e, f],
{
    push_byte(out, a);
    push_byte(out, b);
    push_byte(out, c);
    push_byte(out, d);
    push_byte(out, e);
    push_byte(out, f);
    assert(out@ =~= old(out)@ + seq![a, b, c, d, e, f]);
}

/// The reference-annotated graph: the offset tree is built as
/// `build_offset_tree` does, then every segment line is written with the path,
/// offset and rank of its node when the tree holds it, edge lines are kept,
/// and other lines are left out.
pub fn gfa_to_rgfa(records: &Vec<Record>, reference: &Vec<u8>) -> (r: Result<Vec<u8>, GfaError>)
    requires
        records.len() < i32::MAX,
    ensures
        match r {
            Ok(out) => offset_tree(views(records@), reference@) is Ok && out@ == rgfa_text(
                views(records@),
                offset_tree(views(records@), reference@)->Ok_0,
                records@.len(),
            ),
            Err(e) => offset_tree(views(records@), reference@) == Err::<Map<i32, NodeView>, GfaError>(e),
        },
{
    let tree = match build_offset_tree(records, reference) {
        Ok(t) => t,
        Err(e) => return Err(e),
    };
    let ghost recs = views(records@);
    let ghost t = tree.model();
    let mut out: Vec<u8> = Vec::new();
    let mut n: usize = 0;
    while n < records.len()
        invariant
            n <= records.len(),
            recs == views(records@),
            t == tree.model(),
            out@ == rgfa_text(recs, t, n as nat),
        decreases records.len() - n,
    {
        let rec = &records[n];
        assert(recs[n as int] == rec@);
        let ghost before = out@;
        match rec {
            Record::Segment { id, .. } => {
                write_record(&mut out, rec);
                if *id <= 2147483647 {
                    let key = *id as i32;
                    if let Some(node) = tree.nodes.get(&key) {
                        assert(t[key] == node_view(*node));
                        push_bytes6(&mut out, 9u8, 83u8, 78u8, 58u8, 90u8, 58u8);
                        push_all(&mut out, &node.path.name);
                        push_bytes6(&mut out, 9u8, 83u8, 79u8, 58u8, 105u8, 58u8);
                        push_signed(&mut out, node.offset);
                        push_bytes6(&mut out, 9u8, 83u8, 82u8, 58u8, 105u8, 58u8);
                        push_signed(&mut out, node.path.index);
                    }
                }
                push_byte(&mut out, 10u8);
            },
            Record::Other { line } => {
                if line.len() > 0 && line[0] == 69u8 {
                    push_all(&mut out, line);
                    push_byte(&mut out, 10u8);
                }
            },
            _ => {},
        }
        assert(out@ =~= rgfa_text(recs, t, (n + 1) as nat));
        n += 1;
    }
    Ok(out)
}

} // verus!
