use gfa_tools::converter::{build_offset_tree, gfa_to_rgfa, Node, Path, Tree};
use gfa_tools::graph::{GfaError, Record};
use gfa_tools::text::parse_graph;

fn records(text: &str) -> Vec<Record> {
    let lines: Vec<Vec<u8>> = text.lines().map(|l| l.as_bytes().to_vec()).collect();
    parse_graph(&lines).unwrap()
}

#[test]
fn tree_nodes_and_children() {
    let mut tree = Tree::new();
    let reference = Path::new(b"ref".to_vec(), 0);
    tree.add_node(1, reference.clone(), 4, 0);
    tree.add_node(2, reference, 3, 4);
    tree.add_child(1, 2);
    let node = tree.get_node(1);
    assert_eq!(node.children, vec![2]);
    assert_eq!(node.get_offset(), 0);
    assert_eq!(node.get_path().get_name(), &b"ref".to_vec());
    assert_eq!(tree.get_node(2).get_offset(), 4);
    assert_eq!(tree.get_node(2).get_path().get_index(), 0);
}

#[test]
fn node_starts_without_children() {
    let n = Node::new(7, Path::new(b"alt".to_vec(), 2), 5, 10);
    assert!(n.children.is_empty());
    assert_eq!(n.length, 5);
    assert_eq!(n.get_offset(), 10);
    assert_eq!(n.get_path().get_index(), 2);
}

#[test]
fn offsets_follow_reference_then_branches() {
    let g = records(
        "S\t1\tAAAA\nS\t2\tCC\nS\t3\tGGG\nS\t4\tT\nP\tref\t1+,2+,3+\t*\nP\talt\t1+,4+,3+\t*\nP\tlate\t5+\t*\nS\t5\tA\n",
    );
    let tree = build_offset_tree(&g, &b"ref".to_vec()).unwrap();
    assert_eq!(tree.nodes.len(), 4);
    assert_eq!(tree.get_node(1).get_offset(), 0);
    assert_eq!(tree.get_node(2).get_offset(), 4);
    assert_eq!(tree.get_node(3).get_offset(), 6);
    let branch = tree.get_node(4);
    assert_eq!(branch.get_offset(), 4);
    assert_eq!(branch.get_path().get_name(), &b"alt".to_vec());
    assert_eq!(branch.get_path().get_index(), 1);
    assert_eq!(tree.get_node(1).children, vec![2, 4]);
    assert_eq!(tree.get_node(4).children, vec![3]);
}

#[test]
fn offset_tree_needs_reference() {
    let g = records("S\t1\tA\nP\tx\t1+\t*\n");
    assert_eq!(build_offset_tree(&g, &b"ref".to_vec()).err(), Some(GfaError::MissingPath { index: 0 }));
    let g = records("S\t1\tA\nP\tref\t1+,2+\t*\n");
    assert_eq!(build_offset_tree(&g, &b"ref".to_vec()).err(), Some(GfaError::NotFound { node: 2 }));
}

#[test]
fn rgfa_annotates_segments_of_the_tree() {
    let g = records("H\tVN:Z:1.0\nS\t1\tAAAA\nS\t2\tCC\nS\t9\tT\nE\t*\t1+\t2+\nP\tref\t1+,2+\t*\n");
    let out = gfa_to_rgfa(&g, &b"ref".to_vec()).unwrap();
    assert_eq!(
        String::from_utf8(out).unwrap(),
        "S\t1\tAAAA\tSN:Z:ref\tSO:i:0\tSR:i:0\nS\t2\tCC\tSN:Z:ref\tSO:i:4\tSR:i:0\nS\t9\tT\nE\t*\t1+\t2+\n"
    );
    assert_eq!(gfa_to_rgfa(&g, &b"none".to_vec()).err(), Some(GfaError::MissingPath { index: 0 }));
}
