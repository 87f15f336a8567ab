use gfa_tools::anchor::anchor_nodes;
use gfa_tools::graph::{GfaError, Record};
use gfa_tools::index_gfa_file::{index_gfa, offset_gfa, parse_renames, rename_paths};
use gfa_tools::mask_paths::mask_paths;
use gfa_tools::optimize::{concat_graphs, relocate_ids};
use gfa_tools::sharepg::shared_nodes;
use gfa_tools::simplify_graph::load_graph;
use gfa_tools::text::{parse_graph, write_graph};

fn records(text: &str) -> Vec<Record> {
    let lines: Vec<Vec<u8>> = text.lines().map(|l| l.as_bytes().to_vec()).collect();
    parse_graph(&lines).unwrap()
}

#[test]
fn anchors_count_crossing_paths() {
    let g = records("S\t1\tA\nS\t2\tC\nS\t3\tG\nP\ta\t1+,2+\t*\nP\tb\t1+,3+,1-\t*\n");
    assert_eq!(anchor_nodes(&g, None), Ok(vec![(1, 2), (2, 1), (3, 1)]));
    assert_eq!(anchor_nodes(&g, Some(0)), Ok(vec![(1, 2)]));
    assert_eq!(anchor_nodes(&g, Some(1)), Ok(vec![(1, 2), (2, 1), (3, 1)]));
}

#[test]
fn anchors_reject_unknown_node() {
    let g = records("S\t1\tA\nP\ta\t1+,4+\t*\nS\t4\tC\n");
    assert_eq!(anchor_nodes(&g, None), Err(GfaError::NotFound { node: 4 }));
}

#[test]
fn anchors_of_empty_graph() {
    assert_eq!(anchor_nodes(&Vec::new(), Some(3)), Ok(vec![]));
}

#[test]
fn path_lengths_by_strand() {
    let g = records("S\t1\tAAAA\nS\t2\tCC\nP\tp\t1+,2-,1+\t*\nP\tq\t2-\t*\n");
    let lengths = index_gfa(&g).unwrap();
    assert_eq!(lengths.len(), 2);
    assert_eq!(lengths[0].name, b"p".to_vec());
    assert_eq!((lengths[0].length, lengths[0].forward, lengths[0].reverse), (10, 8, 2));
    assert_eq!((lengths[1].length, lengths[1].forward, lengths[1].reverse), (2, 0, 2));
}

#[test]
fn path_length_needs_known_nodes() {
    let g = records("S\t1\tAAAA\nP\tp\t1+,9+\t*\n");
    assert_eq!(index_gfa(&g).err(), Some(GfaError::NotFound { node: 9 }));
}

#[test]
fn ids_are_renumbered_in_order() {
    let g = records("H\tVN:Z:1.0\nS\t10\tAA\nL\t10\t+\t30\t-\t0M\nS\t30\tC\nP\tp\t10+,30-\t*\n");
    let (out, pairs) = relocate_ids(&g).unwrap();
    assert_eq!(pairs, vec![(10, 1), (30, 2)]);
    assert_eq!(
        String::from_utf8(write_graph(&out)).unwrap(),
        "H\tVN:Z:1.0\nS\t1\tAA\nS\t2\tC\nP\tp\t1+,2-\nL\t1\t+\t2\t-\t0M\n"
    );
}

#[test]
fn renumbering_rejects_walks_and_unknown_nodes() {
    let g = records("S\t1\tA\nW\ts\t0\tc\t0\t1\t>1\n");
    assert_eq!(relocate_ids(&g).err(), Some(GfaError::Format { line: 2 }));
    let g = records("P\tp\t1+\t*\nS\t1\tA\n");
    assert_eq!(relocate_ids(&g).err(), Some(GfaError::NotFound { node: 1 }));
}

#[test]
fn renumbering_drops_links_to_unknown_nodes() {
    let g = records("S\t5\tA\nL\t5\t+\t6\t+\t0M\n");
    let (out, _) = relocate_ids(&g).unwrap();
    assert_eq!(String::from_utf8(write_graph(&out)).unwrap(), "S\t1\tA\n");
}

#[test]
fn masking_removes_private_nodes() {
    let g = records(
        "S\t1\tA\nS\t2\tC\nS\t3\tG\nL\t1\t+\t2\t+\t0M\nL\t1\t+\t3\t+\t0M\nP\ta\t1+,2+\t*\nP\tb\t1+,3+\t*\nW\ts\t1\tc\t0\t2\t>1>3\n",
    );
    let out = mask_paths(&g, &vec![b"a".to_vec()]).unwrap();
    assert_eq!(
        String::from_utf8(write_graph(&out)).unwrap(),
        "S\t1\tA\nS\t3\tG\nL\t1\t+\t3\t+\t0M\nP\tb\t1+,3+\t*\nW\ts\t1\tc\t0\t2\t>1>3\n"
    );
    let out = mask_paths(&g, &vec![b"b".to_vec(), b"s#1#c".to_vec()]).unwrap();
    assert_eq!(
        String::from_utf8(write_graph(&out)).unwrap(),
        "S\t1\tA\nS\t2\tC\nL\t1\t+\t2\t+\t0M\nP\ta\t1+,2+\t*\n"
    );
}

#[test]
fn masking_unknown_path_is_an_error() {
    let g = records("S\t1\tA\nP\ta\t1+\t*\n");
    assert_eq!(
        mask_paths(&g, &vec![b"a".to_vec(), b"zz".to_vec()]).err(),
        Some(GfaError::MissingPath { index: 1 })
    );
}

#[test]
fn edge_lines_build_backbone() {
    let lines: Vec<Vec<u8>> = "H\tVN:Z:2.0\nE\t*\t1+\t2+\nS\t1\tA\nE\t*\t2+\t3-\n"
        .lines()
        .map(|l| l.as_bytes().to_vec())
        .collect();
    let g = load_graph(&lines).unwrap();
    assert_eq!(g.node_count(), 4);
    assert_eq!(g.edge_count(), 2);
    let weights: Vec<Vec<u8>> = g.edge_weights().cloned().collect();
    assert_eq!(weights, vec![b"*1+2+".to_vec(), b"*2+3-".to_vec()]);
    let nodes: Vec<Vec<u8>> = g.node_weights().cloned().collect();
    assert_eq!(nodes, vec![b"*".to_vec(), b"2+".to_vec(), b"*".to_vec(), b"3-".to_vec()]);
}

#[test]
fn short_edge_line_is_format_error() {
    let lines: Vec<Vec<u8>> = vec![b"E\t*\t1+".to_vec()];
    assert_eq!(load_graph(&lines).err(), Some(GfaError::Format { line: 1 }));
}

#[test]
fn paths_take_new_names() {
    let g = records("S\t1\tA\nP\told\t1+\t*\nP\tother\t1-\t*\n");
    let table: Vec<Vec<u8>> = vec![b"old\tnew".to_vec(), b"other\tx\textra".to_vec(), b"old\tnewer".to_vec()];
    let renames = parse_renames(&table).unwrap();
    assert_eq!(renames[1], (b"other".to_vec(), b"x".to_vec()));
    let out = rename_paths(&g, &renames).unwrap();
    assert_eq!(
        String::from_utf8(write_graph(&out)).unwrap(),
        "S\t1\tA\nP\tnewer\t1+\t*\nP\tx\t1-\t*\n"
    );
}

#[test]
fn path_without_new_name_is_an_error() {
    let g = records("S\t1\tA\nP\tp\t1+\t*\n");
    assert_eq!(rename_paths(&g, &Vec::new()).err(), Some(GfaError::NoNewName { line: 2 }));
    assert_eq!(parse_renames(&vec![b"a\tb".to_vec(), b"c".to_vec()]).err(), Some(GfaError::Format { line: 2 }));
}

#[test]
fn shared_nodes_mark_crossing_paths() {
    let g = records("S\t1\tA\nS\t2\tC\nS\t3\tG\nP\ta\t1+,2+\t*\nP\tb\t1+,3+\t*\nP\tc\t3+\t*\n");
    let shares = shared_nodes(&g, &vec![b"a".to_vec(), b"b".to_vec()], &vec![b"c".to_vec()]).unwrap();
    assert_eq!(shares.len(), 3);
    assert_eq!(shares[0].node, 1);
    assert_eq!(shares[0].flags, vec![true, true, false]);
    assert_eq!((shares[0].inside_count, shares[0].outside_count), (2, 0));
    assert_eq!(shares[2].node, 3);
    assert_eq!(shares[2].flags, vec![false, true, true]);
    assert_eq!((shares[2].inside_count, shares[2].outside_count), (1, 1));
}

#[test]
fn shared_nodes_need_known_nodes() {
    let g = records("P\ta\t5+\t*\n");
    assert_eq!(shared_nodes(&g, &vec![b"a".to_vec()], &Vec::new()).err(), Some(GfaError::NotFound { node: 5 }));
}

#[test]
fn second_graph_is_appended_with_fresh_ids() {
    let a = records("H\tVN:Z:1.0\nS\t3\tAA\nS\t7\tC\tLN:i:1\n");
    let b = records("H\tx\nS\t1\tGG\tRC:i:4\nS\t2\tT\nL\t1\t+\t2\t-\t0M\nP\tp\t1+,2-\t*\n");
    let out = concat_graphs(&a, &b).unwrap();
    assert_eq!(
        String::from_utf8(write_graph(&out)).unwrap(),
        "H\tVN:Z:1.0\nS\t3\tAA\nS\t7\tC\tLN:i:1\nS\t8\tGG\tRC:i:4\nS\t9\tT\nP\tp\t8+,9-\t*\nL\t8\t+\t9\t-\t0M\n"
    );
}

#[test]
fn appending_rejects_walks_and_unknown_nodes() {
    let a = records("S\t1\tA\n");
    assert_eq!(
        concat_graphs(&a, &records("P\tp\t4+\t*\n")).err(),
        Some(GfaError::NotFound { node: 4 })
    );
    assert_eq!(
        concat_graphs(&a, &records("W\ts\t0\tc\t0\t1\t>1\n")).err(),
        Some(GfaError::Format { line: 1 })
    );
}

#[test]
fn segment_tags_survive_reading_and_writing() {
    let text = "S\t5\tACGT\tLN:i:4\tRC:i:9\n";
    assert_eq!(String::from_utf8(write_graph(&records(text))).unwrap(), text);
}

#[test]
fn step_offsets_along_paths() {
    let g = records("S\t1\tAAAA\nS\t2\tCC\nP\tp\t1+,2-\t*\n");
    let rows = offset_gfa(&g).unwrap();
    assert_eq!(rows.len(), 2);
    assert_eq!((rows[0].node, rows[0].start, rows[0].end, rows[0].length, rows[0].forward), (1, 0, 4, 4, true));
    assert_eq!((rows[1].node, rows[1].start, rows[1].end, rows[1].length, rows[1].forward), (2, 4, 6, 2, false));
    assert_eq!(rows[1].path, b"p".to_vec());
    assert_eq!(offset_gfa(&records("P\tp\t3+\t*\n")).err(), Some(GfaError::NotFound { node: 3 }));
}

#[test]
fn kept_lines_pass_through_unchanged() {
    let text = "S\t1\tA\tLN:i:1\nS\t2\tC\nL\t1\t+\t2\t+\t0M\tID:Z:e1\nP\ta\t1+,2+\nP\tb\t1+\t*\tXX:i:3\nW\ts\t1\tc\t0\t1\t>1\tWT:i:2\n";
    let g = records(text);
    assert_eq!(String::from_utf8(write_graph(&g)).unwrap(), text);
    let out = mask_paths(&g, &Vec::new()).unwrap();
    assert_eq!(String::from_utf8(write_graph(&out)).unwrap(), text);
    let table: Vec<Vec<u8>> = vec![b"a\ta2".to_vec(), b"b\tb2".to_vec()];
    let out = rename_paths(&g, &parse_renames(&table).unwrap()).unwrap();
    assert_eq!(
        String::from_utf8(write_graph(&out)).unwrap(),
        "S\t1\tA\tLN:i:1\nS\t2\tC\nL\t1\t+\t2\t+\t0M\tID:Z:e1\nP\ta2\t1+,2+\nP\tb2\t1+\t*\tXX:i:3\nW\ts\t1\tc\t0\t1\t>1\tWT:i:2\n"
    );
    let first = records("S\t1\tA\nL\t1\t+\t1\t-\t0M\tID:Z:x\nP\tq\t1+\n");
    let out = concat_graphs(&first, &records("S\t1\tG\n")).unwrap();
    assert_eq!(
        String::from_utf8(write_graph(&out)).unwrap(),
        "S\t1\tA\nL\t1\t+\t1\t-\t0M\tID:Z:x\nP\tq\t1+\nS\t2\tG\n"
    );
}
