use gfa_tools::adjacency::build_adjacency;
use gfa_tools::classify::find_candidates;
use gfa_tools::graph::{GfaError, Record, SignedRef};
use gfa_tools::mapping::{resolve_dep, Mapping};
use gfa_tools::spurious::{prune_spurious_breakpoints, prune_spurious_text};
use gfa_tools::text::{parse_graph, parse_record, write_graph};
use std::collections::HashMap;

fn lines(text: &str) -> Vec<Vec<u8>> {
    text.lines().map(|l| l.as_bytes().to_vec()).collect()
}

fn prune(text: &str) -> String {
    let out = prune_spurious_text(&lines(text)).unwrap();
    String::from_utf8(out).unwrap()
}

fn candidates_of(text: &str) -> Vec<(u32, u32)> {
    let records = parse_graph(&lines(text)).unwrap();
    find_candidates(&build_adjacency(&records))
}

#[test]
fn unary_bridge_is_contracted() {
    let input = "S\t1\tAAAA\nS\t2\tCCCC\nL\t1\t+\t2\t+\t0M\nP\tp1\t1+,2+\t*\n";
    assert_eq!(prune(input), "S\t1\tAAAACCCC\nP\tp1\t1+\t*\n");
}

#[test]
fn two_successors_block_contraction() {
    let input = "S\t1\tAAAA\nS\t2\tCCCC\nS\t3\tGGGG\nL\t1\t+\t2\t+\t0M\nL\t1\t+\t3\t+\t0M\n";
    assert_eq!(prune(input), input);
    assert!(candidates_of(input).is_empty());
}

#[test]
fn chain_resolves_to_first_node() {
    let mut m = Mapping { parent: HashMap::new() };
    m.parent.insert(1, 1);
    m.parent.insert(2, 1);
    m.parent.insert(3, 2);
    assert_eq!(m.resolve(3), 1);
    assert_eq!(m.parent.get(&3), Some(&1));
    assert_eq!(m.parent.get(&2), Some(&1));
    assert_eq!(m.parent.get(&1), Some(&1));
}

#[test]
fn chain_of_three_merges_in_order() {
    let input = "S\t1\tAA\nS\t2\tCC\nS\t3\tGG\nL\t1\t+\t2\t+\t*\nL\t2\t+\t3\t+\t*\nW\ts\t0\tc\t0\t6\t>1>2>3\n";
    assert_eq!(candidates_of(input), vec![(1, 2), (2, 3)]);
    assert_eq!(prune(input), "S\t1\tAACCGG\nW\ts\t0\tc\t0\t6\t>1\n");
}

#[test]
fn chain_applied_downstream_first_still_conserves() {
    // the second pair is listed first among the link sources
    let input = "S\t1\tAA\nS\t2\tCC\nS\t3\tGG\nL\t2\t+\t3\t+\t*\nL\t1\t+\t2\t+\t*\n";
    assert_eq!(candidates_of(input), vec![(2, 3), (1, 2)]);
    assert_eq!(prune(input), "S\t1\tAACCGG\n");
}

#[test]
fn reverse_strand_pair_merges_in_forward_order() {
    // -2 -> -1 reads, on the forward strand, as 1 -> 2
    let input = "S\t1\tAAAA\nS\t2\tCCCC\nL\t2\t-\t1\t-\t0M\n";
    assert_eq!(candidates_of(input), vec![(1, 2)]);
    assert_eq!(prune(input), "S\t1\tAAAACCCC\n");
}

#[test]
fn smaller_id_survives_downstream() {
    let input = "S\t5\tAA\nS\t3\tCC\nL\t5\t+\t3\t+\t0M\nP\tp\t5+,3+\t*\n";
    assert_eq!(prune(input), "S\t3\tAACC\nP\tp\t3+\t*\n");
}

#[test]
fn links_move_to_representatives() {
    let input = "S\t1\tA\nS\t2\tC\nS\t3\tG\nS\t4\tT\nL\t1\t+\t2\t+\t0M\nL\t2\t+\t3\t+\t0M\nL\t2\t+\t4\t+\t0M\n";
    assert_eq!(
        prune(input),
        "S\t1\tAC\nS\t3\tG\nS\t4\tT\nL\t1\t+\t3\t+\t0M\nL\t1\t+\t4\t+\t0M\n"
    );
}

#[test]
fn self_loop_is_not_a_candidate() {
    let input = "S\t1\tA\nL\t1\t+\t1\t+\t0M\n";
    assert!(candidates_of(input).is_empty());
    // a link whose two ends are one node is dropped
    assert_eq!(prune(input), "S\t1\tA\n");
}

#[test]
fn reciprocal_reverse_edge_allows_contraction() {
    let input = "S\t1\tA\nS\t2\tC\nL\t1\t+\t2\t+\t0M\nL\t2\t-\t1\t-\t0M\n";
    assert_eq!(candidates_of(input), vec![(1, 2)]);
    assert_eq!(prune(input), "S\t1\tAC\n");
}

#[test]
fn competing_reverse_edge_blocks_contraction() {
    let input = "S\t1\tA\nS\t2\tC\nS\t3\tG\nL\t1\t+\t2\t+\t0M\nL\t2\t-\t3\t-\t0M\n";
    assert!(!candidates_of(input).contains(&(1, 2)));
}

#[test]
fn strand_flip_is_not_a_candidate() {
    let input = "S\t1\tA\nS\t2\tC\nL\t1\t+\t2\t-\t0M\n";
    assert!(candidates_of(input).is_empty());
}

#[test]
fn empty_input_gives_empty_output() {
    assert_eq!(prune(""), "");
    assert!(candidates_of("").is_empty());
}

#[test]
fn other_lines_pass_through() {
    let input = "H\tVN:Z:1.0\nS\t1\tA\n";
    assert_eq!(prune(input), input);
}

#[test]
fn rerun_finds_no_further_candidates() {
    let input = "S\t1\tAA\nS\t2\tCC\nS\t3\tGG\nS\t4\tTT\nL\t1\t+\t2\t+\t*\nL\t2\t+\t3\t+\t*\nL\t2\t+\t4\t+\t*\n";
    let once = prune(input);
    assert!(candidates_of(&once).is_empty());
    assert_eq!(prune(&once), once);
}

#[test]
fn same_input_same_bytes() {
    let input = "S\t4\tAA\nS\t2\tCC\nS\t9\tGG\nL\t4\t+\t2\t+\t*\nL\t9\t-\t4\t-\t*\nP\tx\t9+,4+,2+\t*\n";
    assert_eq!(prune(input), prune(input));
}

#[test]
fn merged_length_is_sum_of_lengths() {
    let input = "S\t1\tA\nS\t2\tCCC\nS\t3\tGGGGG\nL\t1\t+\t2\t+\t*\nL\t2\t+\t3\t+\t*\n";
    let records = parse_graph(&lines(input)).unwrap();
    let out = prune_spurious_breakpoints(&records);
    let mut total = 0;
    for r in out.iter() {
        if let Record::Segment { id, sequence, .. } = r {
            assert_eq!(*id, 1);
            total += sequence.len();
        }
    }
    assert_eq!(total, 9);
}

#[test]
fn unknown_link_end_is_omitted() {
    let input = "S\t1\tA\nS\t2\tC\nL\t1\t+\t7\t+\t0M\nL\t2\t+\t1\t+\t0M\nL\t1\t+\t2\t+\t0M\n";
    let out = prune(input);
    assert!(!out.contains("7"));
}

#[test]
fn resolve_dep_follows_chain() {
    let mut m: HashMap<u32, u32> = HashMap::new();
    m.insert(1, 1);
    m.insert(2, 1);
    m.insert(3, 2);
    assert_eq!(resolve_dep(&mut m, 3), Ok(1));
    // every id on the way now points straight at the representative
    assert_eq!(m.get(&3), Some(&1));
    assert_eq!(m.get(&2), Some(&1));
    assert_eq!(m.get(&1), Some(&1));
    assert_eq!(resolve_dep(&mut m, 1), Ok(1));
}

#[test]
fn resolve_dep_compresses_long_chain_only() {
    let mut m: HashMap<u32, u32> = HashMap::new();
    m.insert(1, 1);
    m.insert(2, 1);
    m.insert(3, 2);
    m.insert(4, 3);
    m.insert(5, 4);
    m.insert(9, 5);
    assert_eq!(resolve_dep(&mut m, 4), Ok(1));
    assert_eq!((m[&4], m[&3], m[&2]), (1, 1, 1));
    // ids not on the way are left alone
    assert_eq!((m[&5], m[&9]), (4, 5));
}

#[test]
fn resolve_dep_reports_cycle() {
    let mut m: HashMap<u32, u32> = HashMap::new();
    m.insert(1, 2);
    m.insert(2, 1);
    assert_eq!(resolve_dep(&mut m, 1), Err(GfaError::Cycle { node: 1 }));
    assert_eq!((m[&1], m[&2]), (2, 1));
}

#[test]
fn resolve_dep_reports_missing_id() {
    let mut m: HashMap<u32, u32> = HashMap::new();
    m.insert(1, 5);
    assert_eq!(resolve_dep(&mut m, 1), Err(GfaError::NotFound { node: 5 }));
    assert_eq!(resolve_dep(&mut m, 8), Err(GfaError::NotFound { node: 8 }));
    assert_eq!(m[&1], 5);
}

#[test]
fn malformed_lines_are_format_errors() {
    assert_eq!(
        prune_spurious_text(&lines("S\t1\tA\nS\tx\tC\n")),
        Err(GfaError::Format { line: 2 })
    );
    assert_eq!(
        parse_record(&b"L\t1\t+\t2".to_vec(), 3).unwrap_err(),
        GfaError::Format { line: 3 }
    );
    assert!(parse_record(&b"L\t1\t*\t2\t+\t0M".to_vec(), 1).is_err());
    assert!(parse_record(&b"P\tp\t1+,2".to_vec(), 1).is_err());
    assert!(parse_record(&b"W\ts\t0\tc\t0\t1\t1>2".to_vec(), 1).is_err());
    assert!(parse_record(&b"S\t4294967296\tA".to_vec(), 1).is_err());
    assert!(parse_record(&b"S\t4294967295\tA".to_vec(), 1).is_ok());
}

#[test]
fn records_round_trip_through_text() {
    let text = "S\t12\tACGT\nL\t12\t-\t3\t+\t4M\nP\tp\t12+,3-\t*\nW\ts\t1\tc\t0\t8\t<12>3\nH\tx\n";
    let records = parse_graph(&lines(text)).unwrap();
    assert_eq!(records.len(), 5);
    match &records[1] {
        Record::Link { from, to, .. } => {
            assert_eq!(*from, SignedRef { id: 12, forward: false });
            assert_eq!(*to, SignedRef { id: 3, forward: true });
        }
        _ => panic!("expected a link"),
    }
    assert_eq!(String::from_utf8(write_graph(&records)).unwrap(), text);
}

#[test]
fn rerun_can_find_pairs_joined_by_contraction() {
    // contracting 1 and 2 turns the two reverse links into one, so that the
    // hop from 1 to 3 becomes a unary bridge in the output
    let input = "S\t1\tA\nS\t2\tC\nS\t3\tG\nL\t1\t+\t2\t+\t0M\nL\t2\t+\t3\t+\t0M\nL\t3\t-\t1\t-\t0M\nL\t3\t-\t2\t-\t0M\n";
    assert_eq!(candidates_of(input), vec![(1, 2)]);
    let once = prune(input);
    assert_eq!(candidates_of(&once), vec![(1, 3)]);
}
