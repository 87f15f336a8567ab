use gfa_tools::graph::GfaError;
use gfa_tools::remove_loops::{
    aggregate_occurences, count_number_occurences_in_path, filter_occurences, read_next_node,
    remove_loops,
};

fn entry(name: &str, count: u8) -> (Vec<u8>, u8) {
    (name.as_bytes().to_vec(), count)
}

fn get(occ: &Vec<(Vec<u8>, u8)>, name: &str) -> Option<u8> {
    occ.iter().find(|e| e.0 == name.as_bytes()).map(|e| e.1)
}

#[test]
fn test_read_next_node() {
    let data = b"1+,2+,3+".to_vec();
    let mut pos: usize = 0;
    assert_eq!(String::from_utf8(read_next_node(&data, &mut pos)).unwrap(), "1");
    assert_eq!(String::from_utf8(read_next_node(&data, &mut pos)).unwrap(), "2");
    assert_eq!(String::from_utf8(read_next_node(&data, &mut pos)).unwrap(), "3");
    assert_eq!(read_next_node(&data, &mut pos), Vec::<u8>::new());
}

#[test]
fn test_count_number_occurences_in_path() {
    let data = b"1+,2+,3+,1+,2+".to_vec();
    let mut pos: usize = 0;
    let occurences = count_number_occurences_in_path(&data, &mut pos);
    assert_eq!(get(&occurences, "1"), Some(2));
    assert_eq!(get(&occurences, "2"), Some(2));
    assert_eq!(get(&occurences, "3"), Some(1));
}

#[test]
fn counting_stops_at_the_largest_count() {
    let text = vec!["7+"; 300].join(",");
    let mut pos: usize = 0;
    let occurences = count_number_occurences_in_path(&text.as_bytes().to_vec(), &mut pos);
    assert_eq!(occurences, vec![entry("7", 255)]);
}

#[test]
fn test_filter_occurences() {
    let occurences = vec![entry("1", 2), entry("2", 3), entry("3", 1)];
    assert_eq!(filter_occurences(&occurences, 2), vec![entry("2", 3)]);
    assert_eq!(filter_occurences(&occurences, 1), vec![entry("1", 2), entry("2", 3)]);
}

#[test]
fn aggregate_keeps_largest_count() {
    let a = vec![entry("1", 2), entry("2", 3)];
    let b = vec![entry("2", 5), entry("3", 1), entry("1", 1)];
    let agg = aggregate_occurences(&vec![a, b]);
    assert_eq!(agg, vec![entry("1", 2), entry("2", 5), entry("3", 1)]);
    assert!(aggregate_occurences(&Vec::new()).is_empty());
}

#[test]
fn loop_labels_count_repeated_visits() {
    let lines: Vec<Vec<u8>> = "S\t1\tA\nS\t2\tC\nP\ta\t1+,2+,1+,1+\t*\nP\tb\t2+,2+,2+\t*\n"
        .lines()
        .map(|l| l.as_bytes().to_vec())
        .collect();
    // node 1 is visited three times by a, node 2 three times by b
    assert_eq!(remove_loops(&lines, 2), Ok((2, 7)));
    assert_eq!(remove_loops(&lines, 3), Ok((2, 1)));
    let walk: Vec<Vec<u8>> = vec![b"W\ts\t0\tc\t0\t1\t>1".to_vec()];
    assert_eq!(remove_loops(&walk, 2), Err(GfaError::Format { line: 1 }));
}

#[test]
fn counting_leaves_position_past_the_empty_node() {
    let data = b"1+,2+,1-".to_vec();
    let mut pos: usize = 0;
    let occurences = count_number_occurences_in_path(&data, &mut pos);
    assert_eq!(occurences, vec![entry("1", 2), entry("2", 1)]);
    assert_eq!(pos, data.len());
    let data = b"4+,+5+".to_vec();
    let mut pos: usize = 0;
    let occurences = count_number_occurences_in_path(&data, &mut pos);
    assert_eq!(occurences, vec![entry("4", 1)]);
    assert_eq!(pos, 4);
}
