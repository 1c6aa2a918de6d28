use graph_resilience::edge_list::{parse_line, parse_number, LineOutcome};
use graph_resilience::{compute_degree_distribution, load_edge_list, parse_edge_list, LoadError};
use std::collections::HashMap;

#[test]
fn test_load_graph_success() {
    let data = "1 2\n2 3\n3 1";
    let graph = load_edge_list(&data.as_bytes().to_vec()).expect("Failed to load graph");
    assert_eq!(graph.node_count(), 3);
    assert_eq!(graph.edge_count(), 3);
}

#[test]
fn triangle_text_gives_degree_one_everywhere() {
    let graph = load_edge_list(&b"1 2\n2 3\n3 1\n".to_vec()).unwrap();
    let expected: HashMap<usize, usize> = [(1, 3)].iter().cloned().collect();
    assert_eq!(compute_degree_distribution(&graph), expected);
}

#[test]
fn comments_blank_and_odd_lines_are_skipped() {
    let text = b"# header\n\n1 2 3\n  4\t5 \r\n7\n+8 9\n".to_vec();
    assert_eq!(parse_edge_list(&text), Ok(vec![(4, 5), (8, 9)]));
}

#[test]
fn malformed_number_is_reported_with_its_line() {
    let text = b"1 2\n3 x\n4 5\n".to_vec();
    assert_eq!(parse_edge_list(&text), Err(2));
    assert!(matches!(load_edge_list(&text), Err(LoadError::Malformed(2))));
    assert_eq!(parse_edge_list(&b"1 2\n3 -4".to_vec()), Err(2));
}

#[test]
fn repeated_identifiers_share_a_node() {
    let graph = load_edge_list(&b"5 5\n5 6\n6 5\n5 6\n".to_vec()).unwrap();
    assert_eq!(graph.node_count(), 2);
    assert_eq!(graph.edge_count(), 4);
}

#[test]
fn empty_text_gives_empty_graph() {
    let graph = load_edge_list(&Vec::new()).unwrap();
    assert_eq!(graph.node_count(), 0);
    assert_eq!(graph.edge_count(), 0);
}

#[test]
fn numbers_parse_exactly() {
    assert_eq!(parse_number(&b"0".to_vec()), Some(0));
    assert_eq!(parse_number(&b"+42".to_vec()), Some(42));
    assert_eq!(parse_number(&b"18446744073709551615".to_vec()), Some(usize::MAX));
    assert_eq!(parse_number(&b"18446744073709551616".to_vec()), None);
    assert_eq!(parse_number(&b"+".to_vec()), None);
    assert_eq!(parse_number(&b"".to_vec()), None);
    assert_eq!(parse_number(&b"1a".to_vec()), None);
}

#[test]
fn lines_are_classified() {
    assert_eq!(parse_line(&b"#1 2".to_vec()), LineOutcome::Skip);
    assert_eq!(parse_line(&b" 10   20 ".to_vec()), LineOutcome::Pair(10, 20));
    assert_eq!(parse_line(&b"1".to_vec()), LineOutcome::Skip);
    assert_eq!(parse_line(&b"1 b".to_vec()), LineOutcome::Bad);
}
