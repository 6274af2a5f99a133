use grough::error::GraphError;
use grough::io::{from_lines_ew, parse_edge_weight};

#[test]
fn parses_three_numbers() {
    assert_eq!(parse_edge_weight(b"0 1 1"), Ok((0, 1, 1)));
    assert_eq!(parse_edge_weight(b"12\t 345  \t6789"), Ok((12, 345, 6789)));
    assert_eq!(parse_edge_weight(b"007 08 0009"), Ok((7, 8, 9)));
}

#[test]
fn ignores_what_follows_the_weight() {
    assert_eq!(parse_edge_weight(b"1 2 3 "), Ok((1, 2, 3)));
    assert_eq!(parse_edge_weight(b"1 2 3x"), Ok((1, 2, 3)));
    assert_eq!(parse_edge_weight(b"1 2 3\r\n"), Ok((1, 2, 3)));
}

#[test]
fn rejects_malformed_lines() {
    let bad = Err(GraphError::MalformedEdgeLine);
    assert_eq!(parse_edge_weight(b""), bad);
    assert_eq!(parse_edge_weight(b" 1 2 3"), bad);
    assert_eq!(parse_edge_weight(b"1 2"), bad);
    assert_eq!(parse_edge_weight(b"1 2 "), bad);
    assert_eq!(parse_edge_weight(b"1,2,3"), bad);
    assert_eq!(parse_edge_weight(b"a b c"), bad);
    assert_eq!(parse_edge_weight(b"-1 2 3"), bad);
    assert_eq!(parse_edge_weight(b"1 2 -3"), bad);
}

#[test]
fn number_limits() {
    assert_eq!(parse_edge_weight(b"2147483647 0 0"), Ok((2147483647, 0, 0)));
    assert_eq!(parse_edge_weight(b"2147483648 0 0"), Err(GraphError::MalformedEdgeLine));
    assert_eq!(parse_edge_weight(b"0 2147483648 0"), Err(GraphError::MalformedEdgeLine));
    assert_eq!(
        parse_edge_weight(b"0 0 170141183460469231731687303715884105727"),
        Ok((0, 0, i128::MAX))
    );
    assert_eq!(
        parse_edge_weight(b"0 0 170141183460469231731687303715884105728"),
        Err(GraphError::MalformedEdgeLine)
    );
    assert_eq!(
        parse_edge_weight(b"0 0 99999999999999999999999999999999999999999999"),
        Err(GraphError::MalformedEdgeLine)
    );
}

#[test]
fn loads_lines_in_order() {
    let lines = vec![b"0 1 1".to_vec(), b"1 2 1".to_vec(), b"2 0 3".to_vec()];
    let graph = from_lines_ew(&lines).unwrap();
    assert_eq!(graph.order(), 3);
    assert_eq!(graph.size(), 3);
    assert_eq!(graph.get_weight(&0, &2), Some(&3));
    assert_eq!(graph.edge_idx(2), Some((&0, &2, &3)));
    assert_eq!(graph.neighbors(&0), Some(vec![1, 2]));
}

#[test]
fn one_bad_line_fails_the_load() {
    let lines = vec![b"0 1 1".to_vec(), b"1 2".to_vec(), b"2 0 3".to_vec()];
    assert!(matches!(from_lines_ew(&lines), Err(GraphError::MalformedEdgeLine)));
    let none: Vec<Vec<u8>> = vec![];
    assert_eq!(from_lines_ew(&none).unwrap().order(), 0);
}
