use graph_stats::graph::{clean_data, max_vertex_id, Graph};
use graph_stats::parser::{parse_lines, parse_u64, tokenize, ParseError};
use graph_stats::stats::{average_degree, compute_stats, degree_distribution};

fn byte_lines(strs: &[&str]) -> Vec<Vec<u8>> {
    strs.iter().map(|s| s.as_bytes().to_vec()).collect()
}

fn sample_edges() -> Vec<(u64, u64)> {
    vec![(1, 2), (1, 3), (2, 3), (3, 4)]
}

fn sample_graph() -> Graph {
    clean_data(&sample_edges()).0
}

#[test]
fn test_average_degree() {
    let edges = vec![(1, 2), (1, 3), (2, 3), (3, 4)];
    let (adj_list, _) = clean_data(&edges);
    let (total, count) = average_degree(&adj_list).unwrap();
    assert_eq!(total as f64 / count as f64, 2.0);
}

#[test]
fn test_sample_degrees() {
    let g = sample_graph();
    assert_eq!(g.degree(1), 2);
    assert_eq!(g.degree(2), 2);
    assert_eq!(g.degree(3), 3);
    assert_eq!(g.degree(4), 1);
    assert_eq!(g.degree(0), 0);
}

#[test]
fn test_sample_vertex_count() {
    let (_, vertex_count) = clean_data(&sample_edges());
    assert_eq!(vertex_count, 5);
    assert_eq!(max_vertex_id(&sample_edges()), 4);
}

#[test]
fn test_sample_edge_count_is_raw() {
    let st = compute_stats(&sample_edges());
    assert_eq!(st.edge_count, 4);
}

#[test]
fn test_sample_distribution_descending() {
    let st = compute_stats(&sample_edges());
    assert_eq!(st.distribution, vec![(3, 1), (2, 2), (1, 1)]);
}

#[test]
fn test_sample_average_exact() {
    let st = compute_stats(&sample_edges());
    let (total, count) = st.average.unwrap();
    assert_eq!(total, 8);
    assert_eq!(count, 4);
    assert_eq!(total as f64 / count as f64, 2.0);
}

#[test]
fn test_adjacency_symmetric() {
    let g = sample_graph();
    for u in 0..6u64 {
        for v in 0..6u64 {
            assert_eq!(g.has_edge(u, v), g.has_edge(v, u));
        }
    }
    assert!(g.has_edge(3, 4));
    assert!(g.has_edge(4, 3));
    assert!(!g.has_edge(1, 4));
}

#[test]
fn test_duplicate_edges_collapse() {
    let edges = vec![(1, 2), (1, 2)];
    let st = compute_stats(&edges);
    assert_eq!(st.edge_count, 2);
    let (g, _) = clean_data(&edges);
    assert_eq!(g.degree(1), 1);
    assert_eq!(g.degree(2), 1);
    assert_eq!(st.distribution, vec![(1, 2)]);

    let once = compute_stats(&vec![(1, 2)]);
    assert_eq!(once.distribution, st.distribution);
    assert_eq!(once.vertex_count, st.vertex_count);
}

#[test]
fn test_self_loop_permitted() {
    let edges = vec![(5, 5)];
    let (g, vertex_count) = clean_data(&edges);
    assert_eq!(vertex_count, 6);
    assert!(g.has_edge(5, 5));
    assert_eq!(g.degree(5), 1);
}

#[test]
fn test_tokenize_splits_on_whitespace() {
    let toks = tokenize(&b"  12\t 7  ".to_vec());
    assert_eq!(toks, vec![b"12".to_vec(), b"7".to_vec()]);
    let none = tokenize(&b" \t ".to_vec());
    assert!(none.is_empty());
}

#[test]
fn test_parse_u64_accepts_numerals_only() {
    assert_eq!(parse_u64(&b"0".to_vec()), Some(0));
    assert_eq!(parse_u64(&b"007".to_vec()), Some(7));
    assert_eq!(parse_u64(&b"18446744073709551615".to_vec()), Some(u64::MAX));
    assert_eq!(parse_u64(&b"18446744073709551616".to_vec()), None);
    assert_eq!(parse_u64(&b"".to_vec()), None);
    assert_eq!(parse_u64(&b"-1".to_vec()), None);
    assert_eq!(parse_u64(&b"1x".to_vec()), None);
}

#[test]
fn test_lines_with_other_token_counts_are_skipped() {
    let with_junk = parse_lines(&byte_lines(&["1 2", "7", "", "3 4 5 6", "2 3", "3 4"])).unwrap();
    let plain = parse_lines(&byte_lines(&["1 2", "2 3", "3 4"])).unwrap();
    assert_eq!(with_junk, plain);
    assert_eq!(with_junk, vec![(1, 2), (2, 3), (3, 4)]);

    let st_junk = compute_stats(&with_junk);
    let st_plain = compute_stats(&plain);
    assert_eq!(st_junk.vertex_count, st_plain.vertex_count);
    assert_eq!(st_junk.edge_count, st_plain.edge_count);
    assert_eq!(st_junk.distribution, st_plain.distribution);
    assert_eq!(st_junk.average, st_plain.average);
}

#[test]
fn test_malformed_numeral_is_fatal() {
    let r = parse_lines(&byte_lines(&["1 2", "3 x", "4 5"]));
    assert_eq!(r, Err(ParseError { line: 1 }));
    let r2 = parse_lines(&byte_lines(&["1 -2"]));
    assert_eq!(r2, Err(ParseError { line: 0 }));
    let r3 = parse_lines(&byte_lines(&["1 18446744073709551616"]));
    assert_eq!(r3, Err(ParseError { line: 0 }));
}

#[test]
fn test_empty_input() {
    let edges = parse_lines(&Vec::new()).unwrap();
    assert!(edges.is_empty());
    let st = compute_stats(&edges);
    assert_eq!(st.vertex_count, 1);
    assert_eq!(st.edge_count, 0);
    assert!(st.distribution.is_empty());
    assert_eq!(st.average, None);
    let (g, _) = clean_data(&edges);
    assert!(degree_distribution(&g).is_empty());
    assert_eq!(average_degree(&g), None);
}
