use full_alphabe::{build_graph, format_graph_line, format_solution, parse_graph_line, parse_solution, Graph};

#[test]
fn solution_is_written_as_comma_separated_masks() {
    assert_eq!(format_solution(&vec![3, 40, 1024]), b"3,40,1024".to_vec());
    assert_eq!(format_solution(&vec![0]), b"0".to_vec());
    assert_eq!(format_solution(&vec![]), b"".to_vec());
}

#[test]
fn graph_line_is_mask_colon_neighbours() {
    assert_eq!(format_graph_line(7, &vec![8, 4294967295]), b"7:8,4294967295".to_vec());
    assert_eq!(format_graph_line(12, &vec![]), b"12:".to_vec());
}

#[test]
fn solution_round_trip() {
    let v = vec![1u32, 22, 333, 4294967295];
    let text = format_solution(&v);
    assert_eq!(parse_solution(&text), Some(v));
}

#[test]
fn graph_line_round_trip() {
    let text = format_graph_line(9, &vec![2, 4, 96]);
    assert_eq!(parse_graph_line(&text), Some((9, vec![2, 4, 96])));
    let text = format_graph_line(0, &vec![]);
    assert_eq!(parse_graph_line(&text), Some((0, vec![])));
}

#[test]
fn malformed_lines_are_refused() {
    assert_eq!(parse_solution(b""), None);
    assert_eq!(parse_solution(b"1,,2"), None);
    assert_eq!(parse_solution(b"1,x"), None);
    assert_eq!(parse_solution(b",1"), None);
    assert_eq!(parse_solution(b"1,"), None);
    assert_eq!(parse_solution(b"4294967296"), None);
    assert_eq!(parse_graph_line(b"12"), None);
    assert_eq!(parse_graph_line(b":1"), None);
    assert_eq!(parse_graph_line(b"1:2:3"), None);
}

#[test]
fn whole_graph_round_trip() {
    let g = build_graph(&vec![1, 2, 3, 4, 8, 24]);
    let mut back = Graph::new();
    for (m, adj) in g.nodes.iter().zip(g.adj.iter()) {
        let line = format_graph_line(*m, adj);
        let (m2, w) = parse_graph_line(&line).unwrap();
        assert!(back.add_node(m2, w));
    }
    assert_eq!(back.nodes, g.nodes);
    assert_eq!(back.adj, g.adj);
}

#[test]
fn nodes_and_neighbours_in_any_order_are_kept_sorted() {
    let mut g = Graph::new();
    assert!(g.add_node(9, vec![4, 2, 4]));
    assert!(g.add_node(5, vec![8, 2]));
    assert!(!g.add_node(5, vec![]));
    assert!(g.add_node(7, vec![]));
    assert_eq!(g.nodes, vec![5, 7, 9]);
    assert_eq!(g.adj, vec![vec![2, 8], vec![], vec![2, 4]]);
}

#[test]
fn unsorted_graph_file_finds_the_same_cliques() {
    let mut g = Graph::new();
    let lines: [&[u8]; 6] = [b"24:3,1,4,2", b"4:24,8,3,2,1", b"1:24,8,4,2", b"8:4,3,2,1", b"3:24,8,4", b"2:24,1,8,4"];
    for line in lines {
        let (m, adj) = parse_graph_line(line).unwrap();
        assert!(g.add_node(m, adj));
    }
    let mut found = full_alphabe::find_all_cliques(&g, 3);
    found.sort();
    let mut expected = full_alphabe::find_all_cliques(&build_graph(&vec![1, 2, 3, 4, 8, 24]), 3);
    expected.sort();
    assert_eq!(found, expected);
}

#[test]
fn leading_zeros_are_read() {
    assert_eq!(parse_solution(b"007,10"), Some(vec![7, 10]));
    assert_eq!(parse_graph_line(b"03:0,4"), Some((3, vec![0, 4])));
}
