use full_alphabe::{build_graph, find_all_cliques, word_to_bitmap};

fn sorted(mut v: Vec<Vec<u32>>) -> Vec<Vec<u32>> {
    v.sort();
    v
}

#[test]
fn graph_edges_are_disjoint_pairs() {
    let g = build_graph(&vec![1, 2, 3, 4, 8, 24]);
    assert_eq!(g.nodes, vec![1, 2, 3, 4, 8, 24]);
    assert_eq!(g.adj[0], vec![2, 4, 8, 24]);
    assert_eq!(g.adj[2], vec![4, 8, 24]);
    assert_eq!(g.adj[5], vec![1, 2, 3, 4]);
    for (i, a) in g.nodes.iter().enumerate() {
        for b in &g.nodes {
            let edge = g.adj[i].contains(b);
            assert_eq!(edge, a & b == 0 && a != b);
            let j = g.nodes.iter().position(|x| x == b).unwrap();
            assert_eq!(edge, g.adj[j].contains(a));
        }
    }
}

#[test]
fn empty_mask_is_not_its_own_neighbour() {
    let g = build_graph(&vec![0, 1]);
    assert_eq!(g.adj[0], vec![1]);
    assert_eq!(g.adj[1], vec![0]);
}

#[test]
fn pairs_in_small_graph_are_exactly_the_disjoint_ones() {
    let g = build_graph(&vec![1, 2, 3, 4, 8, 24]);
    let found = sorted(find_all_cliques(&g, 2));
    let expected = vec![
        vec![1, 2],
        vec![1, 4],
        vec![1, 8],
        vec![1, 24],
        vec![2, 4],
        vec![2, 8],
        vec![2, 24],
        vec![3, 4],
        vec![3, 8],
        vec![3, 24],
        vec![4, 8],
        vec![4, 24],
    ];
    assert_eq!(found, expected);
}

#[test]
fn triples_are_pairwise_disjoint_and_cover_their_bits() {
    let g = build_graph(&vec![1, 2, 3, 4, 8, 24]);
    let found = find_all_cliques(&g, 3);
    assert!(found.contains(&vec![3, 4, 24]));
    assert!(found.contains(&vec![1, 2, 4]));
    for c in &found {
        assert_eq!(c.len(), 3);
        let union = c.iter().fold(0u32, |a, b| a | b);
        let sum: u32 = c.iter().map(|m| m.count_ones()).sum();
        assert_eq!(union.count_ones(), sum);
        for i in 0..c.len() {
            for j in i + 1..c.len() {
                assert_eq!(c[i] & c[j], 0);
                assert!(c[i] < c[j]);
            }
        }
    }
}

#[test]
fn search_twice_gives_same_set_without_repeats() {
    let g = build_graph(&vec![1, 2, 3, 4, 8, 16, 24]);
    let a = sorted(find_all_cliques(&g, 3));
    let b = sorted(find_all_cliques(&g, 3));
    assert_eq!(a, b);
    let mut d = a.clone();
    d.dedup();
    assert_eq!(d, a);
}

#[test]
fn oversized_clique_gives_nothing() {
    let g = build_graph(&vec![1, 2, 3]);
    assert!(find_all_cliques(&g, 3).is_empty());
    assert!(find_all_cliques(&g, 0).is_empty());
}

#[test]
fn five_words_with_distinct_letters_are_found() {
    let mut masks: Vec<u32> = ["fjord", "gucks", "nymph", "vibex", "waltz", "fjords"]
        .iter()
        .filter_map(|w| word_to_bitmap(w).ok())
        .collect();
    masks.sort();
    masks.dedup();
    let g = build_graph(&masks);
    let found = find_all_cliques(&g, 5);
    assert_eq!(found.len(), 1);
    assert_eq!(found[0].iter().fold(0u32, |a, b| a | b).count_ones(), 25);
}
