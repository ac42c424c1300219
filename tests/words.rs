use full_alphabe::combinations;

#[test]
fn combinations_for_empty() {
    let empty: Vec<Vec<&str>> = vec![];
    let results = combinations(&empty);

    assert!(results.is_empty());
}

#[test]
fn combinations_for_single_list() {
    let results = combinations(&vec![vec!["foo"]]);

    assert!(results.contains(&vec!["foo"]));
}

#[test]
fn combinations_for_two_lists_single_items() {
    let results = combinations(&vec![vec!["foo"], vec!["bar"]]);

    assert!(results.contains(&vec!["foo", "bar"]));
}

#[test]
fn combinations_for_two_lists_two_items() {
    let results = combinations(&vec![vec!["foo", "bar"], vec!["baz", "beep"]]);

    assert!(results.contains(&vec!["foo", "baz"]));
    assert!(results.contains(&vec!["foo", "beep"]));
    assert!(results.contains(&vec!["bar", "baz"]));
    assert!(results.contains(&vec!["bar", "beep"]));
}

#[test]
fn combinations_for_two_lists_differing_items() {
    let results = combinations(&vec![vec!["foo", "bar"], vec!["baz"]]);

    assert!(results.contains(&vec!["foo", "baz"]));
    assert!(results.contains(&vec!["bar", "baz"]));
}

#[test]
fn anagram_groups_expand_to_every_tuple() {
    let results = combinations(&vec![vec!["foo", "oof"], vec!["bar"]]);
    let mut lines: Vec<String> = results.iter().map(|t| t.join(" ")).collect();
    lines.sort();
    assert_eq!(lines, vec!["foo bar".to_string(), "oof bar".to_string()]);
}

#[test]
fn cross_product_size_is_product_of_group_sizes() {
    let results = combinations(&vec![vec![1u32, 2, 3], vec![4, 5], vec![6, 7]]);
    assert_eq!(results.len(), 12);
    assert!(results.contains(&vec![3, 5, 7]));
    assert!(!results.contains(&vec![4, 1, 6]));
}

#[test]
fn empty_group_gives_no_tuple() {
    let results = combinations(&vec![vec![1u32, 2], vec![]]);
    assert!(results.is_empty());
}
