use full_alphabe::{materialize, parse_input_ouput_args, word_to_bitmap, ArgsError, Dictionary};

#[test]
fn anagrams_share_a_group_in_order() {
    let mut d = Dictionary::new();
    assert!(d.add_word("foo").is_err());
    let m = d.add_word("ab").unwrap();
    assert_eq!(d.add_word("ba"), Ok(m));
    d.add_word("c").unwrap();
    assert_eq!(d.masks, vec![1 | 2, 4]);
    assert_eq!(d.lookup(m).unwrap(), &vec!["ab".to_string(), "ba".to_string()]);
    assert!(d.lookup(8).is_none());
}

#[test]
fn solution_expands_to_word_tuples() {
    let mut d = Dictionary::new();
    for w in ["fo", "of", "bar"] {
        d.add_word(w).unwrap();
    }
    let a = word_to_bitmap("fo").unwrap();
    let b = word_to_bitmap("bar").unwrap();
    let tuples = materialize(&vec![a, b], &d).unwrap();
    let mut lines: Vec<String> = tuples
        .iter()
        .map(|t| t.iter().map(|w| w.as_str()).collect::<Vec<_>>().join(" "))
        .collect();
    lines.sort();
    assert_eq!(lines, vec!["fo bar".to_string(), "of bar".to_string()]);
}

#[test]
fn unknown_mask_skips_solution() {
    let mut d = Dictionary::new();
    d.add_word("abc").unwrap();
    assert!(materialize(&vec![7, 8], &d).is_none());
}

#[test]
fn arguments_name_input_and_output() {
    let args: Vec<String> = vec!["prog".into(), "in.txt".into(), "out.txt".into()];
    let io = parse_input_ouput_args(&args).unwrap();
    assert_eq!(io.input(), "in.txt");
    assert_eq!(io.output(), "out.txt");
    let one: Vec<String> = vec!["prog".into()];
    assert_eq!(parse_input_ouput_args(&one).err(), Some(ArgsError::MissingInput));
    let two: Vec<String> = vec!["prog".into(), "in.txt".into()];
    assert_eq!(parse_input_ouput_args(&two).err(), Some(ArgsError::MissingOutput));
    assert_eq!(ArgsError::MissingOutput.message(), "output file required");
}
