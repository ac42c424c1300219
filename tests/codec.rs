use full_alphabe::{word_to_bitmap, BitmapError};

#[test]
fn distinct_letters_give_one_bit_each() {
    let m = word_to_bitmap("abcde").unwrap();
    assert_eq!(m, 0b11111);
    assert_eq!(m.count_ones(), 5);
}

#[test]
fn repeated_letter_is_reported() {
    assert_eq!(word_to_bitmap("hello"), Err(BitmapError::NotUnique('l')));
}

#[test]
fn first_repeated_letter_is_reported() {
    assert_eq!(word_to_bitmap("abba"), Err(BitmapError::NotUnique('b')));
}

#[test]
fn letter_bits_follow_the_alphabet() {
    assert_eq!(word_to_bitmap("a"), Ok(1));
    assert_eq!(word_to_bitmap("z"), Ok(1 << 25));
    assert_eq!(word_to_bitmap("fjord"), Ok((1 << 5) | (1 << 9) | (1 << 14) | (1 << 17) | (1 << 3)));
}

#[test]
fn empty_word_is_the_empty_mask() {
    assert_eq!(word_to_bitmap(""), Ok(0));
}

#[test]
fn popcount_matches_length() {
    for w in ["fjord", "gucks", "nymph", "vibex", "waltz", "quiz"] {
        let m = word_to_bitmap(w).unwrap();
        assert_eq!(m.count_ones() as usize, w.len());
    }
}

#[test]
fn disjoint_words_concatenate_to_the_union() {
    let a = word_to_bitmap("fjord").unwrap();
    let b = word_to_bitmap("gucks").unwrap();
    assert_eq!(a & b, 0);
    assert_eq!(word_to_bitmap("fjordgucks"), Ok(a | b));
    assert_eq!((a | b).count_ones(), a.count_ones() + b.count_ones());
}
