use rlox::text::{decimal_text, same_text, slice_text};

#[test]
fn slice_text_cuts_on_character_boundaries() {
    assert_eq!(slice_text("hello", 0, 5), "hello");
    assert_eq!(slice_text("hello", 1, 3), "el");
    assert_eq!(slice_text("hello", 2, 2), "");
    assert_eq!(slice_text("aé→b", 1, 3), "é");
    assert_eq!(slice_text("aé→b", 3, 6), "→");
    assert_eq!(slice_text("aé→b", 0, 7), "aé→b");
    assert_eq!(slice_text("", 0, 0), "");
}

#[test]
fn slice_text_is_empty_off_the_boundaries() {
    assert_eq!(slice_text("aé→b", 1, 2), "");
    assert_eq!(slice_text("aé→b", 2, 3), "");
    assert_eq!(slice_text("aé→b", 2, 2), "");
    assert_eq!(slice_text("aé→b", 4, 7), "");
}

#[test]
fn same_text_compares_every_character() {
    assert!(same_text("", ""));
    assert!(same_text("while", "while"));
    assert!(same_text("é→", "é→"));
    assert!(!same_text("while", "whilf"));
    assert!(!same_text("while", "whil"));
    assert!(!same_text("whil", "while"));
    assert!(!same_text("", "a"));
    assert!(!same_text("If", "if"));
}

#[test]
fn decimal_text_writes_numbers_without_leading_zeros() {
    assert_eq!(decimal_text(0), "0");
    assert_eq!(decimal_text(7), "7");
    assert_eq!(decimal_text(9), "9");
    assert_eq!(decimal_text(10), "10");
    assert_eq!(decimal_text(4096), "4096");
    assert_eq!(decimal_text(1_000_000), "1000000");
    assert_eq!(decimal_text(1234567890), "1234567890");
    assert_eq!(decimal_text(usize::MAX), usize::MAX.to_string());
}
