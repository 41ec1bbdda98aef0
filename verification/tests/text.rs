use fnscan::text::{same_text, slice_text};

#[test]
fn same_text_compares_whole_strings() {
    assert!(same_text("", ""));
    assert!(same_text("f1", "f1"));
    assert!(same_text("größe", "größe"));
    assert!(!same_text("f1", "f2"));
    assert!(!same_text("f1", "f"));
    assert!(!same_text("f", "f1"));
    assert!(!same_text("", "a"));
    assert!(!same_text("F1", "f1"));
}

#[test]
fn slice_of_ascii_text() {
    let source = "fn f1(x: u32) { }";
    assert_eq!(slice_text(source, 3, 5), Some("f1"));
    assert_eq!(slice_text(source, 6, 7), Some("x"));
    assert_eq!(slice_text(source, 9, 12), Some("u32"));
    assert_eq!(slice_text(source, 0, 17), Some(source));
    assert_eq!(slice_text(source, 17, 17), Some(""));
    assert_eq!(slice_text(source, 0, 0), Some(""));
}

#[test]
fn slice_outside_the_text_is_nothing() {
    let source = "fn f1";
    assert_eq!(slice_text(source, 0, 6), None);
    assert_eq!(slice_text(source, 6, 6), None);
    assert_eq!(slice_text(source, 3, 2), None);
    assert_eq!(slice_text(source, usize::MAX, usize::MAX), None);
    assert_eq!(slice_text("", 0, 1), None);
    assert_eq!(slice_text("", 0, 0), Some(""));
}

#[test]
fn slice_that_cuts_a_character_is_nothing() {
    let source = "aé€😀z";
    assert_eq!(source.len(), 11);
    assert_eq!(slice_text(source, 1, 3), Some("é"));
    assert_eq!(slice_text(source, 3, 6), Some("€"));
    assert_eq!(slice_text(source, 6, 10), Some("😀"));
    assert_eq!(slice_text(source, 1, 10), Some("é€😀"));
    assert_eq!(slice_text(source, 10, 11), Some("z"));
    assert_eq!(slice_text(source, 2, 3), None);
    assert_eq!(slice_text(source, 1, 2), None);
    assert_eq!(slice_text(source, 4, 6), None);
    assert_eq!(slice_text(source, 6, 9), None);
    assert_eq!(slice_text(source, 7, 11), None);
}
