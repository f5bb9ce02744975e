use mortar::text::{chars_of, copy_strings, decimal, holds_string};

#[test]
fn numbers_in_decimal_digits() {
    for number in [0u128, 1, 9, 10, 11, 99, 100, 101, 12345678901234567890, u128::MAX] {
        assert_eq!(decimal(number), number.to_string());
    }
}

#[test]
fn characters_of_a_text() {
    assert_eq!(chars_of(""), Vec::<char>::new());
    assert_eq!(chars_of("a\u{e9}\u{1f62d}\n"), vec!['a', '\u{e9}', '\u{1f62d}', '\n']);
}

#[test]
fn strings_are_copied_and_found() {
    let strings = vec!["a".to_owned(), "".to_owned(), "b c".to_owned()];
    assert_eq!(copy_strings(&strings), strings);
    assert!(holds_string(&strings, &"".to_owned()));
    assert!(holds_string(&strings, &"b c".to_owned()));
    assert!(!holds_string(&strings, &"b".to_owned()));
    assert!(!holds_string(&vec![], &"a".to_owned()));
}
