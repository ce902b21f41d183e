use blue_prince::letters::{has_numbers, transpose_to_letters, transpose_to_numbers};

#[test]
fn test_transpose_to_numbers() {
    assert_eq!(transpose_to_numbers("ABCD"), [1, 2, 3, 4]);
    assert_eq!(transpose_to_numbers("WXYZ"), [23, 24, 25, 26]);
    assert_eq!(transpose_to_numbers("abcd"), [1, 2, 3, 4]);
    assert_eq!(transpose_to_numbers("wxyz"), [23, 24, 25, 26]);
}

#[test]
fn test_transpose_to_letters() {
    assert_eq!(transpose_to_letters(1), 'A');
    assert_eq!(transpose_to_letters(26), 'Z');
    assert_eq!(transpose_to_letters(13), 'M');
}

#[test]
fn short_and_long_words_as_numbers() {
    assert_eq!(transpose_to_numbers(""), [0, 0, 0, 0]);
    assert_eq!(transpose_to_numbers("Hi"), [8, 9, 0, 0]);
    assert_eq!(transpose_to_numbers("Zebra"), [26, 5, 2, 18]);
}

#[test]
fn numbers_and_letters_read_back() {
    for n in 1..=26u16 {
        let letter = transpose_to_letters(n);
        assert_eq!(transpose_to_numbers(&letter.to_string())[0], n);
    }
    // Only the low byte of the number counts.
    assert_eq!(transpose_to_letters(256 + 2), 'B');
    assert_eq!(transpose_to_letters(0), '@');
}

#[test]
fn words_that_have_numbers() {
    assert!(has_numbers(""));
    assert!(has_numbers("Word"));
    assert!(has_numbers("ab"));
    assert!(has_numbers("abcd1234"));
    assert!(!has_numbers("a1"));
    assert!(!has_numbers(" abc"));
    assert!(!has_numbers("abc-"));
}
