use phone_encoder::encoding::char_to_digit;
use phone_encoder::encoding::digits_of;
use phone_encoder::encoding::is_digit;
use phone_encoder::encoding::word_to_number;

#[test]
fn keypad_mapping() {
    let groups: [(&str, u32); 10] = [
        ("eE", 0),
        ("jnqJNQ", 1),
        ("rwxRWX", 2),
        ("dsyDSY", 3),
        ("ftFT", 4),
        ("amAM", 5),
        ("civCIV", 6),
        ("bkuBKU", 7),
        ("lopLOP", 8),
        ("ghzGHZ", 9),
    ];
    for (letters, digit) in groups {
        for ch in letters.chars() {
            assert_eq!(char_to_digit(ch), digit);
        }
    }
}

#[test]
fn filler_recognition() {
    assert!(is_digit("0"));
    assert!(is_digit("5"));
    assert!(is_digit("9"));
    assert!(!is_digit("a"));
    assert!(!is_digit("12"));
    assert!(!is_digit(""));
    assert!(!is_digit("Tor"));
}

#[test]
fn word_values() {
    assert_eq!(word_to_number("an"), vec![5, 1]);
    assert_eq!(word_to_number("mir"), vec![5, 6, 2]);
    assert_eq!(word_to_number("Torf"), vec![4, 8, 2, 4]);
    assert_eq!(word_to_number("fort"), vec![4, 8, 2, 4]);
}

#[test]
fn word_value_skips_non_letters() {
    assert_eq!(word_to_number("a'b"), vec![5, 7]);
    assert_eq!(word_to_number("je-mand"), word_to_number("jemand"));
    assert_eq!(word_to_number(""), Vec::<u8>::new());
    assert_eq!(word_to_number("''"), Vec::<u8>::new());
}

#[test]
fn word_value_case_insensitive() {
    assert_eq!(word_to_number("Tree"), word_to_number("tree"));
    assert_eq!(word_to_number("BLAU"), word_to_number("blau"));
    assert_eq!(word_to_number("MiXeR"), word_to_number("mixer"));
}

#[test]
fn number_digits() {
    assert_eq!(digits_of("5624-82"), vec![5, 6, 2, 4, 8, 2]);
    assert_eq!(digits_of("0721/608-4067"), vec![0, 7, 2, 1, 6, 0, 8, 4, 0, 6, 7]);
    assert_eq!(digits_of(""), Vec::<u8>::new());
    assert_eq!(digits_of("--/"), Vec::<u8>::new());
}
