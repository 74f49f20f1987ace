use phone_encoder::dictionary::build_dictionary;
use phone_encoder::dictionary::Dictionary;
use phone_encoder::encoding::digits_of;
use phone_encoder::encoding::is_digit;
use phone_encoder::encoding::word_to_number;
use phone_encoder::search::encode;
use phone_encoder::search::encode_number;

fn sample_dictionary() -> Dictionary {
    let words: Vec<String> = [
        "an", "blau", "Boot", "bout", "da", "Fee", "fern", "Fest", "fort", "je", "jemand", "mir",
        "Mix", "Mixer", "Name", "neun", "o", "Reh", "Rum", "Schi", "sehr", "Tor", "Torf", "Wasser",
    ]
    .iter()
    .map(|w| w.to_string())
    .collect();
    build_dictionary(&words)
}

fn tokens(sol: &[&str]) -> Vec<String> {
    sol.iter().map(|t| t.to_string()).collect()
}

#[test]
fn canonical_number() {
    let dict = sample_dictionary();
    let solutions = encode_number("5624-82", &dict);
    assert_eq!(solutions, vec![tokens(&["mir", "Tor"]), tokens(&["Mix", "Tor"])]);
}

#[test]
fn words_before_filler_in_emission_order() {
    let dict = sample_dictionary();
    let solutions = encode_number("4824", &dict);
    assert_eq!(
        solutions,
        vec![tokens(&["Tor", "4"]), tokens(&["fort"]), tokens(&["Torf"])]
    );
}

#[test]
fn unencodable_number_has_no_solutions() {
    let dict = sample_dictionary();
    // No word value is a prefix of 3926, and two fillers may not be
    // adjacent, so nothing is emitted: in particular neither "Name"
    // (value 1550) nor "mir Tor" (value 562482) appears.
    let solutions = encode_number("3926", &dict);
    assert_eq!(solutions, Vec::<Vec<String>>::new());
}

#[test]
fn adjacent_fillers_block_fallback() {
    let empty = build_dictionary(&Vec::new());
    let solutions = encode(&vec![1, 1], &empty);
    assert_eq!(solutions, Vec::<Vec<String>>::new());
}

#[test]
fn single_digit_falls_back() {
    let dict = sample_dictionary();
    let solutions = encode_number("7", &dict);
    assert_eq!(solutions, vec![tokens(&["7"])]);
}

#[test]
fn single_digit_word_match() {
    let dict = sample_dictionary();
    let solutions = encode_number("8", &dict);
    assert_eq!(solutions, vec![tokens(&["o"])]);
}

#[test]
fn filler_then_word() {
    let dict = sample_dictionary();
    let solutions = encode_number("1482", &dict);
    assert_eq!(solutions, vec![tokens(&["1", "Tor"])]);
}

#[test]
fn empty_number_one_empty_solution() {
    let dict = sample_dictionary();
    let solutions = encode_number("", &dict);
    assert_eq!(solutions, vec![Vec::<String>::new()]);
}

#[test]
fn whole_word_match_is_exact() {
    let dict = sample_dictionary();
    let solutions = encode_number("482", &dict);
    assert_eq!(solutions, vec![tokens(&["Tor"])]);
}

#[test]
fn duplicate_words_emitted_twice() {
    let words: Vec<String> = vec!["Tor".to_string(), "Tor".to_string()];
    let dict = build_dictionary(&words);
    let solutions = encode_number("482", &dict);
    assert_eq!(solutions, vec![tokens(&["Tor"]), tokens(&["Tor"])]);
}

#[test]
fn empty_word_is_tolerated() {
    let words: Vec<String> = vec!["".to_string(), "'".to_string(), "Tor".to_string()];
    let dict = build_dictionary(&words);
    let solutions = encode_number("482", &dict);
    assert_eq!(solutions, vec![tokens(&["Tor"])]);
}

#[test]
fn solutions_spell_the_digits_back() {
    let dict = sample_dictionary();
    for num in ["5624-82", "4824", "10/783--5", "381482", "04824"] {
        let solutions = encode_number(num, &dict);
        for sol in &solutions {
            let mut spelled: Vec<u8> = Vec::new();
            for token in sol {
                if is_digit(token) {
                    spelled.push(token.bytes().next().unwrap() - b'0');
                } else {
                    spelled.extend(word_to_number(token));
                }
            }
            assert_eq!(spelled, digits_of(num));
        }
    }
}

#[test]
fn no_solution_holds_adjacent_fillers() {
    let dict = sample_dictionary();
    for num in ["5624-82", "4824", "10/783--5", "381482", "04824", "1078-913-5"] {
        let solutions = encode_number(num, &dict);
        for sol in &solutions {
            for pair in sol.windows(2) {
                assert!(!(is_digit(&pair[0]) && is_digit(&pair[1])));
            }
        }
    }
}

#[test]
fn rebuilding_preserves_emission_order() {
    let first = sample_dictionary();
    let second = sample_dictionary();
    for num in ["5624-82", "4824", "107835", "112"] {
        assert_eq!(encode_number(num, &first), encode_number(num, &second));
    }
}
