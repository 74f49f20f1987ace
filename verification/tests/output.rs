use phone_encoder::dictionary::build_dictionary;
use phone_encoder::output::format_solution;
use phone_encoder::search::encode_number;

#[test]
fn line_has_colon_and_spaced_tokens() {
    let sol: Vec<String> = vec!["mir".to_string(), "Tor".to_string()];
    assert_eq!(format_solution("5624-82", &sol), "5624-82: mir Tor");
}

#[test]
fn single_token_line() {
    let sol: Vec<String> = vec!["Torf".to_string()];
    assert_eq!(format_solution("4824", &sol), "4824: Torf");
}

#[test]
fn empty_number_formats_as_bare_colon() {
    let dict = build_dictionary(&Vec::new());
    let solutions = encode_number("", &dict);
    assert_eq!(solutions.len(), 1);
    assert_eq!(format_solution("", &solutions[0]), ":");
}
