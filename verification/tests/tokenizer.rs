use markov_brain::tokenizer::tokenize;

fn tokens_of(s: &str) -> Vec<String> {
    tokenize(s)
}

#[test]
fn tokenize_hello_world() {
    let actual = tokens_of("Hello, World!");
    let expected = vec!["Hello", ",", " ", "World", "!"];
    assert_eq!(actual, expected);
}

#[test]
fn tokenize_include_line() {
    let actual = tokens_of("#include <coffee.h>");
    let expected = vec!["#", "include", " ", "<", "coffee", ".", "h", ">"];
    assert_eq!(actual, expected);
}

#[test]
fn tokenize_arithmetic() {
    let actual = tokens_of("123 + 234 = 0xCAFEBABE");
    let expected = vec!["123", " ", "+", " ", "234", " ", "=", " ", "0xCAFEBABE"];
    assert_eq!(actual, expected);
}

#[test]
fn tokenize_empty_is_empty() {
    assert_eq!(tokens_of(""), Vec::<String>::new());
}

#[test]
fn tokenize_all_alphanumeric_is_one_token() {
    assert_eq!(tokens_of("abc123XYZ"), vec!["abc123XYZ"]);
}

#[test]
fn tokenize_consecutive_spaces_stay_separate() {
    assert_eq!(tokens_of("a  b"), vec!["a", " ", " ", "b"]);
}

#[test]
fn tokenize_multibyte_characters() {
    let actual = tokens_of("héllo… wörld");
    let expected = vec!["héllo", "…", " ", "wörld"];
    assert_eq!(actual, expected);
}

#[test]
fn tokenize_round_trip() {
    let inputs = [
        "",
        "Hello, World!",
        "123 + 234 = 0xCAFEBABE",
        "  leading and trailing  ",
        "héllo… wörld! ∀x∃y",
        "no-punctuation-survives\nnewlines\ttabs",
    ];
    for s in inputs {
        let joined: String = tokens_of(s).concat();
        assert_eq!(joined, s);
    }
}
