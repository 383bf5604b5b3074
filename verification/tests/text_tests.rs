use category_predictor::text::{normalize, split_words};

fn words(input: &str) -> Vec<String> {
    normalize(input)
}

#[test]
fn empty_input_has_no_words() {
    assert!(words("").is_empty());
}

#[test]
fn diacritics_are_removed() {
    assert_eq!(words("café"), vec!["cafe".to_string()]);
}

#[test]
fn punctuation_only_input_has_no_words() {
    assert!(words("?!... -- ;:,() ").is_empty());
}

#[test]
fn capitals_are_lowered() {
    assert_eq!(words("Pizza DELIVERY"), vec!["pizza".to_string(), "delivery".to_string()]);
}

#[test]
fn underscores_and_digits_belong_to_words() {
    assert_eq!(
        words("snake_style 42nd-street"),
        vec!["snake_style".to_string(), "42nd".to_string(), "street".to_string()]
    );
}

#[test]
fn transliterated_capitals_are_lowered() {
    assert_eq!(words("北亰"), vec!["bei".to_string(), "jing".to_string()]);
}

#[test]
fn words_match_the_word_pattern() {
    let pattern = regex::Regex::new(r"\w+").unwrap();
    for input in [
        "Hello, World!",
        "  leading and trailing  ",
        "a_b-c.d",
        "Ærøskøbing-Straße 12",
        "x",
        "___",
        "tabs\tand\nnewlines",
        "",
    ] {
        let ascii = unidecode::unidecode(input).to_lowercase();
        let expected: Vec<String> =
            pattern.find_iter(&ascii).map(|m| m.as_str().to_string()).collect();
        assert_eq!(words(input), expected);
    }
}

#[test]
fn every_word_is_plain() {
    for word in words("Ünïcödé, MiXeD_Case; 123 ©®™ 北亰!") {
        assert!(!word.is_empty());
        assert!(word.chars().all(|c| c.is_ascii_lowercase() || c.is_ascii_digit() || c == '_'));
    }
}

#[test]
fn ascii_text_is_split_as_it_stands() {
    assert_eq!(
        split_words("New_York, NY 10001!"),
        vec!["new_york".to_string(), "ny".to_string(), "10001".to_string()]
    );
    assert!(split_words(" \t\n").is_empty());
    assert_eq!(split_words("a"), vec!["a".to_string()]);
    assert_eq!(split_words("@Z[`z{"), vec!["z".to_string(), "z".to_string()]);
    assert_eq!(split_words("/09:"), vec!["09".to_string()]);
}
