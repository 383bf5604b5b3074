use category_predictor::driver::{is_pair_start, join_pair, tokenize, MATCH_THRESHOLD};
use category_predictor::text::{is_ascii_list, holds_text};
use category_predictor::token::{get_token_neighbours, Token, MAX_TOKEN_NEIGHBOUR_WINDOW};

fn list(entries: &[&str]) -> Vec<String> {
    entries.iter().map(|e| e.to_string()).collect()
}

fn shown(tokens: &Vec<Token>) -> Vec<(String, usize, u8)> {
    tokens.iter().map(|t| (t.word.clone(), t.vocab_index, t.weight)).collect()
}

fn numbered(n: usize) -> Vec<Token> {
    (0..n).map(|i| Token { word: format!("t{}", i), vocab_index: i, weight: 100 }).collect()
}

#[test]
fn bigram_is_preferred() {
    let tokens = tokenize(&list(&["new", "york"]), &list(&["new york", "york"]));
    assert_eq!(shown(&tokens), vec![("new york".to_string(), 0, 100)]);
}

#[test]
fn threshold_is_ninety() {
    assert_eq!(MATCH_THRESHOLD, 90);
}

#[test]
fn single_words_match_when_the_pair_does_not() {
    let tokens = tokenize(&list(&["pizza", "delivery"]), &list(&["pizza", "delivery"]));
    assert_eq!(
        shown(&tokens),
        vec![("pizza".to_string(), 0, 100), ("delivery".to_string(), 1, 100)]
    );
}

#[test]
fn unknown_words_leave_no_token() {
    let tokens = tokenize(&list(&["completely", "unrelated", "text"]), &list(&["xyz"]));
    assert!(tokens.is_empty());
    let tokens = tokenize(&list(&["fresh", "pizza", "today"]), &list(&["pizza"]));
    assert_eq!(shown(&tokens), vec![("pizza".to_string(), 0, 100)]);
}

#[test]
fn no_words_no_tokens() {
    assert!(tokenize(&list(&[]), &list(&["pizza"])).is_empty());
    assert!(tokenize(&list(&["pizza"]), &list(&[])).is_empty());
}

#[test]
fn consumption_goes_by_text() {
    let tokens = tokenize(&list(&["new", "york", "york"]), &list(&["new york", "york"]));
    assert_eq!(shown(&tokens), vec![("new york".to_string(), 0, 100)]);
}

#[test]
fn word_is_matched_before_it_is_consumed() {
    let tokens = tokenize(&list(&["york", "pizza", "new", "york"]), &list(&["new york", "york"]));
    assert_eq!(
        shown(&tokens),
        vec![("york".to_string(), 1, 100), ("new york".to_string(), 0, 100)]
    );
}

#[test]
fn odd_positions_start_no_pair() {
    let tokens = tokenize(&list(&["the", "new", "york"]), &list(&["new york"]));
    assert!(tokens.is_empty());
    let tokens = tokenize(&list(&["the", "big", "new", "york"]), &list(&["new york"]));
    assert_eq!(shown(&tokens), vec![("new york".to_string(), 0, 100)]);
}

#[test]
fn close_texts_match_with_their_score() {
    let vocab = list(&["international", "pizza delivery services"]);
    let tokens = tokenize(&list(&["internatjonal"]), &vocab);
    assert_eq!(shown(&tokens), vec![("international".to_string(), 0, 92)]);
    let tokens = tokenize(&list(&["piza"]), &list(&["pizza"]));
    assert!(tokens.is_empty());
}

#[test]
fn window_reaches_four_to_each_side() {
    assert_eq!(MAX_TOKEN_NEIGHBOUR_WINDOW, 4);
    let tokens = numbered(10);
    assert_eq!(get_token_neighbours(&tokens, 0), list(&["t1", "t2", "t3", "t4"]));
    assert_eq!(
        get_token_neighbours(&tokens, 5),
        list(&["t1", "t2", "t3", "t4", "t6", "t7", "t8", "t9"])
    );
    assert_eq!(get_token_neighbours(&tokens, 9), list(&["t5", "t6", "t7", "t8"]));
    assert_eq!(get_token_neighbours(&tokens, 3), list(&["t0", "t1", "t2", "t4", "t5", "t6", "t7"]));
}

#[test]
fn lone_token_has_no_neighbours() {
    assert!(get_token_neighbours(&numbered(1), 0).is_empty());
    assert_eq!(get_token_neighbours(&numbered(2), 1), list(&["t0"]));
}

#[test]
fn ascii_lists_are_told_apart() {
    assert!(is_ascii_list(&list(&["pizza", "new york", ""])));
    assert!(is_ascii_list(&list(&[])));
    assert!(!is_ascii_list(&list(&["pizza", "café"])));
}

#[test]
fn texts_are_found_in_lists() {
    let words = list(&["new", "york"]);
    assert!(holds_text(&words, &"york".to_string()));
    assert!(!holds_text(&words, &"yor".to_string()));
    assert!(!holds_text(&list(&[]), &"york".to_string()));
}

#[test]
fn pairs_start_at_even_positions_before_the_last() {
    assert!(is_pair_start(0, 2));
    assert!(!is_pair_start(1, 3));
    assert!(is_pair_start(2, 4));
    assert!(!is_pair_start(2, 3));
    assert!(!is_pair_start(0, 1));
    assert!(!is_pair_start(0, 0));
    assert!(!is_pair_start(usize::MAX - 1, usize::MAX));
}

#[test]
fn pair_is_joined_by_one_space() {
    assert_eq!(join_pair("new", "york"), "new york");
    assert_eq!(join_pair("", ""), " ");
}
