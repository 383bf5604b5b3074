use category_predictor::matcher::{
    apply_penalty, find_most_similar_word_in_vocab, penalized_ratio, select_best, PENALTY,
};

fn vocab(entries: &[&str]) -> Vec<String> {
    entries.iter().map(|e| e.to_string()).collect()
}

#[test]
fn self_match_is_perfect() {
    for word in ["pizza", "new york", "a", "x_1", "delivery"] {
        let found = find_most_similar_word_in_vocab(word, &vocab(&[word]), 100);
        assert_eq!(found, Some((0, word.to_string(), 100)));
    }
}

#[test]
fn no_entry_above_threshold_gives_none() {
    let found = find_most_similar_word_in_vocab("completely", &vocab(&["xyz", "abc"]), 90);
    assert_eq!(found, None);
}

#[test]
fn empty_vocabulary_gives_none() {
    assert_eq!(find_most_similar_word_in_vocab("pizza", &vocab(&[]), 0), None);
}

#[test]
fn length_difference_costs_the_penalty() {
    assert_eq!(PENALTY, 5);
    assert_eq!(penalized_ratio("this is a test", "this is a test!"), 92);
    assert_eq!(penalized_ratio("hello test", "hello world"), 52);
    let found = find_most_similar_word_in_vocab("this is a test", &vocab(&["this is a test!"]), 92);
    assert_eq!(found, Some((0, "this is a test!".to_string(), 92)));
    let found = find_most_similar_word_in_vocab("this is a test", &vocab(&["this is a test!"]), 93);
    assert_eq!(found, None);
}

#[test]
fn equal_length_costs_nothing() {
    assert_eq!(penalized_ratio("pizza", "pizze"), 80);
    assert_eq!(penalized_ratio("internatjonal", "international"), 92);
}

#[test]
fn leading_dash_costs_the_penalty() {
    assert_eq!(penalized_ratio("-abc", "-abc"), 95);
    let entries = vocab(&["-abc"]);
    assert_eq!(
        find_most_similar_word_in_vocab("-abc", &entries, 95),
        Some((0, "-abc".to_string(), 95))
    );
    assert_eq!(find_most_similar_word_in_vocab("-abc", &entries, 96), None);
}

#[test]
fn every_structural_start_costs_the_penalty() {
    for entry in ["-x", "=x", "(x", ")x"] {
        assert_eq!(penalized_ratio(entry, entry), 95);
    }
    for entry in ["+x", "x-", "_x", "[x"] {
        assert_eq!(penalized_ratio(entry, entry), 100);
    }
}

#[test]
fn penalty_applies_once() {
    // 13 characters are shared, of 14 and 15: 90 before the penalty, which
    // is due for two reasons at once.
    assert_eq!(penalized_ratio("this is a test", "-his is a test!"), 85);
}

#[test]
fn penalty_is_floored_at_zero() {
    assert_eq!(penalized_ratio("ab", "xyz"), 0);
    assert_eq!(penalized_ratio("abc", "xyz"), 0);
    let found = find_most_similar_word_in_vocab("ab", &vocab(&["xyz"]), 0);
    assert_eq!(found, Some((0, "xyz".to_string(), 0)));
    assert_eq!(find_most_similar_word_in_vocab("ab", &vocab(&["xyz"]), 1), None);
}

#[test]
fn best_entry_wins_wherever_it_stands() {
    let entries = vocab(&["zzzzz", "pizze", "pizza", "qqqqq"]);
    let found = find_most_similar_word_in_vocab("pizza", &entries, 50);
    assert_eq!(found, Some((2, "pizza".to_string(), 100)));
    let entries = vocab(&["pizza", "pizze", "zzzzz"]);
    let found = find_most_similar_word_in_vocab("pizza", &entries, 50);
    assert_eq!(found, Some((0, "pizza".to_string(), 100)));
}

#[test]
fn equal_scores_go_to_the_lowest_index() {
    assert_eq!(penalized_ratio("ab", "ax"), 50);
    assert_eq!(penalized_ratio("ab", "xb"), 50);
    let found = find_most_similar_word_in_vocab("ab", &vocab(&["zz", "ax", "xb"]), 50);
    assert_eq!(found, Some((1, "ax".to_string(), 50)));
    let found = find_most_similar_word_in_vocab("ab", &vocab(&["xb", "zz", "ax"]), 50);
    assert_eq!(found, Some((0, "xb".to_string(), 50)));
}

#[test]
fn threshold_above_hundred_never_matches() {
    assert_eq!(find_most_similar_word_in_vocab("pizza", &vocab(&["pizza"]), 101), None);
}

#[test]
fn matching_is_case_sensitive() {
    assert_eq!(penalized_ratio("pizza", "PIZZA"), 0);
    assert_eq!(find_most_similar_word_in_vocab("pizza", &vocab(&["PIZZA"]), 90), None);
}

#[test]
fn empty_texts_are_alike() {
    assert_eq!(penalized_ratio("", ""), 100);
    assert_eq!(penalized_ratio("", "abc"), 0);
}

#[test]
fn large_vocabulary_keeps_its_order() {
    let mut entries: Vec<String> = Vec::new();
    for i in 0..2000 {
        entries.push(format!("entry number {}", i));
    }
    let found = find_most_similar_word_in_vocab("entry number 1234", &entries, 90);
    assert_eq!(found, Some((1234, "entry number 1234".to_string(), 100)));
}

#[test]
fn penalty_is_taken_from_a_given_ratio() {
    assert_eq!(apply_penalty(97, "this is a test", "this is a test!"), 92);
    assert_eq!(apply_penalty(100, "-abc", "-abc"), 95);
    assert_eq!(apply_penalty(100, "abc", "abc"), 100);
    assert_eq!(apply_penalty(5, "ab", "abc"), 0);
    assert_eq!(apply_penalty(4, "ab", "abc"), 0);
    assert_eq!(apply_penalty(0, "ab", "(b"), 0);
    assert_eq!(apply_penalty(90, "", ""), 90);
}

#[test]
fn winner_is_picked_from_given_ratios() {
    assert_eq!(select_best(&vec![10, 95, 95], 90), Some(1));
    assert_eq!(select_best(&vec![10, 95, 96], 90), Some(2));
    assert_eq!(select_best(&vec![10, 89, 0], 90), None);
    assert_eq!(select_best(&vec![90], 90), Some(0));
    assert_eq!(select_best(&vec![0, 0], 0), Some(0));
    assert_eq!(select_best(&vec![], 0), None);
}
