use category_predictor::aggregate::{aggregate, predict};
use category_predictor::category::Category;
use category_predictor::scores::{get_largest_output, ScoreMap};
use category_predictor::table::NeighbourTable;
use category_predictor::token::Token;

fn list(entries: &[&str]) -> Vec<String> {
    entries.iter().map(|e| e.to_string()).collect()
}

fn table(lines: &[(&str, &str, u32)]) -> NeighbourTable {
    let mut table = NeighbourTable::new();
    for (neighbour, category, count) in lines {
        table.insert(neighbour, category, *count);
    }
    table
}

fn token(word: &str, vocab_index: usize, weight: u8) -> Token {
    Token { word: word.to_string(), vocab_index, weight }
}

fn lines(scores: &ScoreMap) -> Vec<(String, u64)> {
    (0..scores.len()).map(|i| scores.entry(i)).collect()
}

#[test]
fn category_text_is_parent_then_category() {
    let record = Category {
        parent: "Food".to_string(),
        category: "Pizza".to_string(),
        url: "https://example.org/pizza".to_string(),
    };
    assert_eq!(record.to_string(), "Food Pizza");
}

#[test]
fn table_keeps_one_line_for_each_pair() {
    let mut table = NeighbourTable::new();
    assert_eq!(table.len(), 0);
    assert_eq!(table.insert("delivery", "Food", 3), None);
    assert_eq!(table.insert("delivery", "Other", 1), None);
    assert_eq!(table.insert("oven", "Food", 2), None);
    assert_eq!(table.insert("delivery", "Food", 7), Some(3));
    assert_eq!(table.len(), 3);
    assert_eq!(table.get("delivery", "Food"), Some(7));
    assert_eq!(table.get("delivery", "Other"), Some(1));
    assert_eq!(table.get("oven", "Other"), None);
    let first = table.entry(0);
    assert_eq!((first.neighbour.as_str(), first.category.as_str(), first.count), ("delivery", "Food", 7));
    let last = table.entry(2);
    assert_eq!((last.neighbour.as_str(), last.category.as_str(), last.count), ("oven", "Food", 2));
}

#[test]
fn scores_add_up_by_category() {
    let mut scores = ScoreMap::with_capacity(2);
    assert_eq!(scores.len(), 0);
    assert_eq!(scores.get("Food"), None);
    scores.add("Food", 300);
    scores.add("Other", 0);
    scores.add("Food", 200);
    assert_eq!(lines(&scores), vec![("Food".to_string(), 500), ("Other".to_string(), 0)]);
    assert_eq!(scores.get("Food"), Some(500));
    assert_eq!(scores.get("Other"), Some(0));
    assert_eq!(scores.get("food"), None);
}

#[test]
fn scores_stop_at_the_cap() {
    let mut scores = ScoreMap::new();
    scores.add("Food", u64::MAX - 1);
    scores.add("Food", 5);
    assert_eq!(scores.get("Food"), Some(u64::MAX));
    scores.add("Food", 1);
    assert_eq!(scores.get("Food"), Some(u64::MAX));
}

#[test]
fn largest_of_nothing_is_nothing() {
    assert_eq!(get_largest_output(&ScoreMap::new()), None);
}

#[test]
fn largest_score_wins() {
    let mut scores = ScoreMap::new();
    scores.add("Other", 100);
    scores.add("Food", 500);
    scores.add("Drinks", 499);
    assert_eq!(get_largest_output(&scores), Some(("Food".to_string(), 500)));
}

#[test]
fn first_of_equal_scores_wins() {
    let mut scores = ScoreMap::new();
    scores.add("Other", 100);
    scores.add("Food", 500);
    scores.add("Drinks", 500);
    assert_eq!(get_largest_output(&scores), Some(("Food".to_string(), 500)));
    let mut scores = ScoreMap::new();
    scores.add("Drinks", 0);
    assert_eq!(get_largest_output(&scores), Some(("Drinks".to_string(), 0)));
}

#[test]
fn count_times_weight_is_added() {
    let tokens = vec![token("international", 0, 92), token("pizza", 1, 100)];
    let store = vec![table(&[("pizza", "Food", 7)]), table(&[])];
    let scores = aggregate(&tokens, &store, 1);
    assert_eq!(lines(&scores), vec![("Food".to_string(), 644)]);
}

#[test]
fn only_neighbours_in_the_window_count() {
    let mut tokens: Vec<Token> = Vec::new();
    tokens.push(token("pizza", 0, 100));
    for i in 1..6 {
        tokens.push(token(&format!("t{}", i), i, 100));
    }
    let mut store = vec![table(&[("t4", "Near", 1), ("t5", "Far", 1), ("pizza", "Self", 1)])];
    for _ in 1..6 {
        store.push(table(&[]));
    }
    let scores = aggregate(&tokens, &store, 0);
    assert_eq!(lines(&scores), vec![("Near".to_string(), 100)]);
}

#[test]
fn absent_neighbours_still_leave_no_line() {
    let tokens = vec![token("pizza", 0, 100), token("oven", 1, 100)];
    let store = vec![table(&[("delivery", "Food", 3), ("oven", "Kitchen", 0)]), table(&[])];
    let scores = aggregate(&tokens, &store, 0);
    assert_eq!(lines(&scores), vec![("Kitchen".to_string(), 0)]);
}

#[test]
fn scores_do_not_depend_on_token_order() {
    let store = vec![
        table(&[("delivery", "Food", 3), ("fast", "Service", 2)]),
        table(&[("pizza", "Food", 2), ("fast", "Service", 5)]),
        table(&[("pizza", "Service", 1), ("delivery", "Other", 4)]),
    ];
    let orders: [[usize; 3]; 6] =
        [[0, 1, 2], [0, 2, 1], [1, 0, 2], [1, 2, 0], [2, 0, 1], [2, 1, 0]];
    let words = ["pizza", "delivery", "fast"];
    let weights = [100u8, 95, 90];
    for order in orders {
        let tokens: Vec<Token> =
            order.iter().map(|&i| token(words[i], i, weights[i])).collect();
        let scores = aggregate(&tokens, &store, 3);
        assert_eq!(scores.len(), 3);
        assert_eq!(scores.get("Food"), Some(3 * 100 + 2 * 95));
        assert_eq!(scores.get("Service"), Some(2 * 100 + 5 * 95 + 90));
        assert_eq!(scores.get("Other"), Some(4 * 90));
    }
}

#[test]
fn pizza_delivery_is_food() {
    let vocab = list(&["pizza", "delivery"]);
    let store = vec![table(&[("delivery", "Food", 3)]), table(&[("pizza", "Food", 2)])];
    let categories = vec!["Food", "Other"];
    let scores = predict("pizza delivery", &vocab, &categories, &store);
    assert_eq!(lines(&scores), vec![("Food".to_string(), 500)]);
    let (category, score) = get_largest_output(&scores).unwrap();
    assert_eq!(category, "Food");
    assert_eq!(score as f32 / 100.0, 3.0 * 1.0 + 2.0 * 1.0);
}

#[test]
fn unrelated_text_predicts_nothing() {
    let vocab = list(&["xyz"]);
    let store = vec![table(&[("text", "Food", 3)])];
    let categories = vec!["Food", "Other"];
    let scores = predict("completely unrelated text", &vocab, &categories, &store);
    assert_eq!(scores.len(), 0);
    assert_eq!(get_largest_output(&scores), None);
}

#[test]
fn empty_text_predicts_nothing() {
    let vocab = list(&["pizza"]);
    let store = vec![table(&[("pizza", "Food", 3)])];
    let scores = predict("", &vocab, &Vec::new(), &store);
    assert_eq!(get_largest_output(&scores), None);
}

#[test]
fn raw_text_is_normalised_before_matching() {
    let vocab = list(&["pizza", "cafe"]);
    let store = vec![table(&[("cafe", "Food", 4)]), table(&[("pizza", "Drinks", 1)])];
    let scores = predict("  PIZZA, Café!  ", &vocab, &vec!["Food"], &store);
    assert_eq!(lines(&scores), vec![("Food".to_string(), 400), ("Drinks".to_string(), 100)]);
    assert_eq!(get_largest_output(&scores), Some(("Food".to_string(), 400)));
}

#[test]
fn category_outside_the_list_is_returned() {
    let vocab = list(&["pizza", "delivery"]);
    let store = vec![table(&[("delivery", "Unlisted", 1)]), table(&[])];
    let scores = predict("pizza delivery", &vocab, &vec!["Food"], &store);
    assert_eq!(get_largest_output(&scores), Some(("Unlisted".to_string(), 100)));
}

#[test]
fn fuzzy_match_weighs_less() {
    let vocab = list(&["international", "pizza"]);
    let store = vec![
        table(&[("pizza", "Food", 7)]),
        table(&[("international", "Travel", 3)]),
    ];
    let scores = predict("internatjonal pizza", &vocab, &vec!["Food", "Travel"], &store);
    assert_eq!(lines(&scores), vec![("Food".to_string(), 644), ("Travel".to_string(), 300)]);
    assert_eq!(get_largest_output(&scores), Some(("Food".to_string(), 644)));
}

#[test]
fn matched_pair_counts_as_one_neighbour() {
    let vocab = list(&["new york", "york", "pizza"]);
    let store = vec![
        table(&[("pizza", "Food", 4), ("york", "City", 9)]),
        table(&[("pizza", "Food", 1)]),
        table(&[("new york", "City", 5), ("york", "City", 2)]),
    ];
    let scores = predict("New York pizza", &vocab, &vec!["City", "Food"], &store);
    assert_eq!(lines(&scores), vec![("Food".to_string(), 400), ("City".to_string(), 500)]);
    assert_eq!(get_largest_output(&scores), Some(("City".to_string(), 500)));
}
