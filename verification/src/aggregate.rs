//! Aggregation of category scores over the matched tokens of a query.
//!
//! Each token brings one item of work: its weight, the texts of the tokens
//! around it, and the table kept for its vocabulary entry. A line of the table
//! counts when its neighbour is among those texts; it then adds its count
//! times the token's weight to the score of its category.

use crate::driver::{matched_tokens, tokenize};
use crate::scores::{
    lemma_scores_ignore_order, lemma_tally_push, score_table, tally, ScoreMap, Term,
};
use crate::table::{EntryView, NeighbourTable};
use crate::text::{all_ascii, holds_text, normalize, normalized_words, texts};
use crate::token::{
    get_token_neighbours, neighbour_words, token_views, token_words, Token, TokenView,
    MAX_TOKEN_NEIGHBOUR_WINDOW,
};
use vstd::multiset::Multiset;
use vstd::prelude::*;

verus! {

/// The work that one token brings.
pub struct Item {
    /// The token's weight in hundredths.
    pub weight: nat,
    /// The texts of the tokens in the token's window.
    pub window: Set<Seq<char>>,
    /// The table kept for the token's vocabulary entry.
    pub table: Seq<EntryView>,
}

/// The terms that the first `n` lines of a table contribute: one for each
/// line whose neighbour is in the window, in the order of the lines.
pub open spec fn line_terms(
    weight: nat,
    window: Set<Seq<char>>,
    table: Seq<EntryView>,
    n: nat,
) -> Seq<Term>
    decreases n,
{
    if n == 0 {
        Seq::empty()
    } else {
        let before = line_terms(weight, window, table, (n - 1) as nat);
        let line = table[n - 1];
        if window.contains(line.neighbour) {
            before.push(Term { category: line.category, amount: line.count * weight })
        } else {
            before
        }
    }
}

/// The terms that one item contributes.
pub open spec fn item_terms(item: Item) -> Seq<Term> {
    line_terms(item.weight, item.window, item.table, item.table.len())
}

/// The terms that a list of items contributes, item after item.
pub open spec fn all_terms(items: Seq<Item>) -> Seq<Term>
    decreases items.len(),
{
    if items.len() == 0 {
        Seq::empty()
    } else {
        all_terms(items.drop_last()) + item_terms(items.last())
    }
}

/// The tables of a weight store.
pub open spec fn store_views(store: Seq<NeighbourTable>) -> Seq<Seq<EntryView>> {
    store.map_values(|table: NeighbourTable| table@)
}

/// The work that the token at `pos` brings.
pub open spec fn work_item(tokens: Seq<TokenView>, store: Seq<Seq<EntryView>>, pos: int) -> Item {
    Item {
        weight: tokens[pos].weight,
        window: neighbour_words(tokens, pos).to_set(),
        table: store[tokens[pos].vocab_index as int],
    }
}

/// The work that a list of tokens brings, token after token.
pub open spec fn work_items(tokens: Seq<TokenView>, store: Seq<Seq<EntryView>>) -> Seq<Item> {
    Seq::new(tokens.len(), |pos: int| work_item(tokens, store, pos))
}

/// The scores of a list of tokens against a weight store.
pub open spec fn category_scores(tokens: Seq<TokenView>, store: Seq<Seq<EntryView>>) -> Seq<
    (Seq<char>, nat),
> {
    tally(all_terms(work_items(tokens, store)))
}

/// The scores of a raw text against a vocabulary and its weight store.
pub open spec fn predicted_scores(
    text: Seq<char>,
    vocab: Seq<Seq<char>>,
    store: Seq<Seq<EntryView>>,
) -> Seq<(Seq<char>, nat)> {
    category_scores(matched_tokens(normalized_words(text), vocab), store)
}

/// Whether the store holds a table for every token.
pub open spec fn store_covers(tokens: Seq<TokenView>, store: Seq<Seq<EntryView>>) -> bool {
    forall|i: int| 0 <= i < tokens.len() ==> (#[trigger] tokens[i]).vocab_index < store.len()
}

/// Taking one item out of a list takes its terms out of the list's terms.
pub proof fn lemma_all_terms_remove(items: Seq<Item>, index: int)
    requires
        0 <= index < items.len(),
    ensures
        all_terms(items).to_multiset() == all_terms(items.remove(index)).to_multiset().add(
            item_terms(items[index]).to_multiset(),
        ),
    decreases items.len(),
{
    let rest = items.remove(index);
    if index == items.len() - 1 {
        assert(rest == items.drop_last());
        vstd::seq_lib::lemma_multiset_commutative(all_terms(rest), item_terms(items[index]));
    } else {
        lemma_all_terms_remove(items.drop_last(), index);
        assert(rest.drop_last() == items.drop_last().remove(index));
        assert(rest.last() == items.last());
        vstd::seq_lib::lemma_multiset_commutative(
            all_terms(items.drop_last()),
            item_terms(items.last()),
        );
        vstd::seq_lib::lemma_multiset_commutative(
            all_terms(rest.drop_last()),
            item_terms(rest.last()),
        );
        assert(all_terms(items).to_multiset() =~= all_terms(rest).to_multiset().add(
            item_terms(items[index]).to_multiset(),
        ));
    }
}

/// Lists that hold the same items contribute the same terms.
pub proof fn lemma_all_terms_ignore_order(first: Seq<Item>, second: Seq<Item>)
    requires
        first.to_multiset() == second.to_multiset(),
    ensures
        all_terms(first).to_multiset() == all_terms(second).to_multiset(),
    decreases first.len(),
{
    first.to_multiset_ensures();
    second.to_multiset_ensures();
    if first.len() == 0 {
        assert(second.len() == 0);
    } else {
        let item = first.last();
        assert(first[first.len() - 1] == item);
        assert(first.contains(item));
        assert(first.to_multiset().count(item) > 0);
        assert(second.to_multiset().count(item) > 0);
        assert(second.contains(item));
        let index = choose|k: int| 0 <= k < second.len() && second[k] == item;
        assert(first.remove(first.len() - 1) == first.drop_last());
        assert(first.drop_last().to_multiset() == second.remove(index).to_multiset());
        lemma_all_terms_ignore_order(first.drop_last(), second.remove(index));
        lemma_all_terms_remove(second, index);
        vstd::seq_lib::lemma_multiset_commutative(all_terms(first.drop_last()), item_terms(item));
    }
}

/// The scores do not depend on the order in which the tokens' work is done:
/// two lists that hold the same items of work, each as often as the other,
/// give every category the same score.
pub proof fn lemma_scores_ignore_processing_order(first: Seq<Item>, second: Seq<Item>)
    requires
        first.to_multiset() == second.to_multiset(),
    ensures
        score_table(tally(all_terms(first))) == score_table(tally(all_terms(second))),
{
    lemma_all_terms_ignore_order(first, second);
    lemma_scores_ignore_order(all_terms(first), all_terms(second));
}

/// The scores do not depend on the order of the tokens, as long as the
/// reordering leaves every token its window: two lists of tokens that bring
/// the same items of work, each as often as the other, give every category
/// the same score.
pub proof fn lemma_scores_ignore_order_of_same_work(
    first: Seq<TokenView>,
    second: Seq<TokenView>,
    store: Seq<Seq<EntryView>>,
)
    requires
        work_items(first, store).to_multiset() == work_items(second, store).to_multiset(),
    ensures
        score_table(category_scores(first, store)) == score_table(category_scores(second, store)),
{
    lemma_scores_ignore_processing_order(work_items(first, store), work_items(second, store));
}

/// The texts of the tokens in `tokens`.
pub open spec fn words_among(tokens: Multiset<TokenView>) -> Set<Seq<char>> {
    Set::new(|word: Seq<char>| exists|t: TokenView| tokens.count(t) > 0 && t.word == word)
}

/// The work that `token` brings when all the other tokens of `tokens` are in
/// its window.
pub open spec fn item_among(
    token: TokenView,
    tokens: Multiset<TokenView>,
    store: Seq<Seq<EntryView>>,
) -> Item {
    Item {
        weight: token.weight,
        window: words_among(tokens.remove(token)),
        table: store[token.vocab_index as int],
    }
}

/// In a list of at most `MAX_TOKEN_NEIGHBOUR_WINDOW + 1` tokens, the window
/// of each token holds all the others.
pub proof fn lemma_short_list_windows(
    tokens: Seq<TokenView>,
    store: Seq<Seq<EntryView>>,
    pos: int,
)
    requires
        tokens.len() <= MAX_TOKEN_NEIGHBOUR_WINDOW + 1,
        0 <= pos < tokens.len(),
    ensures
        work_item(tokens, store, pos) == item_among(tokens[pos], tokens.to_multiset(), store),
{
    let others = tokens.remove(pos);
    let window = neighbour_words(tokens, pos);
    let rest = tokens.to_multiset().remove(tokens[pos]);
    vstd::seq_lib::to_multiset_remove(tokens, pos);
    others.to_multiset_ensures();
    assert(window =~= token_words(others));
    assert forall|word: Seq<char>| window.to_set().contains(word) <==> words_among(rest).contains(
        word,
    ) by {
        if window.contains(word) {
            let k = choose|k: int| 0 <= k < window.len() && window[k] == word;
            assert(others.contains(others[k]));
            assert(rest.count(others[k]) > 0);
        }
        if words_among(rest).contains(word) {
            let t = choose|t: TokenView| rest.count(t) > 0 && t.word == word;
            assert(others.contains(t));
            let k = choose|k: int| 0 <= k < others.len() && others[k] == t;
            assert(window[k] == word);
        }
    }
    assert(window.to_set() =~= words_among(rest));
}

/// Lists that hold the same items still do so after each item has been
/// replaced by its image under `f`.
proof fn lemma_map_keeps_permutation<A, B>(first: Seq<A>, second: Seq<A>, f: spec_fn(A) -> B)
    requires
        first.to_multiset() == second.to_multiset(),
    ensures
        first.map_values(f).to_multiset() == second.map_values(f).to_multiset(),
    decreases first.len(),
{
    first.to_multiset_ensures();
    second.to_multiset_ensures();
    if first.len() == 0 {
        assert(second.len() == 0);
        assert(first.map_values(f) =~= second.map_values(f));
    } else {
        let item = first.last();
        assert(first[first.len() - 1] == item);
        assert(first.contains(item));
        assert(first.to_multiset().count(item) > 0);
        assert(second.to_multiset().count(item) > 0);
        assert(second.contains(item));
        let index = choose|k: int| 0 <= k < second.len() && second[k] == item;
        assert(first.remove(first.len() - 1) == first.drop_last());
        assert(first.drop_last().to_multiset() == second.remove(index).to_multiset());
        lemma_map_keeps_permutation(first.drop_last(), second.remove(index), f);
        let mapped = second.map_values(f);
        assert(first.map_values(f) =~= first.drop_last().map_values(f).push(f(item)));
        assert(mapped.remove(index) =~= second.remove(index).map_values(f));
        first.drop_last().map_values(f).to_multiset_ensures();
        vstd::seq_lib::to_multiset_remove(mapped, index);
        mapped.to_multiset_ensures();
        assert(mapped.contains(mapped[index]));
        assert(mapped.to_multiset() =~= mapped.to_multiset().remove(f(item)).insert(f(item)));
    }
}

/// The scores do not depend on the order of the tokens, as long as the list
/// is short enough for every token to have all the others in its window: two
/// lists of at most `MAX_TOKEN_NEIGHBOUR_WINDOW + 1` tokens that hold the
/// same tokens, each as often as the other, give every category the same
/// score.
pub proof fn lemma_scores_ignore_token_order(
    first: Seq<TokenView>,
    second: Seq<TokenView>,
    store: Seq<Seq<EntryView>>,
)
    requires
        first.to_multiset() == second.to_multiset(),
        first.len() <= MAX_TOKEN_NEIGHBOUR_WINDOW + 1,
    ensures
        score_table(category_scores(first, store)) == score_table(category_scores(second, store)),
{
    first.to_multiset_ensures();
    second.to_multiset_ensures();
    let all = first.to_multiset();
    let f = |token: TokenView| item_among(token, all, store);
    assert(work_items(first, store) =~= first.map_values(f)) by {
        assert forall|pos: int| 0 <= pos < first.len() implies work_items(first, store)[pos]
            == first.map_values(f)[pos] by {
            lemma_short_list_windows(first, store, pos);
        }
    }
    assert(work_items(second, store) =~= second.map_values(f)) by {
        assert forall|pos: int| 0 <= pos < second.len() implies work_items(second, store)[pos]
            == second.map_values(f)[pos] by {
            lemma_short_list_windows(second, store, pos);
        }
    }
    lemma_map_keeps_permutation(first, second, f);
    lemma_scores_ignore_order_of_same_work(first, second, store);
}

/// Adds up the category scores of a list of tokens.
///
/// `store` holds the table of each vocabulary entry at the entry's index.
/// `capacity` is the number of categories to make room for.
pub fn aggregate(tokens: &Vec<Token>, store: &Vec<NeighbourTable>, capacity: usize) -> (scores:
    ScoreMap)
    requires
        store_covers(token_views(tokens@), store_views(store@)),
    ensures
        scores@ == category_scores(token_views(tokens@), store_views(store@)),
{
    let ghost views = token_views(tokens@);
    let ghost tables = store_views(store@);
    let ghost items = work_items(views, tables);
    let mut scores = ScoreMap::with_capacity(capacity);
    for pos in 0..tokens.len()
        invariant
            views == token_views(tokens@),
            tables == store_views(store@),
            items == work_items(views, tables),
            store_covers(views, tables),
            scores@ == tally(all_terms(items.take(pos as int))),
    {
        let token = &tokens[pos];
        assert(views[pos as int] == token@);
        let window = get_token_neighbours(tokens, pos);
        let table = &store[token.vocab_index];
        let n = table.len();
        let ghost item = items[pos as int];
        let ghost done = all_terms(items.take(pos as int));
        for k in 0..n
            invariant
                n == table@.len(),
                token.weight as nat == item.weight,
                item.table == table@,
                item.window == texts(window@).to_set(),
                scores@ == tally(done + line_terms(item.weight, item.window, item.table, k as nat)),
        {
            let line = table.entry(k);
            let ghost before = line_terms(item.weight, item.window, item.table, k as nat);
            if holds_text(&window, &line.neighbour) {
                assert(line.count * token.weight <= u64::MAX) by (nonlinear_arith)
                    requires
                        line.count <= u32::MAX,
                        token.weight <= u8::MAX,
                ;
                let amount: u64 = (line.count as u64) * (token.weight as u64);
                scores.add(line.category.as_str(), amount);
                proof {
                    let term = Term { category: line.category@, amount: amount as nat };
                    lemma_tally_push(done + before, term);
                }
            }
        }
        proof {
            let next = items.take(pos + 1);
            assert(next.drop_last() == items.take(pos as int));
        }
    }
    assert(items.take(tokens.len() as int) == items);
    scores
}

/// Scores the categories for a raw query text.
///
/// The text is normalised into words, the words are matched against the
/// vocabulary, and the matched tokens are scored against the weight store,
/// which holds one table for each vocabulary entry. `categories` is the list
/// of category names that the caller works with; it only says how much room
/// to make, and a category outside it scores like any other.
pub fn predict(
    input: &str,
    vocab: &Vec<String>,
    categories: &Vec<&str>,
    store: &Vec<NeighbourTable>,
) -> (outputs: ScoreMap)
    requires
        all_ascii(texts(vocab@)),
        store.len() == vocab.len(),
    ensures
        outputs@ == predicted_scores(input@, texts(vocab@), store_views(store@)),
{
    let words = normalize(input);
    let tokens = tokenize(&words, vocab);
    assert forall|i: int| 0 <= i < tokens.len() implies (#[trigger] token_views(
        tokens@,
    )[i]).vocab_index < store_views(store@).len() by {
        assert(crate::driver::is_token_of(tokens[i]@, texts(vocab@)));
    }
    aggregate(&tokens, store, categories.len())
}

} // verus!
