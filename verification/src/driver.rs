//! The scan that turns normalised words into matched tokens.
//!
//! At an even position that is not the last, the word and its successor are
//! tried together first. If that pair matches, it yields the token and the
//! successor counts as consumed. Otherwise the word is tried alone, unless a
//! word of the same text has been consumed before.

use crate::matcher::{
    best_entry, find_most_similar_word_in_vocab, is_best_entry, penalized_similarities,
    penalized_similarity,
};
use crate::text::{all_ascii, holds_text, texts};
use crate::token::{token_views, Token, TokenView};
use vstd::prelude::*;
use vstd::string::*;

verus! {

/// The similarity in percent that a vocabulary entry needs to match.
pub const MATCH_THRESHOLD: u8 = 90;

/// The text that stands for the words at `pos` and `pos + 1` together.
pub open spec fn bigram(words: Seq<Seq<char>>, pos: int) -> Seq<char> {
    words[pos] + seq![' '] + words[pos + 1]
}

/// The token that `candidate` yields, if the vocabulary holds a match.
pub open spec fn token_for(candidate: Seq<char>, vocab: Seq<Seq<char>>) -> Option<TokenView> {
    match best_entry(candidate, vocab, MATCH_THRESHOLD as nat) {
        Some(index) => Some(
            TokenView {
                word: vocab[index],
                vocab_index: index as nat,
                weight: penalized_similarity(candidate, vocab[index]),
            },
        ),
        None => None,
    }
}

/// The state of the scan: the tokens found so far, and the texts of the words
/// that a matched pair has consumed.
pub struct Scan {
    pub tokens: Seq<TokenView>,
    pub consumed: Set<Seq<char>>,
}

/// Whether the word at `pos` is tried together with its successor.
pub open spec fn starts_pair(words: Seq<Seq<char>>, pos: int) -> bool {
    pos % 2 == 0 && pos + 1 < words.len()
}

/// The state after the word at `pos` has been looked at.
pub open spec fn scan_step(
    state: Scan,
    words: Seq<Seq<char>>,
    vocab: Seq<Seq<char>>,
    pos: int,
) -> Scan {
    let pair = if starts_pair(words, pos) {
        token_for(bigram(words, pos), vocab)
    } else {
        None
    };
    let single = if state.consumed.contains(words[pos]) {
        None
    } else {
        token_for(words[pos], vocab)
    };
    match (pair, single) {
        (Some(token), _) => Scan {
            tokens: state.tokens.push(token),
            consumed: state.consumed.insert(words[pos + 1]),
        },
        (None, Some(token)) => Scan { tokens: state.tokens.push(token), consumed: state.consumed },
        (None, None) => state,
    }
}

/// The state after the first `n` words have been looked at.
pub open spec fn scan(words: Seq<Seq<char>>, vocab: Seq<Seq<char>>, n: nat) -> Scan
    decreases n,
{
    if n == 0 {
        Scan { tokens: Seq::empty(), consumed: Set::empty() }
    } else {
        scan_step(scan(words, vocab, (n - 1) as nat), words, vocab, n - 1)
    }
}

/// The tokens that a list of words yields against a vocabulary.
pub open spec fn matched_tokens(words: Seq<Seq<char>>, vocab: Seq<Seq<char>>) -> Seq<TokenView> {
    scan(words, vocab, words.len()).tokens
}

/// Whether a token names an entry of the vocabulary, carries its text, and
/// has a weight from the threshold up to 100.
pub open spec fn is_token_of(token: TokenView, vocab: Seq<Seq<char>>) -> bool {
    &&& token.vocab_index < vocab.len()
    &&& token.word == vocab[token.vocab_index as int]
    &&& MATCH_THRESHOLD <= token.weight <= 100
}

/// A token that a candidate yields is a token of the vocabulary.
pub proof fn lemma_token_for_is_token_of(candidate: Seq<char>, vocab: Seq<Seq<char>>)
    ensures
        token_for(candidate, vocab) matches Some(token) ==> is_token_of(token, vocab),
{
    if best_entry(candidate, vocab, MATCH_THRESHOLD as nat) is Some {
        let index = best_entry(candidate, vocab, MATCH_THRESHOLD as nat)->0;
        assert(is_best_entry(candidate, vocab, MATCH_THRESHOLD as nat, index));
        assert(penalized_similarities(candidate, vocab)[index] == penalized_similarity(
            candidate,
            vocab[index],
        ));
    }
}

/// The scan yields at most one token for each word, and each is a token of
/// the vocabulary.
pub proof fn lemma_scan_tokens(words: Seq<Seq<char>>, vocab: Seq<Seq<char>>, n: nat)
    requires
        n <= words.len(),
    ensures
        scan(words, vocab, n).tokens.len() <= n,
        forall|i: int|
            0 <= i < scan(words, vocab, n).tokens.len() ==> is_token_of(
                #[trigger] scan(words, vocab, n).tokens[i],
                vocab,
            ),
    decreases n,
{
    if n > 0 {
        lemma_scan_tokens(words, vocab, (n - 1) as nat);
        lemma_token_for_is_token_of(bigram(words, n - 1), vocab);
        lemma_token_for_is_token_of(words[n - 1], vocab);
    }
}

/// A word whose text has been consumed yields no token of its own: unless
/// it starts a pair that matches, the scan passes over it.
pub proof fn lemma_consumed_word_is_passed_over(
    words: Seq<Seq<char>>,
    vocab: Seq<Seq<char>>,
    pos: nat,
)
    requires
        pos < words.len(),
        scan(words, vocab, pos).consumed.contains(words[pos as int]),
        !starts_pair(words, pos as int) || token_for(bigram(words, pos as int), vocab) is None,
    ensures
        scan(words, vocab, pos + 1) == scan(words, vocab, pos),
{
}

/// Whether the word at `pos` of `count` words is tried together with its
/// successor: at an even position that is not the last.
pub fn is_pair_start(pos: usize, count: usize) -> (pair: bool)
    ensures
        pair == (pos % 2 == 0 && pos + 1 < count),
{
    pos % 2 == 0 && pos < count && pos + 1 < count
}

/// The text that stands for two successive words: the first, one space, the
/// second.
pub fn join_pair(first: &str, second: &str) -> (pair: String)
    ensures
        pair@ == first@ + seq![' '] + second@,
{
    let mut pair = first.to_owned();
    pair.append(" ");
    pair.append(second);
    proof {
        reveal_strlit(" ");
    }
    pair
}

/// Tries `candidate` against the vocabulary at the matching threshold.
fn match_candidate(candidate: &str, vocab: &Vec<String>) -> (token: Option<Token>)
    requires
        is_ascii(candidate),
        all_ascii(texts(vocab@)),
    ensures
        match token {
            Some(t) => token_for(candidate@, texts(vocab@)) == Some(t@),
            None => token_for(candidate@, texts(vocab@)) is None,
        },
{
    match find_most_similar_word_in_vocab(candidate, vocab, MATCH_THRESHOLD) {
        Some((vocab_index, word, weight)) => Some(Token { word, vocab_index, weight }),
        None => None,
    }
}

/// Matches the normalised words of a query against the vocabulary.
///
/// The tokens come out in the order of the words that gave rise to them; a
/// word without a match leaves no trace.
pub fn tokenize(words: &Vec<String>, vocab: &Vec<String>) -> (tokens: Vec<Token>)
    requires
        all_ascii(texts(words@)),
        all_ascii(texts(vocab@)),
    ensures
        token_views(tokens@) == matched_tokens(texts(words@), texts(vocab@)),
        tokens.len() <= words.len(),
        forall|i: int|
            0 <= i < tokens.len() ==> is_token_of(#[trigger] tokens[i]@, texts(vocab@)),
{
    let ghost word_texts = texts(words@);
    let ghost entries = texts(vocab@);
    let mut tokens: Vec<Token> = Vec::new();
    let mut consumed: Vec<String> = Vec::new();
    for pos in 0..words.len()
        invariant
            word_texts == texts(words@),
            entries == texts(vocab@),
            all_ascii(word_texts),
            all_ascii(entries),
            scan(word_texts, entries, pos as nat).tokens == token_views(tokens@),
            scan(word_texts, entries, pos as nat).consumed == texts(consumed@).to_set(),
    {
        let mut pair: Option<Token> = None;
        if is_pair_start(pos, words.len()) {
            let candidate = join_pair(words[pos].as_str(), words[pos + 1].as_str());
            proof {
                assert(candidate@ =~= bigram(word_texts, pos as int));
            }
            pair = match_candidate(candidate.as_str(), vocab);
        }
        match pair {
            Some(token) => {
                proof {
                    assert(texts(consumed@.push(words[pos + 1])).to_set() == texts(
                        consumed@,
                    ).to_set().insert(word_texts[pos + 1])) by {
                        lemma_to_set_push(texts(consumed@), word_texts[pos + 1]);
                        assert(texts(consumed@.push(words[pos + 1])) == texts(consumed@).push(
                            word_texts[pos + 1],
                        ));
                    }
                }
                consumed.push(words[pos + 1].clone());
                tokens.push(token);
            },
            None => {
                if !holds_text(&consumed, &words[pos]) {
                    match match_candidate(words[pos].as_str(), vocab) {
                        Some(token) => {
                            proof {
                                assert(token_views(tokens@.push(token)) == token_views(
                                    tokens@,
                                ).push(token@));
                            }
                            tokens.push(token);
                        },
                        None => {},
                    }
                }
            },
        }
    }
    proof {
        lemma_scan_tokens(word_texts, entries, words.len() as nat);
        assert forall|i: int| 0 <= i < tokens.len() implies is_token_of(
            #[trigger] tokens[i]@,
            entries,
        ) by {
            assert(token_views(tokens@)[i] == tokens[i]@);
        }
    }
    tokens
}

/// Appending an item to a list adds it to the set of the list's items.
proof fn lemma_to_set_push<T>(items: Seq<T>, item: T)
    ensures
        items.push(item).to_set() == items.to_set().insert(item),
{
    assert forall|x: T| items.push(item).to_set().contains(x) <==> items.to_set().insert(
        item,
    ).contains(x) by {
        if items.push(item).contains(x) {
            let k = choose|k: int| 0 <= k < items.push(item).len() && items.push(item)[k] == x;
            if k < items.len() {
                assert(items[k] == x);
            }
        }
        if items.contains(x) {
            let k = choose|k: int| 0 <= k < items.len() && items[k] == x;
            assert(items.push(item)[k] == x);
        }
        if x == item {
            assert(items.push(item)[items.len() as int] == x);
        }
    }
    assert(items.push(item).to_set() =~= items.to_set().insert(item));
}

} // verus!
