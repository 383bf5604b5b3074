//! Matched tokens and the window of neighbours around each.

use crate::text::texts;
use vstd::prelude::*;

verus! {

/// How many tokens on each side of a token count as its neighbours.
pub const MAX_TOKEN_NEIGHBOUR_WINDOW: usize = 4;

/// A stretch of the input bound to one vocabulary entry.
#[derive(Debug, Clone)]
pub struct Token {
    /// The text of the vocabulary entry that was matched.
    pub word: String,
    /// The position of that entry in the vocabulary.
    pub vocab_index: usize,
    /// The confidence of the match in hundredths: 100 stands for 1.0.
    pub weight: u8,
}

/// What a token stands for.
pub struct TokenView {
    pub word: Seq<char>,
    pub vocab_index: nat,
    pub weight: nat,
}

impl View for Token {
    type V = TokenView;

    open spec fn view(&self) -> TokenView {
        TokenView {
            word: self.word@,
            vocab_index: self.vocab_index as nat,
            weight: self.weight as nat,
        }
    }
}

/// What a list of tokens stands for.
pub open spec fn token_views(tokens: Seq<Token>) -> Seq<TokenView> {
    tokens.map_values(|t: Token| t@)
}

/// The matched texts of a list of tokens.
pub open spec fn token_words(tokens: Seq<TokenView>) -> Seq<Seq<char>> {
    tokens.map_values(|t: TokenView| t.word)
}

/// The first position of the window around `pos`.
pub open spec fn window_start(pos: int) -> int {
    if pos >= MAX_TOKEN_NEIGHBOUR_WINDOW {
        pos - MAX_TOKEN_NEIGHBOUR_WINDOW
    } else {
        0
    }
}

/// One past the last position of the window around `pos` in a list of `len`.
pub open spec fn window_end(len: int, pos: int) -> int {
    if pos + MAX_TOKEN_NEIGHBOUR_WINDOW < len {
        pos + MAX_TOKEN_NEIGHBOUR_WINDOW + 1
    } else {
        len
    }
}

/// The items of the window around `pos`, without the item at `pos` itself:
/// those before it first, then those after it.
pub open spec fn neighbours<T>(items: Seq<T>, pos: int) -> Seq<T> {
    items.subrange(window_start(pos), pos) + items.subrange(
        pos + 1,
        window_end(items.len() as int, pos),
    )
}

/// The matched texts of the tokens around the token at `pos`.
pub open spec fn neighbour_words(tokens: Seq<TokenView>, pos: int) -> Seq<Seq<char>> {
    neighbours(token_words(tokens), pos)
}

/// Position `other` lies in the window of `pos` exactly when it is another
/// position at most `MAX_TOKEN_NEIGHBOUR_WINDOW` away; the window holds the
/// items of those positions and nothing else.
pub proof fn lemma_neighbours_are_near<T>(items: Seq<T>, pos: int)
    requires
        0 <= pos < items.len(),
    ensures
        forall|k: int|
            0 <= k < neighbours(items, pos).len() ==> {
                let other = if k < pos - window_start(pos) {
                    window_start(pos) + k
                } else {
                    window_start(pos) + k + 1
                };
                &&& 0 <= other < items.len()
                &&& other != pos
                &&& -MAX_TOKEN_NEIGHBOUR_WINDOW <= other - pos <= MAX_TOKEN_NEIGHBOUR_WINDOW
                &&& #[trigger] neighbours(items, pos)[k] == items[other]
            },
        forall|other: int|
            0 <= other < items.len() && other != pos && -MAX_TOKEN_NEIGHBOUR_WINDOW <= other - pos
                <= MAX_TOKEN_NEIGHBOUR_WINDOW ==> neighbours(items, pos).contains(
                #[trigger] items[other],
            ),
{
    let window = neighbours(items, pos);
    let start = window_start(pos);
    assert forall|other: int|
        0 <= other < items.len() && other != pos && -MAX_TOKEN_NEIGHBOUR_WINDOW <= other - pos
            <= MAX_TOKEN_NEIGHBOUR_WINDOW implies window.contains(#[trigger] items[other]) by {
        if other < pos {
            assert(window[other - start] == items[other]);
        } else {
            assert(window[other - start - 1] == items[other]);
        }
    }
}

/// The matched texts of the tokens within `MAX_TOKEN_NEIGHBOUR_WINDOW`
/// positions of the token at `token_pos`, that token itself left out.
pub fn get_token_neighbours(tokens: &Vec<Token>, token_pos: usize) -> (words: Vec<String>)
    requires
        token_pos < tokens.len(),
    ensures
        texts(words@) == neighbour_words(token_views(tokens@), token_pos as int),
{
    let start: usize = if token_pos >= MAX_TOKEN_NEIGHBOUR_WINDOW {
        token_pos - MAX_TOKEN_NEIGHBOUR_WINDOW
    } else {
        0
    };
    let end: usize = if tokens.len() - token_pos > MAX_TOKEN_NEIGHBOUR_WINDOW {
        token_pos + MAX_TOKEN_NEIGHBOUR_WINDOW + 1
    } else {
        tokens.len()
    };
    let ghost all = token_words(token_views(tokens@));
    let mut words: Vec<String> = Vec::with_capacity(end - start - 1);
    for i in start..token_pos
        invariant
            start <= token_pos < tokens.len(),
            all == token_words(token_views(tokens@)),
            texts(words@) == all.subrange(start as int, i as int),
    {
        words.push(tokens[i].word.clone());
        assert(texts(words@) == all.subrange(start as int, i as int).push(all[i as int]));
    }
    for i in (token_pos + 1)..end
        invariant
            start <= token_pos < end <= tokens.len(),
            all == token_words(token_views(tokens@)),
            texts(words@) == all.subrange(start as int, token_pos as int) + all.subrange(
                token_pos + 1,
                i as int,
            ),
    {
        words.push(tokens[i].word.clone());
        assert(texts(words@) == (all.subrange(start as int, token_pos as int) + all.subrange(
            token_pos + 1,
            i as int,
        )).push(all[i as int]));
    }
    words
}

} // verus!
