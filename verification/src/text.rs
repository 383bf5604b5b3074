//! Normalisation of raw text into words.
//!
//! A text is first rendered in ASCII, then put in lower case, then cut into
//! its maximal runs of word characters: letters, digits and the underscore.

use vstd::prelude::*;
use vstd::string::*;
use vstd::utf8::is_ascii_chars;

verus! {

/// The result of `unidecode::unidecode` on a text.
pub uninterp spec fn transliteration(text: Seq<char>) -> Seq<char>;

/// The ASCII rendering of a text: an ASCII text is its own rendering, any
/// other text is transliterated.
pub open spec fn ascii_form(text: Seq<char>) -> Seq<char> {
    if is_ascii_chars(text) {
        text
    } else {
        transliteration(text)
    }
}

/// The lower-case form of a character: `A` to `Z` map to `a` to `z`.
pub open spec fn lower(c: char) -> char {
    if 'A' <= c <= 'Z' {
        ((c as u8) + 32) as char
    } else {
        c
    }
}

/// The lower-case form of a text.
pub open spec fn lowercase(text: Seq<char>) -> Seq<char> {
    text.map_values(|c: char| lower(c))
}

/// Whether a character belongs to a word: an ASCII letter, a digit or `_`.
pub open spec fn is_word_char(c: char) -> bool {
    'a' <= c <= 'z' || 'A' <= c <= 'Z' || '0' <= c <= '9' || c == '_'
}

/// Whether a character may occur in a normalised word: a lower-case ASCII
/// letter, a digit or `_`.
pub open spec fn is_plain_char(c: char) -> bool {
    'a' <= c <= 'z' || '0' <= c <= '9' || c == '_'
}

/// Whether a text is a normalised word: not empty, plain characters only.
pub open spec fn is_plain_word(word: Seq<char>) -> bool {
    word.len() > 0 && forall|k: int| 0 <= k < word.len() ==> is_plain_char(#[trigger] word[k])
}

/// Whether every text is a normalised word.
pub open spec fn all_plain(words: Seq<Seq<char>>) -> bool {
    forall|i: int| 0 <= i < words.len() ==> is_plain_word(#[trigger] words[i])
}

/// The texts of a list of strings.
pub open spec fn texts(strings: Seq<String>) -> Seq<Seq<char>> {
    strings.map_values(|s: String| s@)
}

/// Whether every text is ASCII.
pub open spec fn all_ascii(words: Seq<Seq<char>>) -> bool {
    forall|i: int| 0 <= i < words.len() ==> is_ascii_chars(#[trigger] words[i])
}

/// The end of the run of word characters that starts at `from`: the first
/// index at or after `from` that holds no word character, or the length.
pub open spec fn run_end(text: Seq<char>, from: int) -> int
    decreases text.len() - from,
{
    if 0 <= from < text.len() && is_word_char(text[from]) {
        run_end(text, from + 1)
    } else {
        from
    }
}

/// The maximal runs of word characters in `text` from index `from` on.
pub open spec fn words_from(text: Seq<char>, from: int) -> Seq<Seq<char>>
    decreases text.len() - from,
{
    if from < 0 || from >= text.len() {
        Seq::empty()
    } else if !is_word_char(text[from]) {
        words_from(text, from + 1)
    } else {
        proof {
            lemma_run_end_bounds(text, from);
        }
        seq![text.subrange(from, run_end(text, from))] + words_from(text, run_end(text, from))
    }
}

/// The maximal runs of word characters in `text`, in order.
pub open spec fn word_runs(text: Seq<char>) -> Seq<Seq<char>> {
    words_from(text, 0)
}

/// The words of a raw text: the word runs of its lower-cased ASCII rendering.
pub open spec fn normalized_words(text: Seq<char>) -> Seq<Seq<char>> {
    word_runs(lowercase(ascii_form(text)))
}

/// A run that starts on a word character is not empty, ends within the text,
/// holds word characters only and cannot be extended to the right.
pub proof fn lemma_run_end_bounds(text: Seq<char>, from: int)
    requires
        0 <= from <= text.len(),
    ensures
        from <= run_end(text, from) <= text.len(),
        from < text.len() && is_word_char(text[from]) ==> from < run_end(text, from),
        forall|k: int| from <= k < run_end(text, from) ==> is_word_char(#[trigger] text[k]),
        run_end(text, from) < text.len() ==> !is_word_char(text[run_end(text, from)]),
    decreases text.len() - from,
{
    if from < text.len() && is_word_char(text[from]) {
        lemma_run_end_bounds(text, from + 1);
    }
}

/// A stretch of word characters that is closed on the right is the run that
/// starts at its left end.
pub proof fn lemma_run_end_is(text: Seq<char>, from: int, to: int)
    requires
        0 <= from <= to <= text.len(),
        forall|k: int| from <= k < to ==> is_word_char(#[trigger] text[k]),
        to < text.len() ==> !is_word_char(text[to]),
    ensures
        run_end(text, from) == to,
    decreases to - from,
{
    if from < to {
        lemma_run_end_is(text, from + 1, to);
    }
}

/// Every word run of a text without capitals is a normalised word.
pub proof fn lemma_word_runs_are_plain(text: Seq<char>, from: int)
    requires
        0 <= from <= text.len(),
        forall|k: int| 0 <= k < text.len() ==> !('A' <= #[trigger] text[k] <= 'Z'),
    ensures
        all_plain(words_from(text, from)),
    decreases text.len() - from,
{
    if from >= text.len() {
    } else if !is_word_char(text[from]) {
        lemma_word_runs_are_plain(text, from + 1);
    } else {
        let end = run_end(text, from);
        lemma_run_end_bounds(text, from);
        lemma_word_runs_are_plain(text, end);
        let first = text.subrange(from, end);
        assert forall|k: int| 0 <= k < first.len() implies is_plain_char(#[trigger] first[k]) by {
            assert(is_word_char(text[from + k]));
        }
        assert(is_plain_word(first));
        let rest = words_from(text, end);
        assert forall|i: int| 0 <= i < (seq![first] + rest).len() implies is_plain_word(
            #[trigger] (seq![first] + rest)[i],
        ) by {
            if i > 0 {
                assert((seq![first] + rest)[i] == rest[i - 1]);
            }
        }
    }
}

/// A lower-cased text holds no capitals.
pub proof fn lemma_lowercase_has_no_capitals(text: Seq<char>)
    ensures
        lowercase(text).len() == text.len(),
        forall|k: int|
            0 <= k < text.len() ==> !('A' <= #[trigger] lowercase(text)[k] <= 'Z'),
{
}

/// The word runs of a lower-cased text are normalised words.
pub proof fn lemma_lowered_runs_are_plain(text: Seq<char>)
    ensures
        all_plain(word_runs(lowercase(text))),
{
    lemma_lowercase_has_no_capitals(text);
    lemma_word_runs_are_plain(lowercase(text), 0);
}

/// The words of any text are normalised words: none is empty, and each holds
/// only lower-case ASCII letters, digits and underscores.
pub proof fn lemma_normalized_words_are_plain(text: Seq<char>)
    ensures
        all_plain(normalized_words(text)),
{
    lemma_lowered_runs_are_plain(ascii_form(text));
}

/// A text without word characters has no word runs.
pub proof fn lemma_no_word_chars_no_runs(text: Seq<char>, from: int)
    requires
        0 <= from <= text.len(),
        forall|k: int| 0 <= k < text.len() ==> !is_word_char(#[trigger] text[k]),
    ensures
        words_from(text, from).len() == 0,
    decreases text.len() - from,
{
    if from < text.len() {
        lemma_no_word_chars_no_runs(text, from + 1);
    }
}

/// An ASCII text that holds no letter, digit or underscore, such as one of
/// punctuation and blanks only, has no words.
pub proof fn lemma_punctuation_has_no_words(text: Seq<char>)
    requires
        is_ascii_chars(text),
        forall|k: int| 0 <= k < text.len() ==> !is_word_char(#[trigger] text[k]),
    ensures
        normalized_words(text).len() == 0,
{
    let lowered = lowercase(text);
    assert forall|k: int| 0 <= k < lowered.len() implies !is_word_char(#[trigger] lowered[k]) by {
        assert(!is_word_char(text[k]));
    }
    lemma_no_word_chars_no_runs(lowered, 0);
}

/// A normalised word is ASCII.
pub proof fn lemma_plain_words_are_ascii(words: Seq<Seq<char>>)
    requires
        all_plain(words),
    ensures
        all_ascii(words),
{
    assert forall|i: int| 0 <= i < words.len() implies is_ascii_chars(#[trigger] words[i]) by {
        assert(is_plain_word(words[i]));
        assert forall|k: int| 0 <= k < words[i].len() implies '\0' <= #[trigger] words[i][k]
            <= '\u{7f}' by {
            assert(is_plain_char(words[i][k]));
        }
    }
}

/// Whether every string of `list` is ASCII.
pub fn is_ascii_list(list: &Vec<String>) -> (ascii: bool)
    ensures
        ascii == all_ascii(texts(list@)),
{
    for i in 0..list.len()
        invariant
            forall|k: int| 0 <= k < i ==> is_ascii_chars(#[trigger] texts(list@)[k]),
    {
        if !list[i].as_str().is_ascii() {
            assert(!is_ascii_chars(texts(list@)[i as int]));
            return false;
        }
    }
    true
}

/// Whether `list` holds a string with the text of `word`.
pub fn holds_text(list: &Vec<String>, word: &String) -> (found: bool)
    ensures
        found == texts(list@).contains(word@),
{
    for i in 0..list.len()
        invariant
            forall|k: int| 0 <= k < i ==> list[k]@ != word@,
    {
        if list[i] == *word {
            assert(texts(list@)[i as int] == word@);
            return true;
        }
    }
    assert forall|k: int| 0 <= k < texts(list@).len() implies texts(list@)[k] != word@ by {
        assert(list[k]@ != word@);
    }
    false
}

/// `String::push` appends one character to the end of the string.
pub assume_specification[ String::push ](s: &mut String, ch: char)
    ensures
        final(s)@ == old(s)@.push(ch),
;

/// Calls `unidecode::unidecode`, which replaces every character by an ASCII
/// text from a fixed table. The contract names the result and adds the two
/// guarantees that the function documents: the result is ASCII, and an ASCII
/// character is mapped to itself.
#[verifier::external_body]
fn transliterate(text: &str) -> (ascii: String)
    ensures
        ascii@ == transliteration(text@),
        is_ascii_chars(ascii@),
        is_ascii_chars(text@) ==> ascii@ == text@,
{
    unidecode::unidecode(text)
}

/// The lower-case form of a character.
pub fn to_lower(c: char) -> (low: char)
    ensures
        low == lower(c),
{
    if 'A' <= c && c <= 'Z' {
        ((c as u8) + 32) as char
    } else {
        c
    }
}

/// Whether a character belongs to a word.
pub fn belongs_to_word(c: char) -> (word: bool)
    ensures
        word == is_word_char(c),
{
    ('a' <= c && c <= 'z') || ('A' <= c && c <= 'Z') || ('0' <= c && c <= '9') || c == '_'
}

/// Cuts an ASCII text into its words: the maximal runs of letters, digits and
/// underscores, in order and in lower case. What lies between them is
/// dropped.
pub fn split_words(source: &str) -> (words: Vec<String>)
    requires
        is_ascii(source),
    ensures
        texts(words@) == word_runs(lowercase(source@)),
        all_plain(texts(words@)),
        all_ascii(texts(words@)),
{
    let n = source.unicode_len();
    let ghost lowered = lowercase(source@);
    let mut words: Vec<String> = Vec::new();
    let mut current = String::new();
    let ghost mut start: int = 0;
    for i in 0..n
        invariant
            n == source@.len(),
            is_ascii(source),
            lowered == lowercase(source@),
            0 <= start <= i,
            current@ == lowered.subrange(start, i as int),
            forall|k: int| start <= k < i ==> is_word_char(#[trigger] lowered[k]),
            word_runs(lowered) == texts(words@) + words_from(lowered, start),
    {
        let c: char = to_lower(source.get_ascii(i) as char);
        if belongs_to_word(c) {
            current.push(c);
        } else {
            if !current.as_str().is_empty() {
                proof {
                    lemma_run_end_is(lowered, start, i as int);
                    assert(texts(words@).push(current@) + words_from(lowered, i as int) == texts(
                        words@,
                    ) + (seq![current@] + words_from(lowered, i as int)));
                }
                words.push(current);
                current = String::new();
            }
            proof {
                start = i + 1;
            }
        }
    }
    if !current.as_str().is_empty() {
        proof {
            lemma_run_end_is(lowered, start, n as int);
            assert(texts(words@.push(current)) == texts(words@).push(current@));
            assert(texts(words@).push(current@) + words_from(lowered, n as int) == texts(words@)
                + (seq![current@] + words_from(lowered, n as int)));
        }
        words.push(current);
    }
    proof {
        lemma_lowered_runs_are_plain(source@);
        lemma_plain_words_are_ascii(texts(words@));
    }
    words
}

/// Cuts a raw text into its normalised words.
///
/// The text is transliterated into ASCII and put in lower case; the words
/// are the maximal runs of letters, digits and underscores, in order.
pub fn normalize(input: &str) -> (words: Vec<String>)
    ensures
        texts(words@) == normalized_words(input@),
        all_plain(texts(words@)),
        all_ascii(texts(words@)),
{
    let ascii = transliterate(input);
    split_words(ascii.as_str())
}

} // verus!
