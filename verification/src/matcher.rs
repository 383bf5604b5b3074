//! Fuzzy matching of one candidate text against the vocabulary.
//!
//! The similarity measure cuts its shorter argument at byte offsets, which is
//! only safe where every character is one byte. So whatever is handed to it,
//! candidate or vocabulary, has to be ASCII.

use crate::text::{all_ascii, texts};
use rayon::iter::{IntoParallelRefIterator, ParallelIterator};
use vstd::prelude::*;
use vstd::string::*;

verus! {

/// Deducted from the similarity of an entry that differs from the candidate in
/// length or that starts with a structural character.
pub const PENALTY: u8 = 5;

/// The result of `fuzzywuzzy::fuzz::ratio` on two texts.
pub uninterp spec fn fuzz_ratio(a: Seq<char>, b: Seq<char>) -> nat;

/// The similarity of two texts in percent: 100 for equal texts, otherwise the
/// measured ratio, which never exceeds 100.
pub open spec fn similarity(a: Seq<char>, b: Seq<char>) -> nat {
    if a == b || fuzz_ratio(a, b) > 100 {
        100
    } else {
        fuzz_ratio(a, b)
    }
}

/// Whether a vocabulary entry starts with `-`, `=`, `(` or `)`.
pub open spec fn starts_structural(entry: Seq<char>) -> bool {
    entry.len() > 0 && (entry[0] == '-' || entry[0] == '=' || entry[0] == '(' || entry[0] == ')')
}

/// Whether the penalty applies to `entry` when it is compared with `candidate`.
pub open spec fn is_penalized(candidate: Seq<char>, entry: Seq<char>) -> bool {
    candidate.len() != entry.len() || starts_structural(entry)
}

/// A similarity of `ratio` percent between `candidate` and `entry` after the
/// penalty: where the penalty applies, `ratio` less `PENALTY`, floored at 0.
pub open spec fn penalized(ratio: nat, candidate: Seq<char>, entry: Seq<char>) -> nat {
    if !is_penalized(candidate, entry) {
        ratio
    } else if ratio >= PENALTY {
        (ratio - PENALTY) as nat
    } else {
        0
    }
}

/// The similarity of `candidate` and `entry` after the penalty.
pub open spec fn penalized_similarity(candidate: Seq<char>, entry: Seq<char>) -> nat {
    penalized(similarity(candidate, entry), candidate, entry)
}

/// The penalized similarity of `candidate` and each entry of the vocabulary.
pub open spec fn penalized_similarities(candidate: Seq<char>, vocab: Seq<Seq<char>>) -> Seq<nat> {
    vocab.map_values(|entry: Seq<char>| penalized_similarity(candidate, entry))
}

/// A list of percentages as numbers.
pub open spec fn percentages(ratios: Seq<u8>) -> Seq<nat> {
    ratios.map_values(|ratio: u8| ratio as nat)
}

/// Whether `entry` is eligible as a match for `candidate` at `threshold`.
pub open spec fn clears(candidate: Seq<char>, entry: Seq<char>, threshold: nat) -> bool {
    penalized_similarity(candidate, entry) >= threshold
}

/// Whether position `index` holds the winning score: it reaches the
/// threshold, no score is higher, and every earlier score is lower.
pub open spec fn is_best_of(ratios: Seq<nat>, threshold: nat, index: int) -> bool {
    &&& 0 <= index < ratios.len()
    &&& ratios[index] >= threshold
    &&& forall|j: int| 0 <= j < ratios.len() ==> #[trigger] ratios[j] <= ratios[index]
    &&& forall|j: int| 0 <= j < index ==> #[trigger] ratios[j] < ratios[index]
}

/// The position of the winning score, if any score reaches the threshold.
pub open spec fn best_of(ratios: Seq<nat>, threshold: nat) -> Option<int> {
    if exists|i: int| is_best_of(ratios, threshold, i) {
        Some(choose|i: int| is_best_of(ratios, threshold, i))
    } else {
        None
    }
}

/// Whether entry `index` is the match for `candidate`: it clears the
/// threshold, no entry scores higher, and every earlier entry scores lower.
pub open spec fn is_best_entry(
    candidate: Seq<char>,
    vocab: Seq<Seq<char>>,
    threshold: nat,
    index: int,
) -> bool {
    is_best_of(penalized_similarities(candidate, vocab), threshold, index)
}

/// The index of the match for `candidate`, if any entry clears the threshold.
pub open spec fn best_entry(candidate: Seq<char>, vocab: Seq<Seq<char>>, threshold: nat) -> Option<
    int,
> {
    best_of(penalized_similarities(candidate, vocab), threshold)
}

/// At most one position holds the winning score.
pub proof fn lemma_best_of_unique(ratios: Seq<nat>, threshold: nat, index: int)
    requires
        is_best_of(ratios, threshold, index),
    ensures
        best_of(ratios, threshold) == Some(index),
{
    let chosen = choose|i: int| is_best_of(ratios, threshold, i);
    if chosen < index {
        assert(ratios[chosen] < ratios[index]);
    } else if index < chosen {
        assert(ratios[index] < ratios[chosen]);
    }
}

/// There is no winning score where no score reaches the threshold.
pub proof fn lemma_no_best_of(ratios: Seq<nat>, threshold: nat)
    requires
        forall|j: int| 0 <= j < ratios.len() ==> #[trigger] ratios[j] < threshold,
    ensures
        best_of(ratios, threshold) is None,
{
    if exists|i: int| is_best_of(ratios, threshold, i) {
        let chosen = choose|i: int| is_best_of(ratios, threshold, i);
        assert(ratios[chosen] < threshold);
    }
}

/// A text that starts with no structural character matches itself perfectly:
/// against a vocabulary of that text alone it is found at index 0 with 100,
/// whatever the threshold up to 100.
pub proof fn lemma_self_match_is_perfect(word: Seq<char>, threshold: nat)
    requires
        !starts_structural(word),
        threshold <= 100,
    ensures
        penalized_similarity(word, word) == 100,
        best_entry(word, seq![word], threshold) == Some(0int),
{
    let ratios = penalized_similarities(word, seq![word]);
    assert(ratios[0] == 100);
    assert(is_best_of(ratios, threshold, 0));
    lemma_best_of_unique(ratios, threshold, 0);
}

/// An entry that starts with `-` is always penalized, whatever the candidate,
/// one of its own length and characters included: it is eligible exactly when
/// its similarity less the penalty reaches the threshold. Left out is the one
/// case in which the floor at 0 decides: a threshold of 0 and a similarity
/// below the penalty.
pub proof fn lemma_leading_dash_is_penalized(
    candidate: Seq<char>,
    entry: Seq<char>,
    threshold: nat,
)
    requires
        entry.len() > 0,
        entry[0] == '-',
        threshold > 0 || similarity(candidate, entry) >= PENALTY,
    ensures
        is_penalized(candidate, entry),
        clears(candidate, entry, threshold) <==> similarity(candidate, entry) - PENALTY
            >= threshold,
        candidate == entry ==> (clears(candidate, entry, threshold) <==> 100 - PENALTY
            >= threshold),
{
}

/// Calls `fuzzywuzzy::fuzz::ratio`, which measures how much of two texts lies
/// in common blocks: twice the length of the blocks, in percent of the two
/// lengths together. The contract names the result and adds two facts that
/// the function's source shows. The blocks do not overlap within the shorter
/// text, so the result is at most 100. Equal texts are one common block, so
/// their result is 100. The function slices the shorter text at byte offsets
/// and panics off a character boundary, so both texts have to be ASCII.
#[verifier::external_body]
fn fuzz_ratio_of(a: &str, b: &str) -> (ratio: u8)
    requires
        is_ascii(a),
        is_ascii(b),
    ensures
        ratio as nat == fuzz_ratio(a@, b@),
        ratio <= 100,
        a@ == b@ ==> ratio == 100,
{
    fuzzywuzzy::fuzz::ratio(a, b)
}

/// Whether `entry` starts with `-`, `=`, `(` or `)`.
fn has_structural_start(entry: &str) -> (structural: bool)
    ensures
        structural == starts_structural(entry@),
{
    if entry.is_empty() {
        return false;
    }
    let first: char = entry.get_char(0);
    first == '-' || first == '=' || first == '(' || first == ')'
}

/// Applies the penalty to a similarity of `ratio` percent between
/// `candidate` and `entry`.
pub fn apply_penalty(ratio: u8, candidate: &str, entry: &str) -> (reduced: u8)
    ensures
        reduced as nat == penalized(ratio as nat, candidate@, entry@),
        reduced <= ratio,
{
    if candidate.unicode_len() != entry.unicode_len() || has_structural_start(entry) {
        if ratio >= PENALTY {
            ratio - PENALTY
        } else {
            0
        }
    } else {
        ratio
    }
}

/// The similarity of `candidate` and `entry` in percent, after the penalty.
pub fn penalized_ratio(candidate: &str, entry: &str) -> (ratio: u8)
    requires
        is_ascii(candidate),
        is_ascii(entry),
    ensures
        ratio as nat == penalized_similarity(candidate@, entry@),
        ratio <= 100,
{
    apply_penalty(fuzz_ratio_of(candidate, entry), candidate, entry)
}

/// Computes `penalized_ratio` of the candidate and every vocabulary entry on
/// rayon's worker pool: `par_iter`, `map` and `collect`. Collecting a parallel
/// iterator over a slice into a `Vec` keeps the order of the slice, so the
/// result holds, at each index, what `penalized_ratio` ensures for that entry.
#[verifier::external_body]
fn penalized_ratios(candidate: &str, vocab: &Vec<String>) -> (ratios: Vec<u8>)
    requires
        is_ascii(candidate),
        all_ascii(texts(vocab@)),
    ensures
        ratios.len() == vocab.len(),
        forall|i: int|
            0 <= i < vocab.len() ==> #[trigger] ratios[i] as nat == penalized_similarity(
                candidate@,
                vocab[i]@,
            ),
{
    vocab.par_iter().map(|entry| penalized_ratio(candidate, entry.as_str())).collect()
}

/// Picks the winner among the scores of the vocabulary entries: the highest
/// score that reaches `threshold`, and among equals the one that stands first.
pub fn select_best(ratios: &Vec<u8>, threshold: u8) -> (best: Option<usize>)
    ensures
        best is Some <==> exists|i: int| 0 <= i < ratios.len() && #[trigger] ratios[i] >= threshold,
        match best {
            Some(index) => {
                &&& best_of(percentages(ratios@), threshold as nat) == Some(index as int)
                &&& is_best_of(percentages(ratios@), threshold as nat, index as int)
            },
            None => best_of(percentages(ratios@), threshold as nat) is None,
        },
{
    let ghost scores = percentages(ratios@);
    let mut best: Option<usize> = None;
    let mut best_ratio: u8 = 0;
    for i in 0..ratios.len()
        invariant
            match best {
                Some(b) => {
                    &&& b < i
                    &&& ratios[b as int] == best_ratio
                    &&& best_ratio >= threshold
                    &&& forall|j: int| 0 <= j < i ==> ratios[j] <= best_ratio
                    &&& forall|j: int| 0 <= j < b ==> ratios[j] < best_ratio
                },
                None => forall|j: int| 0 <= j < i ==> ratios[j] < threshold,
            },
    {
        let ratio: u8 = ratios[i];
        let better = match best {
            Some(_) => ratio > best_ratio,
            None => true,
        };
        if ratio >= threshold && better {
            best = Some(i);
            best_ratio = ratio;
        }
    }
    proof {
        match best {
            Some(index) => {
                assert forall|j: int| 0 <= j < scores.len() implies #[trigger] scores[j]
                    <= scores[index as int] by {
                    assert(ratios[j] <= best_ratio);
                }
                assert forall|j: int| 0 <= j < index implies #[trigger] scores[j]
                    < scores[index as int] by {
                    assert(ratios[j] < best_ratio);
                }
                lemma_best_of_unique(scores, threshold as nat, index as int);
            },
            None => {
                assert forall|j: int| 0 <= j < scores.len() implies #[trigger] scores[j]
                    < threshold by {
                    assert(ratios[j] < threshold);
                }
                lemma_no_best_of(scores, threshold as nat);
            },
        }
    }
    best
}

/// Finds the vocabulary entry most similar to `word`.
///
/// Every entry is scored with the penalized similarity; entries below
/// `threshold` are dropped; of the rest the highest wins, and among equals the
/// one with the lowest index. The result is the entry's index, its text and
/// its score in percent.
pub fn find_most_similar_word_in_vocab(word: &str, vocab: &Vec<String>, threshold: u8) -> (found:
    Option<(usize, String, u8)>)
    requires
        is_ascii(word),
        all_ascii(texts(vocab@)),
    ensures
        found is Some <==> exists|i: int|
            0 <= i < vocab.len() && clears(word@, #[trigger] vocab[i]@, threshold as nat),
        match found {
            Some((index, text, ratio)) => {
                &&& best_entry(word@, texts(vocab@), threshold as nat) == Some(index as int)
                &&& is_best_entry(word@, texts(vocab@), threshold as nat, index as int)
                &&& text@ == vocab[index as int]@
                &&& ratio as nat == penalized_similarity(word@, vocab[index as int]@)
                &&& threshold <= ratio <= 100
            },
            None => best_entry(word@, texts(vocab@), threshold as nat) is None,
        },
{
    let ratios = penalized_ratios(word, vocab);
    proof {
        assert(percentages(ratios@) =~= penalized_similarities(word@, texts(vocab@)));
        assert forall|i: int| 0 <= i < vocab.len() implies (clears(
            word@,
            #[trigger] vocab[i]@,
            threshold as nat,
        ) <==> ratios[i] >= threshold) by {}
    }
    match select_best(&ratios, threshold) {
        Some(index) => {
            Some((index, vocab[index].clone(), ratios[index]))
        },
        None => None,
    }
}

} // verus!
