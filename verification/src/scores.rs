//! Category scores: how they add up, and which category wins.
//!
//! A score is kept in hundredths. It never wraps: a score that would exceed
//! `u64::MAX` stays there.

use vstd::prelude::*;
use vstd::string::*;

verus! {

/// One contribution to the score of a category.
pub struct Term {
    pub category: Seq<char>,
    pub amount: nat,
}

/// An amount as a score can hold it: cut off at `u64::MAX`.
pub open spec fn capped(amount: nat) -> nat {
    if amount > u64::MAX {
        u64::MAX as nat
    } else {
        amount
    }
}

/// The sum of the amounts that `terms` contribute to `category`.
pub open spec fn total(terms: Seq<Term>, category: Seq<char>) -> nat
    decreases terms.len(),
{
    if terms.len() == 0 {
        0
    } else {
        total(terms.drop_last(), category) + if terms.last().category == category {
            terms.last().amount
        } else {
            0
        }
    }
}

/// The categories that `terms` contribute to, each once, in the order in
/// which they first occur.
pub open spec fn categories_seen(terms: Seq<Term>) -> Seq<Seq<char>>
    decreases terms.len(),
{
    if terms.len() == 0 {
        Seq::empty()
    } else {
        let before = categories_seen(terms.drop_last());
        if before.contains(terms.last().category) {
            before
        } else {
            before.push(terms.last().category)
        }
    }
}

/// The scores that `terms` add up to: one line for each category seen, with
/// the capped sum of its amounts.
pub open spec fn tally(terms: Seq<Term>) -> Seq<(Seq<char>, nat)> {
    categories_seen(terms).map_values(|c: Seq<char>| (c, capped(total(terms, c))))
}

/// Whether line `i` is a line for `category`.
pub open spec fn is_line_of(entries: Seq<(Seq<char>, nat)>, i: int, category: Seq<char>) -> bool {
    0 <= i < entries.len() && entries[i].0 == category
}

/// The position of a line for `category`, if there is one.
pub open spec fn position(entries: Seq<(Seq<char>, nat)>, category: Seq<char>) -> Option<int> {
    if exists|i: int| is_line_of(entries, i, category) {
        Some(choose|i: int| is_line_of(entries, i, category))
    } else {
        None
    }
}

/// The score of `category`, if it has a line.
pub open spec fn score_of(entries: Seq<(Seq<char>, nat)>, category: Seq<char>) -> Option<nat> {
    match position(entries, category) {
        Some(i) => Some(entries[i].1),
        None => None,
    }
}

/// The scores as a map from category to score.
pub open spec fn score_table(entries: Seq<(Seq<char>, nat)>) -> Map<Seq<char>, nat> {
    Map::new(
        |c: Seq<char>| position(entries, c) is Some,
        |c: Seq<char>| entries[position(entries, c)->0].1,
    )
}

/// Whether no two lines are for the same category.
pub open spec fn distinct_categories(entries: Seq<(Seq<char>, nat)>) -> bool {
    forall|i: int, j: int|
        0 <= i < j < entries.len() ==> (#[trigger] entries[i]).0 != (#[trigger] entries[j]).0
}

/// The scores after `amount` has been added to `category`: its line grows by
/// the amount, up to the cap; a category without a line gets one at the end.
pub open spec fn add_term(entries: Seq<(Seq<char>, nat)>, category: Seq<char>, amount: nat) -> Seq<
    (Seq<char>, nat),
> {
    match position(entries, category) {
        Some(i) => entries.update(i, (category, capped(entries[i].1 + amount))),
        None => entries.push((category, capped(amount))),
    }
}

/// Whether line `i` holds the winning score: no line scores higher, and every
/// earlier line scores lower.
pub open spec fn is_largest(entries: Seq<(Seq<char>, nat)>, i: int) -> bool {
    &&& 0 <= i < entries.len()
    &&& forall|j: int| 0 <= j < entries.len() ==> (#[trigger] entries[j]).1 <= entries[i].1
    &&& forall|j: int| 0 <= j < i ==> (#[trigger] entries[j]).1 < entries[i].1
}

/// The position of the winning line, if there is any line.
pub open spec fn largest(entries: Seq<(Seq<char>, nat)>) -> Option<int> {
    if exists|i: int| is_largest(entries, i) {
        Some(choose|i: int| is_largest(entries, i))
    } else {
        None
    }
}

/// At most one line holds the winning score.
pub proof fn lemma_largest_unique(entries: Seq<(Seq<char>, nat)>, i: int)
    requires
        is_largest(entries, i),
    ensures
        largest(entries) == Some(i),
{
    let chosen = choose|k: int| is_largest(entries, k);
    if chosen < i {
        assert(entries[chosen].1 < entries[i].1);
    } else if i < chosen {
        assert(entries[i].1 < entries[chosen].1);
    }
}

/// Among distinct lines, the line for a category is found at its position.
pub proof fn lemma_position_unique(entries: Seq<(Seq<char>, nat)>, i: int, category: Seq<char>)
    requires
        distinct_categories(entries),
        is_line_of(entries, i, category),
    ensures
        position(entries, category) == Some(i),
{
    let chosen = choose|k: int| is_line_of(entries, k, category);
    if chosen < i {
        assert(entries[chosen].0 != entries[i].0);
    } else if i < chosen {
        assert(entries[i].0 != entries[chosen].0);
    }
}

/// The categories seen are those of the terms, and none is listed twice.
pub proof fn lemma_categories_seen(terms: Seq<Term>)
    ensures
        forall|c: Seq<char>|
            categories_seen(terms).contains(c) <==> exists|k: int|
                0 <= k < terms.len() && (#[trigger] terms[k]).category == c,
        forall|i: int, j: int|
            0 <= i < j < categories_seen(terms).len() ==> #[trigger] categories_seen(terms)[i]
                != #[trigger] categories_seen(terms)[j],
    decreases terms.len(),
{
    if terms.len() > 0 {
        let front = terms.drop_last();
        let before = categories_seen(front);
        let seen = categories_seen(terms);
        let last = terms.last().category;
        lemma_categories_seen(front);
        assert forall|c: Seq<char>| seen.contains(c) <==> exists|k: int|
            0 <= k < terms.len() && (#[trigger] terms[k]).category == c by {
            if seen.contains(c) {
                let i = choose|i: int| 0 <= i < seen.len() && seen[i] == c;
                if i < before.len() {
                    assert(before[i] == c);
                    assert(before.contains(c));
                    let k = choose|k: int| 0 <= k < front.len() && (#[trigger] front[k]).category == c;
                    assert(terms[k].category == c);
                } else {
                    assert(terms[terms.len() - 1].category == c);
                }
            }
            if exists|k: int| 0 <= k < terms.len() && (#[trigger] terms[k]).category == c {
                let k = choose|k: int| 0 <= k < terms.len() && (#[trigger] terms[k]).category == c;
                if k < front.len() {
                    assert(front[k].category == c);
                    assert(before.contains(c));
                    let i = choose|i: int| 0 <= i < before.len() && before[i] == c;
                    assert(seen[i] == c);
                } else if before.contains(c) {
                    let i = choose|i: int| 0 <= i < before.len() && before[i] == c;
                    assert(seen[i] == c);
                } else {
                    assert(seen[seen.len() - 1] == c);
                }
            }
        }
        assert forall|i: int, j: int| 0 <= i < j < seen.len() implies #[trigger] seen[i]
            != #[trigger] seen[j] by {
            if j == before.len() {
                assert(before[i] == seen[i]);
                assert(!before.contains(last));
            } else {
                assert(before[i] != before[j]);
            }
        }
    }
}

/// Terms of other categories add nothing to the total of a category.
pub proof fn lemma_total_without_category(terms: Seq<Term>, category: Seq<char>)
    requires
        forall|k: int| 0 <= k < terms.len() ==> (#[trigger] terms[k]).category != category,
    ensures
        total(terms, category) == 0,
    decreases terms.len(),
{
    if terms.len() > 0 {
        let front = terms.drop_last();
        assert forall|k: int| 0 <= k < front.len() implies (#[trigger] front[k]).category
            != category by {
            assert(terms[k].category != category);
        }
        lemma_total_without_category(front, category);
        assert(terms[terms.len() - 1].category != category);
    }
}

/// The lines of a tally are for distinct categories, a category has a line
/// exactly when a term contributes to it, and the line holds the capped sum
/// of the category's amounts.
pub proof fn lemma_tally_scores(terms: Seq<Term>, category: Seq<char>)
    ensures
        distinct_categories(tally(terms)),
        score_of(tally(terms), category) == if exists|k: int|
            0 <= k < terms.len() && (#[trigger] terms[k]).category == category {
            Some(capped(total(terms, category)))
        } else {
            None
        },
{
    let seen = categories_seen(terms);
    let lines = tally(terms);
    lemma_categories_seen(terms);
    assert forall|i: int, j: int| 0 <= i < j < lines.len() implies (#[trigger] lines[i]).0 != (
    #[trigger] lines[j]).0 by {
        assert(seen[i] != seen[j]);
    }
    if seen.contains(category) {
        let i = choose|i: int| 0 <= i < seen.len() && seen[i] == category;
        assert(is_line_of(lines, i, category));
        lemma_position_unique(lines, i, category);
    } else {
        if exists|i: int| is_line_of(lines, i, category) {
            let i = choose|i: int| is_line_of(lines, i, category);
            assert(seen[i] == category);
        }
    }
}

/// Adding a term to a tally gives the tally of the terms with that term
/// appended.
pub proof fn lemma_tally_push(terms: Seq<Term>, term: Term)
    ensures
        tally(terms.push(term)) == add_term(tally(terms), term.category, term.amount),
{
    let more = terms.push(term);
    let seen = categories_seen(terms);
    let lines = tally(terms);
    assert(more.drop_last() == terms);
    assert(more.last() == term);
    lemma_categories_seen(terms);
    lemma_tally_scores(terms, term.category);
    assert forall|c: Seq<char>| c != term.category implies total(more, c) == total(terms, c) by {}
    if seen.contains(term.category) {
        let i = choose|i: int| 0 <= i < seen.len() && seen[i] == term.category;
        assert(is_line_of(lines, i, term.category));
        lemma_position_unique(lines, i, term.category);
        assert forall|k: int| 0 <= k < seen.len() && k != i implies seen[k] != term.category by {
            if k < i {
                assert(seen[k] != seen[i]);
            } else {
                assert(seen[i] != seen[k]);
            }
        }
        assert(tally(more) =~= lines.update(
            i,
            (term.category, capped(lines[i].1 + term.amount)),
        ));
    } else {
        assert forall|k: int| 0 <= k < terms.len() implies (#[trigger] terms[k]).category
            != term.category by {}
        lemma_total_without_category(terms, term.category);
        assert forall|k: int| 0 <= k < seen.len() implies seen[k] != term.category by {}
        assert(tally(more) =~= lines.push((term.category, capped(term.amount))));
    }
}

/// Taking one term out of a list lowers the total of its category by its
/// amount and leaves the other totals alone.
pub proof fn lemma_total_remove(terms: Seq<Term>, index: int, category: Seq<char>)
    requires
        0 <= index < terms.len(),
    ensures
        total(terms, category) == total(terms.remove(index), category) + if terms[index].category
            == category {
            terms[index].amount
        } else {
            0
        },
    decreases terms.len(),
{
    if index == terms.len() - 1 {
        assert(terms.remove(index) == terms.drop_last());
    } else {
        lemma_total_remove(terms.drop_last(), index, category);
        assert(terms.remove(index).drop_last() == terms.drop_last().remove(index));
        assert(terms.remove(index).last() == terms.last());
    }
}

/// The total of a category depends on which terms there are, not on their
/// order.
pub proof fn lemma_total_ignores_order(first: Seq<Term>, second: Seq<Term>, category: Seq<char>)
    requires
        first.to_multiset() == second.to_multiset(),
    ensures
        total(first, category) == total(second, category),
    decreases first.len(),
{
    first.to_multiset_ensures();
    second.to_multiset_ensures();
    if first.len() > 0 {
        let term = first.last();
        assert(first.contains(term)) by {
            assert(first[first.len() - 1] == term);
        }
        assert(first.to_multiset().count(term) > 0);
        assert(second.to_multiset().count(term) > 0);
        assert(second.contains(term));
        let index = choose|k: int| 0 <= k < second.len() && second[k] == term;
        assert(first.remove(first.len() - 1) == first.drop_last());
        assert(first.drop_last().to_multiset() == second.remove(index).to_multiset());
        lemma_total_ignores_order(first.drop_last(), second.remove(index), category);
        lemma_total_remove(second, index, category);
    }
}

/// The scores that terms add up to depend on which terms there are, not on
/// the order in which they are added: two lists that hold the same terms,
/// each as often as the other, give every category the same score.
pub proof fn lemma_scores_ignore_order(first: Seq<Term>, second: Seq<Term>)
    requires
        first.to_multiset() == second.to_multiset(),
    ensures
        score_table(tally(first)) == score_table(tally(second)),
{
    first.to_multiset_ensures();
    second.to_multiset_ensures();
    assert forall|c: Seq<char>| score_of(tally(first), c) == score_of(tally(second), c) by {
        lemma_tally_scores(first, c);
        lemma_tally_scores(second, c);
        lemma_total_ignores_order(first, second, c);
        if exists|k: int| 0 <= k < first.len() && (#[trigger] first[k]).category == c {
            let k = choose|k: int| 0 <= k < first.len() && (#[trigger] first[k]).category == c;
            assert(first.contains(first[k]));
            assert(first.to_multiset().count(first[k]) > 0);
            assert(second.to_multiset().count(first[k]) > 0);
            assert(second.contains(first[k]));
            let m = choose|m: int| 0 <= m < second.len() && second[m] == first[k];
            assert(second[m].category == c);
        }
        if exists|k: int| 0 <= k < second.len() && (#[trigger] second[k]).category == c {
            let k = choose|k: int| 0 <= k < second.len() && (#[trigger] second[k]).category == c;
            assert(second.contains(second[k]));
            assert(second.to_multiset().count(second[k]) > 0);
            assert(first.to_multiset().count(second[k]) > 0);
            assert(first.contains(second[k]));
            let m = choose|m: int| 0 <= m < first.len() && first[m] == second[k];
            assert(first[m].category == c);
        }
    }
    assert forall|c: Seq<char>|
        score_table(tally(first)).dom().contains(c) == score_table(tally(second)).dom().contains(
            c,
        ) by {
        assert(score_of(tally(first), c) == score_of(tally(second), c));
    }
    assert forall|c: Seq<char>| score_table(tally(first)).dom().contains(c) implies score_table(
        tally(first),
    )[c] == score_table(tally(second))[c] by {
        assert(score_of(tally(first), c) == score_of(tally(second), c));
    }
    assert(score_table(tally(first)) =~= score_table(tally(second)));
}

/// The score of one category.
#[derive(Debug, Clone)]
pub struct ScoreEntry {
    pub category: String,
    pub score: u64,
}

/// The scores of the categories, at most one line for each, in the order in
/// which the categories first scored.
#[derive(Debug)]
pub struct ScoreMap {
    entries: Vec<ScoreEntry>,
}

impl View for ScoreMap {
    type V = Seq<(Seq<char>, nat)>;

    closed spec fn view(&self) -> Seq<(Seq<char>, nat)> {
        self.entries@.map_values(|e: ScoreEntry| (e.category@, e.score as nat))
    }
}

impl ScoreMap {
    #[verifier::type_invariant]
    spec fn well_formed(&self) -> bool {
        distinct_categories(self@)
    }

    /// Scores for no category.
    pub fn new() -> (scores: Self)
        ensures
            scores@.len() == 0,
    {
        ScoreMap { entries: Vec::new() }
    }

    /// Scores for no category, with room for `capacity` categories.
    pub fn with_capacity(capacity: usize) -> (scores: Self)
        ensures
            scores@.len() == 0,
    {
        ScoreMap { entries: Vec::with_capacity(capacity) }
    }

    /// The number of categories with a score.
    pub fn len(&self) -> (n: usize)
        ensures
            n == self@.len(),
            distinct_categories(self@),
    {
        proof {
            use_type_invariant(self);
        }
        self.entries.len()
    }

    /// The line at position `i`: a category and its score.
    pub fn entry(&self, i: usize) -> (line: (String, u64))
        requires
            i < self@.len(),
        ensures
            line.0@ == self@[i as int].0,
            line.1 == self@[i as int].1,
    {
        (self.entries[i].category.clone(), self.entries[i].score)
    }

    /// The position of the line for `category`.
    fn find(&self, category: &String) -> (found: Option<usize>)
        ensures
            match found {
                Some(i) => position(self@, category@) == Some(i as int) && i < self@.len(),
                None => position(self@, category@) is None,
            },
    {
        proof {
            use_type_invariant(self);
        }
        for i in 0..self.entries.len()
            invariant
                distinct_categories(self@),
                forall|k: int| 0 <= k < i ==> !is_line_of(self@, k, category@),
        {
            if self.entries[i].category == *category {
                proof {
                    lemma_position_unique(self@, i as int, category@);
                }
                return Some(i);
            }
        }
        None
    }

    /// The score of `category`, if it has one.
    pub fn get(&self, category: &str) -> (score: Option<u64>)
        ensures
            match score {
                Some(s) => score_of(self@, category@) == Some(s as nat),
                None => score_of(self@, category@) is None,
            },
    {
        match self.find(&category.to_owned()) {
            Some(i) => Some(self.entries[i].score),
            None => None,
        }
    }

    /// Adds `amount` to the score of `category`, which starts at 0.
    pub fn add(&mut self, category: &str, amount: u64)
        ensures
            final(self)@ == add_term(old(self)@, category@, amount as nat),
            distinct_categories(final(self)@),
    {
        proof {
            use_type_invariant(&*self);
        }
        let key = category.to_owned();
        let found = self.find(&key);
        let ghost before = self@;
        let mut entries: Vec<ScoreEntry> = Vec::new();
        core::mem::swap(&mut self.entries, &mut entries);
        match found {
            Some(i) => {
                let score = entries[i].score;
                let sum = if amount > u64::MAX - score {
                    u64::MAX
                } else {
                    score + amount
                };
                entries.set(i, ScoreEntry { category: key, score: sum });
                proof {
                    let after = entries@.map_values(|e: ScoreEntry| (e.category@, e.score as nat));
                    assert(after == add_term(before, category@, amount as nat));
                    assert forall|a: int, b: int| 0 <= a < b < after.len() implies (
                    #[trigger] after[a]).0 != (#[trigger] after[b]).0 by {
                        assert(before[a].0 != before[b].0);
                    }
                }
                self.entries = entries;
            },
            None => {
                entries.push(ScoreEntry { category: key, score: amount });
                proof {
                    let after = entries@.map_values(|e: ScoreEntry| (e.category@, e.score as nat));
                    assert(after == add_term(before, category@, amount as nat));
                    assert forall|a: int, b: int| 0 <= a < b < after.len() implies (
                    #[trigger] after[a]).0 != (#[trigger] after[b]).0 by {
                        if b == before.len() {
                            assert(!is_line_of(before, a, category@));
                        } else {
                            assert(before[a].0 != before[b].0);
                        }
                    }
                }
                self.entries = entries;
            },
        }
    }
}

/// The category with the highest score, and that score.
///
/// Without any score there is no winner. Among categories with the same
/// score, the one that scored first wins.
pub fn get_largest_output(outputs: &ScoreMap) -> (winner: Option<(String, u64)>)
    ensures
        winner is None <==> outputs@.len() == 0,
        match winner {
            Some((category, score)) => {
                &&& largest(outputs@) matches Some(i)
                &&& is_largest(outputs@, i)
                &&& category@ == outputs@[i].0
                &&& score as nat == outputs@[i].1
            },
            None => largest(outputs@) is None,
        },
{
    let n = outputs.len();
    if n == 0 {
        return None;
    }
    let mut best: usize = 0;
    let mut best_score: u64 = outputs.entry(0).1;
    for i in 1..n
        invariant
            n == outputs@.len(),
            best < i,
            best_score as nat == outputs@[best as int].1,
            forall|j: int| 0 <= j < i ==> (#[trigger] outputs@[j]).1 <= best_score,
            forall|j: int| 0 <= j < best ==> (#[trigger] outputs@[j]).1 < best_score,
    {
        let score = outputs.entry(i).1;
        if score > best_score {
            best = i;
            best_score = score;
        }
    }
    proof {
        lemma_largest_unique(outputs@, best as int);
    }
    let line = outputs.entry(best);
    Some((line.0, line.1))
}

} // verus!
