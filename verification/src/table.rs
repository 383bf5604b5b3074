//! The table of neighbour counts that is kept for one vocabulary entry.

use vstd::prelude::*;
use vstd::string::*;

verus! {

/// One line of a table: how often `neighbour` was seen next to the table's
/// vocabulary entry in texts of `category`.
#[derive(Debug, Clone)]
pub struct NeighbourEntry {
    pub neighbour: String,
    pub category: String,
    pub count: u32,
}

/// What a line of a table stands for.
pub struct EntryView {
    pub neighbour: Seq<char>,
    pub category: Seq<char>,
    pub count: nat,
}

impl View for NeighbourEntry {
    type V = EntryView;

    open spec fn view(&self) -> EntryView {
        EntryView {
            neighbour: self.neighbour@,
            category: self.category@,
            count: self.count as nat,
        }
    }
}

/// Whether line `i` is the line for `neighbour` and `category`.
pub open spec fn holds_key(
    entries: Seq<EntryView>,
    i: int,
    neighbour: Seq<char>,
    category: Seq<char>,
) -> bool {
    0 <= i < entries.len() && entries[i].neighbour == neighbour && entries[i].category == category
}

/// Whether no two lines share their neighbour and their category.
pub open spec fn distinct_keys(entries: Seq<EntryView>) -> bool {
    forall|i: int, j: int|
        0 <= i < j < entries.len() ==> !(#[trigger] entries[i].neighbour
            == #[trigger] entries[j].neighbour && entries[i].category == entries[j].category)
}

/// The counts recorded for one vocabulary entry, at most one line for each
/// pair of neighbour and category, in the order in which the pairs came in.
#[derive(Debug)]
pub struct NeighbourTable {
    entries: Vec<NeighbourEntry>,
}

impl View for NeighbourTable {
    type V = Seq<EntryView>;

    closed spec fn view(&self) -> Seq<EntryView> {
        self.entries@.map_values(|e: NeighbourEntry| e@)
    }
}

impl NeighbourTable {
    #[verifier::type_invariant]
    spec fn well_formed(&self) -> bool {
        distinct_keys(self@)
    }

    /// A table without lines.
    pub fn new() -> (table: Self)
        ensures
            table@.len() == 0,
    {
        NeighbourTable { entries: Vec::new() }
    }

    /// The number of lines.
    pub fn len(&self) -> (n: usize)
        ensures
            n == self@.len(),
            distinct_keys(self@),
    {
        proof {
            use_type_invariant(self);
        }
        self.entries.len()
    }

    /// The line at position `i`.
    pub fn entry(&self, i: usize) -> (line: &NeighbourEntry)
        requires
            i < self@.len(),
        ensures
            line@ == self@[i as int],
    {
        &self.entries[i]
    }

    /// The position of the line for `neighbour` and `category`.
    fn find(&self, neighbour: &String, category: &String) -> (found: Option<usize>)
        ensures
            match found {
                Some(i) => holds_key(self@, i as int, neighbour@, category@),
                None => forall|i: int| !holds_key(self@, i, neighbour@, category@),
            },
    {
        for i in 0..self.entries.len()
            invariant
                forall|k: int| 0 <= k < i ==> !holds_key(self@, k, neighbour@, category@),
        {
            if self.entries[i].neighbour == *neighbour && self.entries[i].category == *category {
                return Some(i);
            }
        }
        None
    }

    /// The count recorded for `neighbour` and `category`, if there is one.
    pub fn get(&self, neighbour: &str, category: &str) -> (count: Option<u32>)
        ensures
            match count {
                Some(c) => exists|i: int|
                    holds_key(self@, i, neighbour@, category@) && self@[i].count == c,
                None => forall|i: int| !holds_key(self@, i, neighbour@, category@),
            },
    {
        match self.find(&neighbour.to_owned(), &category.to_owned()) {
            Some(i) => Some(self.entries[i].count),
            None => None,
        }
    }

    /// Records `count` for `neighbour` and `category`.
    ///
    /// Where the pair has a line already, that line gets the new count and
    /// the old one is returned; otherwise a line is added at the end.
    pub fn insert(&mut self, neighbour: &str, category: &str, count: u32) -> (replaced: Option<u32>)
        ensures
            distinct_keys(final(self)@),
            match replaced {
                Some(previous) => exists|i: int|
                    {
                        &&& holds_key(old(self)@, i, neighbour@, category@)
                        &&& old(self)@[i].count == previous
                        &&& final(self)@ == old(self)@.update(
                            i,
                            EntryView {
                                neighbour: neighbour@,
                                category: category@,
                                count: count as nat,
                            },
                        )
                    },
                None => {
                    &&& forall|i: int| !holds_key(old(self)@, i, neighbour@, category@)
                    &&& final(self)@ == old(self)@.push(
                        EntryView {
                            neighbour: neighbour@,
                            category: category@,
                            count: count as nat,
                        },
                    )
                },
            },
    {
        proof {
            use_type_invariant(&*self);
        }
        let neighbour = neighbour.to_owned();
        let category = category.to_owned();
        let line = NeighbourEntry { neighbour: neighbour.clone(), category: category.clone(), count };
        let found = self.find(&neighbour, &category);
        let ghost before = self@;
        let mut entries: Vec<NeighbourEntry> = Vec::new();
        core::mem::swap(&mut self.entries, &mut entries);
        match found {
            Some(i) => {
                let previous = entries[i].count;
                entries.set(i, line);
                proof {
                    let after = entries@.map_values(|e: NeighbourEntry| e@);
                    assert forall|a: int, b: int| 0 <= a < b < after.len() implies !(
                    #[trigger] after[a].neighbour == #[trigger] after[b].neighbour
                        && after[a].category == after[b].category) by {
                        assert(!(before[a].neighbour == before[b].neighbour && before[a].category
                            == before[b].category));
                    }
                }
                self.entries = entries;
                Some(previous)
            },
            None => {
                entries.push(line);
                proof {
                    let after = entries@.map_values(|e: NeighbourEntry| e@);
                    assert forall|a: int, b: int| 0 <= a < b < after.len() implies !(
                    #[trigger] after[a].neighbour == #[trigger] after[b].neighbour
                        && after[a].category == after[b].category) by {
                        if b == before.len() {
                            assert(!holds_key(before, a, neighbour@, category@));
                        } else {
                            assert(!(before[a].neighbour == before[b].neighbour
                                && before[a].category == before[b].category));
                        }
                    }
                }
                self.entries = entries;
                None
            },
        }
    }
}

} // verus!
