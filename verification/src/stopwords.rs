//! The words that the analytics pass over.

use vstd::prelude::*;
use crate::text::{before_char, lines, prefix_before, split_lines, views};

verus! {

/// A set of stopwords. Its view is the set of their texts.
pub struct StopwordSet {
    words: Vec<String>,
}

impl View for StopwordSet {
    type V = Set<Seq<char>>;

    closed spec fn view(&self) -> Set<Seq<char>> {
        views(self.words@).to_set()
    }
}

/// The first comma-separated field of each line of a stopword source.
pub open spec fn stopword_fields(source: Seq<char>) -> Seq<Seq<char>> {
    lines(source).map_values(|line: Seq<char>| before_char(line, ','))
}

impl StopwordSet {
    /// The empty set.
    pub fn new() -> (set: StopwordSet)
        ensures
            set@ == Set::<Seq<char>>::empty(),
    {
        let set = StopwordSet { words: Vec::new() };
        assert(set@ =~= Set::<Seq<char>>::empty());
        set
    }

    /// Adds `word` to the set.
    pub fn insert(&mut self, word: String)
        ensures
            final(self)@ == old(self)@.insert(word@),
    {
        proof {
            assert(views(self.words@.push(word)) == views(self.words@).push(word@));
            views(self.words@).lemma_push_to_set_commute(word@);
        }
        self.words.push(word);
    }

    /// Whether `word` is in the set.
    pub fn contains(&self, word: &str) -> (found: bool)
        ensures
            found == self@.contains(word@),
    {
        let wanted = word.to_owned();
        let mut i: usize = 0;
        while i < self.words.len()
            invariant
                i <= self.words.len(),
                wanted@ == word@,
                forall|k: int| 0 <= k < i ==> views(self.words@)[k] != word@,
            decreases self.words.len() - i,
        {
            if self.words[i] == wanted {
                assert(views(self.words@)[i as int] == word@);
                return true;
            }
            i += 1;
        }
        false
    }

    /// The set of the given words.
    pub fn from_words(words: Vec<String>) -> (set: StopwordSet)
        ensures
            set@ == views(words@).to_set(),
    {
        StopwordSet { words }
    }
}

/// Reads a stopword source: one stopword per line, in the first of the
/// line's comma-separated fields. The other fields are not looked at.
pub fn parse_stopwords(source: &str) -> (set: StopwordSet)
    ensures
        set@ == stopword_fields(source@).to_set(),
{
    let all = split_lines(source);
    let mut set = StopwordSet::new();
    let mut i: usize = 0;
    assert(stopword_fields(source@).take(0).to_set() =~= Set::<Seq<char>>::empty());
    while i < all.len()
        invariant
            i <= all.len(),
            views(all@) == lines(source@),
            set@ == stopword_fields(source@).take(i as int).to_set(),
        decreases all.len() - i,
    {
        let field = prefix_before(all[i].as_str(), ',');
        proof {
            let fields = stopword_fields(source@);
            assert(views(all@)[i as int] == all@[i as int]@);
            assert(fields[i as int] == field@);
            assert(fields.take(i + 1) == fields.take(i as int).push(field@));
            fields.take(i as int).lemma_push_to_set_commute(field@);
        }
        set.insert(field);
        i += 1;
    }
    assert(stopword_fields(source@).take(all.len() as int) == stopword_fields(source@));
    set
}

} // verus!
