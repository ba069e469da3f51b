//! How often each word occurs.

use vstd::prelude::*;
use crate::keyed::{keyed, lemma_keyed_at, lemma_keyed_len, lemma_keyed_push, lemma_keyed_update};
use crate::normalize::{lemma_words_of_normalized, normalized, preprocess_words};
use crate::stopwords::StopwordSet;
use crate::text::{views, words};

verus! {

/// A word and the number of times it was counted.
#[derive(Debug, Clone, PartialEq, Eq)]
pub struct WordCount {
    pub word: String,
    pub count: u128,
}

/// How often `w` occurs in `tokens`.
pub open spec fn occurrences(tokens: Seq<Seq<char>>, w: Seq<char>) -> nat
    decreases tokens.len(),
{
    if tokens.len() == 0 {
        0
    } else {
        occurrences(tokens.drop_last(), w) + if tokens.last() == w {
            1nat
        } else {
            0nat
        }
    }
}

/// The table of `tokens`: each token that occurs, with the number of its
/// occurrences.
pub open spec fn tally(tokens: Seq<Seq<char>>) -> Map<Seq<char>, nat> {
    Map::new(|w: Seq<char>| occurrences(tokens, w) > 0, |w: Seq<char>| occurrences(tokens, w))
}

/// What `table` holds for `w`: its count, or zero where it has none.
pub open spec fn count_in(table: Map<Seq<char>, nat>, w: Seq<char>) -> nat {
    if table.dom().contains(w) {
        table[w]
    } else {
        0
    }
}

/// The words of the normal form of one text.
pub open spec fn text_words(stopwords: Set<Seq<char>>) -> spec_fn(Seq<char>) -> Seq<Seq<char>> {
    |text: Seq<char>| words(normalized(text, stopwords))
}

/// The words of the normal forms of `texts`, text after text.
pub open spec fn all_words(texts: Seq<Seq<char>>, stopwords: Set<Seq<char>>) -> Seq<Seq<char>> {
    texts.map_values(text_words(stopwords)).flatten()
}

/// The frequency table of `texts`: every word of their normal forms, with
/// the number of times it occurs in all of them together.
pub open spec fn word_counts(texts: Seq<Seq<char>>, stopwords: Set<Seq<char>>) -> Map<
    Seq<char>,
    nat,
> {
    tally(all_words(texts, stopwords))
}

/// The words of `entries`.
pub open spec fn row_words(entries: Seq<WordCount>) -> Seq<Seq<char>> {
    Seq::new(entries.len(), |i: int| entries[i].word@)
}

/// The counts of `entries`.
pub open spec fn row_counts(entries: Seq<WordCount>) -> Seq<nat> {
    Seq::new(entries.len(), |i: int| entries[i].count as nat)
}

/// No word has two entries, and no entry counts zero.
pub open spec fn is_table(entries: Seq<WordCount>) -> bool {
    &&& row_words(entries).no_duplicates()
    &&& forall|i: int| 0 <= i < entries.len() ==> (#[trigger] entries[i]).count > 0
}

/// The mapping that `entries` stand for.
pub open spec fn table_of(entries: Seq<WordCount>) -> Map<Seq<char>, nat> {
    keyed(row_words(entries), row_counts(entries))
}

/// A mapping from words to the number of times each was recorded. A word
/// that was never recorded has no entry.
pub struct FrequencyTable {
    entries: Vec<WordCount>,
}

impl View for FrequencyTable {
    type V = Map<Seq<char>, nat>;

    closed spec fn view(&self) -> Map<Seq<char>, nat> {
        table_of(self.entries@)
    }
}

impl FrequencyTable {
    #[verifier::type_invariant]
    spec fn well_formed(&self) -> bool {
        is_table(self.entries@)
    }

    /// The entries of the table, in the order in which their words were
    /// first recorded.
    pub closed spec fn rows(&self) -> Seq<WordCount> {
        self.entries@
    }

    /// The empty table.
    pub fn new() -> (table: FrequencyTable)
        ensures
            table@ == Map::<Seq<char>, nat>::empty(),
            table.rows().len() == 0,
    {
        let table = FrequencyTable { entries: Vec::new() };
        assert(table@ =~= Map::<Seq<char>, nat>::empty());
        table
    }

    /// The number of distinct words in the table.
    pub fn len(&self) -> (n: usize)
        ensures
            n == self.rows().len(),
            self@.dom().finite(),
            n == self@.dom().len(),
    {
        proof {
            use_type_invariant(self);
            lemma_keyed_len(row_words(self.entries@), row_counts(self.entries@));
        }
        self.entries.len()
    }

    /// The entries of the table.
    pub fn entries(&self) -> (rows: &Vec<WordCount>)
        ensures
            rows@ == self.rows(),
            is_table(rows@),
            self@ == table_of(rows@),
    {
        proof {
            use_type_invariant(self);
        }
        &self.entries
    }

    /// The number of times `word` was recorded.
    pub fn count(&self, word: &str) -> (n: u128)
        ensures
            n == count_in(self@, word@),
    {
        proof {
            use_type_invariant(self);
        }
        let wanted = word.to_owned();
        let mut i: usize = 0;
        while i < self.entries.len()
            invariant
                i <= self.entries.len(),
                wanted@ == word@,
                is_table(self.entries@),
                forall|k: int| 0 <= k < i ==> row_words(self.entries@)[k] != word@,
            decreases self.entries.len() - i,
        {
            if self.entries[i].word == wanted {
                proof {
                    lemma_position(self.entries@, i as int);
                }
                return self.entries[i].count;
            }
            i += 1;
        }
        0
    }

    /// Counts `word` once more.
    pub fn record(&mut self, word: String)
        requires
            count_in(old(self)@, word@) < u128::MAX,
        ensures
            final(self)@ == old(self)@.insert(word@, count_in(old(self)@, word@) + 1),
    {
        proof {
            use_type_invariant(&*self);
        }
        let ghost before = self.entries@;
        let mut entries: Vec<WordCount> = Vec::new();
        std::mem::swap(&mut entries, &mut self.entries);
        let mut i: usize = 0;
        while i < entries.len()
            invariant
                i <= entries.len(),
                entries@ == before,
                is_table(before),
                old(self)@ == table_of(before),
                count_in(table_of(before), word@) < u128::MAX,
                forall|k: int| 0 <= k < i ==> row_words(before)[k] != word@,
            decreases entries.len() - i,
        {
            if entries[i].word == word {
                let seen = entries[i].count;
                proof {
                    lemma_position(before, i as int);
                    lemma_keyed_update(
                        row_words(before),
                        row_counts(before),
                        i as int,
                        (seen + 1) as nat,
                    );
                }
                entries.set(i, WordCount { word, count: seen + 1 });
                proof {
                    assert(row_words(entries@) == row_words(before));
                    assert(row_counts(entries@) == row_counts(before).update(
                        i as int,
                        (seen + 1) as nat,
                    ));
                }
                self.entries = entries;
                return ;
            }
            i += 1;
        }
        proof {
            lemma_keyed_push(row_words(before), row_counts(before), word@, 1nat);
            let added = WordCount { word, count: 1 };
            assert(row_words(before.push(added)) == row_words(before).push(word@));
            assert(row_counts(before.push(added)) == row_counts(before).push(1nat));
        }
        entries.push(WordCount { word, count: 1 });
        self.entries = entries;
    }
}

/// In a table, the entry at `i` is the one that its word leads to.
pub proof fn lemma_position(entries: Seq<WordCount>, i: int)
    requires
        is_table(entries),
        0 <= i < entries.len(),
    ensures
        table_of(entries).dom().contains(entries[i].word@),
        table_of(entries)[entries[i].word@] == entries[i].count,
{
    lemma_keyed_at(row_words(entries), row_counts(entries), i);
}

/// One more token raises the number of its own occurrences by one and
/// leaves the others.
pub proof fn lemma_occurrences_push(tokens: Seq<Seq<char>>, t: Seq<char>, w: Seq<char>)
    ensures
        occurrences(tokens.push(t), w) == occurrences(tokens, w) + if t == w {
            1nat
        } else {
            0nat
        },
{
    assert(tokens.push(t).drop_last() == tokens);
}

/// A word occurs at most as often as there are tokens.
pub proof fn lemma_occurrences_bound(tokens: Seq<Seq<char>>, w: Seq<char>)
    ensures
        occurrences(tokens, w) <= tokens.len(),
    decreases tokens.len(),
{
    if tokens.len() > 0 {
        lemma_occurrences_bound(tokens.drop_last(), w);
    }
}

/// The occurrences in two sequences of tokens add up.
pub proof fn lemma_occurrences_concat(a: Seq<Seq<char>>, b: Seq<Seq<char>>, w: Seq<char>)
    ensures
        occurrences(a + b, w) == occurrences(a, w) + occurrences(b, w),
    decreases b.len(),
{
    if b.len() == 0 {
        assert(a + b == a);
    } else {
        lemma_occurrences_concat(a, b.drop_last(), w);
        assert((a + b).drop_last() == a + b.drop_last());
    }
}

/// One more token gives the table in which that token counts once more.
pub proof fn lemma_tally_push(tokens: Seq<Seq<char>>, t: Seq<char>)
    ensures
        tally(tokens.push(t)) == tally(tokens).insert(t, count_in(tally(tokens), t) + 1),
        count_in(tally(tokens), t) == occurrences(tokens, t),
{
    let after = tally(tokens.push(t));
    let want = tally(tokens).insert(t, count_in(tally(tokens), t) + 1);
    assert forall|w: Seq<char>| after.dom().contains(w) <==> want.dom().contains(w) by {
        lemma_occurrences_push(tokens, t, w);
    }
    assert forall|w: Seq<char>| after.dom().contains(w) implies after[w] == want[w] by {
        lemma_occurrences_push(tokens, t, w);
    }
    assert(after =~= want);
}

/// The words of two runs of texts, one after the other, are the words of
/// the first run followed by those of the second.
pub proof fn lemma_all_words_concat(
    a: Seq<Seq<char>>,
    b: Seq<Seq<char>>,
    stopwords: Set<Seq<char>>,
)
    ensures
        all_words(a + b, stopwords) == all_words(a, stopwords) + all_words(b, stopwords),
{
    let f = text_words(stopwords);
    assert((a + b).map_values(f) == a.map_values(f) + b.map_values(f));
    vstd::seq_lib::lemma_flatten_concat(a.map_values(f), b.map_values(f));
}

/// The frequency table does not depend on the order of the texts, and the
/// counts of two runs of texts add up to the counts of both together: it
/// makes no difference whether texts are counted in one table or in two
/// whose counts are then added.
pub proof fn lemma_counts_ignore_order(
    a: Seq<Seq<char>>,
    b: Seq<Seq<char>>,
    stopwords: Set<Seq<char>>,
)
    ensures
        word_counts(a + b, stopwords) == word_counts(b + a, stopwords),
        forall|w: Seq<char>|
            count_in(#[trigger] word_counts(a + b, stopwords), w) == count_in(
                word_counts(a, stopwords),
                w,
            ) + count_in(word_counts(b, stopwords), w),
{
    let wa = all_words(a, stopwords);
    let wb = all_words(b, stopwords);
    lemma_all_words_concat(a, b, stopwords);
    lemma_all_words_concat(b, a, stopwords);
    assert forall|w: Seq<char>| occurrences(wa + wb, w) == occurrences(wb + wa, w)
        && occurrences(wa + wb, w) == occurrences(wa, w) + occurrences(wb, w) by {
        lemma_occurrences_concat(wa, wb, w);
        lemma_occurrences_concat(wb, wa, w);
    }
    assert(tally(wa + wb) =~= tally(wb + wa));
    assert forall|w: Seq<char>|
        count_in(#[trigger] word_counts(a + b, stopwords), w) == count_in(
            word_counts(a, stopwords),
            w,
        ) + count_in(word_counts(b, stopwords), w) by {
        assert(occurrences(wa + wb, w) == occurrences(wa, w) + occurrences(wb, w));
    }
}

/// Every word of a frequency table is a word of letters: it is not empty
/// and holds nothing but letters.
pub proof fn lemma_counted_words_are_letters(
    texts: Seq<Seq<char>>,
    stopwords: Set<Seq<char>>,
    w: Seq<char>,
)
    requires
        word_counts(texts, stopwords).dom().contains(w),
    ensures
        crate::normalize::is_letter_word(w),
        !stopwords.contains(w),
    decreases texts.len(),
{
    if texts.len() == 0 {
        assert(texts.map_values(text_words(stopwords)) == Seq::<Seq<Seq<char>>>::empty());
    } else {
        let front = texts.drop_last();
        let last = texts.last();
        assert(texts == front + seq![last]);
        lemma_all_words_concat(front, seq![last], stopwords);
        let f = text_words(stopwords);
        assert(seq![last].map_values(f) == seq![f(last)]);
        seq![f(last)].lemma_flatten_one_element();
        assert(all_words(seq![last], stopwords) == f(last));
        lemma_occurrences_concat(all_words(front, stopwords), f(last), w);
        if occurrences(all_words(front, stopwords), w) > 0 {
            lemma_counted_words_are_letters(front, stopwords, w);
        } else {
            lemma_occurs(f(last), w);
            lemma_words_of_normalized(last, stopwords);
            crate::normalize::lemma_normalized_words(last, stopwords);
        }
    }
}

/// A token that occurs stands somewhere in the sequence.
pub proof fn lemma_occurs(tokens: Seq<Seq<char>>, w: Seq<char>)
    requires
        occurrences(tokens, w) > 0,
    ensures
        tokens.contains(w),
    decreases tokens.len(),
{
    if tokens.last() == w {
        assert(tokens[tokens.len() - 1] == w);
    } else {
        lemma_occurs(tokens.drop_last(), w);
        let k = choose|k: int| 0 <= k < tokens.drop_last().len() && tokens.drop_last()[k] == w;
        assert(tokens[k] == w);
    }
}

/// Counts the words of the normal forms of `entries`. A word that stands
/// twice in one text counts twice.
pub fn word_frequencies(entries: Vec<String>, stopwords: &StopwordSet) -> (table: FrequencyTable)
    ensures
        table@ == word_counts(views(entries@), stopwords@),
        forall|w: Seq<char>| #[trigger]
            table@.dom().contains(w) ==> crate::normalize::is_letter_word(w)
                && !stopwords@.contains(w),
{
    let mut table = FrequencyTable::new();
    let ghost texts = views(entries@);
    let ghost each = text_words(stopwords@);
    let mut i: usize = 0;
    proof {
        assert(texts.take(0).map_values(each) == Seq::<Seq<Seq<char>>>::empty());
        assert(tally(Seq::<Seq<char>>::empty()) =~= Map::<Seq<char>, nat>::empty());
    }
    while i < entries.len()
        invariant
            i <= entries.len(),
            texts == views(entries@),
            each == text_words(stopwords@),
            table@ == tally(all_words(texts.take(i as int), stopwords@)),
            all_words(texts.take(i as int), stopwords@).len() <= i * 0xffff_ffff_ffff_ffff,
        decreases entries.len() - i,
    {
        let ghost done = all_words(texts.take(i as int), stopwords@);
        let tokens = preprocess_words(entries[i].as_str(), stopwords);
        let mut j: usize = 0;
        proof {
            lemma_words_of_normalized(texts[i as int], stopwords@);
            assert(views(tokens@) == each(texts[i as int]));
            assert(done + views(tokens@).take(0) == done);
        }
        while j < tokens.len()
            invariant
                j <= tokens.len(),
                i < entries.len(),
                done.len() <= i * 0xffff_ffff_ffff_ffff,
                table@ == tally(done + views(tokens@).take(j as int)),
            decreases tokens.len() - j,
        {
            let word = tokens[j].clone();
            proof {
                let seen = done + views(tokens@).take(j as int);
                lemma_tally_push(seen, word@);
                lemma_occurrences_bound(seen, word@);
                assert(seen.push(word@) == done + views(tokens@).take(j + 1));
            }
            table.record(word);
            j += 1;
        }
        proof {
            assert(views(tokens@).take(tokens.len() as int) == views(tokens@));
            assert(texts.take(i + 1) == texts.take(i as int).push(texts[i as int]));
            assert(texts.take(i + 1).map_values(each) == texts.take(i as int).map_values(each).push(
                each(texts[i as int]),
            ));
            texts.take(i as int).map_values(each).lemma_flatten_push(each(texts[i as int]));
        }
        i += 1;
    }
    proof {
        assert(texts.take(entries.len() as int) == texts);
        assert forall|w: Seq<char>| #[trigger]
            table@.dom().contains(w) implies crate::normalize::is_letter_word(w)
            && !stopwords@.contains(w) by {
            lemma_counted_words_are_letters(texts, stopwords@, w);
        }
    }
    table
}

} // verus!
