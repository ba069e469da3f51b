//! The sentiment lexicon: what tone and what polarity a word carries.

use vstd::prelude::*;
use crate::error::RustySozlukError;
use crate::keyed::{keyed, lemma_keyed_at, lemma_keyed_len, lemma_keyed_push, lemma_keyed_update};
use crate::numbers::{
    commas_to_points, integer_value, is_number, is_number_text, parse_integer, with_points,
};
use crate::text::{record_fields, views};

verus! {

/// What the lexicon says of a word. The tone is kept as it was written, a
/// decimal number with a point; the polarity is a whole number, by
/// convention one of -1, 0 and 1.
#[derive(Debug, Clone, PartialEq, Eq)]
pub struct Sentiment {
    pub tone: String,
    pub polarity: i32,
}

/// The side on which a word's polarity puts it.
#[derive(Debug, Clone, Copy, PartialEq, Eq, Structural)]
pub enum Polarity {
    Positive,
    Negative,
    Neutral,
}

/// A sentiment as a value: the text of the tone, and the polarity.
pub struct SentimentView {
    pub tone: Seq<char>,
    pub polarity: int,
}

impl View for Sentiment {
    type V = SentimentView;

    open spec fn view(&self) -> SentimentView {
        SentimentView { tone: self.tone@, polarity: self.polarity as int }
    }
}

/// The side of polarity `p`: positive for 1, negative for -1, neutral for
/// every other number.
pub open spec fn side_of(p: int) -> Polarity {
    if p == 1 {
        Polarity::Positive
    } else if p == -1 {
        Polarity::Negative
    } else {
        Polarity::Neutral
    }
}

impl Sentiment {
    /// The side on which the polarity puts the word.
    pub fn side(&self) -> (side: Polarity)
        ensures
            side == side_of(self@.polarity),
    {
        if self.polarity == 1 {
            Polarity::Positive
        } else if self.polarity == -1 {
            Polarity::Negative
        } else {
            Polarity::Neutral
        }
    }
}

/// A word of the lexicon with what the lexicon says of it.
#[derive(Debug, Clone, PartialEq, Eq)]
pub struct LexiconEntry {
    pub word: String,
    pub sentiment: Sentiment,
}

/// The words of `entries`.
pub open spec fn entry_words(entries: Seq<LexiconEntry>) -> Seq<Seq<char>> {
    Seq::new(entries.len(), |i: int| entries[i].word@)
}

/// The sentiments of `entries`.
pub open spec fn entry_sentiments(entries: Seq<LexiconEntry>) -> Seq<SentimentView> {
    Seq::new(entries.len(), |i: int| entries[i].sentiment@)
}

/// The mapping that `entries` stand for.
pub open spec fn lexicon_of(entries: Seq<LexiconEntry>) -> Map<Seq<char>, SentimentView> {
    keyed(entry_words(entries), entry_sentiments(entries))
}

/// A mapping from words to sentiments.
pub struct Lexicon {
    entries: Vec<LexiconEntry>,
}

impl View for Lexicon {
    type V = Map<Seq<char>, SentimentView>;

    closed spec fn view(&self) -> Map<Seq<char>, SentimentView> {
        lexicon_of(self.entries@)
    }
}

impl Lexicon {
    #[verifier::type_invariant]
    spec fn well_formed(&self) -> bool {
        entry_words(self.entries@).no_duplicates()
    }

    /// The entries of the lexicon, in the order in which their words were
    /// first inserted.
    pub closed spec fn rows(&self) -> Seq<LexiconEntry> {
        self.entries@
    }

    /// The empty lexicon.
    pub fn new() -> (lexicon: Lexicon)
        ensures
            lexicon@ == Map::<Seq<char>, SentimentView>::empty(),
    {
        let lexicon = Lexicon { entries: Vec::new() };
        assert(lexicon@ =~= Map::<Seq<char>, SentimentView>::empty());
        lexicon
    }

    /// The number of words in the lexicon.
    pub fn len(&self) -> (n: usize)
        ensures
            n == self.rows().len(),
            self@.dom().finite(),
            n == self@.dom().len(),
    {
        proof {
            use_type_invariant(self);
            lemma_keyed_len(entry_words(self.entries@), entry_sentiments(self.entries@));
        }
        self.entries.len()
    }

    /// The entries of the lexicon. No word has two.
    pub fn entries(&self) -> (rows: &Vec<LexiconEntry>)
        ensures
            rows@ == self.rows(),
            entry_words(rows@).no_duplicates(),
            self@ == lexicon_of(rows@),
    {
        proof {
            use_type_invariant(self);
        }
        &self.entries
    }

    /// What the lexicon says of `word`, if it knows the word.
    pub fn get(&self, word: &str) -> (found: Option<&Sentiment>)
        ensures
            match found {
                Some(sentiment) => self@.dom().contains(word@) && self@[word@] == sentiment@,
                None => !self@.dom().contains(word@),
            },
    {
        proof {
            use_type_invariant(self);
        }
        let wanted = word.to_owned();
        let mut i: usize = 0;
        while i < self.entries.len()
            invariant
                i <= self.entries.len(),
                wanted@ == word@,
                entry_words(self.entries@).no_duplicates(),
                forall|k: int| 0 <= k < i ==> entry_words(self.entries@)[k] != word@,
            decreases self.entries.len() - i,
        {
            if self.entries[i].word == wanted {
                proof {
                    lemma_keyed_at(
                        entry_words(self.entries@),
                        entry_sentiments(self.entries@),
                        i as int,
                    );
                }
                return Some(&self.entries[i].sentiment);
            }
            i += 1;
        }
        None
    }

    /// Puts `word` into the lexicon with `sentiment`, in place of what the
    /// lexicon said of the word before, if anything.
    pub fn insert(&mut self, word: String, sentiment: Sentiment)
        ensures
            final(self)@ == old(self)@.insert(word@, sentiment@),
    {
        proof {
            use_type_invariant(&*self);
        }
        let ghost before = self.entries@;
        let mut entries: Vec<LexiconEntry> = Vec::new();
        std::mem::swap(&mut entries, &mut self.entries);
        let mut i: usize = 0;
        while i < entries.len()
            invariant
                i <= entries.len(),
                entries@ == before,
                entry_words(before).no_duplicates(),
                old(self)@ == lexicon_of(before),
                forall|k: int| 0 <= k < i ==> entry_words(before)[k] != word@,
            decreases entries.len() - i,
        {
            if entries[i].word == word {
                proof {
                    lemma_keyed_update(
                        entry_words(before),
                        entry_sentiments(before),
                        i as int,
                        sentiment@,
                    );
                }
                entries.set(i, LexiconEntry { word, sentiment });
                proof {
                    assert(entry_words(entries@) == entry_words(before));
                    assert(entry_sentiments(entries@) == entry_sentiments(before).update(
                        i as int,
                        sentiment@,
                    ));
                }
                self.entries = entries;
                return ;
            }
            i += 1;
        }
        proof {
            lemma_keyed_push(entry_words(before), entry_sentiments(before), word@, sentiment@);
            let added = LexiconEntry { word, sentiment };
            assert(entry_words(before.push(added)) == entry_words(before).push(word@));
            assert(entry_sentiments(before.push(added)) == entry_sentiments(before).push(
                sentiment@,
            ));
        }
        entries.push(LexiconEntry { word, sentiment });
        self.entries = entries;
    }
}

/// The records that the `csv` crate reads from a source, the first one, which
/// it takes for the header, left out; `None` where it reports an error. A
/// record is the sequence of its fields.
pub uninterp spec fn csv_records(source: Seq<char>) -> Option<Seq<Seq<Seq<char>>>>;

/// The error of the `csv` crate. It is handed on from the reader and never
/// looked into.
#[verifier::external_type_specification]
#[verifier::external_body]
pub struct ExCsvError(csv::Error);

/// Reads `source` with `csv::Reader::from_reader` in its default
/// configuration and collects what `Reader::records` yields, each record
/// as the strings of its fields. The result is a function of the source:
/// the records, or the first error that the reader meets.
#[verifier::external_body]
fn read_records(source: &str) -> (records: Result<Vec<Vec<String>>, csv::Error>)
    ensures
        match records {
            Ok(rows) => csv_records(source@) == Some(record_fields(rows@)),
            Err(_) => csv_records(source@) is None,
        },
{
    csv::Reader::from_reader(source.as_bytes())
        .records()
        .map(|record| record.map(|fields| fields.iter().map(String::from).collect()))
        .collect()
}

/// The integer that `s` denotes, if it fits the polarity's 32 bits.
pub open spec fn polarity_value(s: Seq<char>) -> Option<int> {
    match integer_value(s) {
        Some(v) => if i32::MIN <= v <= i32::MAX {
            Some(v)
        } else {
            None
        },
        None => None,
    }
}

/// Whether a record can be an entry: it has a fourth field, its third is a
/// number once its commas are points, and its fourth is a whole number.
pub open spec fn is_entry_record(fields: Seq<Seq<char>>) -> bool {
    fields.len() >= 4 && is_number_text(with_points(fields[2])) && polarity_value(fields[3])
        is Some
}

/// The sentiment that a record holds: the tone in its third field, with
/// points for commas, and the polarity in its fourth.
pub open spec fn record_sentiment(fields: Seq<Seq<char>>) -> SentimentView {
    SentimentView { tone: with_points(fields[2]), polarity: polarity_value(fields[3]).unwrap() }
}

/// The lexicon that `records` make, record after record: the word in the
/// second field of each gets the record's sentiment, a later record
/// replacing an earlier one for the same word. `None` where one of them
/// cannot be an entry.
pub open spec fn records_lexicon(records: Seq<Seq<Seq<char>>>) -> Option<
    Map<Seq<char>, SentimentView>,
>
    decreases records.len(),
{
    if records.len() == 0 {
        Some(Map::empty())
    } else {
        match records_lexicon(records.drop_last()) {
            Some(lexicon) => if is_entry_record(records.last()) {
                Some(lexicon.insert(records.last()[1], record_sentiment(records.last())))
            } else {
                None
            },
            None => None,
        }
    }
}

/// The lexicon that a source holds, `None` where it holds none.
pub open spec fn source_lexicon(source: Seq<char>) -> Option<Map<Seq<char>, SentimentView>> {
    match csv_records(source) {
        Some(records) => records_lexicon(records),
        None => None,
    }
}

/// Once a record cannot be an entry, more records do not help.
pub proof fn lemma_records_lexicon_fails(records: Seq<Seq<Seq<char>>>, n: int)
    requires
        0 <= n <= records.len(),
        records_lexicon(records.take(n)) is None,
    ensures
        records_lexicon(records) is None,
    decreases records.len() - n,
{
    if n < records.len() {
        assert(records.take(n + 1).drop_last() == records.take(n));
        lemma_records_lexicon_fails(records, n + 1);
    } else {
        assert(records.take(n) == records);
    }
}

/// Builds the lexicon from the records of a source.
pub fn lexicon_from_records(records: &Vec<Vec<String>>) -> (result: Result<
    Lexicon,
    RustySozlukError,
>)
    ensures
        match result {
            Ok(lexicon) => records_lexicon(record_fields(records@)) == Some(lexicon@),
            Err(e) => e == RustySozlukError::MalformedLexicon && records_lexicon(
                record_fields(records@),
            ) is None,
        },
{
    let ghost all = record_fields(records@);
    let mut lexicon = Lexicon::new();
    let mut i: usize = 0;
    assert(all.take(0) == Seq::<Seq<Seq<char>>>::empty());
    while i < records.len()
        invariant
            i <= records.len(),
            all == record_fields(records@),
            records_lexicon(all.take(i as int)) == Some(lexicon@),
        decreases records.len() - i,
    {
        let record = &records[i];
        proof {
            assert(all.take(i + 1).drop_last() == all.take(i as int));
            assert(all.take(i + 1).last() == views(record@));
        }
        if record.len() < 4 {
            proof {
                lemma_records_lexicon_fails(all, i + 1);
            }
            return Err(RustySozlukError::MalformedLexicon);
        }
        assert(views(record@)[1] == record@[1]@);
        assert(views(record@)[2] == record@[2]@);
        assert(views(record@)[3] == record@[3]@);
        let tone = commas_to_points(record[2].as_str());
        let polarity = parse_integer(record[3].as_str());
        if !is_number(tone.as_str()) || polarity.is_none() {
            proof {
                lemma_records_lexicon_fails(all, i + 1);
            }
            return Err(RustySozlukError::MalformedLexicon);
        }
        lexicon.insert(record[1].clone(), Sentiment { tone, polarity: polarity.unwrap() });
        i += 1;
    }
    assert(all.take(records.len() as int) == all);
    Ok(lexicon)
}

/// Reads a lexicon source: a table in comma-separated form under a header
/// line, with the word in the second column, the tone in the third and the
/// polarity in the fourth. The tone may have a comma for its decimal point.
pub fn parse_lexicon(source: &str) -> (result: Result<Lexicon, RustySozlukError>)
    ensures
        match result {
            Ok(lexicon) => source_lexicon(source@) == Some(lexicon@),
            Err(e) => e == RustySozlukError::MalformedLexicon && source_lexicon(source@) is None,
        },
{
    match read_records(source) {
        Ok(records) => lexicon_from_records(&records),
        Err(_) => Err(RustySozlukError::MalformedLexicon),
    }
}

} // verus!
