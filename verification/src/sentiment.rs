//! Sentiment of a run of posts: which of their words the lexicon knows,
//! and what the polarities of those words add up to.

use vstd::prelude::*;
use crate::entry::{contents, entry_views, Entry};
use crate::frequency::{all_words, text_words};
use crate::lexicon::{side_of, Lexicon, Polarity, Sentiment, SentimentView};
use crate::normalize::{lemma_words_of_normalized, preprocess_words};
use crate::stopwords::StopwordSet;
use crate::text::views;

verus! {

/// The test that a word passes when the lexicon knows it.
pub open spec fn known(lexicon: Map<Seq<char>, SentimentView>) -> spec_fn(Seq<char>) -> bool {
    |w: Seq<char>| lexicon.dom().contains(w)
}

/// What the lexicon says of each of `tokens` that it knows, in their order.
/// A token that stands twice is looked up twice.
pub open spec fn hits_of(tokens: Seq<Seq<char>>, lexicon: Map<Seq<char>, SentimentView>) -> Seq<
    SentimentView,
> {
    tokens.filter(known(lexicon)).map_values(|w: Seq<char>| lexicon[w])
}

/// The sum of the polarities of `hits`.
pub open spec fn polarity_sum(hits: Seq<SentimentView>) -> int
    decreases hits.len(),
{
    if hits.len() == 0 {
        0
    } else {
        polarity_sum(hits.drop_last()) + hits.last().polarity
    }
}

/// How many of `hits` stand on `side`.
pub open spec fn side_count(hits: Seq<SentimentView>, side: Polarity) -> nat
    decreases hits.len(),
{
    if hits.len() == 0 {
        0
    } else {
        side_count(hits.drop_last(), side) + if side_of(hits.last().polarity) == side {
            1nat
        } else {
            0nat
        }
    }
}

/// The sentiments that a sequence of references leads to.
pub open spec fn sentiment_views(hits: Seq<&Sentiment>) -> Seq<SentimentView> {
    Seq::new(hits.len(), |i: int| hits[i]@)
}

/// The sentiment of a run of posts. `hits` holds, for every word of the
/// posts that the lexicon knows, what the lexicon says of it, in the order
/// of the words; the three numbers sum up the polarities of the hits. The
/// tones are left to the caller, who adds up those of all hits, those of
/// the hits on the positive side and those of the hits on the negative
/// side.
pub struct SentimentReport<'a> {
    pub total_polarity: i128,
    pub total_positive_polarity: usize,
    pub total_negative_polarity: usize,
    pub hits: Vec<&'a Sentiment>,
}

/// Whether `report` is the report of `hits`.
pub open spec fn is_report_of(report: SentimentReport<'_>, hits: Seq<SentimentView>) -> bool {
    &&& sentiment_views(report.hits@) == hits
    &&& report.total_polarity == polarity_sum(hits)
    &&& report.total_positive_polarity == side_count(hits, Polarity::Positive)
    &&& report.total_negative_polarity == side_count(hits, Polarity::Negative)
}

/// One more token adds what the lexicon says of it, if it knows it.
pub proof fn lemma_hits_push(
    tokens: Seq<Seq<char>>,
    t: Seq<char>,
    lexicon: Map<Seq<char>, SentimentView>,
)
    ensures
        hits_of(tokens.push(t), lexicon) == if lexicon.dom().contains(t) {
            hits_of(tokens, lexicon).push(lexicon[t])
        } else {
            hits_of(tokens, lexicon)
        },
{
    tokens.lemma_filter_push(t, known(lexicon));
    if lexicon.dom().contains(t) {
        let kept = tokens.filter(known(lexicon));
        assert(kept.push(t).map_values(|w: Seq<char>| lexicon[w]) == kept.map_values(
            |w: Seq<char>| lexicon[w],
        ).push(lexicon[t]));
    }
}

/// The polarities of `n` hits add up to a number within `n` times the
/// bounds of one polarity, and no side counts more than `n`.
pub proof fn lemma_sums_bounded(hits: Seq<&Sentiment>)
    ensures
        -0x8000_0000 * hits.len() <= polarity_sum(sentiment_views(hits)) <= 0x8000_0000
            * hits.len(),
        side_count(sentiment_views(hits), Polarity::Positive) <= hits.len(),
        side_count(sentiment_views(hits), Polarity::Negative) <= hits.len(),
    decreases hits.len(),
{
    if hits.len() > 0 {
        lemma_sums_bounded(hits.drop_last());
        assert(sentiment_views(hits).drop_last() == sentiment_views(hits.drop_last()));
    }
}

/// Scores the posts: each is normalized and split into words, and every
/// word that the lexicon knows is a hit.
pub fn analyze_sentiment<'a>(
    entries: &Vec<Entry>,
    stopwords: &StopwordSet,
    lexicon: &'a Lexicon,
) -> (report: SentimentReport<'a>)
    ensures
        is_report_of(
            report,
            hits_of(all_words(contents(entry_views(entries@)), stopwords@), lexicon@),
        ),
{
    let ghost texts = contents(entry_views(entries@));
    let ghost each = text_words(stopwords@);
    let mut hits: Vec<&'a Sentiment> = Vec::new();
    let mut total: i128 = 0;
    let mut positive: usize = 0;
    let mut negative: usize = 0;
    let mut i: usize = 0;
    proof {
        assert(texts.take(0).map_values(each) == Seq::<Seq<Seq<char>>>::empty());
        assert(Seq::<Seq<char>>::empty().filter(known(lexicon@)).len() == 0) by {
            Seq::<Seq<char>>::empty().lemma_filter_len(known(lexicon@));
        }
        assert(hits_of(Seq::<Seq<char>>::empty(), lexicon@) == Seq::<SentimentView>::empty());
    }
    while i < entries.len()
        invariant
            i <= entries.len(),
            texts == contents(entry_views(entries@)),
            each == text_words(stopwords@),
            sentiment_views(hits@) == hits_of(
                all_words(texts.take(i as int), stopwords@),
                lexicon@,
            ),
            total == polarity_sum(sentiment_views(hits@)),
            positive == side_count(sentiment_views(hits@), Polarity::Positive),
            negative == side_count(sentiment_views(hits@), Polarity::Negative),
        decreases entries.len() - i,
    {
        let ghost done = all_words(texts.take(i as int), stopwords@);
        let tokens = preprocess_words(entries[i].content.as_str(), stopwords);
        let mut j: usize = 0;
        proof {
            lemma_words_of_normalized(texts[i as int], stopwords@);
            assert(views(tokens@) == each(texts[i as int]));
            assert(done + views(tokens@).take(0) == done);
        }
        while j < tokens.len()
            invariant
                j <= tokens.len(),
                sentiment_views(hits@) == hits_of(done + views(tokens@).take(j as int), lexicon@),
                total == polarity_sum(sentiment_views(hits@)),
                positive == side_count(sentiment_views(hits@), Polarity::Positive),
                negative == side_count(sentiment_views(hits@), Polarity::Negative),
            decreases tokens.len() - j,
        {
            proof {
                let seen = done + views(tokens@).take(j as int);
                lemma_hits_push(seen, tokens@[j as int]@, lexicon@);
                assert(seen.push(tokens@[j as int]@) == done + views(tokens@).take(j + 1));
            }
            match lexicon.get(tokens[j].as_str()) {
                Some(sentiment) => {
                    let ghost before = hits@;
                    hits.push(sentiment);
                    proof {
                        lemma_sums_bounded(before);
                        assert(sentiment_views(hits@) == sentiment_views(before).push(
                            sentiment@,
                        ));
                        assert(sentiment_views(hits@).drop_last() == sentiment_views(before));
                        assert(before.len() < hits.len() <= usize::MAX);
                    }
                    total = total + sentiment.polarity as i128;
                    match sentiment.side() {
                        Polarity::Positive => {
                            positive = positive + 1;
                        },
                        Polarity::Negative => {
                            negative = negative + 1;
                        },
                        Polarity::Neutral => {},
                    }
                },
                None => {},
            }
            j += 1;
        }
        proof {
            assert(views(tokens@).take(tokens.len() as int) == views(tokens@));
            assert(texts.take(i + 1) == texts.take(i as int).push(texts[i as int]));
            assert(texts.take(i + 1).map_values(each) == texts.take(i as int).map_values(each).push(
                each(texts[i as int]),
            ));
            texts.take(i as int).map_values(each).lemma_flatten_push(each(texts[i as int]));
        }
        i += 1;
    }
    assert(texts.take(entries.len() as int) == texts);
    SentimentReport {
        total_polarity: total,
        total_positive_polarity: positive,
        total_negative_polarity: negative,
        hits,
    }
}

} // verus!
