use rustysozluk::{analyze_sentiment, Entry, Lexicon, Polarity, Sentiment, StopwordSet};

fn stopwords(words: &[&str]) -> StopwordSet {
    StopwordSet::from_words(words.iter().map(|w| w.to_string()).collect())
}

fn entry(content: &str) -> Entry {
    Entry { content: content.to_string(), date: "d".to_string(), username: "u".to_string() }
}

fn lexicon(rows: &[(&str, &str, i32)]) -> Lexicon {
    let mut lexicon = Lexicon::new();
    for (word, tone, polarity) in rows {
        lexicon.insert(word.to_string(), Sentiment { tone: tone.to_string(), polarity: *polarity });
    }
    lexicon
}

fn tones(hits: &[&Sentiment], side: Option<Polarity>) -> f32 {
    hits.iter()
        .filter(|s| side.map_or(true, |wanted| s.side() == wanted))
        .map(|s| s.tone.parse::<f32>().unwrap())
        .sum()
}

#[test]
fn sentiment_of_good_bad_good() {
    let lexicon = lexicon(&[("good", "2.5", 1), ("bad", "-1.0", -1)]);
    let entries = vec![entry("good bad good")];
    let report = analyze_sentiment(&entries, &stopwords(&[]), &lexicon);
    assert_eq!(report.total_polarity, 1);
    assert_eq!(report.total_positive_polarity, 2);
    assert_eq!(report.total_negative_polarity, 1);
    assert_eq!(report.hits.len(), 3);
    assert_eq!(tones(&report.hits, None), 4.0);
    assert_eq!(tones(&report.hits, Some(Polarity::Positive)), 5.0);
    assert_eq!(tones(&report.hits, Some(Polarity::Negative)), -1.0);
}

#[test]
fn hits_come_in_the_order_of_the_words() {
    let lexicon = lexicon(&[("good", "2.5", 1), ("bad", "-1.0", -1)]);
    let entries = vec![entry("bad, then good."), entry("GOOD")];
    let report = analyze_sentiment(&entries, &stopwords(&[]), &lexicon);
    let polarities: Vec<i32> = report.hits.iter().map(|s| s.polarity).collect();
    assert_eq!(polarities, vec![-1, 1, 1]);
    let tones: Vec<&str> = report.hits.iter().map(|s| s.tone.as_str()).collect();
    assert_eq!(tones, vec!["-1.0", "2.5", "2.5"]);
}

#[test]
fn words_are_looked_up_in_normal_form() {
    let lexicon = lexicon(&[("cant", "-0.5", -1), ("good", "1.0", 1)]);
    let entries = vec![entry("I CAN'T, Good!"), entry("go0d, go-od")];
    let report = analyze_sentiment(&entries, &stopwords(&[]), &lexicon);
    assert_eq!(report.total_polarity, 1);
    assert_eq!(report.total_positive_polarity, 2);
    assert_eq!(report.total_negative_polarity, 1);
}

#[test]
fn neutral_and_unknown_words_count_on_no_side() {
    let lexicon = lexicon(&[("table", "0.1", 0), ("good", "1.0", 1)]);
    let entries = vec![entry("table chair table good")];
    let report = analyze_sentiment(&entries, &stopwords(&[]), &lexicon);
    assert_eq!(report.total_polarity, 1);
    assert_eq!(report.total_positive_polarity, 1);
    assert_eq!(report.total_negative_polarity, 0);
    assert_eq!(report.hits.len(), 3);
}

#[test]
fn a_polarity_beyond_one_adds_to_the_total_only() {
    let lexicon = lexicon(&[("great", "3.0", 5), ("awful", "-3.0", -4)]);
    let entries = vec![entry("great great awful")];
    let report = analyze_sentiment(&entries, &stopwords(&[]), &lexicon);
    assert_eq!(report.total_polarity, 6);
    assert_eq!(report.total_positive_polarity, 0);
    assert_eq!(report.total_negative_polarity, 0);
}

#[test]
fn stopwords_are_no_hits() {
    let lexicon = lexicon(&[("good", "1.0", 1), ("bad", "-1.0", -1)]);
    let entries = vec![entry("good bad")];
    let report = analyze_sentiment(&entries, &stopwords(&["bad"]), &lexicon);
    assert_eq!(report.total_polarity, 1);
    assert_eq!(report.total_positive_polarity, 1);
    assert_eq!(report.total_negative_polarity, 0);
}

#[test]
fn no_entries_give_zeros() {
    let lexicon = lexicon(&[("good", "1.0", 1)]);
    let report = analyze_sentiment(&Vec::new(), &stopwords(&[]), &lexicon);
    assert_eq!(report.total_polarity, 0);
    assert_eq!(report.total_positive_polarity, 0);
    assert_eq!(report.total_negative_polarity, 0);
    assert!(report.hits.is_empty());
}

#[test]
fn an_empty_lexicon_gives_zeros() {
    let lexicon = Lexicon::new();
    let report = analyze_sentiment(&vec![entry("good bad")], &stopwords(&[]), &lexicon);
    assert_eq!(report.total_polarity, 0);
    assert!(report.hits.is_empty());
}

#[test]
fn extreme_polarities_do_not_overflow() {
    let lexicon = lexicon(&[("max", "1", i32::MAX), ("min", "-1", i32::MIN)]);
    let entries = vec![entry("max max max min")];
    let report = analyze_sentiment(&entries, &stopwords(&[]), &lexicon);
    assert_eq!(report.total_polarity, 3 * (i32::MAX as i128) + (i32::MIN as i128));
}
