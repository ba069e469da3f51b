use rustysozluk::{
    rank_words, top_words, word_frequencies, Entry, FrequencyTable, StopwordSet, WordCount,
};

fn stopwords(words: &[&str]) -> StopwordSet {
    StopwordSet::from_words(words.iter().map(|w| w.to_string()).collect())
}

fn texts(all: &[&str]) -> Vec<String> {
    all.iter().map(|t| t.to_string()).collect()
}

fn entry(content: &str) -> Entry {
    Entry { content: content.to_string(), date: "d".to_string(), username: "u".to_string() }
}

fn counts(table: &FrequencyTable) -> Vec<(String, u128)> {
    let mut all: Vec<(String, u128)> =
        table.entries().iter().map(|e| (e.word.clone(), e.count)).collect();
    all.sort();
    all
}

#[test]
fn frequencies_of_the_cat_example() {
    let stop = stopwords(&["the", "is"]);
    let table = word_frequencies(texts(&["The Cat is Happy, happy!"]), &stop);
    assert_eq!(table.count("cat"), 1);
    assert_eq!(table.count("happy"), 2);
    assert_eq!(table.count("the"), 0);
    assert_eq!(table.count("is"), 0);
    assert_eq!(table.len(), 2);
    assert_eq!(counts(&table), vec![("cat".to_string(), 1), ("happy".to_string(), 2)]);
}

#[test]
fn a_word_counts_across_texts() {
    let stop = stopwords(&[]);
    let table = word_frequencies(texts(&["a b a", "b c", "", "A!"]), &stop);
    assert_eq!(table.count("a"), 3);
    assert_eq!(table.count("b"), 2);
    assert_eq!(table.count("c"), 1);
    assert_eq!(table.len(), 3);
}

#[test]
fn no_texts_give_an_empty_table() {
    let stop = stopwords(&[]);
    let table = word_frequencies(Vec::new(), &stop);
    assert_eq!(table.len(), 0);
    assert_eq!(table.count("a"), 0);
}

#[test]
fn counting_does_not_depend_on_the_order_of_texts() {
    let stop = stopwords(&["the"]);
    let a = "the cat sat on the mat";
    let b = "a cat is a cat";
    let ab = word_frequencies(texts(&[a, b]), &stop);
    let ba = word_frequencies(texts(&[b, a]), &stop);
    assert_eq!(counts(&ab), counts(&ba));
}

#[test]
fn counts_of_two_tables_add_up_to_the_counts_of_one() {
    let stop = stopwords(&["the"]);
    let a = "the cat sat on the mat";
    let b = "a cat is a cat";
    let both = word_frequencies(texts(&[a, b]), &stop);
    let first = word_frequencies(texts(&[a]), &stop);
    let second = word_frequencies(texts(&[b]), &stop);
    for word in ["cat", "sat", "on", "mat", "a", "is", "the", "dog"] {
        assert_eq!(both.count(word), first.count(word) + second.count(word));
    }
    assert_eq!(both.count("cat"), 3);
}

#[test]
fn table_keys_hold_letters_only() {
    let stop = stopwords(&[]);
    let table = word_frequencies(texts(&["R2-D2 & C-3PO!", " 42 ", "e.g. x"]), &stop);
    for row in table.entries() {
        assert!(!row.word.is_empty());
        assert!(row.word.chars().all(|c| c.is_alphabetic()));
        assert!(row.count > 0);
    }
    assert_eq!(table.count("rd"), 1);
    assert_eq!(table.count("cpo"), 1);
    assert_eq!(table.count("eg"), 1);
}

#[test]
fn record_counts_one_by_one() {
    let mut table = FrequencyTable::new();
    table.record("b".to_string());
    table.record("a".to_string());
    table.record("b".to_string());
    assert_eq!(table.count("a"), 1);
    assert_eq!(table.count("b"), 2);
    assert_eq!(table.count("c"), 0);
    assert_eq!(
        table.entries(),
        &vec![
            WordCount { word: "b".to_string(), count: 2 },
            WordCount { word: "a".to_string(), count: 1 },
        ]
    );
}

#[test]
fn ranking_is_by_count_descending() {
    let stop = stopwords(&[]);
    let table = word_frequencies(texts(&["c b a b c c d d d d"]), &stop);
    let top = rank_words(&table, 3);
    assert_eq!(
        top,
        vec![
            WordCount { word: "d".to_string(), count: 4 },
            WordCount { word: "c".to_string(), count: 3 },
            WordCount { word: "b".to_string(), count: 2 },
        ]
    );
}

#[test]
fn ranking_of_more_than_there_is_gives_all() {
    let stop = stopwords(&[]);
    let table = word_frequencies(texts(&["x y y"]), &stop);
    let top = rank_words(&table, 10);
    assert_eq!(
        top,
        vec![
            WordCount { word: "y".to_string(), count: 2 },
            WordCount { word: "x".to_string(), count: 1 },
        ]
    );
}

#[test]
fn ranking_of_none_is_empty() {
    let stop = stopwords(&[]);
    let table = word_frequencies(texts(&["x y y"]), &stop);
    assert_eq!(rank_words(&table, 0), Vec::<WordCount>::new());
    assert_eq!(rank_words(&FrequencyTable::new(), 5), Vec::<WordCount>::new());
}

#[test]
fn ties_come_in_some_order() {
    let stop = stopwords(&[]);
    let table = word_frequencies(texts(&["a b c c"]), &stop);
    let top = rank_words(&table, 2);
    assert_eq!(top.len(), 2);
    assert_eq!(top[0], WordCount { word: "c".to_string(), count: 2 });
    assert_eq!(top[1].count, 1);
    assert!(top[1].word == "a" || top[1].word == "b");
}

#[test]
fn top_words_ranks_the_contents_of_entries() {
    let stop = stopwords(&["the", "is"]);
    let entries = vec![entry("The Cat is Happy, happy!"), entry("happy dog. Cat?")];
    let top = top_words(entries, &stop, 2);
    assert_eq!(
        top,
        vec![
            WordCount { word: "happy".to_string(), count: 3 },
            WordCount { word: "cat".to_string(), count: 2 },
        ]
    );
}
