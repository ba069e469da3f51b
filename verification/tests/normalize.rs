use rustysozluk::{parse_stopwords, preprocess_text, preprocess_words, StopwordSet};

fn stopwords(words: &[&str]) -> StopwordSet {
    StopwordSet::from_words(words.iter().map(|w| w.to_string()).collect())
}

#[test]
fn normalize_lowers_strips_and_drops_stopwords() {
    let stop = stopwords(&["the", "is"]);
    assert_eq!(preprocess_text("The Cat is Happy, happy!", &stop), "cat happy happy");
}

#[test]
fn punctuation_is_deleted_not_replaced() {
    let stop = stopwords(&[]);
    assert_eq!(preprocess_text("can't", &stop), "cant");
    assert_eq!(preprocess_text("a1b2c", &stop), "abc");
    assert_eq!(preprocess_text("well-known fact.", &stop), "wellknown fact");
}

#[test]
fn digits_and_punctuation_alone_leave_nothing() {
    let stop = stopwords(&[]);
    assert_eq!(preprocess_text("123 456 !!! ...", &stop), "");
    assert_eq!(preprocess_text("", &stop), "");
    assert_eq!(preprocess_words("42 - 7", &stop), Vec::<String>::new());
}

#[test]
fn white_space_runs_become_one_blank() {
    let stop = stopwords(&[]);
    assert_eq!(preprocess_text("  a \t\n b   c ", &stop), "a b c");
}

#[test]
fn stopwords_are_matched_after_lowercasing() {
    let stop = stopwords(&["ve", "bir"]);
    assert_eq!(preprocess_text("Ve BIR Gün, ve bir gece", &stop), "gün gece");
}

#[test]
fn a_stopword_in_upper_case_matches_nothing() {
    let stop = stopwords(&["The"]);
    assert_eq!(preprocess_text("The the", &stop), "the the");
}

#[test]
fn letters_beyond_ascii_are_kept() {
    let stop = stopwords(&[]);
    assert_eq!(preprocess_text("Çok GÜZEL şey!", &stop), "çok güzel şey");
}

#[test]
fn only_stopwords_leave_nothing() {
    let stop = stopwords(&["a", "b"]);
    assert_eq!(preprocess_text("a b, A B!", &stop), "");
}

#[test]
fn normalized_words_are_the_words_of_the_normal_form() {
    let stop = stopwords(&["the", "is"]);
    let text = "The Cat is Happy, happy!";
    let words = preprocess_words(text, &stop);
    assert_eq!(words, vec!["cat".to_string(), "happy".to_string(), "happy".to_string()]);
    assert_eq!(words.join(" "), preprocess_text(text, &stop));
}

#[test]
fn normalizing_twice_is_normalizing_once() {
    let stop = stopwords(&["the", "is", "ve"]);
    for text in [
        "The Cat is Happy, happy!",
        "can't won't",
        "  Ve  BIR gün... ",
        "",
        "İstanbul'da ΟΔΟΣ 123",
        "ǅ ß ẞ",
    ] {
        let once = preprocess_text(text, &stop);
        assert_eq!(preprocess_text(&once, &stop), once);
    }
}

#[test]
fn stopword_sources_give_the_first_field_of_each_line() {
    let stop = parse_stopwords("the,1\nis\r\nand,x,y\n");
    assert!(stop.contains("the"));
    assert!(stop.contains("is"));
    assert!(stop.contains("and"));
    assert!(!stop.contains("x"));
    assert!(!stop.contains("1"));
    assert!(!stop.contains("is\r"));
    assert!(!stop.contains("cat"));
}

#[test]
fn stopword_set_grows_by_insertion() {
    let mut stop = StopwordSet::new();
    assert!(!stop.contains("the"));
    stop.insert("the".to_string());
    stop.insert("the".to_string());
    assert!(stop.contains("the"));
    assert!(!stop.contains("th"));
    assert!(!stop.contains(""));
}

#[test]
fn an_empty_stopword_source_gives_the_empty_set() {
    let stop = parse_stopwords("");
    assert!(!stop.contains(""));
    assert_eq!(preprocess_text("a b", &stop), "a b");
}
