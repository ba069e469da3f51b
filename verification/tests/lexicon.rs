use rustysozluk::{
    lexicon_from_records, parse_lexicon, Lexicon, Polarity, RustySozlukError, Sentiment,
};

fn record(fields: &[&str]) -> Vec<String> {
    fields.iter().map(|f| f.to_string()).collect()
}

fn sentiment(tone: &str, polarity: i32) -> Sentiment {
    Sentiment { tone: tone.to_string(), polarity }
}

#[test]
fn a_lexicon_source_is_read_under_its_header() {
    let source = "id,word,tone,polarity\n1,good,2.5,1\n2,bad,-1.0,-1\n3,table,0,0\n";
    let lexicon = parse_lexicon(source).unwrap();
    assert_eq!(lexicon.len(), 3);
    assert_eq!(lexicon.get("good"), Some(&sentiment("2.5", 1)));
    assert_eq!(lexicon.get("bad"), Some(&sentiment("-1.0", -1)));
    assert_eq!(lexicon.get("table"), Some(&sentiment("0", 0)));
    assert_eq!(lexicon.get("word"), None);
    assert_eq!(lexicon.get("ugly"), None);
}

#[test]
fn the_first_line_is_never_an_entry() {
    let lexicon = parse_lexicon("1,good,2.5,1\n2,bad,-1.0,-1\n").unwrap();
    assert_eq!(lexicon.len(), 1);
    assert_eq!(lexicon.get("good"), None);
    assert_eq!(lexicon.get("bad"), Some(&sentiment("-1.0", -1)));
}

#[test]
fn a_comma_may_stand_for_the_decimal_point() {
    let source = "id,word,tone,polarity\n1,iyi,\"0,75\",1\n2,kötü,\"-0,5\",-1\n";
    let lexicon = parse_lexicon(source).unwrap();
    assert_eq!(lexicon.get("iyi"), Some(&sentiment("0.75", 1)));
    assert_eq!(lexicon.get("kötü"), Some(&sentiment("-0.5", -1)));
}

#[test]
fn columns_after_the_fourth_are_not_looked_at() {
    let source = "id,word,tone,polarity,note\n1,good,2.5,1,anything at all\n";
    let lexicon = parse_lexicon(source).unwrap();
    assert_eq!(lexicon.get("good"), Some(&sentiment("2.5", 1)));
}

#[test]
fn a_polarity_outside_the_usual_three_is_accepted() {
    let lexicon = parse_lexicon("id,word,tone,polarity\n1,great,3,7\n").unwrap();
    assert_eq!(lexicon.get("great"), Some(&sentiment("3", 7)));
    assert_eq!(lexicon.get("great").unwrap().side(), Polarity::Neutral);
}

#[test]
fn a_later_record_replaces_an_earlier_one() {
    let source = "id,word,tone,polarity\n1,good,2.5,1\n2,good,0.5,0\n";
    let lexicon = parse_lexicon(source).unwrap();
    assert_eq!(lexicon.len(), 1);
    assert_eq!(lexicon.get("good"), Some(&sentiment("0.5", 0)));
}

#[test]
fn a_tone_that_is_no_number_is_malformed() {
    let source = "id,word,tone,polarity\n1,good,2.5,1\n2,bad,very,-1\n";
    assert_eq!(parse_lexicon(source).err(), Some(RustySozlukError::MalformedLexicon));
    let source = "id,word,tone,polarity\n1,good,\"1,2,3\",1\n";
    assert_eq!(parse_lexicon(source).err(), Some(RustySozlukError::MalformedLexicon));
    let source = "id,word,tone,polarity\n1,good,,1\n";
    assert_eq!(parse_lexicon(source).err(), Some(RustySozlukError::MalformedLexicon));
}

#[test]
fn a_polarity_that_is_no_integer_is_malformed() {
    for polarity in ["1.0", "one", "", " 1", "99999999999"] {
        let source = format!("id,word,tone,polarity\n1,good,2.5,{}\n", polarity);
        assert_eq!(parse_lexicon(&source).err(), Some(RustySozlukError::MalformedLexicon));
    }
}

#[test]
fn records_of_fewer_than_four_fields_are_malformed() {
    let source = "id,word,tone\n1,good,2.5\n";
    assert_eq!(parse_lexicon(source).err(), Some(RustySozlukError::MalformedLexicon));
}

#[test]
fn records_of_unequal_length_are_malformed() {
    let source = "id,word,tone,polarity\n1,good,2.5,1\n2,bad,-1.0,-1,extra\n";
    assert_eq!(parse_lexicon(source).err(), Some(RustySozlukError::MalformedLexicon));
}

#[test]
fn a_header_alone_is_an_empty_lexicon() {
    assert_eq!(parse_lexicon("id,word,tone,polarity\n").unwrap().len(), 0);
    assert_eq!(parse_lexicon("").unwrap().len(), 0);
}

#[test]
fn quoted_fields_are_read_as_one_field() {
    let source = "id,word,tone,polarity\n1,\"well, then\",\"1,5\",1\n";
    let lexicon = parse_lexicon(source).unwrap();
    assert_eq!(lexicon.get("well, then"), Some(&sentiment("1.5", 1)));
}

#[test]
fn records_make_a_lexicon_without_a_header() {
    let records = vec![record(&["1", "good", "2,5", "1"]), record(&["2", "bad", "-1.0", "-1"])];
    let lexicon = lexicon_from_records(&records).unwrap();
    assert_eq!(lexicon.len(), 2);
    assert_eq!(lexicon.get("good"), Some(&sentiment("2.5", 1)));
    assert_eq!(lexicon.get("bad"), Some(&sentiment("-1.0", -1)));
}

#[test]
fn one_bad_record_fails_them_all() {
    let records = vec![
        record(&["1", "good", "2.5", "1"]),
        record(&["2", "bad", "-1.0"]),
        record(&["3", "fine", "1.0", "1"]),
    ];
    assert_eq!(lexicon_from_records(&records).err(), Some(RustySozlukError::MalformedLexicon));
    let records = vec![record(&["1", "good", "x", "1"])];
    assert_eq!(lexicon_from_records(&records).err(), Some(RustySozlukError::MalformedLexicon));
    let records = vec![record(&["1", "good", "1", "x"])];
    assert_eq!(lexicon_from_records(&records).err(), Some(RustySozlukError::MalformedLexicon));
}

#[test]
fn no_records_make_the_empty_lexicon() {
    let lexicon = lexicon_from_records(&Vec::new()).unwrap();
    assert_eq!(lexicon.len(), 0);
    assert_eq!(lexicon.get(""), None);
}

#[test]
fn insert_replaces_what_was_said_of_a_word() {
    let mut lexicon = Lexicon::new();
    lexicon.insert("good".to_string(), sentiment("2.5", 1));
    lexicon.insert("bad".to_string(), sentiment("-1.0", -1));
    lexicon.insert("good".to_string(), sentiment("3.0", 1));
    assert_eq!(lexicon.len(), 2);
    assert_eq!(lexicon.get("good"), Some(&sentiment("3.0", 1)));
    assert_eq!(lexicon.get("bad"), Some(&sentiment("-1.0", -1)));
    assert_eq!(lexicon.entries()[0].word, "good");
    assert_eq!(lexicon.entries()[1].word, "bad");
}

#[test]
fn the_side_follows_the_polarity() {
    assert_eq!(sentiment("1", 1).side(), Polarity::Positive);
    assert_eq!(sentiment("1", -1).side(), Polarity::Negative);
    assert_eq!(sentiment("1", 0).side(), Polarity::Neutral);
    assert_eq!(sentiment("1", 2).side(), Polarity::Neutral);
    assert_eq!(sentiment("1", -2).side(), Polarity::Neutral);
}

#[test]
fn errors_describe_themselves() {
    assert_eq!(RustySozlukError::InvalidInput.message(), "Limit cannot be zero");
    assert_eq!(RustySozlukError::NetworkError.message(), "Network error occurred");
    assert_eq!(RustySozlukError::MalformedLexicon.message(), "Malformed sentiment lexicon");
}
