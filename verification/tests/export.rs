use rustysozluk::{entry_records, ranking_records, Entry, WordCount};

fn record(fields: &[&str]) -> Vec<String> {
    fields.iter().map(|f| f.to_string()).collect()
}

#[test]
fn entries_make_a_table_under_a_header() {
    let entries = vec![
        Entry { content: "c1".to_string(), date: "d1".to_string(), username: "u1".to_string() },
        Entry { content: "c, 2".to_string(), date: "".to_string(), username: "u2".to_string() },
    ];
    assert_eq!(
        entry_records(&entries),
        vec![
            record(&["Content", "Date", "Username"]),
            record(&["c1", "d1", "u1"]),
            record(&["c, 2", "", "u2"]),
        ]
    );
}

#[test]
fn no_entries_make_a_header_alone() {
    assert_eq!(entry_records(&Vec::new()), vec![record(&["Content", "Date", "Username"])]);
}

#[test]
fn a_ranking_makes_a_table_with_ranks_from_one() {
    let top = vec![
        WordCount { word: "happy".to_string(), count: 12 },
        WordCount { word: "cat".to_string(), count: 3 },
        WordCount { word: "dog".to_string(), count: 3 },
    ];
    assert_eq!(
        ranking_records(&top),
        vec![
            record(&["Rank", "Word", "Frequency"]),
            record(&["1", "happy", "12"]),
            record(&["2", "cat", "3"]),
            record(&["3", "dog", "3"]),
        ]
    );
    assert_eq!(ranking_records(&Vec::new()), vec![record(&["Rank", "Word", "Frequency"])]);
}
