//! Entries and rankings as tables of texts, ready to be written out.

use vstd::prelude::*;
use crate::entry::{entry_views, Entry, EntryView};
use crate::frequency::WordCount;
use crate::numbers::{decimal, decimal_text};
use crate::text::{record_fields, views};

verus! {

/// The header of a table of entries.
pub open spec fn entry_header() -> Seq<Seq<char>> {
    seq!["Content"@, "Date"@, "Username"@]
}

/// The table of `entries`: the header, then one record for each entry,
/// with its content, its date and its author, in this order.
pub open spec fn entry_table(entries: Seq<EntryView>) -> Seq<Seq<Seq<char>>> {
    Seq::new(
        entries.len() + 1,
        |i: int|
            if i == 0 {
                entry_header()
            } else {
                seq![entries[i - 1].content, entries[i - 1].date, entries[i - 1].username]
            },
    )
}

/// The header of a table of ranked words.
pub open spec fn ranking_header() -> Seq<Seq<char>> {
    seq!["Rank"@, "Word"@, "Frequency"@]
}

/// The table of a ranking: the header, then one record for each word, with
/// its rank, counted from 1, the word and its count.
pub open spec fn ranking_table(top: Seq<WordCount>) -> Seq<Seq<Seq<char>>> {
    Seq::new(
        top.len() + 1,
        |i: int|
            if i == 0 {
                ranking_header()
            } else {
                seq![decimal_text(i as nat), top[i - 1].word@, decimal_text(top[i - 1].count as nat)]
            },
    )
}

/// The records of the table of `entries`.
pub fn entry_records(entries: &Vec<Entry>) -> (records: Vec<Vec<String>>)
    ensures
        record_fields(records@) == entry_table(entry_views(entries@)),
{
    let mut header: Vec<String> = Vec::new();
    header.push("Content".to_owned());
    header.push("Date".to_owned());
    header.push("Username".to_owned());
    assert(views(header@) == entry_header());
    let mut records: Vec<Vec<String>> = Vec::new();
    records.push(header);
    let mut i: usize = 0;
    while i < entries.len()
        invariant
            i <= entries.len(),
            records@.len() == i + 1,
            forall|k: int|
                0 <= k <= i ==> views(#[trigger] records@[k]@) == entry_table(
                    entry_views(entries@),
                )[k],
        decreases entries.len() - i,
    {
        let entry = &entries[i];
        let mut record: Vec<String> = Vec::new();
        record.push(entry.content.clone());
        record.push(entry.date.clone());
        record.push(entry.username.clone());
        assert(views(record@) == entry_table(entry_views(entries@))[i + 1]);
        records.push(record);
        i += 1;
    }
    assert(record_fields(records@) == entry_table(entry_views(entries@)));
    records
}

/// The records of the table of a ranking.
pub fn ranking_records(top: &Vec<WordCount>) -> (records: Vec<Vec<String>>)
    ensures
        record_fields(records@) == ranking_table(top@),
{
    let mut header: Vec<String> = Vec::new();
    header.push("Rank".to_owned());
    header.push("Word".to_owned());
    header.push("Frequency".to_owned());
    assert(views(header@) == ranking_header());
    let mut records: Vec<Vec<String>> = Vec::new();
    records.push(header);
    let mut i: usize = 0;
    while i < top.len()
        invariant
            i <= top.len(),
            records@.len() == i + 1,
            forall|k: int| 0 <= k <= i ==> views(#[trigger] records@[k]@) == ranking_table(top@)[k],
        decreases top.len() - i,
    {
        let mut record: Vec<String> = Vec::new();
        record.push(decimal(i as u128 + 1));
        record.push(top[i].word.clone());
        record.push(decimal(top[i].count));
        assert(views(record@) == ranking_table(top@)[i + 1]);
        records.push(record);
        i += 1;
    }
    assert(record_fields(records@) == ranking_table(top@));
    records
}

} // verus!
