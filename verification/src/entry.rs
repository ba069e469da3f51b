//! One post of the forum.

use vstd::prelude::*;

verus! {

/// A post: what it says, when it was written, and by whom.
#[derive(Debug, Clone, PartialEq, Eq)]
pub struct Entry {
    pub content: String,
    pub date: String,
    pub username: String,
}

/// A post as a value: the texts of its three fields.
pub struct EntryView {
    pub content: Seq<char>,
    pub date: Seq<char>,
    pub username: Seq<char>,
}

impl View for Entry {
    type V = EntryView;

    open spec fn view(&self) -> EntryView {
        EntryView { content: self.content@, date: self.date@, username: self.username@ }
    }
}

/// The posts that a sequence of entries holds.
pub open spec fn entry_views(entries: Seq<Entry>) -> Seq<EntryView> {
    Seq::new(entries.len(), |i: int| entries[i]@)
}

/// What the posts say, post after post.
pub open spec fn contents(entries: Seq<EntryView>) -> Seq<Seq<char>> {
    Seq::new(entries.len(), |i: int| entries[i].content)
}

} // verus!
