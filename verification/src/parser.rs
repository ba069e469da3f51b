//! Entries out of one page of the forum.
//!
//! A page lists its posts as elements with a post identifier. Inside such
//! an element stand a content block, a date marker and an author marker.
//! The `scraper` crate finds them; what is made of them is decided here.

use scraper::{ElementRef, Html, Selector};
use vstd::prelude::*;
use crate::entry::{entry_views, Entry, EntryView};
use crate::text::{record_fields, trim_text, trimmed, views};

verus! {

/// What one post element of a page holds, as far as an entry needs it:
/// its content blocks, its date markers and its author markers, each kind
/// in document order, and each block or marker as the list of the text
/// nodes under it, in document order too.
#[derive(Debug, Clone, PartialEq, Eq)]
pub struct RawItem {
    pub content: Vec<Vec<String>>,
    pub date: Vec<Vec<String>>,
    pub username: Vec<Vec<String>>,
}

/// A post element as a value.
pub struct RawItemView {
    pub content: Seq<Seq<Seq<char>>>,
    pub date: Seq<Seq<Seq<char>>>,
    pub username: Seq<Seq<Seq<char>>>,
}

impl View for RawItem {
    type V = RawItemView;

    open spec fn view(&self) -> RawItemView {
        RawItemView {
            content: record_fields(self.content@),
            date: record_fields(self.date@),
            username: record_fields(self.username@),
        }
    }
}

/// The post elements that a sequence of items stands for.
pub open spec fn item_views(items: Seq<RawItem>) -> Seq<RawItemView> {
    Seq::new(items.len(), |i: int| items[i]@)
}

/// The post elements that `scraper` finds in a page, in document order:
/// the elements of the parsed document that match the selector `item`, and
/// for each of them the text nodes under each of its descendants that
/// match `content`, `date` and `username`. `None` where one of the four is
/// not a selector.
pub uninterp spec fn scraped(
    html: Seq<char>,
    item: Seq<char>,
    content: Seq<char>,
    date: Seq<char>,
    username: Seq<char>,
) -> Option<Seq<RawItemView>>;

/// What `found` stands for.
pub open spec fn found_views(found: Option<Vec<RawItem>>) -> Option<Seq<RawItemView>> {
    match found {
        Some(items) => Some(item_views(items@)),
        None => None,
    }
}

/// Asks `scraper` for the post elements of a page. The four selectors go
/// through `Selector::parse`, the page through `Html::parse_document`;
/// `Html::select` walks the elements that match `item`, and for each of the
/// other three selectors `ElementRef::select` walks the matches inside the
/// element, whose text nodes `ElementRef::text` hands out. Parsing and
/// matching depend on these five texts and on nothing else, which is all
/// that the contract says.
#[verifier::external_body]
fn scrape(html: &str, item: &str, content: &str, date: &str, username: &str) -> (found: Option<
    Vec<RawItem>,
>)
    ensures
        found_views(found) == scraped(html@, item@, content@, date@, username@),
{
    let item = Selector::parse(item).ok()?;
    let content = Selector::parse(content).ok()?;
    let date = Selector::parse(date).ok()?;
    let username = Selector::parse(username).ok()?;
    let texts = |el: ElementRef, part: &Selector| {
        el.select(part).map(|found| found.text().map(String::from).collect()).collect()
    };
    let document = Html::parse_document(html);
    let posts = document.select(&item);
    let parts = |el| RawItem { content: texts(el, &content), date: texts(el, &date), username: texts(el, &username) };
    Some(posts.map(parts).collect())
}

/// The selector of a post element.
pub open spec fn item_selector() -> Seq<char> {
    "li[data-id]"@
}

/// The selector of the content block of a post.
pub open spec fn content_selector() -> Seq<char> {
    "div.content"@
}

/// The selector of the date marker of a post.
pub open spec fn date_selector() -> Seq<char> {
    "a.entry-date"@
}

/// The selector of the author marker of a post.
pub open spec fn username_selector() -> Seq<char> {
    "div#entry-author a.entry-author"@
}

/// The text of an element: its text nodes in one piece, without the white
/// space at both ends.
pub open spec fn clean(nodes: Seq<Seq<char>>) -> Seq<char> {
    trimmed(nodes.flatten())
}

/// The entry that a post element makes, if it has all three parts: its
/// fields are the texts of the first content block, the first date marker
/// and the first author marker.
pub open spec fn entry_of(item: RawItemView) -> Option<EntryView> {
    if item.content.len() > 0 && item.date.len() > 0 && item.username.len() > 0 {
        Some(
            EntryView {
                content: clean(item.content[0]),
                date: clean(item.date[0]),
                username: clean(item.username[0]),
            },
        )
    } else {
        None
    }
}

/// The entries that post elements make, in their order. An element that
/// lacks one of the three parts makes none, and the others are not
/// affected.
pub open spec fn entries_of(items: Seq<RawItemView>) -> Seq<EntryView>
    decreases items.len(),
{
    if items.len() == 0 {
        Seq::empty()
    } else if entry_of(items.last()) is Some {
        entries_of(items.drop_last()).push(entry_of(items.last()).unwrap())
    } else {
        entries_of(items.drop_last())
    }
}

/// The first `limit` of `all`, or all of them where they are fewer.
pub open spec fn up_to<A>(all: Seq<A>, limit: nat) -> Seq<A> {
    if limit < all.len() {
        all.take(limit as int)
    } else {
        all
    }
}

/// All the entries of a page.
pub open spec fn page_entries(html: Seq<char>) -> Seq<EntryView> {
    match scraped(
        html,
        item_selector(),
        content_selector(),
        date_selector(),
        username_selector(),
    ) {
        Some(items) => entries_of(items),
        None => Seq::empty(),
    }
}

/// The entries made of the first `n` elements are the first of the entries
/// made of all.
pub proof fn lemma_entries_of_prefix(items: Seq<RawItemView>, n: int)
    requires
        0 <= n <= items.len(),
    ensures
        entries_of(items.take(n)).len() <= entries_of(items).len(),
        entries_of(items.take(n)) == entries_of(items).take(
            entries_of(items.take(n)).len() as int,
        ),
    decreases items.len() - n,
{
    if n < items.len() {
        lemma_entries_of_prefix(items, n + 1);
        assert(items.take(n + 1).drop_last() == items.take(n));
        let more = entries_of(items.take(n + 1));
        let fewer = entries_of(items.take(n));
        assert(fewer == more.take(fewer.len() as int));
        assert(more.take(fewer.len() as int) == entries_of(items).take(more.len() as int).take(
            fewer.len() as int,
        ));
    } else {
        assert(items.take(n) == items);
    }
}

/// The text of an element, given its text nodes.
pub fn clean_text(nodes: &Vec<String>) -> (out: String)
    ensures
        out@ == clean(views(nodes@)),
{
    let mut whole = String::new();
    let mut i: usize = 0;
    assert(views(nodes@).take(0) == Seq::<Seq<char>>::empty());
    while i < nodes.len()
        invariant
            i <= nodes.len(),
            whole@ == views(nodes@).take(i as int).flatten(),
        decreases nodes.len() - i,
    {
        proof {
            views(nodes@).take(i as int).lemma_flatten_push(nodes@[i as int]@);
            assert(views(nodes@).take(i as int).push(nodes@[i as int]@) == views(nodes@).take(
                i + 1,
            ));
        }
        whole.append(nodes[i].as_str());
        i += 1;
    }
    assert(views(nodes@).take(nodes.len() as int) == views(nodes@));
    trim_text(whole.as_str())
}

/// The entry that a post element makes, if it has all three parts.
pub fn complete(item: &RawItem) -> (entry: Option<Entry>)
    ensures
        match entry {
            Some(e) => entry_of(item@) == Some(e@),
            None => entry_of(item@) is None,
        },
{
    if item.content.len() > 0 && item.date.len() > 0 && item.username.len() > 0 {
        Some(
            Entry {
                content: clean_text(&item.content[0]),
                date: clean_text(&item.date[0]),
                username: clean_text(&item.username[0]),
            },
        )
    } else {
        None
    }
}

/// The first `limit` entries that the post elements make.
pub fn assemble_entries(items: &Vec<RawItem>, limit: usize) -> (out: Vec<Entry>)
    ensures
        entry_views(out@) == up_to(entries_of(item_views(items@)), limit as nat),
        out@.len() <= limit,
{
    let ghost all = item_views(items@);
    let mut out: Vec<Entry> = Vec::new();
    let mut i: usize = 0;
    assert(all.take(0) == Seq::<RawItemView>::empty());
    while i < items.len() && out.len() < limit
        invariant
            i <= items.len(),
            all == item_views(items@),
            out.len() <= limit,
            entry_views(out@) == entries_of(all.take(i as int)),
        decreases items.len() - i,
    {
        proof {
            assert(all.take(i + 1).drop_last() == all.take(i as int));
            assert(all.take(i + 1).last() == items@[i as int]@);
        }
        match complete(&items[i]) {
            Some(entry) => {
                assert(entry_views(out@.push(entry)) == entry_views(out@).push(entry@));
                out.push(entry);
            },
            None => {},
        }
        i += 1;
    }
    proof {
        lemma_entries_of_prefix(all, i as int);
        if i == items.len() {
            assert(all.take(i as int) == all);
        }
    }
    out
}

/// The first `limit` entries of a page. A page that cannot be read as
/// expected gives fewer entries, or none; it is never an error.
pub fn extract_entries(html: &str, limit: usize) -> (out: Vec<Entry>)
    ensures
        entry_views(out@) == up_to(page_entries(html@), limit as nat),
        out@.len() <= limit,
{
    let found = scrape(
        html,
        "li[data-id]",
        "div.content",
        "a.entry-date",
        "div#entry-author a.entry-author",
    );
    match found {
        Some(items) => assemble_entries(&items, limit),
        None => {
            let out: Vec<Entry> = Vec::new();
            assert(entry_views(out@) == Seq::<EntryView>::empty());
            out
        },
    }
}

} // verus!
