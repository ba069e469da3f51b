//! Page after page, until enough entries are gathered or a page has none.
//!
//! Fetching a page is the caller's business. The paginator says which page
//! to ask for, takes what came back, and says how to go on.

use vstd::prelude::*;
use crate::entry::{entry_views, Entry, EntryView};
use crate::error::RustySozlukError;
use crate::numbers::{decimal, decimal_text};
use crate::parser::{extract_entries, page_entries, up_to};

verus! {

/// Where the entries come from: the pages of a title, given by its
/// address, or the pages of a user's latest entries, given by the name.
#[derive(Debug, Clone, PartialEq, Eq)]
pub enum PageSource {
    Title(String),
    User(String),
}

/// A request header.
#[derive(Debug, Clone, PartialEq, Eq)]
pub struct Header {
    pub name: String,
    pub value: String,
}

/// A page to fetch: its address, and the headers to send beyond those that
/// every request carries.
#[derive(Debug, Clone, PartialEq, Eq)]
pub struct Request {
    pub url: String,
    pub headers: Vec<Header>,
}

/// What became of a request: the body of the page, or a failure of any
/// kind on the way to it.
#[derive(Debug, Clone, PartialEq, Eq)]
pub enum Fetched {
    Page(String),
    Failure,
}

/// The headers as pairs of texts.
pub open spec fn header_views(headers: Seq<Header>) -> Seq<(Seq<char>, Seq<char>)> {
    Seq::new(headers.len(), |i: int| (headers[i].name@, headers[i].value@))
}

impl PageSource {
    /// The address of page number `page`: for a title its own address with
    /// the page number as the query `p`, for a user the address of the
    /// latest entries with the name as `nick` and the page number as `p`.
    pub open spec fn page_url_text(&self, page: nat) -> Seq<char> {
        match self {
            PageSource::Title(url) => url@ + "?p="@ + decimal_text(page),
            PageSource::User(name) => "https://eksisozluk1923.com/son-entryleri?nick="@ + name@
                + "&p="@ + decimal_text(page),
        }
    }

    /// The headers that a request to this source carries beyond the usual
    /// ones: none for a title; for a user the one by which a script
    /// running in a page marks its requests.
    pub open spec fn extra_header_texts(&self) -> Seq<(Seq<char>, Seq<char>)> {
        match self {
            PageSource::Title(_) => Seq::empty(),
            PageSource::User(_) => seq![("X-Requested-With"@, "XMLHttpRequest"@)],
        }
    }

    /// The address of page number `page`.
    pub fn page_url(&self, page: usize) -> (url: String)
        ensures
            url@ == self.page_url_text(page as nat),
    {
        let number = decimal(page as u128);
        match self {
            PageSource::Title(base) => {
                let mut url = base.clone();
                url.append("?p=");
                url.append(number.as_str());
                url
            },
            PageSource::User(name) => {
                let mut url = "https://eksisozluk1923.com/son-entryleri?nick=".to_owned();
                url.append(name.as_str());
                url.append("&p=");
                url.append(number.as_str());
                url
            },
        }
    }

    /// The headers to send beyond the usual ones.
    pub fn extra_headers(&self) -> (headers: Vec<Header>)
        ensures
            header_views(headers@) == self.extra_header_texts(),
    {
        let mut headers: Vec<Header> = Vec::new();
        match self {
            PageSource::Title(_) => {},
            PageSource::User(_) => {
                headers.push(
                    Header {
                        name: "X-Requested-With".to_owned(),
                        value: "XMLHttpRequest".to_owned(),
                    },
                );
            },
        }
        assert(header_views(headers@) == self.extra_header_texts());
        headers
    }
}

/// What a fetch of `wanted` entries gathers from the pages that come back
/// for its requests, `pages[0]` for the first: from each page as many
/// entries as are still wanted, page after page, until a page gives none
/// or no more are wanted. Pages after that one are not looked at, not
/// having been asked for.
pub open spec fn gathered(pages: Seq<Seq<char>>, wanted: nat) -> Seq<EntryView>
    decreases pages.len(),
{
    if pages.len() == 0 || wanted == 0 || page_entries(pages[0]).len() == 0 {
        Seq::empty()
    } else {
        up_to(page_entries(pages[0]), wanted) + gathered(
            pages.drop_first(),
            (wanted - up_to(page_entries(pages[0]), wanted).len()) as nat,
        )
    }
}

/// Whether a fetch of `wanted` entries goes on after `pages`: none of them
/// was empty, and together they hold fewer entries than are wanted.
pub open spec fn unfinished(pages: Seq<Seq<char>>, wanted: nat) -> bool
    decreases pages.len(),
{
    if pages.len() == 0 {
        wanted > 0
    } else {
        0 < page_entries(pages[0]).len() < wanted && unfinished(
            pages.drop_first(),
            (wanted - page_entries(pages[0]).len()) as nat,
        )
    }
}

/// All the entries of `pages`, in the order of the pages and, within a
/// page, of the page.
pub open spec fn all_entries(pages: Seq<Seq<char>>) -> Seq<EntryView> {
    pages.map_values(|page: Seq<char>| page_entries(page)).flatten()
}

/// A fetch under way: what was gathered, and which page comes next.
pub struct Paginator {
    source: PageSource,
    limit: usize,
    collected: Vec<Entry>,
    page: usize,
    seen: Ghost<Seq<Seq<char>>>,
}

/// How a fetch goes on after a page.
pub enum Step {
    /// More is wanted: ask for the next page.
    Next(Paginator),
    /// The fetch is over, and these are its entries.
    Done(Vec<Entry>),
    /// The fetch is over without entries.
    Failed(RustySozlukError),
}

impl Paginator {
    #[verifier::type_invariant]
    spec fn well_formed(&self) -> bool {
        &&& self.page == self.seen@.len() + 1
        &&& unfinished(self.seen@, self.limit as nat)
        &&& entry_views(self.collected@) == gathered(self.seen@, self.limit as nat)
    }

    /// Where the entries come from.
    pub closed spec fn source(&self) -> PageSource {
        self.source
    }

    /// How many entries are wanted in all.
    pub closed spec fn limit(&self) -> nat {
        self.limit as nat
    }

    /// The pages that came back so far, the first page first.
    pub closed spec fn seen(&self) -> Seq<Seq<char>> {
        self.seen@
    }

    /// The entries gathered so far.
    pub closed spec fn collected(&self) -> Seq<EntryView> {
        entry_views(self.collected@)
    }

    /// The number of the page to fetch next. The first page is page 1.
    pub closed spec fn page(&self) -> nat {
        self.page as nat
    }

    /// Begins a fetch of `limit` entries. To ask for none is an error, and
    /// then there is no paginator, hence no request.
    pub fn start(source: PageSource, limit: usize) -> (result: Result<Paginator, RustySozlukError>)
        ensures
            match result {
                Ok(paginator) => limit > 0 && paginator.source() == source && paginator.limit()
                    == limit && paginator.seen() == Seq::<Seq<char>>::empty()
                    && paginator.collected() == Seq::<EntryView>::empty() && paginator.page()
                    == 1,
                Err(e) => limit == 0 && e == RustySozlukError::InvalidInput,
            },
    {
        if limit == 0 {
            return Err(RustySozlukError::InvalidInput);
        }
        let collected: Vec<Entry> = Vec::new();
        assert(entry_views(collected@) == Seq::<EntryView>::empty());
        Ok(Paginator { source, limit, collected, page: 1, seen: Ghost(Seq::empty()) })
    }

    /// The request for the page that comes next. There is one as long as
    /// there is a paginator: it is wanted because the pages so far had
    /// entries, but not enough.
    pub fn request(&self) -> (request: Request)
        ensures
            request.url@ == self.source().page_url_text(self.page()),
            header_views(request.headers@) == self.source().extra_header_texts(),
            self.page() == self.seen().len() + 1,
            unfinished(self.seen(), self.limit()),
            self.collected() == gathered(self.seen(), self.limit()),
    {
        proof {
            use_type_invariant(self);
        }
        Request { url: self.source.page_url(self.page), headers: self.source.extra_headers() }
    }

    /// Goes on with what came back for the page that was asked for.
    ///
    /// A failure ends the fetch, and what was gathered is dropped. From a
    /// page, as many entries are taken as are still wanted. If the page
    /// gives none, the fetch is over with what was gathered before; if the
    /// wanted number is reached, it is over with all of them; else the
    /// next page is asked for. Either way the entries are those that
    /// `gathered` names for the pages that came back.
    pub fn advance(self, fetched: Fetched) -> (step: Step)
        ensures
            match fetched {
                Fetched::Failure => step matches Step::Failed(e) && e
                    == RustySozlukError::NetworkError,
                Fetched::Page(body) => match step {
                    Step::Next(next) => {
                        &&& next.source() == self.source()
                        &&& next.limit() == self.limit()
                        &&& next.page() == self.page() + 1
                        &&& next.seen() == self.seen().push(body@)
                        &&& next.collected() == gathered(next.seen(), next.limit())
                        &&& unfinished(next.seen(), next.limit())
                    },
                    Step::Done(entries) => {
                        &&& entry_views(entries@) == gathered(
                            self.seen().push(body@),
                            self.limit(),
                        )
                        &&& !unfinished(self.seen().push(body@), self.limit())
                        &&& entries@.len() <= self.limit()
                    },
                    Step::Failed(_) => false,
                },
            },
            fetched matches Fetched::Page(body) ==> gathered(self.seen().push(body@), self.limit())
                == self.collected() + up_to(
                page_entries(body@),
                (self.limit() - self.collected().len()) as nat,
            ),
    {
        proof {
            use_type_invariant(&self);
        }
        let Paginator { source, limit, collected, page, seen } = self;
        let mut collected = collected;
        match fetched {
            Fetched::Failure => Step::Failed(RustySozlukError::NetworkError),
            Fetched::Page(body) => {
                proof {
                    lemma_gathered_push(seen@, body@, limit as nat);
                    assert(entry_views(collected@).len() == collected@.len());
                }
                let mut got = extract_entries(body.as_str(), limit - collected.len());
                if got.len() == 0 {
                    assert(entry_views(collected@) + Seq::<EntryView>::empty() == entry_views(
                        collected@,
                    ));
                    return Step::Done(collected);
                }
                assert(entry_views(collected@ + got@) == entry_views(collected@) + entry_views(
                    got@,
                ));
                collected.append(&mut got);
                if collected.len() >= limit {
                    Step::Done(collected)
                } else {
                    Step::Next(
                        Paginator {
                            source,
                            limit,
                            collected,
                            page: page + 1,
                            seen: Ghost(seen@.push(body@)),
                        },
                    )
                }
            },
        }
    }
}

/// While a fetch goes on, it has gathered all the entries of the pages so
/// far, at least one from each and fewer than wanted; one more page adds
/// as many of its entries as are still wanted; and the fetch goes on after
/// that page if it had entries and still more are wanted.
pub proof fn lemma_gathered_push(pages: Seq<Seq<char>>, next: Seq<char>, wanted: nat)
    requires
        unfinished(pages, wanted),
    ensures
        pages.len() <= gathered(pages, wanted).len() < wanted,
        gathered(pages, wanted) == all_entries(pages),
        gathered(pages.push(next), wanted) == gathered(pages, wanted) + up_to(
            page_entries(next),
            (wanted - gathered(pages, wanted).len()) as nat,
        ),
        unfinished(pages.push(next), wanted) <==> (0 < page_entries(next).len() && gathered(
            pages,
            wanted,
        ).len() + page_entries(next).len() < wanted),
    decreases pages.len(),
{
    let each = |page: Seq<char>| page_entries(page);
    let more = pages.push(next);
    if pages.len() == 0 {
        assert(more[0] == next);
        assert(more.drop_first() == pages);
        assert(pages.map_values(each) == Seq::<Seq<EntryView>>::empty());
        assert(gathered(pages, wanted) == Seq::<EntryView>::empty());
        let got = up_to(page_entries(next), wanted);
        assert(Seq::<EntryView>::empty() + got == got);
        if page_entries(next).len() < wanted {
            assert(unfinished(more.drop_first(), (wanted - page_entries(next).len()) as nat));
        }
        if page_entries(next).len() == 0 {
            assert(got == Seq::<EntryView>::empty());
        } else {
            assert(gathered(pages, (wanted - got.len()) as nat) == Seq::<EntryView>::empty());
            assert(got + Seq::<EntryView>::empty() == got);
        }
    } else {
        let first = page_entries(pages[0]);
        let left = (wanted - first.len()) as nat;
        let rest = pages.drop_first();
        lemma_gathered_push(rest, next, left);
        assert(more[0] == pages[0]);
        assert(more.drop_first() == rest.push(next));
        assert(up_to(first, wanted) == first);
        assert(gathered(pages, wanted) == first + gathered(rest, left));
        assert(gathered(more, wanted) == first + gathered(rest.push(next), left));
        assert(unfinished(more, wanted) <==> unfinished(rest.push(next), left));
        let added = up_to(page_entries(next), (left - gathered(rest, left).len()) as nat);
        assert(first + (gathered(rest, left) + added) == (first + gathered(rest, left)) + added);
        assert(pages.map_values(each) == seq![first] + rest.map_values(each));
        vstd::seq_lib::lemma_flatten_concat(seq![first], rest.map_values(each));
        seq![first].lemma_flatten_one_element();
    }
}

/// A fetch never returns more entries than were asked for.
pub proof fn lemma_gathered_len(pages: Seq<Seq<char>>, wanted: nat)
    ensures
        gathered(pages, wanted).len() <= wanted,
    decreases pages.len(),
{
    if pages.len() > 0 && wanted > 0 && page_entries(pages[0]).len() > 0 {
        let got = up_to(page_entries(pages[0]), wanted);
        lemma_gathered_len(pages.drop_first(), (wanted - got.len()) as nat);
    }
}

/// Over pages of which none is empty, a fetch takes the entries in the
/// order of the pages: all of them if they are fewer than wanted, and
/// else the first `wanted` of them.
pub proof fn lemma_gathered_over_pages(pages: Seq<Seq<char>>, wanted: nat)
    requires
        forall|k: int| 0 <= k < pages.len() ==> page_entries(#[trigger] pages[k]).len() > 0,
    ensures
        gathered(pages, wanted) == up_to(all_entries(pages), wanted),
    decreases pages.len(),
{
    let each = |page: Seq<char>| page_entries(page);
    if pages.len() == 0 {
        assert(pages.map_values(each) == Seq::<Seq<EntryView>>::empty());
        assert(all_entries(pages).take(0) == Seq::<EntryView>::empty());
    } else {
        let first = page_entries(pages[0]);
        let rest = pages.drop_first();
        assert(pages.map_values(each) == seq![first] + rest.map_values(each));
        vstd::seq_lib::lemma_flatten_concat(seq![first], rest.map_values(each));
        seq![first].lemma_flatten_one_element();
        let all = all_entries(pages);
        assert(all == first + all_entries(rest));
        if wanted == 0 {
            assert(all.take(0) == Seq::<EntryView>::empty());
        } else if wanted <= first.len() {
            assert(gathered(rest, 0) == Seq::<EntryView>::empty());
            assert(up_to(first, wanted) + Seq::<EntryView>::empty() == up_to(first, wanted));
            assert(up_to(first, wanted) == up_to(all, wanted));
        } else {
            let left = (wanted - first.len()) as nat;
            assert forall|k: int| 0 <= k < rest.len() implies page_entries(
                #[trigger] rest[k],
            ).len() > 0 by {
                assert(rest[k] == pages[k + 1]);
            }
            lemma_gathered_over_pages(rest, left);
            if left < all_entries(rest).len() {
                assert(first + all_entries(rest).take(left as int) == all.take(wanted as int));
            }
        }
    }
}

/// If the pages that come back, none of them empty, hold at least `limit`
/// entries, a fetch returns exactly `limit` entries: the first `limit` of
/// those pages, in the order of the pages and, within a page, of the page.
pub proof fn lemma_fetch_reaches_limit(pages: Seq<Seq<char>>, limit: nat)
    requires
        forall|k: int| 0 <= k < pages.len() ==> page_entries(#[trigger] pages[k]).len() > 0,
        all_entries(pages).len() >= limit,
    ensures
        gathered(pages, limit) == all_entries(pages).take(limit as int),
        gathered(pages, limit).len() == limit,
{
    lemma_gathered_over_pages(pages, limit);
    if all_entries(pages).len() == limit {
        assert(all_entries(pages).take(limit as int) == all_entries(pages));
    }
}

/// If an empty page comes back after pages that had entries, but fewer
/// than `limit` in all, a fetch returns exactly the entries of the pages
/// before the empty one, whatever pages might follow it.
pub proof fn lemma_fetch_stops_at_empty_page(
    before: Seq<Seq<char>>,
    empty: Seq<char>,
    after: Seq<Seq<char>>,
    limit: nat,
)
    requires
        forall|k: int| 0 <= k < before.len() ==> page_entries(#[trigger] before[k]).len() > 0,
        all_entries(before).len() < limit,
        page_entries(empty).len() == 0,
    ensures
        gathered(before.push(empty) + after, limit) == all_entries(before),
        !unfinished(before.push(empty), limit),
    decreases before.len(),
{
    let each = |page: Seq<char>| page_entries(page);
    let pages = before.push(empty) + after;
    if before.len() == 0 {
        assert(pages[0] == empty);
        assert(before.push(empty)[0] == empty);
        assert(before.map_values(each) == Seq::<Seq<EntryView>>::empty());
    } else {
        let first = page_entries(before[0]);
        let rest = before.drop_first();
        assert(before.map_values(each) == seq![first] + rest.map_values(each));
        vstd::seq_lib::lemma_flatten_concat(seq![first], rest.map_values(each));
        seq![first].lemma_flatten_one_element();
        assert(all_entries(before) == first + all_entries(rest));
        assert forall|k: int| 0 <= k < rest.len() implies page_entries(#[trigger] rest[k]).len()
            > 0 by {
            assert(rest[k] == before[k + 1]);
        }
        let left = (limit - first.len()) as nat;
        lemma_fetch_stops_at_empty_page(rest, empty, after, left);
        assert(pages[0] == before[0]);
        assert(pages.drop_first() == rest.push(empty) + after);
        assert(before.push(empty)[0] == before[0]);
        assert(before.push(empty).drop_first() == rest.push(empty));
    }
}

} // verus!
