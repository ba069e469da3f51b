//! Forum entries gathered page by page, and word-level analytics over them.
//!
//! A fetch is driven by a [`Paginator`]: it names the page to ask for, takes
//! the page's body, and keeps the entries that [`extract_entries`] finds in
//! it. The analytics work on the texts of the entries: [`preprocess_text`]
//! brings a text into its normal form, [`word_frequencies`] counts the words
//! of normal forms, [`top_words`] ranks them, and [`analyze_sentiment`] looks
//! them up in a [`Lexicon`].

pub mod entry;
pub mod error;
pub mod export;
pub mod frequency;
pub mod keyed;
pub mod lexicon;
pub mod normalize;
pub mod numbers;
pub mod paginator;
pub mod parser;
pub mod ranking;
pub mod sentiment;
pub mod stopwords;
pub mod text;

pub use entry::Entry;
pub use error::RustySozlukError;
pub use export::{entry_records, ranking_records};
pub use frequency::{word_frequencies, FrequencyTable, WordCount};
pub use lexicon::{lexicon_from_records, parse_lexicon, Lexicon, LexiconEntry, Polarity, Sentiment};
pub use normalize::{preprocess_text, preprocess_words};
pub use paginator::{Fetched, Header, PageSource, Paginator, Request, Step};
pub use parser::{assemble_entries, clean_text, extract_entries, RawItem};
pub use ranking::{rank_words, top_words};
pub use sentiment::{analyze_sentiment, SentimentReport};
pub use stopwords::{parse_stopwords, StopwordSet};
