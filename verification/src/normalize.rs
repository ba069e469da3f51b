//! Normal form of a text: lowercase letters only, stopwords gone, one blank
//! between words.

use vstd::prelude::*;
use crate::stopwords::StopwordSet;
use crate::text::{
    chars_of, is_kept, is_space, is_space_char, is_word, join_strings, join_words,
    lemma_join_chars, lemma_words_are_words, lemma_words_chars, lemma_words_of_join,
    split_words, unicode_alphabetic, unicode_lowercase, views, words,
};

verus! {

/// The test that a character passes to stay in a text.
pub open spec fn keeps() -> spec_fn(char) -> bool {
    |c: char| is_kept(c)
}

/// `s` without the characters that are neither letters nor separators.
/// They are taken out, not replaced: what stood on both sides of one
/// becomes one word.
pub open spec fn letters_and_spaces(s: Seq<char>) -> Seq<char> {
    s.filter(keeps())
}

/// The test that a word passes when it is no stopword.
pub open spec fn outside(stopwords: Set<Seq<char>>) -> spec_fn(Seq<char>) -> bool {
    |w: Seq<char>| !stopwords.contains(w)
}

/// The words of the normal form of `text`: the text in lowercase, without
/// what is neither letter nor separator, split into words, without the
/// stopwords.
pub open spec fn normalized_words(text: Seq<char>, stopwords: Set<Seq<char>>) -> Seq<Seq<char>> {
    words(letters_and_spaces(unicode_lowercase(text))).filter(outside(stopwords))
}

/// The normal form of `text`: its normalized words, one blank between
/// neighbours.
pub open spec fn normalized(text: Seq<char>, stopwords: Set<Seq<char>>) -> Seq<char> {
    join_words(normalized_words(text, stopwords))
}

/// A word made of letters only.
pub open spec fn is_letter_word(w: Seq<char>) -> bool {
    w.len() > 0 && forall|k: int| 0 <= k < w.len() ==> unicode_alphabetic(#[trigger] w[k])
}

/// `chars` without what is neither letter nor separator.
fn keep_letters_and_spaces(chars: &Vec<char>) -> (out: Vec<char>)
    ensures
        out@ == letters_and_spaces(chars@),
{
    let mut out: Vec<char> = Vec::new();
    let mut i: usize = 0;
    assert(chars@.take(0).filter(keeps()) == Seq::<char>::empty());
    while i < chars.len()
        invariant
            i <= chars.len(),
            out@ == chars@.take(i as int).filter(keeps()),
        decreases chars.len() - i,
    {
        let c = chars[i];
        proof {
            assert(chars@.take(i + 1) == chars@.take(i as int).push(c));
            chars@.take(i as int).lemma_filter_push(c, keeps());
        }
        if c.is_alphabetic() || is_space_char(c) {
            out.push(c);
        }
        i += 1;
    }
    assert(chars@.take(chars.len() as int) == chars@);
    out
}

/// `all` without the stopwords.
fn drop_stopwords(all: Vec<String>, stopwords: &StopwordSet) -> (out: Vec<String>)
    ensures
        views(out@) == views(all@).filter(outside(stopwords@)),
{
    let mut out: Vec<String> = Vec::new();
    let mut i: usize = 0;
    assert(views(all@).take(0).filter(outside(stopwords@)) == Seq::<Seq<char>>::empty());
    while i < all.len()
        invariant
            i <= all.len(),
            views(out@) == views(all@).take(i as int).filter(outside(stopwords@)),
        decreases all.len() - i,
    {
        let is_stopword = stopwords.contains(all[i].as_str());
        proof {
            let w = all@[i as int]@;
            assert(views(all@).take(i + 1) == views(all@).take(i as int).push(w));
            views(all@).take(i as int).lemma_filter_push(w, outside(stopwords@));
        }
        if !is_stopword {
            let word = all[i].clone();
            assert(views(out@.push(word)) == views(out@).push(word@));
            out.push(word);
        }
        i += 1;
    }
    assert(views(all@).take(all.len() as int) == views(all@));
    out
}

/// The normalized words of `text`.
pub fn preprocess_words(text: &str, stopwords: &StopwordSet) -> (out: Vec<String>)
    ensures
        views(out@) == normalized_words(text@, stopwords@),
{
    let lowered = text.to_lowercase();
    let chars = chars_of(lowered.as_str());
    let kept = keep_letters_and_spaces(&chars);
    drop_stopwords(split_words(&kept), stopwords)
}

/// The normal form of `text`.
pub fn preprocess_text(text: &str, stopwords: &StopwordSet) -> (out: String)
    ensures
        out@ == normalized(text@, stopwords@),
{
    let kept = preprocess_words(text, stopwords);
    join_strings(&kept)
}

/// Every normalized word is a word of letters and no stopword.
pub proof fn lemma_normalized_words(text: Seq<char>, stopwords: Set<Seq<char>>)
    ensures
        forall|i: int|
            0 <= i < normalized_words(text, stopwords).len() ==> {
                let w = #[trigger] normalized_words(text, stopwords)[i];
                is_word(w) && is_letter_word(w) && !stopwords.contains(w)
            },
{
    let clean = letters_and_spaces(unicode_lowercase(text));
    let all = words(clean);
    let kept = normalized_words(text, stopwords);
    lemma_words_are_words(clean);
    assert forall|i: int| 0 <= i < kept.len() implies {
        let w = #[trigger] kept[i];
        is_word(w) && is_letter_word(w) && !stopwords.contains(w)
    } by {
        let w = kept[i];
        all.lemma_filter_pred(outside(stopwords), i);
        assert(all.filter(outside(stopwords)).contains(w));
        all.lemma_filter_contains_rev(outside(stopwords), w);
        let j = choose|j: int| 0 <= j < all.len() && all[j] == w;
        assert(is_word(all[j]));
        assert forall|k: int| 0 <= k < w.len() implies unicode_alphabetic(#[trigger] w[k]) by {
            lemma_words_chars(clean, j, k);
            let m = choose|m: int| 0 <= m < clean.len() && clean[m] == w[k];
            unicode_lowercase(text).lemma_filter_pred(keeps(), m);
            assert(!is_space(w[k]));
        }
    }
}

/// The words of a normal form are the normalized words of the text.
pub proof fn lemma_words_of_normalized(text: Seq<char>, stopwords: Set<Seq<char>>)
    ensures
        words(normalized(text, stopwords)) == normalized_words(text, stopwords),
{
    lemma_normalized_words(text, stopwords);
    lemma_words_of_join(normalized_words(text, stopwords));
}

/// Normalizing a normal form changes nothing, wherever lowercasing leaves
/// the normal form as it is. Of the steps of normalization this is the one
/// whose outcome only the Unicode tables know; the others are shown here to
/// leave a normal form alone.
pub proof fn lemma_normalized_twice(text: Seq<char>, stopwords: Set<Seq<char>>)
    ensures
        unicode_lowercase(normalized(text, stopwords)) == normalized(text, stopwords)
            ==> normalized(normalized(text, stopwords), stopwords) == normalized(
            text,
            stopwords,
        ),
{
    let kept = normalized_words(text, stopwords);
    let once = normalized(text, stopwords);
    if unicode_lowercase(once) == once {
        lemma_normalized_words(text, stopwords);
        assert forall|k: int| 0 <= k < once.len() implies keeps()(#[trigger] once[k]) by {
            lemma_join_chars(kept, k);
        }
        lemma_filter_all(once, keeps());
        lemma_words_of_join(kept);
        lemma_filter_all(kept, outside(stopwords));
    }
}

/// Filtering by a test that every item passes leaves the sequence as it is.
pub proof fn lemma_filter_all<A>(s: Seq<A>, p: spec_fn(A) -> bool)
    requires
        forall|k: int| 0 <= k < s.len() ==> p(#[trigger] s[k]),
    ensures
        s.filter(p) == s,
    decreases s.len(),
{
    if s.len() == 0 {
        s.lemma_filter_len(p);
    } else {
        let front = s.drop_last();
        assert forall|k: int| 0 <= k < front.len() implies p(#[trigger] front[k]) by {
            assert(front[k] == s[k]);
        }
        lemma_filter_all(front, p);
        front.lemma_filter_push(s.last(), p);
        assert(front.push(s.last()) == s);
    }
}

} // verus!
