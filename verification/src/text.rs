//! Characters, white space and words.
//!
//! Everything else in the crate sees a text as its sequence of characters.
//! Three questions are left to the standard library, because only its Unicode
//! tables can answer them: what the lowercase form of a text is, whether a
//! character is a letter, and whether it is white space. Each answer has a
//! name below; the contracts of this crate are stated over those names.

use vstd::prelude::*;

verus! {

/// The lowercase form that `str::to_lowercase` gives a text.
pub uninterp spec fn unicode_lowercase(s: Seq<char>) -> Seq<char>;

/// Whether `char::is_alphabetic` holds of a character.
pub uninterp spec fn unicode_alphabetic(c: char) -> bool;

/// Whether `char::is_whitespace` holds of a character.
pub uninterp spec fn unicode_whitespace(c: char) -> bool;

/// `str::to_lowercase` is a function of the text alone; nothing more is
/// claimed of it than that its result is `unicode_lowercase` of the text.
pub assume_specification[ str::to_lowercase ](s: &str) -> (lowered: String)
    ensures
        lowered@ == unicode_lowercase(s@),
;

/// `char::is_alphabetic` is a function of the character alone.
pub assume_specification[ char::is_alphabetic ](c: char) -> (b: bool)
    ensures
        b == unicode_alphabetic(c),
;

/// `char::is_whitespace` is a function of the character alone.
pub assume_specification[ char::is_whitespace ](c: char) -> (b: bool)
    ensures
        b == unicode_whitespace(c),
;

/// `String::push` appends one character to the end of the string.
pub assume_specification[ String::push ](s: &mut String, ch: char)
    ensures
        final(s)@ == old(s)@.push(ch),
;

/// A character that separates words: the blank, and whatever else Unicode
/// counts as white space.
pub open spec fn is_space(c: char) -> bool {
    c == ' ' || unicode_whitespace(c)
}

/// A character that normalization keeps: a letter or a separator.
pub open spec fn is_kept(c: char) -> bool {
    unicode_alphabetic(c) || is_space(c)
}

/// The texts that a sequence of strings holds.
pub open spec fn views(v: Seq<String>) -> Seq<Seq<char>> {
    Seq::new(v.len(), |i: int| v[i]@)
}

/// The fields of each of `records`, a record being a list of strings.
pub open spec fn record_fields(records: Seq<Vec<String>>) -> Seq<Seq<Seq<char>>> {
    Seq::new(records.len(), |i: int| views(records[i]@))
}

/// A word: not empty, and free of separators.
pub open spec fn is_word(w: Seq<char>) -> bool {
    w.len() > 0 && forall|k: int| 0 <= k < w.len() ==> !is_space(#[trigger] w[k])
}

/// Length of the longest prefix of `s` whose characters all satisfy `p`.
pub open spec fn run_len(s: Seq<char>, p: spec_fn(char) -> bool) -> nat
    decreases s.len(),
{
    if s.len() == 0 || !p(s[0]) {
        0
    } else {
        1 + run_len(s.drop_first(), p)
    }
}

/// The characters that may stand in a word.
pub open spec fn in_word() -> spec_fn(char) -> bool {
    |c: char| !is_space(c)
}

/// Length of the longest prefix of `s` that holds no separator.
pub open spec fn word_len(s: Seq<char>) -> nat {
    run_len(s, in_word())
}

/// The words of `s`: its maximal runs of characters that are not separators,
/// from left to right.
pub open spec fn words(s: Seq<char>) -> Seq<Seq<char>>
    decreases s.len(),
    via words_decreases
{
    if s.len() == 0 {
        Seq::empty()
    } else if is_space(s[0]) {
        words(s.drop_first())
    } else {
        seq![s.take(word_len(s) as int)] + words(s.skip(word_len(s) as int))
    }
}

#[via_fn]
proof fn words_decreases(s: Seq<char>) {
    if s.len() > 0 && !is_space(s[0]) {
        lemma_word_len_bounds(s);
    }
}

/// Every character but `x`.
pub open spec fn not_char(x: char) -> spec_fn(char) -> bool {
    |c: char| c != x
}

/// `s` up to its first `x`, or all of `s` where it holds none.
pub open spec fn before_char(s: Seq<char>, x: char) -> Seq<char> {
    s.take(run_len(s, not_char(x)) as int)
}

/// `line` without the carriage return that ends it, if one does.
pub open spec fn without_cr(line: Seq<char>) -> Seq<char> {
    if line.len() > 0 && line.last() == '\r' {
        line.drop_last()
    } else {
        line
    }
}

/// The lines of `s`. A line ends at a line feed, which is not part of it,
/// nor is a carriage return just before that line feed. What follows the
/// last line feed is a line too, unless it is empty.
pub open spec fn lines(s: Seq<char>) -> Seq<Seq<char>>
    decreases s.len(),
    via lines_decreases
{
    if s.len() == 0 {
        Seq::empty()
    } else if before_char(s, '\n').len() == s.len() {
        seq![s]
    } else {
        seq![without_cr(before_char(s, '\n'))] + lines(s.skip(before_char(s, '\n').len() as int + 1))
    }
}

#[via_fn]
proof fn lines_decreases(s: Seq<char>) {
    lemma_run_len_bounds(s, not_char('\n'));
}

/// The words of `ws` with one blank between neighbours.
pub open spec fn join_words(ws: Seq<Seq<char>>) -> Seq<char>
    decreases ws.len(),
{
    if ws.len() == 0 {
        Seq::empty()
    } else if ws.len() == 1 {
        ws[0]
    } else {
        ws[0] + seq![' '] + join_words(ws.drop_first())
    }
}

/// `s` without its leading separators.
pub open spec fn trim_start(s: Seq<char>) -> Seq<char>
    decreases s.len(),
{
    if s.len() > 0 && is_space(s[0]) {
        trim_start(s.drop_first())
    } else {
        s
    }
}

/// `s` without its trailing separators.
pub open spec fn trim_end(s: Seq<char>) -> Seq<char>
    decreases s.len(),
{
    if s.len() > 0 && is_space(s.last()) {
        trim_end(s.drop_last())
    } else {
        s
    }
}

/// `s` without leading and trailing separators.
pub open spec fn trimmed(s: Seq<char>) -> Seq<char> {
    trim_end(trim_start(s))
}

/// A run is never longer than the text, every character in it satisfies
/// `p`, and the character after it, if there is one, does not.
pub proof fn lemma_run_len_bounds(s: Seq<char>, p: spec_fn(char) -> bool)
    ensures
        run_len(s, p) <= s.len(),
        s.len() > 0 && p(s[0]) ==> run_len(s, p) >= 1,
        forall|k: int| 0 <= k < run_len(s, p) ==> p(#[trigger] s[k]),
        run_len(s, p) < s.len() ==> !p(s[run_len(s, p) as int]),
    decreases s.len(),
{
    if s.len() > 0 && p(s[0]) {
        let rest = s.drop_first();
        lemma_run_len_bounds(rest, p);
        assert forall|k: int| 0 <= k < run_len(s, p) implies p(#[trigger] s[k]) by {
            if k > 0 {
                assert(s[k] == rest[k - 1]);
            }
        }
        if run_len(s, p) < s.len() {
            assert(s[run_len(s, p) as int] == rest[run_len(rest, p) as int]);
        }
    }
}

/// `n` characters that satisfy `p`, at the end of the text or before a
/// character that does not, are the run at the head of the text.
pub proof fn lemma_run_len_is(s: Seq<char>, p: spec_fn(char) -> bool, n: nat)
    requires
        n <= s.len(),
        forall|k: int| 0 <= k < n ==> p(#[trigger] s[k]),
        n < s.len() ==> !p(s[n as int]),
    ensures
        run_len(s, p) == n,
    decreases n,
{
    if n > 0 {
        let rest = s.drop_first();
        assert forall|k: int| 0 <= k < n - 1 implies p(#[trigger] rest[k]) by {
            assert(rest[k] == s[k + 1]);
        }
        lemma_run_len_is(rest, p, (n - 1) as nat);
    }
}

/// The word at the head of a text is at least one character long when the
/// text starts with one, and never longer than the text.
pub proof fn lemma_word_len_bounds(s: Seq<char>)
    ensures
        word_len(s) <= s.len(),
        s.len() > 0 && !is_space(s[0]) ==> word_len(s) >= 1,
        forall|k: int| 0 <= k < word_len(s) ==> !is_space(#[trigger] s[k]),
        word_len(s) < s.len() ==> is_space(s[word_len(s) as int]),
{
    lemma_run_len_bounds(s, in_word());
}

/// A run of `n` characters without a separator, which ends the text or is
/// followed by a separator, is the word at the head of the text.
pub proof fn lemma_word_len_is(s: Seq<char>, n: nat)
    requires
        n <= s.len(),
        forall|k: int| 0 <= k < n ==> !is_space(#[trigger] s[k]),
        n < s.len() ==> is_space(s[n as int]),
    ensures
        word_len(s) == n,
{
    lemma_run_len_is(s, in_word(), n);
}

/// Whether `c` separates words.
pub fn is_space_char(c: char) -> (b: bool)
    ensures
        b == is_space(c),
{
    c == ' ' || c.is_whitespace()
}

/// The characters of `s`, in order.
pub fn chars_of(s: &str) -> (out: Vec<char>)
    ensures
        out@ == s@,
{
    let mut out: Vec<char> = Vec::new();
    for c in iter: s.chars()
        invariant
            iter.seq() == s@,
            out@ == s@.take(iter.index()),
    {
        out.push(c);
    }
    out
}

/// The string made of the characters `chars[from..to]`.
pub fn string_of(chars: &Vec<char>, from: usize, to: usize) -> (out: String)
    requires
        from <= to <= chars.len(),
    ensures
        out@ == chars@.subrange(from as int, to as int),
{
    let mut out = String::new();
    let mut i: usize = from;
    while i < to
        invariant
            from <= i <= to <= chars.len(),
            out@ == chars@.subrange(from as int, i as int),
        decreases to - i,
    {
        out.push(chars[i]);
        i += 1;
    }
    out
}

/// Splits a text into its words.
pub fn split_words(chars: &Vec<char>) -> (out: Vec<String>)
    ensures
        views(out@) == words(chars@),
{
    let n = chars.len();
    let mut out: Vec<String> = Vec::new();
    let mut i: usize = 0;
    assert(chars@.skip(0) == chars@);
    assert(views(out@) + words(chars@) == words(chars@));
    while i < n
        invariant
            n == chars.len(),
            i <= n,
            views(out@) + words(chars@.skip(i as int)) == words(chars@),
        decreases n - i,
    {
        let ghost rest = chars@.skip(i as int);
        if is_space_char(chars[i]) {
            assert(rest.drop_first() == chars@.skip(i + 1));
            i += 1;
        } else {
            let start = i;
            while i < n && !is_space_char(chars[i])
                invariant
                    n == chars.len(),
                    start <= i <= n,
                    forall|k: int| start <= k < i ==> !is_space(#[trigger] chars@[k]),
                decreases n - i,
            {
                i += 1;
            }
            let word = string_of(chars, start, i);
            proof {
                lemma_word_len_is(rest, (i - start) as nat);
                assert(rest.take(i - start) == word@);
                assert(rest.skip(i - start) == chars@.skip(i as int));
                assert(views(out@.push(word)) == views(out@) + seq![word@]);
            }
            out.push(word);
        }
    }
    assert(chars@.skip(n as int) == Seq::<char>::empty());
    out
}

/// Every word that `words` gives is a word: not empty, free of separators.
pub proof fn lemma_words_are_words(s: Seq<char>)
    ensures
        forall|i: int| 0 <= i < words(s).len() ==> is_word(#[trigger] words(s)[i]),
    decreases s.len(),
{
    if s.len() == 0 {
    } else if is_space(s[0]) {
        lemma_words_are_words(s.drop_first());
        assert(words(s) == words(s.drop_first()));
    } else {
        let n = word_len(s) as int;
        lemma_word_len_bounds(s);
        lemma_words_are_words(s.skip(n));
        let head = s.take(n);
        assert(is_word(head)) by {
            assert forall|k: int| 0 <= k < head.len() implies !is_space(#[trigger] head[k]) by {
                assert(head[k] == s[k]);
            }
        }
        assert(words(s) == seq![head] + words(s.skip(n)));
        assert forall|i: int| 0 <= i < words(s).len() implies is_word(#[trigger] words(s)[i]) by {
            if i > 0 {
                assert(words(s)[i] == words(s.skip(n))[i - 1]);
            } else {
                assert(words(s)[0] == head);
            }
        }
    }
}

/// Every character of a word of `s` is a character of `s`.
pub proof fn lemma_words_chars(s: Seq<char>, i: int, k: int)
    requires
        0 <= i < words(s).len(),
        0 <= k < words(s)[i].len(),
    ensures
        s.contains(words(s)[i][k]),
    decreases s.len(),
{
    if s.len() == 0 {
    } else if is_space(s[0]) {
        let rest = s.drop_first();
        lemma_words_chars(rest, i, k);
        let j = choose|j: int| 0 <= j < rest.len() && rest[j] == words(s)[i][k];
        assert(s[j + 1] == rest[j]);
    } else {
        let n = word_len(s) as int;
        lemma_word_len_bounds(s);
        if i == 0 {
            assert(words(s)[0] == s.take(n));
            assert(s[k] == s.take(n)[k]);
        } else {
            let rest = s.skip(n);
            assert(words(s)[i] == words(rest)[i - 1]);
            lemma_words_chars(rest, i - 1, k);
            let j = choose|j: int| 0 <= j < rest.len() && rest[j] == words(s)[i][k];
            assert(s[j + n] == rest[j]);
        }
    }
}

/// A word followed by a separator, or by nothing, is the word at the head.
proof fn lemma_word_len_of_prefix(w: Seq<char>, rest: Seq<char>)
    requires
        is_word(w),
        rest.len() > 0 ==> is_space(rest[0]),
    ensures
        word_len(w + rest) == w.len(),
{
    let s = w + rest;
    assert forall|k: int| 0 <= k < w.len() implies !is_space(#[trigger] s[k]) by {
        assert(s[k] == w[k]);
    }
    if rest.len() > 0 {
        assert(s[w.len() as int] == rest[0]);
    }
    lemma_word_len_is(s, w.len());
}

/// Joining words and splitting the result gives the words back.
pub proof fn lemma_words_of_join(ws: Seq<Seq<char>>)
    requires
        forall|i: int| 0 <= i < ws.len() ==> is_word(#[trigger] ws[i]),
    ensures
        words(join_words(ws)) == ws,
    decreases ws.len(),
{
    if ws.len() == 0 {
    } else if ws.len() == 1 {
        let w = ws[0];
        lemma_word_len_of_prefix(w, Seq::empty());
        assert(w + Seq::<char>::empty() == w);
        assert(w.take(w.len() as int) == w);
        assert(w.skip(w.len() as int) == Seq::<char>::empty());
        assert(!is_space(w[0]));
        assert(words(w) == seq![w] + words(Seq::<char>::empty()));
        assert(seq![w] + Seq::<Seq<char>>::empty() == ws);
    } else {
        let w = ws[0];
        let tail = ws.drop_first();
        assert forall|i: int| 0 <= i < tail.len() implies is_word(#[trigger] tail[i]) by {
            assert(tail[i] == ws[i + 1]);
        }
        lemma_words_of_join(tail);
        let after = seq![' '] + join_words(tail);
        let s = join_words(ws);
        assert(s == w + after);
        lemma_word_len_of_prefix(w, after);
        assert(s[0] == w[0]);
        assert(s.take(w.len() as int) == w);
        assert(s.skip(w.len() as int) == after);
        assert(after.drop_first() == join_words(tail));
        assert(words(after) == words(join_words(tail)));
        assert(seq![w] + tail == ws);
    }
}

/// Joining one more word appends a blank and the word, or the word alone
/// when it is the first.
pub proof fn lemma_join_push(ws: Seq<Seq<char>>, w: Seq<char>)
    ensures
        join_words(ws.push(w)) == if ws.len() == 0 {
            w
        } else {
            join_words(ws) + seq![' '] + w
        },
    decreases ws.len(),
{
    let all = ws.push(w);
    if ws.len() == 0 {
        assert(all[0] == w);
    } else if ws.len() == 1 {
        assert(all.drop_first() == seq![w]);
        assert(seq![w][0] == w);
        assert(join_words(seq![w]) == w);
    } else {
        let tail = ws.drop_first();
        lemma_join_push(tail, w);
        assert(all.drop_first() == tail.push(w));
        assert(join_words(all) == ws[0] + seq![' '] + (join_words(tail) + seq![' '] + w));
        assert(join_words(ws) == ws[0] + seq![' '] + join_words(tail));
        assert(ws[0] + seq![' '] + (join_words(tail) + seq![' '] + w) == ws[0] + seq![' ']
            + join_words(tail) + seq![' '] + w);
    }
}

/// A joined text holds only blanks and characters of its words.
pub proof fn lemma_join_chars(ws: Seq<Seq<char>>, k: int)
    requires
        0 <= k < join_words(ws).len(),
    ensures
        join_words(ws)[k] == ' ' || exists|i: int, j: int|
            0 <= i < ws.len() && 0 <= j < ws[i].len() && #[trigger] ws[i][j] == join_words(ws)[k],
    decreases ws.len(),
{
    if ws.len() == 0 {
    } else if ws.len() == 1 {
        assert(ws[0][k] == join_words(ws)[k]);
    } else {
        let w = ws[0];
        let tail = ws.drop_first();
        let s = join_words(ws);
        if k < w.len() {
            assert(ws[0][k] == s[k]);
        } else if k == w.len() {
        } else {
            let k2 = k - w.len() - 1;
            assert(s[k] == join_words(tail)[k2]);
            lemma_join_chars(tail, k2);
            if s[k] != ' ' {
                let (i, j) = choose|i: int, j: int|
                    0 <= i < tail.len() && 0 <= j < tail[i].len() && #[trigger] tail[i][j]
                        == join_words(tail)[k2];
                assert(ws[i + 1][j] == s[k]);
            }
        }
    }
}

/// What is left of a text once its leading separators are gone starts at
/// the first character that is none.
proof fn lemma_trim_start_is(s: Seq<char>, n: int)
    requires
        0 <= n <= s.len(),
        forall|k: int| 0 <= k < n ==> is_space(#[trigger] s[k]),
        n < s.len() ==> !is_space(s[n]),
    ensures
        trim_start(s) == s.skip(n),
    decreases n,
{
    if n > 0 {
        let rest = s.drop_first();
        assert forall|k: int| 0 <= k < n - 1 implies is_space(#[trigger] rest[k]) by {
            assert(rest[k] == s[k + 1]);
        }
        if n < s.len() {
            assert(rest[n - 1] == s[n]);
        }
        lemma_trim_start_is(rest, n - 1);
        assert(rest.skip(n - 1) == s.skip(n));
    } else {
        assert(s.skip(0) == s);
    }
}

/// What is left of a text once its trailing separators are gone ends at
/// the last character that is none.
proof fn lemma_trim_end_is(s: Seq<char>, n: int)
    requires
        0 <= n <= s.len(),
        forall|k: int| n <= k < s.len() ==> is_space(#[trigger] s[k]),
        n > 0 ==> !is_space(s[n - 1]),
    ensures
        trim_end(s) == s.take(n),
    decreases s.len() - n,
{
    if n < s.len() {
        let rest = s.drop_last();
        assert forall|k: int| n <= k < rest.len() implies is_space(#[trigger] rest[k]) by {
            assert(rest[k] == s[k]);
        }
        if n > 0 {
            assert(rest[n - 1] == s[n - 1]);
        }
        lemma_trim_end_is(rest, n);
        assert(rest.take(n) == s.take(n));
    } else {
        assert(s.take(n) == s);
    }
}

/// The words of `ws` with one blank between neighbours.
pub fn join_strings(ws: &Vec<String>) -> (out: String)
    ensures
        out@ == join_words(views(ws@)),
{
    let mut out = String::new();
    let mut i: usize = 0;
    assert(views(ws@).take(0) == Seq::<Seq<char>>::empty());
    while i < ws.len()
        invariant
            i <= ws.len(),
            out@ == join_words(views(ws@).take(i as int)),
        decreases ws.len() - i,
    {
        proof {
            let so_far = views(ws@).take(i as int);
            lemma_join_push(so_far, ws@[i as int]@);
            assert(so_far.push(ws@[i as int]@) == views(ws@).take(i + 1));
        }
        if i > 0 {
            out.push(' ');
        }
        out.append(ws[i].as_str());
        i += 1;
    }
    assert(views(ws@).take(ws.len() as int) == views(ws@));
    out
}

/// The text without its leading and trailing separators.
pub fn trim_text(s: &str) -> (out: String)
    ensures
        out@ == trimmed(s@),
{
    let chars = chars_of(s);
    let n = chars.len();
    let mut from: usize = 0;
    while from < n && is_space_char(chars[from])
        invariant
            n == chars.len(),
            from <= n,
            forall|k: int| 0 <= k < from ==> is_space(#[trigger] chars@[k]),
        decreases n - from,
    {
        from += 1;
    }
    let mut to: usize = n;
    while to > from && is_space_char(chars[to - 1])
        invariant
            n == chars.len(),
            from <= to <= n,
            forall|k: int| to <= k < n ==> is_space(#[trigger] chars@[k]),
        decreases to,
    {
        to -= 1;
    }
    proof {
        let rest = chars@.skip(from as int);
        lemma_trim_start_is(chars@, from as int);
        assert forall|k: int| to - from <= k < rest.len() implies is_space(#[trigger] rest[k]) by {
            assert(rest[k] == chars@[k + from]);
        }
        if to > from {
            assert(rest[to - from - 1] == chars@[to - 1]);
        }
        lemma_trim_end_is(rest, to - from);
        assert(rest.take(to - from) == chars@.subrange(from as int, to as int));
    }
    string_of(&chars, from, to)
}

/// `s` up to its first `x`, or all of `s` where it holds none.
pub fn prefix_before(s: &str, x: char) -> (out: String)
    ensures
        out@ == before_char(s@, x),
{
    let chars = chars_of(s);
    let n = chars.len();
    let mut i: usize = 0;
    while i < n && chars[i] != x
        invariant
            n == chars.len(),
            i <= n,
            forall|k: int| 0 <= k < i ==> chars@[k] != x,
        decreases n - i,
    {
        i += 1;
    }
    proof {
        lemma_run_len_is(chars@, not_char(x), i as nat);
    }
    string_of(&chars, 0, i)
}

/// Splits a text into its lines.
pub fn split_lines(s: &str) -> (out: Vec<String>)
    ensures
        views(out@) == lines(s@),
{
    let chars = chars_of(s);
    let n = chars.len();
    let mut out: Vec<String> = Vec::new();
    let mut i: usize = 0;
    assert(chars@.skip(0) == chars@);
    assert(views(out@) + lines(chars@) == lines(chars@));
    while i < n
        invariant
            n == chars.len(),
            i <= n,
            views(out@) + lines(chars@.skip(i as int)) == lines(chars@),
        decreases n - i,
    {
        let ghost rest = chars@.skip(i as int);
        let start = i;
        while i < n && chars[i] != '\n'
            invariant
                n == chars.len(),
                start <= i <= n,
                forall|k: int| start <= k < i ==> chars@[k] != '\n',
            decreases n - i,
        {
            i += 1;
        }
        proof {
            assert forall|k: int| 0 <= k < i - start implies not_char('\n')(#[trigger] rest[k]) by {
                assert(rest[k] == chars@[start + k]);
            }
            lemma_run_len_is(rest, not_char('\n'), (i - start) as nat);
            assert(rest.take(i - start) == chars@.subrange(start as int, i as int));
        }
        if i == n {
            let line = string_of(&chars, start, n);
            proof {
                assert(rest.take(n - start) == rest);
                assert(views(out@.push(line)) == views(out@) + seq![line@]);
                assert(chars@.skip(n as int) == Seq::<char>::empty());
                assert(seq![rest] + lines(Seq::<char>::empty()) == seq![rest]);
            }
            out.push(line);
        } else {
            let end = if i > start && chars[i - 1] == '\r' {
                i - 1
            } else {
                i
            };
            let line = string_of(&chars, start, end);
            proof {
                let full = chars@.subrange(start as int, i as int);
                if end < i {
                    assert(full.last() == chars@[i - 1]);
                    assert(full.drop_last() == chars@.subrange(start as int, end as int));
                } else if i > start {
                    assert(full.last() == chars@[i - 1]);
                }
                assert(line@ == without_cr(full));
                assert(rest.skip(i - start + 1) == chars@.skip(i + 1));
                assert(views(out@.push(line)) == views(out@) + seq![line@]);
            }
            out.push(line);
            i += 1;
        }
    }
    assert(chars@.skip(n as int) == Seq::<char>::empty());
    out
}

} // verus!
