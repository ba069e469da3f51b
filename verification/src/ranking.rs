//! The most frequent words of a table.

use vstd::prelude::*;
use crate::entry::{contents, entry_views, Entry};
use crate::frequency::{
    lemma_position, row_words, word_counts, word_frequencies, FrequencyTable, WordCount,
};
use crate::keyed::lemma_keyed_find;
use crate::stopwords::StopwordSet;
use crate::text::views;

verus! {

/// Whether `top` is a ranking of the `n` most frequent words of `table`:
/// as many entries as asked for, or all there are; each of them an entry of
/// the table; no word twice; counts that never rise from one entry to the
/// next; and no word left out that counts more than one that is in.
/// Where two words count the same, either may come first, and either may be
/// the one left out.
pub open spec fn is_ranking(top: Seq<WordCount>, table: Map<Seq<char>, nat>, n: nat) -> bool {
    &&& top.len() <= n
    &&& top.len() < n ==> forall|w: Seq<char>| table.dom().contains(w) ==> listed(top, w)
    &&& forall|i: int|
        0 <= i < top.len() ==> table.dom().contains((#[trigger] top[i]).word@)
            && table[top[i].word@] == top[i].count
    &&& forall|i: int, j: int|
        0 <= i < j < top.len() ==> (#[trigger] top[i]).word@ != (#[trigger] top[j]).word@
    &&& forall|i: int, j: int|
        0 <= i < j < top.len() ==> (#[trigger] top[i]).count >= (#[trigger] top[j]).count
    &&& forall|w: Seq<char>, i: int|
        table.dom().contains(w) && !listed(top, w) && 0 <= i < top.len() ==> #[trigger] table[w]
            <= (#[trigger] top[i]).count
}

/// Whether `top` has an entry for `w`.
pub open spec fn listed(top: Seq<WordCount>, w: Seq<char>) -> bool {
    exists|i: int| 0 <= i < top.len() && (#[trigger] top[i]).word@ == w
}

/// The count of the row that stands at place `t` of `order`.
spec fn count_at(rows: Seq<WordCount>, order: Seq<usize>, t: int) -> u128 {
    rows[order[t] as int].count
}

/// `order` and `place` are each other's inverse on the indices of `m` rows.
spec fn is_arrangement(order: Seq<usize>, place: Seq<int>, m: int) -> bool {
    &&& order.len() == m
    &&& place.len() == m
    &&& forall|t: int| 0 <= t < m ==> 0 <= #[trigger] order[t] < m && place[order[t] as int] == t
    &&& forall|j: int| 0 <= j < m ==> 0 <= #[trigger] place[j] < m && order[place[j]] == j
}

/// The first `done` places hold the largest counts, largest first.
spec fn is_sorted_prefix(rows: Seq<WordCount>, order: Seq<usize>, done: int) -> bool {
    forall|a: int, b: int|
        0 <= a < done && a < b < order.len() ==> #[trigger] count_at(rows, order, a)
            >= #[trigger] count_at(rows, order, b)
}

/// The `n` most frequent words of `table`, most frequent first.
pub fn rank_words(table: &FrequencyTable, n: usize) -> (top: Vec<WordCount>)
    ensures
        is_ranking(top@, table@, n as nat),
{
    let rows = table.entries();
    let m = rows.len();
    let k = if n < m {
        n
    } else {
        m
    };
    let mut order: Vec<usize> = Vec::new();
    let mut t: usize = 0;
    while t < m
        invariant
            t <= m,
            order.len() == t,
            forall|a: int| 0 <= a < t ==> order@[a] == a,
        decreases m - t,
    {
        order.push(t);
        t += 1;
    }
    let ghost mut place: Seq<int> = Seq::new(m as nat, |j: int| j);
    let mut i: usize = 0;
    while i < k
        invariant
            i <= k <= m,
            m == rows.len(),
            is_arrangement(order@, place, m as int),
            is_sorted_prefix(rows@, order@, i as int),
        decreases k - i,
    {
        let mut best: usize = i;
        let mut s: usize = i + 1;
        while s < m
            invariant
                i <= best < s <= m,
                m == rows.len(),
                is_arrangement(order@, place, m as int),
                forall|b: int| i <= b < s ==> count_at(rows@, order@, best as int) >= #[trigger] count_at(rows@, order@, b),
            decreases m - s,
        {
            if rows[order[s]].count > rows[order[best]].count {
                best = s;
            }
            s += 1;
        }
        let ghost before = order@;
        let first = order[i];
        let chosen = order[best];
        order.set(i, chosen);
        order.set(best, first);
        proof {
            place = place.update(chosen as int, i as int).update(first as int, best as int);
            assert(is_arrangement(order@, place, m as int)) by {
                assert forall|t: int| 0 <= t < m implies 0 <= #[trigger] order@[t] < m
                    && place[order@[t] as int] == t by {
                    if t != i && t != best {
                        assert(order@[t] == before[t]);
                    }
                }
                assert forall|j: int| 0 <= j < m implies 0 <= #[trigger] place[j] < m
                    && order@[place[j]] == j by {
                    if j != chosen && j != first {
                        assert(order@[place[j]] == before[place[j]]);
                    }
                }
            }
            assert(is_sorted_prefix(rows@, order@, i + 1)) by {
                assert forall|a: int, b: int| 0 <= a < i + 1 && a < b < order@.len() implies
                    #[trigger] count_at(rows@, order@, a) >= #[trigger] count_at(
                    rows@,
                    order@,
                    b,
                ) by {
                    let at_b = if b == i {
                        best as int
                    } else if b == best {
                        i as int
                    } else {
                        b
                    };
                    assert(order@[b] == before[at_b]);
                    if a < i {
                        assert(order@[a] == before[a]);
                        assert(count_at(rows@, before, a) >= count_at(rows@, before, at_b));
                    } else {
                        assert(order@[a] == before[best as int]);
                        assert(count_at(rows@, before, best as int) >= count_at(rows@, before, at_b));
                    }
                }
            }
        }
        i += 1;
    }
    let mut top: Vec<WordCount> = Vec::new();
    let mut t: usize = 0;
    while t < k
        invariant
            t <= k <= m,
            m == rows.len(),
            top.len() == t,
            is_arrangement(order@, place, m as int),
            forall|a: int|
                0 <= a < t ==> (#[trigger] top@[a]).word@ == rows@[order@[a] as int].word@
                    && top@[a].count == rows@[order@[a] as int].count,
        decreases k - t,
    {
        let row = &rows[order[t]];
        top.push(WordCount { word: row.word.clone(), count: row.count });
        t += 1;
    }
    proof {
        assert forall|a: int| 0 <= a < top@.len() implies table@.dom().contains(
            (#[trigger] top@[a]).word@,
        ) && table@[top@[a].word@] == top@[a].count by {
            lemma_position(rows@, order@[a] as int);
        }
        assert forall|a: int, b: int| 0 <= a < b < top@.len() implies (#[trigger] top@[a]).word@
            != (#[trigger] top@[b]).word@ by {
            let ra = order@[a] as int;
            let rb = order@[b] as int;
            assert(place[ra] == a && place[rb] == b);
            assert(row_words(rows@)[ra] != row_words(rows@)[rb]);
        }
        assert forall|a: int, b: int| 0 <= a < b < top@.len() implies (#[trigger] top@[a]).count
            >= (#[trigger] top@[b]).count by {
            assert(count_at(rows@, order@, a) >= count_at(rows@, order@, b));
        }
        assert forall|w: Seq<char>| table@.dom().contains(w) && !listed(top@, w) implies (k == m
            ==> false) && forall|a: int|
            0 <= a < top@.len() ==> table@[w] <= (#[trigger] top@[a]).count by {
            let j = lemma_keyed_find(row_words(rows@), crate::frequency::row_counts(rows@), w);
            let at = place[j];
            assert(order@[at] == j);
            if at < k {
                assert(top@[at].word@ == w);
            }
            assert forall|a: int| 0 <= a < top@.len() implies table@[w] <= (
            #[trigger] top@[a]).count by {
                assert(count_at(rows@, order@, a) >= count_at(rows@, order@, at));
            }
        }
    }
    top
}

/// What the posts say, post after post.
pub fn entry_contents(entries: &Vec<Entry>) -> (texts: Vec<String>)
    ensures
        views(texts@) == contents(entry_views(entries@)),
{
    let mut texts: Vec<String> = Vec::new();
    let mut i: usize = 0;
    while i < entries.len()
        invariant
            i <= entries.len(),
            views(texts@) == contents(entry_views(entries@)).take(i as int),
        decreases entries.len() - i,
    {
        let text = entries[i].content.clone();
        proof {
            let all = contents(entry_views(entries@));
            assert(all[i as int] == text@);
            assert(views(texts@.push(text)) == views(texts@).push(text@));
            assert(all.take(i + 1) == all.take(i as int).push(text@));
        }
        texts.push(text);
        i += 1;
    }
    assert(contents(entry_views(entries@)).take(entries.len() as int) == contents(
        entry_views(entries@),
    ));
    texts
}

/// The `n` most frequent words of what the posts say, most frequent
/// first, counted as `word_frequencies` counts.
pub fn top_words(entries: Vec<Entry>, stopwords: &StopwordSet, n: usize) -> (top: Vec<WordCount>)
    ensures
        is_ranking(top@, word_counts(contents(entry_views(entries@)), stopwords@), n as nat),
{
    let table = word_frequencies(entry_contents(&entries), stopwords);
    rank_words(&table, n)
}

} // verus!
