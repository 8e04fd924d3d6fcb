//! The analyzer: a text, its tokens, and read-only queries over them.
use vstd::prelude::*;

use crate::cursor::{consecutive_pairs, WordIterator, WordPairIterator};
use crate::frequency::{
    frequency_table, key_index, keys, lemma_count_of_bound, lemma_distinct_key_count,
    lemma_frequency_table, lemma_key_index, sum_counts,
};
use crate::tokens::{tokenize, tokens_of, views};

verus! {

/// A text together with its tokens, fixed at construction.
pub struct TextAnalyzer {
    text: String,
    words: Vec<String>,
}

/// The view of a frequency table held as pairs of a word and its count.
pub open spec fn table_view(t: Seq<(String, usize)>) -> Seq<(Seq<char>, nat)> {
    t.map_values(|e: (String, usize)| (e.0@, e.1 as nat))
}

/// The items of `s` whose entry in `picks` is true, in order.
pub open spec fn select<A>(s: Seq<A>, picks: Seq<bool>) -> Seq<A>
    decreases s.len(),
{
    if s.len() == 0 {
        Seq::empty()
    } else if picks[s.len() - 1] {
        select(s.drop_last(), picks).push(s.last())
    } else {
        select(s.drop_last(), picks)
    }
}

/// Whether `picks` holds, for each of `words`, an answer that `keep` may give.
pub open spec fn picks_of<F: Fn(&String) -> bool>(words: Seq<String>, keep: F, picks: Seq<bool>) -> bool {
    &&& picks.len() == words.len()
    &&& forall|k: int| 0 <= k < picks.len() ==> keep.ensures((&words[k],), #[trigger] picks[k])
}

/// Whether `r` is what filtering `words` with `keep` gives: the words, in
/// order, that `keep` accepted when asked once about each.
pub open spec fn filtered_by<F: Fn(&String) -> bool>(words: Seq<String>, keep: F, r: Seq<String>) -> bool {
    exists|picks: Seq<bool>| picks_of(words, keep, picks) && r == select(words, picks)
}

/// The position of the first token of greatest length, or -1 when there is none.
pub open spec fn longest_index(s: Seq<Seq<char>>) -> int
    decreases s.len(),
{
    if s.len() == 0 {
        -1
    } else {
        let j = longest_index(s.drop_last());
        if j < 0 || s.last().len() > s[j].len() {
            s.len() - 1
        } else {
            j
        }
    }
}

/// The first token of greatest length is as long as every token, and longer
/// than every token before it.
pub proof fn lemma_longest_index(s: Seq<Seq<char>>)
    ensures
        s.len() == 0 <==> longest_index(s) == -1,
        -1 <= longest_index(s) < s.len(),
        s.len() > 0 ==> forall|k: int|
            0 <= k < s.len() ==> (#[trigger] s[k]).len() <= s[longest_index(s)].len(),
        s.len() > 0 ==> forall|k: int|
            0 <= k < longest_index(s) ==> (#[trigger] s[k]).len() < s[longest_index(s)].len(),
    decreases s.len(),
{
    if s.len() > 0 {
        let p = s.drop_last();
        lemma_longest_index(p);
        let j = longest_index(p);
        let b = longest_index(s);
        assert forall|k: int| 0 <= k < s.len() implies (#[trigger] s[k]).len() <= s[b].len() by {
            if k < p.len() {
                assert(s[k] == p[k]);
                assert(s[j] == p[j]);
            }
        }
        assert forall|k: int| 0 <= k < b implies (#[trigger] s[k]).len() < s[b].len() by {
            assert(s[k] == p[k]);
            if j >= 0 {
                assert(s[j] == p[j]);
            }
        }
    }
}

impl TextAnalyzer {
    /// The text the analyzer was built from.
    pub closed spec fn text_view(&self) -> Seq<char> {
        self.text@
    }

    /// The tokens as stored strings, in order.
    pub closed spec fn words(&self) -> Seq<String> {
        self.words@
    }

    /// The tokens, in order.
    pub open spec fn tokens(&self) -> Seq<Seq<char>> {
        views(self.words())
    }

    /// Builds the analyzer of `text`; no token is empty.
    pub fn new(text: String) -> (r: TextAnalyzer)
        ensures
            r.text_view() == text@,
            r.tokens() == tokens_of(text@),
            forall|k: int| 0 <= k < r.tokens().len() ==> (#[trigger] r.tokens()[k]).len() > 0,
    {
        let words = tokenize(text.as_str());
        TextAnalyzer { text, words }
    }

    /// The number of tokens, repeats included.
    pub fn word_count(&self) -> (n: usize)
        ensures
            n == self.tokens().len(),
    {
        self.words.len()
    }

    /// Each distinct token with its number of occurrences, in order of first
    /// occurrence.
    pub fn word_frequencies(&self) -> (r: Vec<(String, usize)>)
        ensures
            table_view(r@) == frequency_table(self.tokens()),
    {
        let ghost toks = self.tokens();
        let n = self.words.len();
        let mut table: Vec<(String, usize)> = Vec::new();
        let mut i: usize = 0;
        while i < n
            invariant
                toks == self.tokens(),
                n == toks.len(),
                0 <= i <= n,
                table_view(table@) == frequency_table(toks.take(i as int)),
            decreases n - i,
        {
            let w = &self.words[i];
            let ghost pre = toks.take(i as int);
            proof {
                assert(toks.take(i + 1).drop_last() == pre);
                lemma_frequency_table(pre);
                lemma_key_index(table_view(table@), w@);
            }
            let j = find_key(&table, w);
            if j < table.len() {
                let c = table[j].1;
                proof {
                    let t = table_view(table@);
                    lemma_count_of_bound(pre, w@);
                    assert(keys(t)[j as int] == w@);
                    assert(keys(t)[key_index(t, w@)] == w@);
                    assert(key_index(t, w@) == j);
                }
                table[j] = (w.clone(), c + 1);
                proof {
                    assert(table_view(table@) == frequency_table(toks.take(i + 1)));
                }
            } else {
                table.push((w.clone(), 1));
                proof {
                    assert(table_view(table@) == frequency_table(toks.take(i + 1)));
                }
            }
            i = i + 1;
        }
        assert(toks.take(n as int) == toks);
        table
    }

    /// The number of distinct tokens.
    pub fn unique_word_count(&self) -> (n: usize)
        ensures
            n == self.tokens().to_set().len(),
    {
        let table = self.word_frequencies();
        proof {
            lemma_distinct_key_count(self.tokens());
        }
        table.len()
    }

    /// The first token of greatest length, or `None` when there are no tokens.
    pub fn longest_word(&self) -> (r: Option<String>)
        ensures
            r is None <==> self.tokens().len() == 0,
            r is Some ==> r->0@ == self.tokens()[longest_index(self.tokens())],
            r is Some ==> forall|k: int|
                0 <= k < self.tokens().len() ==> (#[trigger] self.tokens()[k]).len() <= r->0@.len(),
            r is Some ==> forall|k: int|
                0 <= k < longest_index(self.tokens()) ==> (#[trigger] self.tokens()[k]).len()
                    < r->0@.len(),
    {
        let ghost toks = self.tokens();
        proof {
            lemma_longest_index(toks);
        }
        let n = self.words.len();
        if n == 0 {
            return None;
        }
        let mut best: usize = 0;
        let mut best_len = self.words[0].as_str().unicode_len();
        let mut i: usize = 1;
        proof {
            assert(toks.take(1).drop_last() == Seq::<Seq<char>>::empty());
            assert(longest_index(toks.take(1).drop_last()) == -1);
            assert(longest_index(toks.take(1)) == 0);
        }
        while i < n
            invariant
                toks == self.tokens(),
                n == toks.len(),
                1 <= i <= n,
                best as int == longest_index(toks.take(i as int)),
                best < i,
                best_len == toks[best as int].len(),
            decreases n - i,
        {
            let len = self.words[i].as_str().unicode_len();
            proof {
                assert(toks.take(i + 1).drop_last() == toks.take(i as int));
            }
            if len > best_len {
                best = i;
                best_len = len;
            }
            i = i + 1;
        }
        assert(toks.take(n as int) == toks);
        Some(self.words[best].clone())
    }

    /// The tokens that `keep` accepts, in order; `keep` is asked once about
    /// each token, in order.
    pub fn filter_words<F: Fn(&String) -> bool>(&self, keep: F) -> (r: Vec<String>)
        requires
            forall|w: &String| #[trigger] keep.requires((w,)),
        ensures
            filtered_by(self.words(), keep, r@),
    {
        let n = self.words.len();
        let mut out: Vec<String> = Vec::new();
        let ghost mut picks: Seq<bool> = Seq::empty();
        let mut i: usize = 0;
        while i < n
            invariant
                n == self.words().len(),
                0 <= i <= n,
                forall|w: &String| #[trigger] keep.requires((w,)),
                picks.len() == i,
                forall|k: int|
                    0 <= k < i ==> keep.ensures((&self.words()[k],), #[trigger] picks[k]),
                out@ == select(self.words().take(i as int), picks),
            decreases n - i,
        {
            let w = &self.words[i];
            let b = keep(w);
            proof {
                let s = self.words().take(i + 1);
                let q = picks.push(b);
                assert(s.drop_last() == self.words().take(i as int));
                lemma_select_prefix(self.words().take(i as int), picks, q);
                picks = q;
            }
            if b {
                out.push(w.clone());
            }
            i = i + 1;
        }
        proof {
            assert(self.words().take(n as int) == self.words());
            assert(picks_of(self.words(), keep, picks));
        }
        out
    }

    /// A cursor over the tokens, at the first one.
    pub fn iter_words(&self) -> (r: WordIterator<'_>)
        ensures
            r.remaining() == self.tokens(),
    {
        WordIterator::new(self.words.as_slice())
    }

    /// A cursor over the pairs of consecutive tokens, at the first pair.
    pub fn word_pairs(&self) -> (r: WordPairIterator<'_>)
        ensures
            r.remaining() == consecutive_pairs(self.tokens()),
    {
        WordPairIterator::new(self.words.as_slice())
    }
}

/// Of every analyzer: its frequency table has one entry per distinct token,
/// and the counts of the table add up to the number of tokens.
pub proof fn lemma_frequencies_match_counts(a: &TextAnalyzer)
    ensures
        frequency_table(a.tokens()).len() == a.tokens().to_set().len(),
        sum_counts(frequency_table(a.tokens())) == a.tokens().len(),
{
    lemma_distinct_key_count(a.tokens());
    lemma_frequency_table(a.tokens());
}

/// Filtering twice with a predicate that always answers alike gives the same
/// words both times.
pub proof fn lemma_filter_repeatable<F: Fn(&String) -> bool>(
    a: &TextAnalyzer,
    keep: F,
    r1: Seq<String>,
    r2: Seq<String>,
)
    requires
        forall|w: &String, b1: bool, b2: bool|
            keep.ensures((w,), b1) && keep.ensures((w,), b2) ==> b1 == b2,
        filtered_by(a.words(), keep, r1),
        filtered_by(a.words(), keep, r2),
    ensures
        r1 == r2,
{
    let p1 = choose|p: Seq<bool>| picks_of(a.words(), keep, p) && r1 == select(a.words(), p);
    let p2 = choose|p: Seq<bool>| picks_of(a.words(), keep, p) && r2 == select(a.words(), p);
    assert forall|k: int| 0 <= k < p1.len() implies p1[k] == p2[k] by {
        assert(keep.ensures((&a.words()[k],), p1[k]));
        assert(keep.ensures((&a.words()[k],), p2[k]));
    }
    assert(p1 == p2);
}

/// Selecting from `s` with a longer list of picks gives the same result.
proof fn lemma_select_prefix<A>(s: Seq<A>, picks: Seq<bool>, more: Seq<bool>)
    requires
        picks.len() <= more.len(),
        s.len() <= picks.len(),
        forall|k: int| 0 <= k < picks.len() ==> picks[k] == more[k],
    ensures
        select(s, picks) == select(s, more),
    decreases s.len(),
{
    if s.len() > 0 {
        lemma_select_prefix(s.drop_last(), picks, more);
    }
}

/// Finds the position of key `w` in `table`, or the table's length when it is
/// no key of it.
fn find_key(table: &Vec<(String, usize)>, w: &String) -> (j: usize)
    ensures
        j <= table@.len(),
        j < table@.len() ==> table@[j as int].0@ == w@,
        forall|k: int| 0 <= k < j ==> (#[trigger] table@[k]).0@ != w@,
{
    let mut j: usize = 0;
    while j < table.len()
        invariant
            j <= table@.len(),
            forall|k: int| 0 <= k < j ==> (#[trigger] table@[k]).0@ != w@,
        decreases table@.len() - j,
    {
        if table[j].0 == *w {
            return j;
        }
        j = j + 1;
    }
    j
}

} // verus!
