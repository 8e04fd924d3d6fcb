//! The tokenization rule: maximal runs of alphanumeric characters,
//! each lowercased character by character.
use vstd::prelude::*;

verus! {

/// Whether `char::is_alphanumeric` holds of a character (Unicode tables).
pub uninterp spec fn is_alnum(c: char) -> bool;

/// The characters that `char::to_lowercase` yields for a character.
pub uninterp spec fn lower_of(c: char) -> Seq<char>;

/// Relies on `char::is_alphanumeric`, which depends on the character alone.
#[verifier::external_body]
fn is_word_char(c: char) -> (r: bool)
    ensures
        r == is_alnum(c),
{
    c.is_alphanumeric()
}

/// Relies on `char::to_lowercase`: it yields one or more characters,
/// determined by the character alone.
#[verifier::external_body]
fn lowercase_char(c: char) -> (r: String)
    ensures
        r@ == lower_of(c),
        r@.len() >= 1,
{
    c.to_lowercase().collect::<String>()
}

/// Lowercasing a run of characters, one character at a time.
pub open spec fn lower_seq(s: Seq<char>) -> Seq<char>
    decreases s.len(),
{
    if s.len() == 0 {
        Seq::empty()
    } else {
        lower_seq(s.drop_last()) + lower_of(s.last())
    }
}

/// Whether `s` ends inside a run of alphanumeric characters.
pub open spec fn ends_in_word(s: Seq<char>) -> bool {
    s.len() > 0 && is_alnum(s.last())
}

/// The maximal runs of alphanumeric characters of `s`, in order.
pub open spec fn runs(s: Seq<char>) -> Seq<Seq<char>>
    decreases s.len(),
{
    if s.len() == 0 {
        Seq::empty()
    } else {
        let p = s.drop_last();
        let c = s.last();
        if !is_alnum(c) {
            runs(p)
        } else if ends_in_word(p) {
            runs(p).update(runs(p).len() - 1, runs(p).last().push(c))
        } else {
            runs(p).push(seq![c])
        }
    }
}

/// The tokens of a text: its alphanumeric runs, lowercased.
pub open spec fn tokens_of(s: Seq<char>) -> Seq<Seq<char>> {
    runs(s).map_values(|r: Seq<char>| lower_seq(r))
}

/// The views of a sequence of strings.
pub open spec fn views(v: Seq<String>) -> Seq<Seq<char>> {
    v.map_values(|w: String| w@)
}

/// A text that ends inside a word has at least one run.
pub proof fn lemma_runs_nonempty_when_in_word(s: Seq<char>)
    requires
        ends_in_word(s),
    ensures
        runs(s).len() > 0,
    decreases s.len(),
{
    let p = s.drop_last();
    if ends_in_word(p) {
        lemma_runs_nonempty_when_in_word(p);
    }
}

/// Every run is non-empty and made of alphanumeric characters only, so every
/// token is the lowercasing of a non-empty alphanumeric run.
pub proof fn lemma_runs_are_alphanumeric(s: Seq<char>)
    ensures
        forall|k: int| 0 <= k < runs(s).len() ==> (#[trigger] runs(s)[k]).len() > 0,
        forall|k: int, i: int|
            0 <= k < runs(s).len() && 0 <= i < runs(s)[k].len() ==> is_alnum(
                #[trigger] runs(s)[k][i],
            ),
        forall|k: int| 0 <= k < tokens_of(s).len() ==> #[trigger] tokens_of(s)[k] == lower_seq(
            runs(s)[k],
        ),
    decreases s.len(),
{
    if s.len() > 0 {
        let p = s.drop_last();
        let c = s.last();
        lemma_runs_are_alphanumeric(p);
        if is_alnum(c) && ends_in_word(p) {
            lemma_runs_nonempty_when_in_word(p);
            let r = runs(p);
            assert forall|k: int, i: int|
                0 <= k < runs(s).len() && 0 <= i < runs(s)[k].len() implies is_alnum(
                #[trigger] runs(s)[k][i],
            ) by {
                if k == r.len() - 1 && i < r[k].len() {
                    assert(runs(s)[k][i] == r[k][i]);
                } else if k < r.len() - 1 {
                    assert(runs(s)[k] == r[k]);
                }
            }
        } else if is_alnum(c) {
            let r = runs(p);
            assert forall|k: int, i: int|
                0 <= k < runs(s).len() && 0 <= i < runs(s)[k].len() implies is_alnum(
                #[trigger] runs(s)[k][i],
            ) by {
                if k < r.len() {
                    assert(runs(s)[k] == r[k]);
                }
            }
        }
    }
}

/// Appending characters that are not alphanumeric adds no run.
pub proof fn lemma_runs_delimiters(x: Seq<char>, d: Seq<char>)
    requires
        forall|i: int| 0 <= i < d.len() ==> !is_alnum(#[trigger] d[i]),
    ensures
        runs(x + d) == runs(x),
    decreases d.len(),
{
    if d.len() > 0 {
        let e = d.drop_last();
        assert((x + d).drop_last() == x + e);
        assert((x + d).last() == d[d.len() - 1]);
        lemma_runs_delimiters(x, e);
    } else {
        assert(x + d == x);
    }
}

/// After a text that does not end inside a word, the runs of what follows are
/// simply added.
pub proof fn lemma_runs_concat(x: Seq<char>, b: Seq<char>)
    requires
        !ends_in_word(x),
    ensures
        runs(x + b) == runs(x) + runs(b),
    decreases b.len(),
{
    if b.len() == 0 {
        assert(x + b == x);
        assert(runs(x) + runs(b) == runs(x));
    } else {
        let e = b.drop_last();
        let c = b.last();
        assert((x + b).drop_last() == x + e);
        assert((x + b).last() == c);
        lemma_runs_concat(x, e);
        if e.len() == 0 {
            assert(x + e == x);
        } else {
            assert((x + e).last() == e.last());
        }
        assert(ends_in_word(x + e) == ends_in_word(e));
        if is_alnum(c) && ends_in_word(e) {
            lemma_runs_nonempty_when_in_word(e);
            assert(runs(x + b) == runs(x) + runs(b));
        } else if is_alnum(c) {
            assert(runs(x + b) == runs(x) + runs(b));
        }
    }
}

/// Which non-empty run of non-alphanumeric characters separates two parts of
/// a text does not change its tokens.
pub proof fn lemma_delimiter_insensitive(a: Seq<char>, d1: Seq<char>, d2: Seq<char>, b: Seq<char>)
    requires
        d1.len() > 0,
        d2.len() > 0,
        forall|i: int| 0 <= i < d1.len() ==> !is_alnum(#[trigger] d1[i]),
        forall|i: int| 0 <= i < d2.len() ==> !is_alnum(#[trigger] d2[i]),
    ensures
        tokens_of(a + d1 + b) == tokens_of(a + d2 + b),
{
    lemma_runs_delimiters(a, d1);
    lemma_runs_delimiters(a, d2);
    assert((a + d1).last() == d1[d1.len() - 1]);
    assert((a + d2).last() == d2[d2.len() - 1]);
    lemma_runs_concat(a + d1, b);
    lemma_runs_concat(a + d2, b);
}

/// Splits `text` into its tokens.
pub fn tokenize(text: &str) -> (r: Vec<String>)
    ensures
        views(r@) == tokens_of(text@),
        forall|k: int| 0 <= k < r@.len() ==> (#[trigger] r@[k])@.len() > 0,
{
    broadcast use vstd::string::axiom_spec_iter;

    let mut words: Vec<String> = Vec::new();
    let mut cur = String::new();
    let ghost mut done: Seq<Seq<char>> = Seq::empty();
    let ghost mut run: Seq<char> = Seq::empty();
    let mut in_word = false;
    for c in chars: text.chars()
        invariant
            chars.seq() == text@,
            in_word == ends_in_word(text@.take(chars.index() as int)),
            views(words@) == done.map_values(|r: Seq<char>| lower_seq(r)),
            forall|k: int| 0 <= k < words@.len() ==> (#[trigger] words@[k])@.len() > 0,
            cur@ == lower_seq(run),
            in_word ==> cur@.len() > 0,
            ends_in_word(text@.take(chars.index() as int)) ==> run.len() > 0 && runs(
                text@.take(chars.index() as int),
            ) == done.push(run),
            !ends_in_word(text@.take(chars.index() as int)) ==> run.len() == 0 && runs(
                text@.take(chars.index() as int),
            ) == done,
    {
        let ghost i = chars.index();
        let ghost pre = text@.take(i);
        let ghost next = text@.take(i + 1);
        assert(next.drop_last() == pre);
        assert(next.last() == c);
        if is_word_char(c) {
            let low = lowercase_char(c);
            cur.append(low.as_str());
            proof {
                assert(run.push(c).drop_last() == run);
                if ends_in_word(pre) {
                    assert(done.push(run).update(done.len() as int, run.push(c)) == done.push(
                        run.push(c),
                    ));
                    assert(runs(next) == done.push(run.push(c)));
                } else {
                    assert(run.push(c) == seq![c]);
                    assert(runs(next) == done.push(run.push(c)));
                }
                run = run.push(c);
            }
            in_word = true;
        } else if in_word {
            proof {
                assert(views(words@.push(cur)) == views(words@).push(cur@));
                done = done.push(run);
                run = Seq::empty();
            }
            words.push(cur);
            cur = String::new();
            in_word = false;
        }
    }
    assert(text@.take(text@.len() as int) == text@);
    if in_word {
        proof {
            assert(views(words@.push(cur)) == views(words@).push(cur@));
            done = done.push(run);
        }
        words.push(cur);
    }
    words
}

} // verus!
