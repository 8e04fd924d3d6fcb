//! Frequency tables: each distinct word with the number of times it occurs,
//! in order of first occurrence.
use vstd::prelude::*;

verus! {

/// The number of times `w` occurs in `s`.
pub open spec fn count_of(s: Seq<Seq<char>>, w: Seq<char>) -> nat
    decreases s.len(),
{
    if s.len() == 0 {
        0
    } else {
        count_of(s.drop_last(), w) + if s.last() == w {
            1nat
        } else {
            0nat
        }
    }
}

/// The last position of key `w` in table `t`, or -1 when `w` is no key of it.
pub open spec fn key_index(t: Seq<(Seq<char>, nat)>, w: Seq<char>) -> int
    decreases t.len(),
{
    if t.len() == 0 {
        -1
    } else if t.last().0 == w {
        t.len() - 1
    } else {
        key_index(t.drop_last(), w)
    }
}

/// The frequency table of a word sequence, built in one pass: a word seen
/// for the first time is appended with count 1, a word seen before has its
/// count raised by one.
pub open spec fn frequency_table(s: Seq<Seq<char>>) -> Seq<(Seq<char>, nat)>
    decreases s.len(),
{
    if s.len() == 0 {
        Seq::empty()
    } else {
        let t = frequency_table(s.drop_last());
        let w = s.last();
        let j = key_index(t, w);
        if j < 0 {
            t.push((w, 1nat))
        } else {
            t.update(j, (w, t[j].1 + 1))
        }
    }
}

/// The keys of a table, in order.
pub open spec fn keys(t: Seq<(Seq<char>, nat)>) -> Seq<Seq<char>> {
    t.map_values(|e: (Seq<char>, nat)| e.0)
}

/// The sum of the counts of a table.
pub open spec fn sum_counts(t: Seq<(Seq<char>, nat)>) -> nat
    decreases t.len(),
{
    if t.len() == 0 {
        0
    } else {
        sum_counts(t.drop_last()) + t.last().1
    }
}

/// What `key_index` finds.
pub proof fn lemma_key_index(t: Seq<(Seq<char>, nat)>, w: Seq<char>)
    ensures
        -1 <= key_index(t, w) < t.len(),
        key_index(t, w) >= 0 ==> t[key_index(t, w)].0 == w,
        key_index(t, w) < 0 ==> forall|j: int| 0 <= j < t.len() ==> t[j].0 != w,
        forall|j: int| key_index(t, w) < j < t.len() ==> t[j].0 != w,
    decreases t.len(),
{
    if t.len() > 0 {
        let p = t.drop_last();
        lemma_key_index(p, w);
        if t.last().0 != w {
            assert(key_index(t, w) == key_index(p, w));
            assert forall|j: int| key_index(t, w) < j < t.len() implies t[j].0 != w by {
                if j < t.len() - 1 {
                    assert(t[j] == p[j]);
                }
            }
        }
    }
}

/// Raising one count of a table raises its sum by the same amount.
pub proof fn lemma_sum_counts_update(t: Seq<(Seq<char>, nat)>, j: int, e: (Seq<char>, nat))
    requires
        0 <= j < t.len(),
        e.1 >= t[j].1,
    ensures
        sum_counts(t.update(j, e)) == sum_counts(t) + (e.1 - t[j].1),
    decreases t.len(),
{
    let u = t.update(j, e);
    if j < t.len() - 1 {
        assert(u.drop_last() == t.drop_last().update(j, e));
        lemma_sum_counts_update(t.drop_last(), j, e);
    } else {
        assert(u.drop_last() == t.drop_last());
    }
}

/// A word that does not occur has count 0.
pub proof fn lemma_count_of_absent(s: Seq<Seq<char>>, w: Seq<char>)
    requires
        !s.contains(w),
    ensures
        count_of(s, w) == 0,
    decreases s.len(),
{
    if s.len() > 0 {
        assert(!s.drop_last().contains(w)) by {
            if s.drop_last().contains(w) {
                let k = choose|k: int| 0 <= k < s.drop_last().len() && s.drop_last()[k] == w;
                assert(s[k] == w);
            }
        }
        lemma_count_of_absent(s.drop_last(), w);
    }
}

/// A count never exceeds the length of the sequence.
pub proof fn lemma_count_of_bound(s: Seq<Seq<char>>, w: Seq<char>)
    ensures
        count_of(s, w) <= s.len(),
    decreases s.len(),
{
    if s.len() > 0 {
        lemma_count_of_bound(s.drop_last(), w);
    }
}

/// The frequency table of `s` has unique keys, which are exactly the words of
/// `s`; each count is the number of occurrences of its key; the counts sum to
/// the length of `s`.
pub proof fn lemma_frequency_table(s: Seq<Seq<char>>)
    ensures
        keys(frequency_table(s)).no_duplicates(),
        forall|w: Seq<char>| s.contains(w) <==> key_index(frequency_table(s), w) >= 0,
        forall|j: int|
            0 <= j < frequency_table(s).len() ==> (#[trigger] frequency_table(s)[j]).1 == count_of(
                s,
                frequency_table(s)[j].0,
            ),
        sum_counts(frequency_table(s)) == s.len(),
    decreases s.len(),
{
    let t = frequency_table(s);
    if s.len() > 0 {
        let p = s.drop_last();
        let w = s.last();
        let tp = frequency_table(p);
        lemma_frequency_table(p);
        lemma_key_index(tp, w);
        let j = key_index(tp, w);
        assert forall|x: Seq<char>| s.contains(x) <==> (p.contains(x) || x == w) by {
            if s.contains(x) {
                let k = choose|k: int| 0 <= k < s.len() && s[k] == x;
                if k < p.len() {
                    assert(p[k] == x);
                }
            }
            if p.contains(x) {
                let k = choose|k: int| 0 <= k < p.len() && p[k] == x;
                assert(s[k] == x);
            }
            if x == w {
                assert(s[s.len() - 1] == x);
            }
        }
        if j < 0 {
            assert(!p.contains(w));
            lemma_count_of_absent(p, w);
            assert(t == tp.push((w, 1nat)));
            assert(keys(t) == keys(tp).push(w));
            assert(t.drop_last() == tp);
            assert forall|x: Seq<char>| s.contains(x) <==> key_index(t, x) >= 0 by {
                lemma_key_index(t, x);
                lemma_key_index(tp, x);
            }
        } else {
            assert(t == tp.update(j, (w, tp[j].1 + 1)));
            assert(keys(t) == keys(tp));
            lemma_sum_counts_update(tp, j, (w, tp[j].1 + 1));
            assert forall|x: Seq<char>| s.contains(x) <==> key_index(t, x) >= 0 by {
                lemma_key_index(t, x);
                lemma_key_index(tp, x);
                if key_index(tp, x) >= 0 {
                    assert(t[key_index(tp, x)].0 == x);
                }
                if key_index(t, x) >= 0 {
                    assert(tp[key_index(t, x)].0 == x);
                }
            }
            assert forall|i: int| 0 <= i < t.len() implies (#[trigger] t[i]).1 == count_of(
                s,
                t[i].0,
            ) by {
                if i != j {
                    assert(keys(tp)[i] != keys(tp)[j]);
                }
            }
        }
    }
}

/// A table with unique keys has as many entries as it has distinct keys.
pub proof fn lemma_distinct_key_count(s: Seq<Seq<char>>)
    ensures
        frequency_table(s).len() == s.to_set().len(),
{
    let t = frequency_table(s);
    lemma_frequency_table(s);
    keys(t).unique_seq_to_set();
    assert forall|x: Seq<char>| keys(t).to_set().contains(x) <==> s.to_set().contains(x) by {
        lemma_key_index(t, x);
        if keys(t).to_set().contains(x) {
            let k = choose|k: int| 0 <= k < keys(t).len() && keys(t)[k] == x;
            assert(t[k].0 == x);
        }
        if key_index(t, x) >= 0 {
            assert(keys(t)[key_index(t, x)] == x);
        }
    }
    assert(keys(t).to_set() == s.to_set());
}

} // verus!
