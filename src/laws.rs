//! General properties of the bag and of the way text becomes words.
use vstd::prelude::*;
use crate::bag::{sum_of, Bbow};
use crate::order::lemma_lex_irreflexive;
use crate::text::{
    accepted,
    keys_of,
    occurrences,
    tokens,
    trim_end,
    trim_start,
    trimmed,
    valid_word,
    word_keys,
};
use crate::unicode::is_letter;

verus! {

proof fn lemma_keys_of_len(toks: Seq<Seq<char>>)
    ensures
        keys_of(toks).len() == toks.filter(|t: Seq<char>| accepted(t)).len(),
    decreases toks.len(),
{
    reveal(Seq::filter);
    if toks.len() > 0 {
        lemma_keys_of_len(toks.drop_last());
    }
}

/// After ingestion the count grows by the number of tokens that, once their
/// leading and trailing non-letters are removed, are non-empty and all letters.
pub proof fn law_count_is_accepted_tokens(s: Seq<char>)
    ensures
        word_keys(s).len() == tokens(s).filter(|t: Seq<char>| accepted(t)).len(),
{
    lemma_keys_of_len(tokens(s));
}

proof fn lemma_sum_at_least_len(s: Seq<usize>)
    requires
        forall|i: int| 0 <= i < s.len() ==> #[trigger] s[i] >= 1,
    ensures
        sum_of(s) >= s.len(),
        sum_of(s) == s.len() <==> forall|i: int| 0 <= i < s.len() ==> #[trigger] s[i] == 1,
    decreases s.len(),
{
    if s.len() > 0 {
        let d = s.drop_last();
        assert forall|i: int| 0 <= i < d.len() implies #[trigger] d[i] >= 1 by {
            assert(d[i] == s[i]);
        }
        lemma_sum_at_least_len(d);
        if sum_of(s) == s.len() {
            assert forall|i: int| 0 <= i < s.len() implies #[trigger] s[i] == 1 by {
                if i < s.len() - 1 {
                    assert(d[i] == s[i]);
                }
            }
        }
        if forall|i: int| 0 <= i < s.len() ==> #[trigger] s[i] == 1 {
            assert forall|i: int| 0 <= i < d.len() implies #[trigger] d[i] == 1 by {
                assert(d[i] == s[i]);
            }
            assert(s[s.len() - 1] == 1);
        }
    }
}

/// The number of distinct words never exceeds the count of all words, and
/// equals it exactly when every word was counted once.
pub proof fn law_distinct_at_most_total(b: Bbow)
    requires
        b.wf(),
    ensures
        b.distinct() <= b.total(),
        b.distinct() == b.total() <==> forall|k: Seq<char>| #[trigger] b.count_of(k) <= 1,
{
    lemma_sum_at_least_len(b.counts@);
    if b.distinct() == b.total() {
        assert forall|k: Seq<char>| #[trigger] b.count_of(k) <= 1 by {
            if exists|i: int| 0 <= i < b.keys@.len() && b.keys@[i]@ == k {
                let i = choose|i: int| 0 <= i < b.keys@.len() && b.keys@[i]@ == k;
                b.lemma_count_at(i);
            }
        }
    }
    if forall|k: Seq<char>| #[trigger] b.count_of(k) <= 1 {
        assert forall|i: int| 0 <= i < b.counts@.len() implies #[trigger] b.counts@[i] == 1 by {
            b.lemma_count_at(i);
            assert(b.count_of(b.keys@[i]@) <= 1);
        }
    }
}

proof fn lemma_occurrences_contains(ks: Seq<Seq<char>>, k: Seq<char>)
    ensures
        occurrences(ks, k) > 0 <==> ks.contains(k),
    decreases ks.len(),
{
    if ks.len() > 0 {
        let d = ks.drop_last();
        lemma_occurrences_contains(d, k);
        if d.contains(k) {
            let i = choose|i: int| 0 <= i < d.len() && d[i] == k;
            assert(ks[i] == k);
        }
        if ks.contains(k) {
            let i = choose|i: int| 0 <= i < ks.len() && ks[i] == k;
            if i < ks.len() - 1 {
                assert(d[i] == k);
            }
        }
    }
}

proof fn lemma_occurrences_no_duplicates(ks: Seq<Seq<char>>)
    ensures
        (forall|k: Seq<char>| #[trigger] occurrences(ks, k) <= 1) <==> ks.no_duplicates(),
    decreases ks.len(),
{
    if ks.len() > 0 {
        let d = ks.drop_last();
        let x = ks.last();
        lemma_occurrences_no_duplicates(d);
        lemma_occurrences_contains(d, x);
        if forall|k: Seq<char>| #[trigger] occurrences(ks, k) <= 1 {
            assert forall|k: Seq<char>| #[trigger] occurrences(d, k) <= 1 by {
                assert(occurrences(ks, k) <= 1);
            }
            assert(occurrences(ks, x) <= 1);
            assert forall|i: int, j: int| 0 <= i < ks.len() && 0 <= j < ks.len() && i != j
                implies ks[i] != ks[j] by {
                if i == ks.len() - 1 {
                    assert(d[j] == ks[j]);
                } else if j == ks.len() - 1 {
                    assert(d[i] == ks[i]);
                } else {
                    assert(d[i] == ks[i] && d[j] == ks[j]);
                }
            }
        }
        if ks.no_duplicates() {
            assert forall|i: int, j: int| 0 <= i < d.len() && 0 <= j < d.len() && i != j
                implies d[i] != d[j] by {
                assert(d[i] == ks[i] && d[j] == ks[j]);
            }
            if d.contains(x) {
                let i = choose|i: int| 0 <= i < d.len() && d[i] == x;
                assert(ks[i] == ks[ks.len() - 1]);
            }
            assert forall|k: Seq<char>| #[trigger] occurrences(ks, k) <= 1 by {
                assert(occurrences(d, k) <= 1);
            }
        }
    }
}

/// For a bag filled from empty with one text: the number of distinct words
/// equals the count of all words exactly when no word of the text repeats.
pub proof fn law_distinct_equals_total_iff_no_repeats(b: Bbow, s: Seq<char>)
    requires
        b.wf(),
        forall|k: Seq<char>| #[trigger] b.count_of(k) == occurrences(word_keys(s), k),
    ensures
        b.distinct() <= b.total(),
        b.distinct() == b.total() <==> word_keys(s).no_duplicates(),
{
    law_distinct_at_most_total(b);
    lemma_occurrences_no_duplicates(word_keys(s));
    if b.distinct() == b.total() {
        assert forall|k: Seq<char>| #[trigger] occurrences(word_keys(s), k) <= 1 by {
            assert(b.count_of(k) <= 1);
        }
    }
    if word_keys(s).no_duplicates() {
        assert forall|k: Seq<char>| #[trigger] b.count_of(k) <= 1 by {
            assert(occurrences(word_keys(s), k) <= 1);
        }
    }
}

/// A word is among the keys exactly when its count is positive: a word never
/// seen counts 0.
pub proof fn law_unseen_is_zero(b: Bbow, k: Seq<char>)
    requires
        b.wf(),
    ensures
        b.key_seq().contains(k) <==> b.count_of(k) > 0,
        !b.key_seq().contains(k) ==> b.count_of(k) == 0,
{
    if b.key_seq().contains(k) {
        let i = choose|i: int| 0 <= i < b.key_seq().len() && b.key_seq()[i] == k;
        b.lemma_count_at(i);
    }
    if b.count_of(k) > 0 {
        let i = choose|i: int| 0 <= i < b.keys@.len() && b.keys@[i]@ == k;
        assert(b.key_seq()[i] == k);
    }
}

proof fn lemma_key_seq_no_duplicates(b: Bbow)
    requires
        b.wf(),
    ensures
        b.key_seq().no_duplicates(),
{
    assert forall|i: int, j: int|
        0 <= i < b.key_seq().len() && 0 <= j < b.key_seq().len() && i != j implies b.key_seq()[i]
        != b.key_seq()[j] by {
        lemma_lex_irreflexive(b.key_seq()[i]);
    }
}

/// Ingesting the same text a second time adds to each word what the first
/// time added, and leaves the number of distinct words as it was. From an
/// empty bag, every count is thus doubled.
pub proof fn law_ingest_twice(b0: Bbow, b1: Bbow, b2: Bbow, s: Seq<char>)
    requires
        b0.wf(),
        b1.wf(),
        b2.wf(),
        forall|k: Seq<char>|
            #[trigger] b1.count_of(k) == b0.count_of(k) + occurrences(word_keys(s), k),
        forall|k: Seq<char>|
            #[trigger] b2.count_of(k) == b1.count_of(k) + occurrences(word_keys(s), k),
    ensures
        forall|k: Seq<char>| #[trigger] b2.count_of(k) + b0.count_of(k) == 2 * b1.count_of(k),
        b2.distinct() == b1.distinct(),
{
    assert forall|k: Seq<char>| #[trigger] b2.count_of(k) + b0.count_of(k) == 2 * b1.count_of(
        k,
    ) by {
        assert(b1.count_of(k) == b0.count_of(k) + occurrences(word_keys(s), k));
        assert(b2.count_of(k) == b1.count_of(k) + occurrences(word_keys(s), k));
    }
    assert forall|k: Seq<char>| b1.key_seq().contains(k) <==> b2.key_seq().contains(k) by {
        law_unseen_is_zero(b1, k);
        law_unseen_is_zero(b2, k);
        assert(b2.count_of(k) == b1.count_of(k) + occurrences(word_keys(s), k));
        assert(b1.count_of(k) == b0.count_of(k) + occurrences(word_keys(s), k));
    }
    assert(b1.key_seq().to_set() =~= b2.key_seq().to_set());
    lemma_key_seq_no_duplicates(b1);
    lemma_key_seq_no_duplicates(b2);
    b1.key_seq().unique_seq_to_set();
    b2.key_seq().unique_seq_to_set();
}

/// After ingestion the bag is empty exactly when it was empty before and the
/// text held no word. A new bag is empty.
pub proof fn law_empty_iff_no_word(b0: Bbow, b1: Bbow, s: Seq<char>)
    requires
        b0.wf(),
        b1.wf(),
        forall|k: Seq<char>|
            #[trigger] b1.count_of(k) == b0.count_of(k) + occurrences(word_keys(s), k),
    ensures
        b1.distinct() == 0 <==> (b0.distinct() == 0 && word_keys(s).len() == 0),
{
    let ws = word_keys(s);
    if b1.distinct() > 0 {
        let k = b1.key_seq()[0];
        law_unseen_is_zero(b1, k);
        law_unseen_is_zero(b0, k);
        lemma_occurrences_contains(ws, k);
        if b0.distinct() == 0 {
            assert(b0.key_seq().len() == 0);
            assert(b1.count_of(k) == b0.count_of(k) + occurrences(ws, k));
        }
    } else {
        if b0.distinct() > 0 {
            let k = b0.key_seq()[0];
            law_unseen_is_zero(b0, k);
            law_unseen_is_zero(b1, k);
            assert(b1.count_of(k) == b0.count_of(k) + occurrences(ws, k));
        }
        if ws.len() > 0 {
            let k = ws.last();
            lemma_occurrences_contains(ws, k);
            law_unseen_is_zero(b1, k);
            assert(ws[ws.len() - 1] == k);
            assert(b1.count_of(k) == b0.count_of(k) + occurrences(ws, k));
        }
    }
}

proof fn lemma_trim_start_shape(w: Seq<char>)
    ensures
        exists|a: int|
            0 <= a <= w.len() && trim_start(w) == w.subrange(a, w.len() as int) && (forall|i: int|
                0 <= i < a ==> !is_letter(#[trigger] w[i])) && (a < w.len() ==> is_letter(w[a])),
    decreases w.len(),
{
    if w.len() > 0 && !is_letter(w[0]) {
        lemma_trim_start_shape(w.drop_first());
        let a = choose|a: int|
            0 <= a <= w.drop_first().len() && trim_start(w.drop_first())
                == w.drop_first().subrange(a, w.drop_first().len() as int) && (forall|i: int|
                0 <= i < a ==> !is_letter(#[trigger] w.drop_first()[i])) && (a
                < w.drop_first().len() ==> is_letter(w.drop_first()[a]));
        assert(w.drop_first().subrange(a, w.drop_first().len() as int) =~= w.subrange(
            a + 1,
            w.len() as int,
        ));
        assert forall|i: int| 0 <= i < a + 1 implies !is_letter(#[trigger] w[i]) by {
            if i > 0 {
                assert(w[i] == w.drop_first()[i - 1]);
            }
        }
        assert(a + 1 < w.len() ==> w[a + 1] == w.drop_first()[a]);
    } else {
        assert(w.subrange(0, w.len() as int) =~= w);
    }
}

proof fn lemma_trim_end_shape(w: Seq<char>)
    ensures
        exists|b: int|
            0 <= b <= w.len() && trim_end(w) == w.subrange(0, b) && (forall|i: int|
                b <= i < w.len() ==> !is_letter(#[trigger] w[i])) && (b > 0 ==> is_letter(
                w[b - 1],
            )),
    decreases w.len(),
{
    if w.len() > 0 && !is_letter(w.last()) {
        lemma_trim_end_shape(w.drop_last());
        let b = choose|b: int|
            0 <= b <= w.drop_last().len() && trim_end(w.drop_last()) == w.drop_last().subrange(
                0,
                b,
            ) && (forall|i: int|
                b <= i < w.drop_last().len() ==> !is_letter(#[trigger] w.drop_last()[i])) && (b
                > 0 ==> is_letter(w.drop_last()[b - 1]));
        assert(w.drop_last().subrange(0, b) =~= w.subrange(0, b));
        assert forall|i: int| b <= i < w.len() implies !is_letter(#[trigger] w[i]) by {
            if i < w.len() - 1 {
                assert(w[i] == w.drop_last()[i]);
            }
        }
        assert(b > 0 ==> w[b - 1] == w.drop_last()[b - 1]);
    } else {
        assert(w.subrange(0, w.len() as int) =~= w);
    }
}

/// Trimming removes characters at the two ends only, and only non-letters:
/// what remains is a contiguous part of the token, every character before it
/// and after it is a non-letter, and it begins and ends with a letter.
pub proof fn law_trim_boundary_only(w: Seq<char>)
    ensures
        exists|a: int, b: int|
            {
                &&& 0 <= a <= b <= w.len()
                &&& trimmed(w) == w.subrange(a, b)
                &&& forall|i: int| 0 <= i < a ==> !is_letter(#[trigger] w[i])
                &&& forall|i: int| b <= i < w.len() ==> !is_letter(#[trigger] w[i])
                &&& a < b ==> is_letter(w[a]) && is_letter(w[b - 1])
            },
{
    lemma_trim_start_shape(w);
    let a = choose|a: int|
        0 <= a <= w.len() && trim_start(w) == w.subrange(a, w.len() as int) && (forall|i: int|
            0 <= i < a ==> !is_letter(#[trigger] w[i])) && (a < w.len() ==> is_letter(w[a]));
    let u = w.subrange(a, w.len() as int);
    lemma_trim_end_shape(u);
    let c = choose|c: int|
        0 <= c <= u.len() && trim_end(u) == u.subrange(0, c) && (forall|i: int|
            c <= i < u.len() ==> !is_letter(#[trigger] u[i])) && (c > 0 ==> is_letter(u[c - 1]));
    let b = a + c;
    assert(u.subrange(0, c) =~= w.subrange(a, b));
    assert forall|i: int| b <= i < w.len() implies !is_letter(#[trigger] w[i]) by {
        assert(w[i] == u[i - a]);
    }
    if a < b {
        assert(w[a] == u[0]);
        assert(w[b - 1] == u[c - 1]);
    }
    assert(0 <= a <= b <= w.len());
}

/// A token with a non-letter between two letters yields no word at all: the
/// non-letter is not at an end, so it survives trimming and the rest is
/// rejected with it.
pub proof fn law_inner_non_letter_rejects(t: Seq<char>, i: int, m: int, j: int)
    requires
        0 <= i < m < j < t.len(),
        is_letter(t[i]),
        !is_letter(t[m]),
        is_letter(t[j]),
    ensures
        !accepted(t),
{
    law_trim_boundary_only(t);
    let (a, b) = choose|a: int, b: int|
        {
            &&& 0 <= a <= b <= t.len()
            &&& trimmed(t) == t.subrange(a, b)
            &&& forall|x: int| 0 <= x < a ==> !is_letter(#[trigger] t[x])
            &&& forall|x: int| b <= x < t.len() ==> !is_letter(#[trigger] t[x])
            &&& a < b ==> is_letter(t[a]) && is_letter(t[b - 1])
        };
    assert(a <= i);
    assert(j < b);
    assert(trimmed(t)[m - a] == t[m]);
    assert(!valid_word(trimmed(t)));
}

} // verus!
