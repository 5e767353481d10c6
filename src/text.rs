//! Splitting text into tokens, and turning tokens into canonical words.
use vstd::prelude::*;
use crate::unicode::{
    char_is_letter,
    char_is_space,
    char_is_upper,
    is_letter,
    is_space,
    is_upper,
    lower_of,
    lowercase,
    push_char,
};

verus! {

/// A word: at least one character, and letters only.
pub open spec fn valid_word(w: Seq<char>) -> bool {
    &&& w.len() > 0
    &&& forall|i: int| 0 <= i < w.len() ==> is_letter(#[trigger] w[i])
}

/// Whether some character of `w` is uppercase.
pub open spec fn contains_upper(w: Seq<char>) -> bool {
    exists|i: int| 0 <= i < w.len() && is_upper(#[trigger] w[i])
}

/// `w` without its leading non-letters.
pub open spec fn trim_start(w: Seq<char>) -> Seq<char>
    decreases w.len(),
{
    if w.len() > 0 && !is_letter(w[0]) {
        trim_start(w.drop_first())
    } else {
        w
    }
}

/// `w` without its trailing non-letters.
pub open spec fn trim_end(w: Seq<char>) -> Seq<char>
    decreases w.len(),
{
    if w.len() > 0 && !is_letter(w.last()) {
        trim_end(w.drop_last())
    } else {
        w
    }
}

/// `w` without the non-letters at either end.
pub open spec fn trimmed(w: Seq<char>) -> Seq<char> {
    trim_end(trim_start(w))
}

/// The form under which a word is counted: its lowercase mapping when it holds
/// an uppercase letter, the word itself otherwise.
pub open spec fn canonical(w: Seq<char>) -> Seq<char> {
    if contains_upper(w) {
        lower_of(w)
    } else {
        w
    }
}

/// The maximal runs of non-whitespace characters of `s`, where `cur` is a run
/// already begun before `s`.
pub open spec fn split_from(s: Seq<char>, cur: Seq<char>) -> Seq<Seq<char>>
    decreases s.len(),
{
    let done = if cur.len() > 0 {
        seq![cur]
    } else {
        Seq::empty()
    };
    if s.len() == 0 {
        done
    } else if is_space(s[0]) {
        done + split_from(s.drop_first(), Seq::empty())
    } else {
        split_from(s.drop_first(), cur.push(s[0]))
    }
}

/// The tokens of `s`: its maximal runs of non-whitespace characters, in order.
pub open spec fn tokens(s: Seq<char>) -> Seq<Seq<char>> {
    split_from(s, Seq::empty())
}

/// Whether a token yields a word once trimmed.
pub open spec fn accepted(t: Seq<char>) -> bool {
    valid_word(trimmed(t))
}

/// The canonical words that a sequence of tokens yields, in order.
pub open spec fn keys_of(toks: Seq<Seq<char>>) -> Seq<Seq<char>>
    decreases toks.len(),
{
    if toks.len() == 0 {
        Seq::empty()
    } else {
        let rest = keys_of(toks.drop_last());
        if accepted(toks.last()) {
            rest.push(canonical(trimmed(toks.last())))
        } else {
            rest
        }
    }
}

/// The canonical words of a text, one for each accepted token, in order.
pub open spec fn word_keys(s: Seq<char>) -> Seq<Seq<char>> {
    keys_of(tokens(s))
}

/// How many times `k` occurs in `ks`.
pub open spec fn occurrences(ks: Seq<Seq<char>>, k: Seq<char>) -> nat
    decreases ks.len(),
{
    if ks.len() == 0 {
        0
    } else {
        occurrences(ks.drop_last(), k) + if ks.last() == k {
            1nat
        } else {
            0nat
        }
    }
}

/// The characters of a text.
pub fn chars_of(s: &str) -> (r: Vec<char>)
    ensures
        r@ == s@,
{
    let mut out: Vec<char> = Vec::new();
    for c in it: s.chars()
        invariant
            out@ == it.seq().subrange(0, it.index() as int),
    {
        out.push(c);
    }
    assert(out@ =~= s@);
    out
}

/// Bounds of the trimmed part of `v[lo..hi]`.
pub(crate) fn trim_range(v: &Vec<char>, lo: usize, hi: usize) -> (r: (usize, usize))
    requires
        lo <= hi <= v@.len(),
    ensures
        lo <= r.0 <= r.1 <= hi,
        v@.subrange(r.0 as int, r.1 as int) == trimmed(v@.subrange(lo as int, hi as int)),
{
    let mut a: usize = lo;
    while a < hi && !char_is_letter(v[a])
        invariant
            lo <= a <= hi <= v@.len(),
            trim_start(v@.subrange(lo as int, hi as int)) == trim_start(
                v@.subrange(a as int, hi as int),
            ),
        decreases hi - a,
    {
        assert(v@.subrange(a as int, hi as int).drop_first() =~= v@.subrange(
            a + 1,
            hi as int,
        ));
        a = a + 1;
    }
    assert(trim_start(v@.subrange(a as int, hi as int)) == v@.subrange(a as int, hi as int));
    let mut b: usize = hi;
    while b > a && !char_is_letter(v[b - 1])
        invariant
            lo <= a <= b <= hi <= v@.len(),
            trim_end(v@.subrange(a as int, hi as int)) == trim_end(
                v@.subrange(a as int, b as int),
            ),
        decreases b - a,
    {
        assert(v@.subrange(a as int, b as int).drop_last() =~= v@.subrange(
            a as int,
            b - 1,
        ));
        b = b - 1;
    }
    assert(trim_end(v@.subrange(a as int, b as int)) == v@.subrange(a as int, b as int));
    (a, b)
}

/// Whether `v[lo..hi]` is a word.
pub(crate) fn range_is_word(v: &Vec<char>, lo: usize, hi: usize) -> (r: bool)
    requires
        lo <= hi <= v@.len(),
    ensures
        r == valid_word(v@.subrange(lo as int, hi as int)),
{
    if lo == hi {
        return false;
    }
    let mut i: usize = lo;
    while i < hi
        invariant
            lo <= i <= hi <= v@.len(),
            forall|j: int| lo <= j < i ==> is_letter(#[trigger] v@[j]),
        decreases hi - i,
    {
        if !char_is_letter(v[i]) {
            assert(v@.subrange(lo as int, hi as int)[i - lo] == v@[i as int]);
            return false;
        }
        i = i + 1;
    }
    assert forall|j: int| 0 <= j < hi - lo implies is_letter(
        #[trigger] v@.subrange(lo as int, hi as int)[j],
    ) by {
        assert(v@.subrange(lo as int, hi as int)[j] == v@[lo + j]);
    }
    true
}

/// Whether some character of `v[lo..hi]` is uppercase.
pub(crate) fn range_has_upper(v: &Vec<char>, lo: usize, hi: usize) -> (r: bool)
    requires
        lo <= hi <= v@.len(),
    ensures
        r == contains_upper(v@.subrange(lo as int, hi as int)),
{
    let ghost w = v@.subrange(lo as int, hi as int);
    let mut i: usize = lo;
    while i < hi
        invariant
            lo <= i <= hi <= v@.len(),
            w == v@.subrange(lo as int, hi as int),
            forall|j: int| lo <= j < i ==> !is_upper(#[trigger] v@[j]),
        decreases hi - i,
    {
        if char_is_upper(v[i]) {
            assert(w[i - lo] == v@[i as int]);
            return true;
        }
        i = i + 1;
    }
    assert forall|j: int| 0 <= j < w.len() implies !is_upper(#[trigger] w[j]) by {
        assert(w[j] == v@[lo + j]);
    }
    false
}

/// The text made of `v[lo..hi]`.
pub(crate) fn string_of_range(v: &Vec<char>, lo: usize, hi: usize) -> (r: String)
    requires
        lo <= hi <= v@.len(),
    ensures
        r@ == v@.subrange(lo as int, hi as int),
{
    let mut s = String::new();
    let mut i: usize = lo;
    while i < hi
        invariant
            lo <= i <= hi <= v@.len(),
            s@ == v@.subrange(lo as int, i as int),
        decreases hi - i,
    {
        push_char(&mut s, v[i]);
        assert(v@.subrange(lo as int, i + 1) =~= v@.subrange(lo as int, i as int).push(v@[i as int]));
        i = i + 1;
    }
    s
}

/// The canonical form of the word `v[lo..hi]`: lowercased when it holds an
/// uppercase letter, copied as it stands otherwise.
pub(crate) fn canonical_range(v: &Vec<char>, lo: usize, hi: usize) -> (r: Vec<char>)
    requires
        lo <= hi <= v@.len(),
    ensures
        r@ == canonical(v@.subrange(lo as int, hi as int)),
{
    if range_has_upper(v, lo, hi) {
        let s = string_of_range(v, lo, hi);
        let low = lowercase(s.as_str());
        chars_of(low.as_str())
    } else {
        let mut out: Vec<char> = Vec::new();
        let mut i: usize = lo;
        while i < hi
            invariant
                lo <= i <= hi <= v@.len(),
                out@ == v@.subrange(lo as int, i as int),
            decreases hi - i,
        {
            out.push(v[i]);
            assert(v@.subrange(lo as int, i + 1) =~= v@.subrange(lo as int, i as int).push(
                v@[i as int],
            ));
            i = i + 1;
        }
        out
    }
}

/// Whether `word` is a word: non-empty, and letters only.
pub fn is_word(word: &str) -> (r: bool)
    ensures
        r == valid_word(word@),
{
    let v = chars_of(word);
    assert(v@.subrange(0, v@.len() as int) =~= v@);
    range_is_word(&v, 0, v.len())
}

/// Whether `word` holds an uppercase letter.
pub fn has_uppercase(word: &str) -> (r: bool)
    ensures
        r == contains_upper(word@),
{
    let v = chars_of(word);
    assert(v@.subrange(0, v@.len() as int) =~= v@);
    range_has_upper(&v, 0, v.len())
}

/// `word` without the non-letters at either end.
pub fn trim_punctuation(word: &str) -> (r: &str)
    ensures
        r@ == trimmed(word@),
{
    let v = chars_of(word);
    assert(v@.subrange(0, v@.len() as int) =~= v@);
    let (a, b) = trim_range(&v, 0, v.len());
    word.substring_char(a, b)
}

} // verus!
