//! The bag of words itself.
use vstd::prelude::*;
use crate::order::{compare, lemma_lex_irreflexive, lemma_lex_transitive, lex_lt};
use crate::text::{
    accepted,
    canonical,
    canonical_range,
    chars_of,
    keys_of,
    occurrences,
    range_is_word,
    split_from,
    tokens,
    trim_range,
    trimmed,
    word_keys,
};
use crate::unicode::{char_is_space, push_char};

verus! {

/// The sum of a sequence of counts.
pub open spec fn sum_of(s: Seq<usize>) -> nat
    decreases s.len(),
{
    if s.len() == 0 {
        0
    } else {
        sum_of(s.drop_last()) + s.last() as nat
    }
}

proof fn lemma_sum_update(s: Seq<usize>, i: int, v: usize)
    requires
        0 <= i < s.len(),
    ensures
        sum_of(s.update(i, v)) + s[i] == sum_of(s) + v,
    decreases s.len(),
{
    if i == s.len() - 1 {
        assert(s.update(i, v).drop_last() =~= s.drop_last());
    } else {
        assert(s.update(i, v).drop_last() =~= s.drop_last().update(i, v));
        lemma_sum_update(s.drop_last(), i, v);
    }
}

proof fn lemma_sum_insert(s: Seq<usize>, p: int, v: usize)
    requires
        0 <= p <= s.len(),
    ensures
        sum_of(s.insert(p, v)) == sum_of(s) + v,
    decreases s.len(),
{
    if p == s.len() {
        assert(s.insert(p, v).drop_last() =~= s);
    } else {
        assert(s.insert(p, v).drop_last() =~= s.drop_last().insert(p, v));
        lemma_sum_insert(s.drop_last(), p, v);
    }
}

proof fn lemma_sum_prefix(s: Seq<usize>, i: int)
    requires
        0 <= i <= s.len(),
    ensures
        sum_of(s.subrange(0, i)) <= sum_of(s),
        i < s.len() ==> sum_of(s.subrange(0, i + 1)) == sum_of(s.subrange(0, i)) + s[i],
    decreases s.len(),
{
    if i < s.len() {
        assert(s.subrange(0, i + 1).drop_last() =~= s.subrange(0, i));
        if i + 1 < s.len() {
            assert(s.drop_last().subrange(0, i + 1) =~= s.subrange(0, i + 1));
            lemma_sum_prefix(s.drop_last(), i + 1);
        } else {
            assert(s.subrange(0, i + 1) =~= s);
        }
    } else {
        assert(s.subrange(0, i) =~= s);
    }
}

proof fn lemma_sum_element(s: Seq<usize>, i: int)
    requires
        0 <= i < s.len(),
    ensures
        s[i] <= sum_of(s),
{
    lemma_sum_prefix(s, i);
    lemma_sum_prefix(s, i + 1);
}

/// A bag of words: each canonical word seen, with the number of times it was seen.
///
/// Keys are kept in lexicographic order, each once. Every key is an owned copy
/// of its characters, so the bag does not borrow the texts it was built from;
/// the cost is one allocation for each distinct word.
#[derive(Clone, Debug)]
pub struct Bbow {
    pub(crate) keys: Vec<Vec<char>>,
    pub(crate) counts: Vec<usize>,
}

impl Bbow {
    /// The keys, in the order in which they are kept.
    pub open(crate) spec fn key_seq(&self) -> Seq<Seq<char>> {
        Seq::new(self.keys@.len(), |i: int| self.keys@[i]@)
    }

    /// The keys are strictly increasing, every count is positive, and the
    /// counts add up to a value that fits in a `usize`.
    pub open(crate) spec fn wf(&self) -> bool {
        &&& self.keys@.len() == self.counts@.len()
        &&& forall|i: int, j: int|
            0 <= i < j < self.keys@.len() ==> lex_lt(self.keys@[i]@, self.keys@[j]@)
        &&& forall|i: int| 0 <= i < self.counts@.len() ==> #[trigger] self.counts@[i] >= 1
        &&& sum_of(self.counts@) <= usize::MAX
    }

    /// How many times `k` has been counted; 0 for a word never seen.
    pub open(crate) spec fn count_of(&self, k: Seq<char>) -> nat {
        if exists|i: int| 0 <= i < self.keys@.len() && self.keys@[i]@ == k {
            self.counts@[choose|i: int| 0 <= i < self.keys@.len() && self.keys@[i]@ == k] as nat
        } else {
            0
        }
    }

    /// The number of words counted, repetitions included.
    pub open(crate) spec fn total(&self) -> nat {
        sum_of(self.counts@)
    }

    /// The number of distinct words.
    pub open(crate) spec fn distinct(&self) -> nat {
        self.keys@.len()
    }

    pub(crate) proof fn lemma_count_at(&self, i: int)
        requires
            self.wf(),
            0 <= i < self.keys@.len(),
        ensures
            self.count_of(self.keys@[i]@) == self.counts@[i],
    {
        let k = self.keys@[i]@;
        assert(0 <= i < self.keys@.len() && self.keys@[i]@ == k);
        let j = choose|j: int| 0 <= j < self.keys@.len() && self.keys@[j]@ == k;
        lemma_lex_irreflexive(k);
        if j < i {
            assert(lex_lt(self.keys@[j]@, self.keys@[i]@));
        } else if i < j {
            assert(lex_lt(self.keys@[i]@, self.keys@[j]@));
        }
    }

    /// Makes an empty bag.
    pub fn new() -> (r: Self)
        ensures
            r.wf(),
            r.total() == 0,
            r.distinct() == 0,
            forall|k: Seq<char>| r.count_of(k) == 0,
    {
        Bbow { keys: Vec::new(), counts: Vec::new() }
    }

    /// Finds `k`: `Ok` with its position, or `Err` with the position at which
    /// it would be inserted.
    fn locate(&self, k: &Vec<char>) -> (r: Result<usize, usize>)
        requires
            self.wf(),
        ensures
            r matches Ok(i) ==> i < self.keys@.len() && self.keys@[i as int]@ == k@,
            r matches Err(p) ==> {
                &&& p <= self.keys@.len()
                &&& forall|j: int| 0 <= j < p ==> lex_lt(self.keys@[j]@, k@)
                &&& forall|j: int| p <= j < self.keys@.len() ==> lex_lt(k@, self.keys@[j]@)
            },
    {
        let mut lo: usize = 0;
        let mut hi: usize = self.keys.len();
        while lo < hi
            invariant
                self.wf(),
                lo <= hi <= self.keys@.len(),
                forall|j: int| 0 <= j < lo ==> lex_lt(self.keys@[j]@, k@),
                forall|j: int| hi <= j < self.keys@.len() ==> lex_lt(k@, self.keys@[j]@),
            decreases hi - lo,
        {
            let mid: usize = lo + (hi - lo) / 2;
            match compare(&self.keys[mid], k) {
                core::cmp::Ordering::Less => {
                    assert forall|j: int| 0 <= j < mid + 1 implies lex_lt(self.keys@[j]@, k@) by {
                        if j < mid {
                            lemma_lex_transitive(self.keys@[j]@, self.keys@[mid as int]@, k@);
                        }
                    }
                    lo = mid + 1;
                },
                core::cmp::Ordering::Greater => {
                    assert forall|j: int| mid <= j < self.keys@.len() implies lex_lt(
                        k@,
                        self.keys@[j]@,
                    ) by {
                        if mid < j {
                            lemma_lex_transitive(k@, self.keys@[mid as int]@, self.keys@[j]@);
                        }
                    }
                    hi = mid;
                },
                core::cmp::Ordering::Equal => {
                    return Ok(mid);
                },
            }
        }
        Err(lo)
    }

    /// Counts one more occurrence of `k`.
    fn add_key(&mut self, k: Vec<char>)
        requires
            old(self).wf(),
            old(self).total() < usize::MAX,
        ensures
            final(self).wf(),
            final(self).total() == old(self).total() + 1,
            forall|w: Seq<char>|
                #[trigger] final(self).count_of(w) == old(self).count_of(w) + if w == k@ {
                    1nat
                } else {
                    0nat
                },
    {
        let ghost old_bag = *self;
        match self.locate(&k) {
            Ok(i) => {
                proof {
                    lemma_sum_element(self.counts@, i as int);
                    lemma_sum_update(self.counts@, i as int, (self.counts@[i as int] + 1) as usize);
                    old_bag.lemma_count_at(i as int);
                }
                let c = self.counts[i];
                self.counts.set(i, c + 1);
                proof {
                    self.lemma_count_at(i as int);
                    assert forall|w: Seq<char>| #[trigger]
                        self.count_of(w) == old_bag.count_of(w) + if w == k@ {
                            1nat
                        } else {
                            0nat
                        } by {
                        if w != k@ {
                            if exists|j: int| 0 <= j < self.keys@.len() && self.keys@[j]@ == w {
                                let j = choose|j: int|
                                    0 <= j < self.keys@.len() && self.keys@[j]@ == w;
                                self.lemma_count_at(j);
                                old_bag.lemma_count_at(j);
                            }
                        }
                    }
                }
            },
            Err(p) => {
                proof {
                    lemma_sum_insert(self.counts@, p as int, 1);
                }
                let ghost kv = k@;
                self.keys.insert(p, k);
                self.counts.insert(p, 1);
                proof {
                    assert(self.keys@[p as int]@ == kv);
                    assert forall|i: int, j: int|
                        0 <= i < j < self.keys@.len() implies lex_lt(
                        self.keys@[i]@,
                        self.keys@[j]@,
                    ) by {
                        if j < p {
                            assert(self.keys@[i] == old_bag.keys@[i]);
                            assert(self.keys@[j] == old_bag.keys@[j]);
                        } else if j == p {
                            assert(self.keys@[i] == old_bag.keys@[i]);
                        } else if i < p {
                            assert(self.keys@[i] == old_bag.keys@[i]);
                            assert(self.keys@[j] == old_bag.keys@[j - 1]);
                        } else if i == p {
                            assert(self.keys@[j] == old_bag.keys@[j - 1]);
                        } else {
                            assert(self.keys@[i] == old_bag.keys@[i - 1]);
                            assert(self.keys@[j] == old_bag.keys@[j - 1]);
                        }
                    }
                    assert forall|i: int| 0 <= i < self.counts@.len() implies #[trigger]
                        self.counts@[i] >= 1 by {
                        if i < p {
                            assert(self.counts@[i] == old_bag.counts@[i]);
                        } else if i > p {
                            assert(self.counts@[i] == old_bag.counts@[i - 1]);
                        }
                    }
                    self.lemma_count_at(p as int);
                    assert forall|w: Seq<char>| #[trigger]
                        self.count_of(w) == old_bag.count_of(w) + if w == kv {
                            1nat
                        } else {
                            0nat
                        } by {
                        if w == kv {
                            assert forall|j: int| 0 <= j < old_bag.keys@.len() implies old_bag.keys@[j]@ != w by {
                                lemma_lex_irreflexive(w);
                            }
                        } else {
                            if exists|j: int| 0 <= j < old_bag.keys@.len() && old_bag.keys@[j]@ == w {
                                let j = choose|j: int|
                                    0 <= j < old_bag.keys@.len() && old_bag.keys@[j]@ == w;
                                old_bag.lemma_count_at(j);
                                if j < p {
                                    assert(self.keys@[j] == old_bag.keys@[j]);
                                    self.lemma_count_at(j);
                                } else {
                                    assert(self.keys@[j + 1] == old_bag.keys@[j]);
                                    self.lemma_count_at(j + 1);
                                }
                            } else {
                                assert forall|j: int| 0 <= j < self.keys@.len() implies self.keys@[j]@ != w by {
                                    if j < p {
                                        assert(self.keys@[j] == old_bag.keys@[j]);
                                    } else if j > p {
                                        assert(self.keys@[j] == old_bag.keys@[j - 1]);
                                    }
                                }
                            }
                        }
                    }
                }
            },
        }
    }

    /// Counts the token `v[lo..hi]`, when it yields a word once trimmed.
    fn add_token(&mut self, v: &Vec<char>, lo: usize, hi: usize)
        requires
            old(self).wf(),
            old(self).total() < usize::MAX,
            lo <= hi <= v@.len(),
        ensures
            final(self).wf(),
            ({
                let t = v@.subrange(lo as int, hi as int);
                &&& final(self).total() == old(self).total() + if accepted(t) {
                    1nat
                } else {
                    0nat
                }
                &&& forall|w: Seq<char>|
                    #[trigger] final(self).count_of(w) == old(self).count_of(w) + if accepted(t)
                        && canonical(trimmed(t)) == w {
                        1nat
                    } else {
                        0nat
                    }
            }),
    {
        let (a, b) = trim_range(v, lo, hi);
        if range_is_word(v, a, b) {
            let key = canonical_range(v, a, b);
            self.add_key(key);
        }
    }

    /// Adds the words of `target` to the bag, and returns the bag.
    ///
    /// `target` is split at runs of whitespace; each token loses the
    /// non-letters at both of its ends, and counts only if what remains is a
    /// word. A word holding an uppercase letter is counted under its lowercase
    /// mapping, any other word as it stands.
    ///
    /// The counts are `usize`: the text may hold at most as many characters as
    /// the count can still grow by.
    pub fn extend_from_text(self, target: &str) -> (r: Self)
        requires
            self.wf(),
            self.total() + target@.len() <= usize::MAX,
        ensures
            r.wf(),
            r.total() == self.total() + word_keys(target@).len(),
            forall|k: Seq<char>|
                #[trigger] r.count_of(k) == self.count_of(k) + occurrences(word_keys(target@), k),
    {
        let mut bag = self;
        let v = chars_of(target);
        let n = v.len();
        let ghost s = v@;
        let ghost mut done: Seq<Seq<char>> = Seq::empty();
        let mut st: usize = 0;
        let mut i: usize = 0;
        assert(s.subrange(0, n as int) =~= s);
        assert(s.subrange(0, 0) =~= Seq::<char>::empty());
        assert(done + tokens(s) =~= tokens(s));
        while i < n
            invariant
                s == v@,
                s == target@,
                n == s.len(),
                st <= i <= n,
                tokens(s) == done + split_from(s.subrange(i as int, n as int), s.subrange(st as int, i as int)),
                done.len() <= st,
                keys_of(done).len() <= done.len(),
                bag.wf(),
                bag.total() == self.total() + keys_of(done).len(),
                forall|k: Seq<char>|
                    #[trigger] bag.count_of(k) == self.count_of(k) + occurrences(keys_of(done), k),
                self.total() + n <= usize::MAX,
            decreases n - i,
        {
            let ghost rest = s.subrange(i as int, n as int);
            let ghost cur = s.subrange(st as int, i as int);
            assert(rest[0] == s[i as int]);
            assert(rest.drop_first() =~= s.subrange(i + 1, n as int));
            if char_is_space(v[i]) {
                if st < i {
                    bag.add_token(&v, st, i);
                    proof {
                        let d2 = done.push(cur);
                        assert(d2.drop_last() =~= done);
                        let ks = keys_of(done);
                        if accepted(cur) {
                            let key = canonical(trimmed(cur));
                            assert forall|k: Seq<char>| #[trigger] occurrences(ks.push(key), k)
                                == occurrences(ks, k) + if key == k {
                                1nat
                            } else {
                                0nat
                            } by {
                                assert(ks.push(key).drop_last() =~= ks);
                            }
                        }
                        assert(done + (seq![cur] + split_from(s.subrange(i + 1, n as int), Seq::empty()))
                            =~= d2 + split_from(s.subrange(i + 1, n as int), Seq::empty()));
                        done = d2;
                    }
                } else {
                    assert(cur.len() == 0);
                    assert(done + (Seq::empty() + split_from(s.subrange(i + 1, n as int), Seq::empty()))
                        =~= done + split_from(s.subrange(i + 1, n as int), Seq::empty()));
                }
                st = i + 1;
                assert(s.subrange(st as int, i + 1) =~= Seq::<char>::empty());
            } else {
                assert(cur.push(s[i as int]) =~= s.subrange(st as int, i + 1));
            }
            i = i + 1;
        }
        let ghost cur = s.subrange(st as int, n as int);
        assert(s.subrange(n as int, n as int) =~= Seq::<char>::empty());
        if st < n {
            bag.add_token(&v, st, n);
            proof {
                let d2 = done.push(cur);
                assert(d2.drop_last() =~= done);
                let ks = keys_of(done);
                if accepted(cur) {
                    let key = canonical(trimmed(cur));
                    assert forall|k: Seq<char>| #[trigger] occurrences(ks.push(key), k)
                        == occurrences(ks, k) + if key == k {
                        1nat
                    } else {
                        0nat
                    } by {
                        assert(ks.push(key).drop_last() =~= ks);
                    }
                }
                assert(done + seq![cur] =~= d2);
                done = d2;
            }
        } else {
            assert(done + Seq::empty() =~= done);
        }
        bag
    }

    /// How many times `keyword` was counted. The keyword is looked up as it
    /// stands: one that is not a canonical word gives 0.
    pub fn match_count(&self, keyword: &str) -> (r: usize)
        requires
            self.wf(),
        ensures
            r == self.count_of(keyword@),
    {
        let k = chars_of(keyword);
        match self.locate(&k) {
            Ok(i) => {
                proof {
                    self.lemma_count_at(i as int);
                }
                self.counts[i]
            },
            Err(p) => {
                proof {
                    assert forall|j: int| 0 <= j < self.keys@.len() implies self.keys@[j]@ != k@ by {
                        lemma_lex_irreflexive(k@);
                    }
                }
                0
            },
        }
    }

    /// The distinct words, in lexicographic order.
    pub fn words(&self) -> (r: Vec<String>)
        requires
            self.wf(),
        ensures
            r@.len() == self.distinct(),
            forall|i: int| 0 <= i < r@.len() ==> #[trigger] r@[i]@ == self.key_seq()[i],
            forall|i: int, j: int| 0 <= i < j < r@.len() ==> lex_lt(r@[i]@, r@[j]@),
    {
        let mut out: Vec<String> = Vec::new();
        let mut i: usize = 0;
        while i < self.keys.len()
            invariant
                i <= self.keys@.len(),
                out@.len() == i,
                forall|j: int| 0 <= j < i ==> #[trigger] out@[j]@ == self.key_seq()[j],
            decreases self.keys@.len() - i,
        {
            let key = &self.keys[i];
            let mut word = String::new();
            let mut j: usize = 0;
            while j < key.len()
                invariant
                    j <= key@.len(),
                    word@ == key@.subrange(0, j as int),
                decreases key@.len() - j,
            {
                push_char(&mut word, key[j]);
                assert(key@.subrange(0, j + 1) =~= key@.subrange(0, j as int).push(key@[j as int]));
                j = j + 1;
            }
            assert(key@.subrange(0, key@.len() as int) =~= key@);
            out.push(word);
            i = i + 1;
        }
        out
    }

    /// The number of words counted, repetitions included.
    pub fn count(&self) -> (r: usize)
        requires
            self.wf(),
        ensures
            r == self.total(),
    {
        let mut sum: usize = 0;
        let mut i: usize = 0;
        while i < self.counts.len()
            invariant
                self.wf(),
                i <= self.counts@.len(),
                sum == sum_of(self.counts@.subrange(0, i as int)),
            decreases self.counts@.len() - i,
        {
            proof {
                lemma_sum_prefix(self.counts@, i as int);
                lemma_sum_prefix(self.counts@, i + 1);
            }
            sum = sum + self.counts[i];
            i = i + 1;
        }
        assert(self.counts@.subrange(0, i as int) =~= self.counts@);
        sum
    }

    /// The number of distinct words.
    pub fn len(&self) -> (r: usize)
        requires
            self.wf(),
        ensures
            r == self.distinct(),
    {
        self.keys.len()
    }

    /// Whether no word has been counted.
    pub fn is_empty(&self) -> (r: bool)
        requires
            self.wf(),
        ensures
            r == (self.distinct() == 0),
    {
        self.keys.len() == 0
    }
}

impl Default for Bbow {
    /// An empty bag.
    fn default() -> (r: Self)
        ensures
            r.wf(),
            r.total() == 0,
            r.distinct() == 0,
            forall|k: Seq<char>| r.count_of(k) == 0,
    {
        Bbow::new()
    }
}

} // verus!
