//! The word-frequency table: distinct normalized words, each with the
//! number of times it occurred.

use vstd::prelude::*;

verus! {

/// The multiplicity that the single entry `p` assigns to the word `w`.
pub open spec fn pair_count(p: (String, usize), w: Seq<char>) -> nat {
    if p.0@ == w {
        p.1 as nat
    } else {
        0
    }
}

/// Total multiplicity that a sequence of entries assigns to the word `w`.
pub open spec fn seq_count(s: Seq<(String, usize)>, w: Seq<char>) -> nat
    decreases s.len(),
{
    if s.len() == 0 {
        0
    } else {
        seq_count(s.drop_last(), w) + pair_count(s.last(), w)
    }
}

/// Sum of all counts in a sequence of entries.
pub open spec fn seq_total(s: Seq<(String, usize)>) -> nat
    decreases s.len(),
{
    if s.len() == 0 {
        0
    } else {
        seq_total(s.drop_last()) + s.last().1 as nat
    }
}

pub proof fn lemma_seq_count_push(s: Seq<(String, usize)>, p: (String, usize), w: Seq<char>)
    ensures
        seq_count(s.push(p), w) == seq_count(s, w) + pair_count(p, w),
        seq_total(s.push(p)) == seq_total(s) + p.1,
{
    assert(s.push(p).drop_last() =~= s);
    assert(s.push(p).last() == p);
}

/// A word that occurs in no entry contributes nothing.
pub proof fn lemma_seq_count_none(s: Seq<(String, usize)>, w: Seq<char>)
    requires
        forall|j: int| 0 <= j < s.len() ==> (#[trigger] s[j]).0@ != w,
    ensures
        seq_count(s, w) == 0,
    decreases s.len(),
{
    if s.len() > 0 {
        lemma_seq_count_none(s.drop_last(), w);
    }
}

/// When exactly one entry holds the word, the word's total is that entry's count.
pub proof fn lemma_seq_count_single(s: Seq<(String, usize)>, w: Seq<char>, i: int)
    requires
        0 <= i < s.len(),
        s[i].0@ == w,
        forall|j: int| 0 <= j < s.len() && j != i ==> (#[trigger] s[j]).0@ != w,
    ensures
        seq_count(s, w) == s[i].1,
    decreases s.len(),
{
    if i == s.len() - 1 {
        lemma_seq_count_none(s.drop_last(), w);
    } else {
        lemma_seq_count_single(s.drop_last(), w, i);
    }
}

/// Whether some entry of `s` holds the word `w`.
pub open spec fn has_word(s: Seq<(String, usize)>, w: Seq<char>) -> bool {
    exists|j: int| 0 <= j < s.len() && (#[trigger] s[j]).0@ == w
}

/// When every entry's count is positive, a word's total is positive
/// exactly when some entry holds the word.
pub proof fn lemma_seq_count_pos(s: Seq<(String, usize)>, w: Seq<char>)
    requires
        forall|i: int| 0 <= i < s.len() ==> (#[trigger] s[i]).1 >= 1,
    ensures
        (seq_count(s, w) > 0) <==> has_word(s, w),
    decreases s.len(),
{
    if s.len() > 0 {
        lemma_seq_count_pos(s.drop_last(), w);
        if s.last().0@ == w {
            assert(s[s.len() - 1].0@ == w);
            assert(has_word(s, w));
        } else {
            if has_word(s, w) {
                let j = choose|j: int| 0 <= j < s.len() && (#[trigger] s[j]).0@ == w;
                assert(j < s.len() - 1);
                assert(s.drop_last()[j].0@ == w);
                assert(has_word(s.drop_last(), w));
            }
            if has_word(s.drop_last(), w) {
                let j = choose|j: int|
                    0 <= j < s.drop_last().len() && (#[trigger] s.drop_last()[j]).0@ == w;
                assert(s[j].0@ == w);
                assert(has_word(s, w));
            }
        }
    }
}

/// No single word's total exceeds the sum of all counts.
pub proof fn lemma_seq_count_le_total(s: Seq<(String, usize)>, w: Seq<char>)
    ensures
        seq_count(s, w) <= seq_total(s),
    decreases s.len(),
{
    if s.len() > 0 {
        lemma_seq_count_le_total(s.drop_last(), w);
    }
}

/// Raising one entry's count by one raises the word's total and the grand
/// total by one, and leaves every other word's total unchanged.
pub proof fn lemma_seq_count_update(
    s: Seq<(String, usize)>,
    i: int,
    p: (String, usize),
    w: Seq<char>,
)
    requires
        0 <= i < s.len(),
    ensures
        seq_count(s.update(i, p), w) + pair_count(s[i], w) == seq_count(s, w) + pair_count(p, w),
        seq_total(s.update(i, p)) + s[i].1 == seq_total(s) + p.1,
    decreases s.len(),
{
    if i == s.len() - 1 {
        assert(s.update(i, p).drop_last() =~= s.drop_last());
        assert(s.update(i, p).last() == p);
    } else {
        assert(s.update(i, p).drop_last() =~= s.drop_last().update(i, p));
        assert(s.update(i, p).last() == s.last());
        lemma_seq_count_update(s.drop_last(), i, p, w);
    }
}

/// Mapping from normalized word to occurrence count. Keys are distinct and
/// every stored count is at least one; entry order carries no meaning.
pub struct WordFrequencyTable {
    entries: Vec<(String, usize)>,
}

impl View for WordFrequencyTable {
    type V = Seq<(String, usize)>;

    closed spec fn view(&self) -> Seq<(String, usize)> {
        self.entries@
    }
}

impl WordFrequencyTable {
    /// Well-formedness: every count is at least 1 and words are distinct.
    pub open spec fn wf(self) -> bool {
        &&& forall|i: int| 0 <= i < self@.len() ==> (#[trigger] self@[i]).1 >= 1
        &&& forall|i: int, j: int|
            0 <= i < j < self@.len() ==> (#[trigger] self@[i]).0@ != (#[trigger] self@[j]).0@
    }

    /// The count stored for the word `w` (0 when absent).
    pub open spec fn spec_count(self, w: Seq<char>) -> nat {
        seq_count(self@, w)
    }

    /// The sum of all stored counts.
    pub open spec fn total(self) -> nat {
        seq_total(self@)
    }

    /// An empty table.
    pub fn new() -> (r: Self)
        ensures
            r.wf(),
            r@.len() == 0,
            r.total() == 0,
            forall|w: Seq<char>| #[trigger] r.spec_count(w) == 0,
    {
        let r = WordFrequencyTable { entries: Vec::new() };
        proof {
            assert(r@.len() == 0);
            assert(forall|w: Seq<char>| #[trigger] r.spec_count(w) == 0) by {
                assert(forall|w: Seq<char>| seq_count(r@, w) == 0);
            }
        }
        r
    }

    /// The number of distinct words.
    pub fn len(&self) -> (r: usize)
        ensures
            r == self@.len(),
    {
        self.entries.len()
    }

    /// Read access to the entries, one `(word, count)` pair per distinct word.
    pub fn entries(&self) -> (r: &Vec<(String, usize)>)
        ensures
            r@ == self@,
    {
        &self.entries
    }

    /// The stored count for `w`, or 0 when `w` is not in the table.
    pub fn get_count(&self, w: &String) -> (r: usize)
        requires
            self.wf(),
        ensures
            r as nat == self.spec_count(w@),
    {
        let n = self.entries.len();
        let mut idx: usize = 0;
        while idx < n
            invariant
                n == self@.len(),
                idx <= n,
                self.wf(),
                forall|j: int| 0 <= j < idx ==> (#[trigger] self@[j]).0@ != w@,
            decreases n - idx,
        {
            if self.entries[idx].0 == *w {
                let c = self.entries[idx].1;
                proof {
                    lemma_seq_count_single(self@, w@, idx as int);
                }
                return c;
            }
            idx += 1;
        }
        proof {
            lemma_seq_count_none(self@, w@);
        }
        0
    }

    /// Add one occurrence of `word`: bump its count, or insert it with
    /// count 1 on first occurrence.
    pub fn increment(&mut self, word: String)
        requires
            old(self).wf(),
            old(self).total() < usize::MAX,
        ensures
            final(self).wf(),
            forall|w: Seq<char>| #[trigger] final(self).spec_count(w) == old(self).spec_count(w)
                + (if w == word@ { 1nat } else { 0nat }),
            final(self).total() == old(self).total() + 1,
            final(self)@.len() == old(self)@.len()
                + (if old(self).spec_count(word@) == 0 { 1int } else { 0int }),
    {
        let ghost s0 = self@;
        let n = self.entries.len();
        let mut idx: usize = 0;
        while idx < n
            invariant
                self@ == s0,
                n == s0.len(),
                idx <= n,
                old(self).wf(),
                s0 == old(self)@,
                seq_total(s0) < usize::MAX,
                forall|j: int| 0 <= j < idx ==> (#[trigger] s0[j]).0@ != word@,
            decreases n - idx,
        {
            if self.entries[idx].0 == word {
                let c = self.entries[idx].1;
                proof {
                    assert(s0[idx as int].0@ == word@);
                    assert forall|j: int|
                        0 <= j < s0.len() && j != idx as int implies (#[trigger] s0[j]).0@
                        != word@ by {
                        if j > idx as int {
                            assert(s0[idx as int].0@ != s0[j].0@);
                        }
                    }
                    lemma_seq_count_single(s0, word@, idx as int);
                    lemma_seq_count_le_total(s0, word@);
                    assert(c < usize::MAX);
                }
                self.entries.remove(idx);
                self.entries.insert(idx, (word, c + 1));
                proof {
                    assert(self@ =~= s0.update(idx as int, (word, (c + 1) as usize)));
                    assert forall|w: Seq<char>| #[trigger] self.spec_count(w)
                        == old(self).spec_count(w) + (if w == word@ { 1nat } else { 0nat }) by {
                        lemma_seq_count_update(s0, idx as int, (word, (c + 1) as usize), w);
                        if w == word@ {
                            lemma_seq_count_single(s0, w, idx as int);
                        }
                    }
                    lemma_seq_count_update(s0, idx as int, (word, (c + 1) as usize), word@);
                    lemma_seq_count_single(s0, word@, idx as int);
                }
                return ;
            }
            idx += 1;
        }
        proof {
            lemma_seq_count_none(s0, word@);
        }
        self.entries.push((word, 1));
        proof {
            assert(self@ =~= s0.push((word, 1usize)));
            assert forall|w: Seq<char>| #[trigger] self.spec_count(w)
                == old(self).spec_count(w) + (if w == word@ { 1nat } else { 0nat }) by {
                lemma_seq_count_push(s0, (word, 1usize), w);
            }
            lemma_seq_count_push(s0, (word, 1usize), word@);
        }
    }
}

} // verus!
