//! The tokenizer/counter: split text on whitespace runs, strip
//! non-alphanumeric edge characters from each raw token, lower-case the
//! remainder, drop tokens that come out empty (and, on request, the fixed
//! stopwords), and count each surviving normalized word.

use vstd::prelude::*;
use crate::unicode::{is_space, is_alphanum, lower_of};
use crate::unicode::{is_space_char, is_alphanum_char, lowercase};
use crate::stopwords::{is_stopword, check_stopword};
use crate::table::WordFrequencyTable;

verus! {

/// Length of the leading run of non-whitespace characters of `s`.
pub open spec fn token_end(s: Seq<char>) -> nat
    decreases s.len(),
{
    if s.len() == 0 {
        0
    } else if is_space(s[0]) {
        0
    } else {
        1 + token_end(s.drop_first())
    }
}

/// The leading run never extends past the end.
proof fn lemma_token_end_le(s: Seq<char>)
    ensures
        token_end(s) <= s.len(),
    decreases s.len(),
{
    if s.len() > 0 && !is_space(s[0]) {
        lemma_token_end_le(s.drop_first());
    }
}

/// `token_end` is exactly the position of the first whitespace character.
proof fn lemma_token_end_at(s: Seq<char>, j: int)
    requires
        0 <= j <= s.len(),
        forall|k: int| 0 <= k < j ==> !is_space(s[k]),
        j == s.len() || is_space(s[j]),
    ensures
        token_end(s) == j,
    decreases s.len(),
{
    if s.len() == 0 {
    } else if is_space(s[0]) {
        assert(j == 0);
    } else {
        assert(j >= 1);
        let s1 = s.drop_first();
        assert(forall|k: int| 0 <= k < j - 1 ==> !is_space(#[trigger] s1[k]));
        lemma_token_end_at(s1, j - 1);
    }
}

/// The whitespace-delimited raw tokens of `s`, in order.
pub open spec fn raw_tokens(s: Seq<char>) -> Seq<Seq<char>>
    decreases s.len(),
    via raw_tokens_decreases
{
    if s.len() == 0 {
        Seq::empty()
    } else if is_space(s[0]) {
        raw_tokens(s.drop_first())
    } else {
        seq![s.subrange(0, token_end(s) as int)] + raw_tokens(
            s.subrange(token_end(s) as int, s.len() as int),
        )
    }
}

#[via_fn]
proof fn raw_tokens_decreases(s: Seq<char>) {
    lemma_token_end_le(s);
}

/// What is left of a raw token after dropping leading non-alphanumeric
/// characters.
pub open spec fn trim_front(t: Seq<char>) -> Seq<char>
    decreases t.len(),
{
    if t.len() == 0 {
        t
    } else if is_alphanum(t[0]) {
        t
    } else {
        trim_front(t.drop_first())
    }
}

/// What is left of a raw token after dropping trailing non-alphanumeric
/// characters.
pub open spec fn trim_back(t: Seq<char>) -> Seq<char>
    decreases t.len(),
{
    if t.len() == 0 {
        t
    } else if is_alphanum(t.last()) {
        t
    } else {
        trim_back(t.drop_last())
    }
}

/// A raw token with non-alphanumeric characters stripped from both ends.
pub open spec fn trimmed(t: Seq<char>) -> Seq<char> {
    trim_back(trim_front(t))
}

/// The normalized word a raw token yields: edges stripped, then lower-cased.
pub open spec fn normalize(t: Seq<char>) -> Seq<char> {
    lower_of(trimmed(t))
}

/// Whether a raw token survives filtering: it must not be empty after
/// stripping, and, when stopword exclusion is on, its normalized form must
/// not be a stopword.
pub open spec fn keeps(t: Seq<char>, ignore_stopwords: bool) -> bool {
    trimmed(t).len() > 0 && !(ignore_stopwords && is_stopword(normalize(t)))
}

/// The normalized words that a sequence of raw tokens yields, in order.
pub open spec fn norm_of(ts: Seq<Seq<char>>, ignore_stopwords: bool) -> Seq<Seq<char>> {
    ts.filter(|t: Seq<char>| keeps(t, ignore_stopwords)).map_values(|t: Seq<char>| normalize(t))
}

/// The normalized words extracted from the text `s`, in order.
pub open spec fn norm_tokens(s: Seq<char>, ignore_stopwords: bool) -> Seq<Seq<char>> {
    norm_of(raw_tokens(s), ignore_stopwords)
}

/// How many of the normalized words extracted from `s` equal `w`.
pub open spec fn word_occurrences(s: Seq<char>, ignore_stopwords: bool, w: Seq<char>) -> nat {
    norm_tokens(s, ignore_stopwords).to_multiset().count(w)
}

/// The table `t` is exactly the word count of the text `s`: every word's
/// stored count is its number of occurrences among the normalized words of
/// `s`, and the counts sum to the number of those words.
pub open spec fn counts_text(t: WordFrequencyTable, s: Seq<char>, ignore_stopwords: bool) -> bool {
    &&& t.wf()
    &&& t.total() == norm_tokens(s, ignore_stopwords).len()
    &&& forall|w: Seq<char>| #[trigger] t.spec_count(w) == word_occurrences(s, ignore_stopwords, w)
}

/// `trim_front` drops exactly the characters before the first alphanumeric one.
proof fn lemma_trim_front_at(t: Seq<char>, a: int)
    requires
        0 <= a <= t.len(),
        forall|k: int| 0 <= k < a ==> !is_alphanum(t[k]),
        a == t.len() || is_alphanum(t[a]),
    ensures
        trim_front(t) =~= t.subrange(a, t.len() as int),
    decreases t.len(),
{
    if t.len() == 0 {
    } else if is_alphanum(t[0]) {
        assert(a == 0);
    } else {
        assert(a >= 1);
        let t1 = t.drop_first();
        assert(forall|k: int| 0 <= k < a - 1 ==> !is_alphanum(#[trigger] t1[k]));
        lemma_trim_front_at(t1, a - 1);
    }
}

/// `trim_back` drops exactly the characters after the last alphanumeric one.
proof fn lemma_trim_back_at(t: Seq<char>, b: int)
    requires
        0 <= b <= t.len(),
        forall|k: int| b <= k < t.len() ==> !is_alphanum(t[k]),
        b == 0 || is_alphanum(t[b - 1]),
    ensures
        trim_back(t) =~= t.subrange(0, b),
    decreases t.len(),
{
    if t.len() == 0 {
    } else if is_alphanum(t.last()) {
        assert(b == t.len());
        assert(t.subrange(0, t.len() as int) =~= t);
    } else {
        assert(b < t.len());
        let t1 = t.drop_last();
        lemma_trim_back_at(t1, b);
        assert(t1.subrange(0, b) =~= t.subrange(0, b));
    }
}

/// Appending one raw token extends the normalized-word sequence by that
/// token's normalized form exactly when the token survives filtering.
proof fn lemma_norm_push(ts: Seq<Seq<char>>, t: Seq<char>, ignore_stopwords: bool)
    ensures
        keeps(t, ignore_stopwords) ==> norm_of(ts.push(t), ignore_stopwords) =~= norm_of(
            ts,
            ignore_stopwords,
        ).push(normalize(t)),
        !keeps(t, ignore_stopwords) ==> norm_of(ts.push(t), ignore_stopwords) =~= norm_of(
            ts,
            ignore_stopwords,
        ),
{
    reveal(Seq::filter);
    let pred = |x: Seq<char>| keeps(x, ignore_stopwords);
    assert(ts.push(t).drop_last() =~= ts);
    assert(ts.push(t).last() == t);
    assert(ts.push(t).filter(pred) == if pred(t) {
        ts.filter(pred).push(t)
    } else {
        ts.filter(pred)
    });
    if pred(t) {
        assert(ts.filter(pred).push(t).map_values(|x: Seq<char>| normalize(x)) =~= ts.filter(
            pred,
        ).map_values(|x: Seq<char>| normalize(x)).push(normalize(t)));
    }
}

/// There are never more normalized words than raw tokens.
proof fn lemma_norm_len_le(ts: Seq<Seq<char>>, ignore_stopwords: bool)
    ensures
        norm_of(ts, ignore_stopwords).len() <= ts.len(),
{
    let pred = |x: Seq<char>| keeps(x, ignore_stopwords);
    ts.lemma_filter_len(pred);
}

/// The tokenizer/counter is a pure function of the text and the flag: any
/// two tables that count the same text with the same flag agree on every
/// word's count and on the total number of counted words.
pub proof fn lemma_count_words_deterministic(
    a: WordFrequencyTable,
    b: WordFrequencyTable,
    s: Seq<char>,
    ignore_stopwords: bool,
)
    requires
        counts_text(a, s, ignore_stopwords),
        counts_text(b, s, ignore_stopwords),
    ensures
        forall|w: Seq<char>| #[trigger] a.spec_count(w) == b.spec_count(w),
        a.total() == b.total(),
        forall|w: Seq<char>| #[trigger] crate::table::has_word(a@, w) == crate::table::has_word(
            b@,
            w,
        ),
{
    assert forall|w: Seq<char>| #[trigger] crate::table::has_word(a@, w)
        == crate::table::has_word(b@, w) by {
        crate::table::lemma_seq_count_pos(a@, w);
        crate::table::lemma_seq_count_pos(b@, w);
        assert(a.spec_count(w) == b.spec_count(w));
    }
}

/// With stopword exclusion on, no stopword is counted: its count is zero
/// and no entry of the table holds it.
pub proof fn lemma_stopwords_excluded(t: WordFrequencyTable, s: Seq<char>, w: Seq<char>)
    requires
        counts_text(t, s, true),
        is_stopword(w),
    ensures
        t.spec_count(w) == 0,
        forall|i: int| 0 <= i < t@.len() ==> (#[trigger] t@[i]).0@ != w,
{
    let pred = |x: Seq<char>| keeps(x, true);
    let filtered = raw_tokens(s).filter(pred);
    let toks = norm_tokens(s, true);
    assert forall|i: int| 0 <= i < toks.len() implies toks[i] != w by {
        raw_tokens(s).lemma_filter_pred(pred, i);
        assert(keeps(filtered[i], true));
        assert(toks[i] == normalize(filtered[i]));
        assert(!is_stopword(normalize(filtered[i])));
    }
    assert(!toks.contains(w));
    vstd::seq_lib::to_multiset_contains(toks, w);
    assert(t.spec_count(w) == 0);
    assert forall|i: int| 0 <= i < t@.len() implies (#[trigger] t@[i]).0@ != w by {
        if t@[i].0@ == w {
            assert forall|j: int| 0 <= j < t@.len() && j != i implies (#[trigger] t@[j]).0@
                != w by {
                if j < i {
                    assert(t@[j].0@ != t@[i].0@);
                } else {
                    assert(t@[i].0@ != t@[j].0@);
                }
            }
            crate::table::lemma_seq_count_single(t@, w, i);
            assert(t.spec_count(w) == t@[i].1);
            assert(t@[i].1 >= 1);
        }
    }
}

/// Tokenize `text`, normalize each token, and count every surviving word.
pub fn count_words(text: &str, ignore_stopwords: bool) -> (r: WordFrequencyTable)
    ensures
        counts_text(r, text@, ignore_stopwords),
{
    broadcast use vstd::seq_lib::group_to_multiset_ensures;
    broadcast use vstd::multiset::group_multiset_axioms;

    let ghost s = text@;
    let n = text.unicode_len();
    let mut table = WordFrequencyTable::new();
    let ghost mut done = Seq::<Seq<char>>::empty();
    let mut i: usize = 0;
    proof {
        assert(s.subrange(0, n as int) =~= s);
        assert(raw_tokens(s) =~= done + raw_tokens(s.subrange(0, n as int)));
        assert(norm_of(done, ignore_stopwords) =~= Seq::<Seq<char>>::empty());
    }
    while i < n
        invariant
            s == text@,
            n == s.len(),
            i <= n,
            raw_tokens(s) == done + raw_tokens(s.subrange(i as int, n as int)),
            table.wf(),
            forall|w: Seq<char>| #[trigger] table.spec_count(w) == norm_of(
                done,
                ignore_stopwords,
            ).to_multiset().count(w),
            table.total() == norm_of(done, ignore_stopwords).len(),
            done.len() <= i,
        decreases n - i,
    {
        let c = text.get_char(i);
        if is_space_char(c) {
            proof {
                let sub = s.subrange(i as int, n as int);
                assert(sub[0] == s[i as int]);
                assert(sub.drop_first() =~= s.subrange(i as int + 1, n as int));
                assert(raw_tokens(sub) == raw_tokens(s.subrange(i as int + 1, n as int)));
            }
            i += 1;
        } else {
            let start = i;
            let mut j = i + 1;
            while j < n && !is_space_char(text.get_char(j))
                invariant
                    s == text@,
                    n == s.len(),
                    start < j <= n,
                    forall|k: int| start <= k < j ==> !is_space(s[k]),
                decreases n - j,
            {
                j += 1;
            }
            let ghost t = s.subrange(start as int, j as int);
            proof {
                let sub = s.subrange(start as int, n as int);
                assert(forall|k: int| 0 <= k < j - start ==> !is_space(#[trigger] sub[k]));
                assert(j < n ==> is_space(sub[j - start]));
                lemma_token_end_at(sub, j - start);
                assert(!is_space(sub[0]));
                assert(sub.subrange(0, (j - start) as int) =~= t);
                assert(sub.subrange((j - start) as int, sub.len() as int) =~= s.subrange(
                    j as int,
                    n as int,
                ));
                assert(raw_tokens(sub) == seq![t] + raw_tokens(s.subrange(j as int, n as int)));
                assert(done + raw_tokens(sub) =~= done.push(t) + raw_tokens(
                    s.subrange(j as int, n as int),
                ));
            }
            let tok = text.substring_char(start, j);
            let m = j - start;
            let mut a: usize = 0;
            while a < m && !is_alphanum_char(tok.get_char(a))
                invariant
                    tok@ == t,
                    m == t.len(),
                    a <= m,
                    forall|k: int| 0 <= k < a ==> !is_alphanum(t[k]),
                decreases m - a,
            {
                a += 1;
            }
            if a < m {
                let mut b: usize = m;
                while b > a && !is_alphanum_char(tok.get_char(b - 1))
                    invariant
                        tok@ == t,
                        m == t.len(),
                        a < m,
                        is_alphanum(t[a as int]),
                        a <= b <= m,
                        forall|k: int| b <= k < m ==> !is_alphanum(t[k]),
                    decreases b,
                {
                    b -= 1;
                }
                proof {
                    assert(b > a);
                }
                let core = tok.substring_char(a, b);
                proof {
                    lemma_trim_front_at(t, a as int);
                    let u = t.subrange(a as int, t.len() as int);
                    assert(forall|k: int|
                        (b - a) <= k < u.len() ==> !is_alphanum(#[trigger] u[k]));
                    assert(is_alphanum(u[b - a - 1]));
                    lemma_trim_back_at(u, (b - a) as int);
                    assert(u.subrange(0, (b - a) as int) =~= t.subrange(a as int, b as int));
                    assert(trimmed(t) == t.subrange(a as int, b as int));
                    assert(trimmed(t).len() > 0);
                }
                let clean = lowercase(core);
                proof {
                    assert(clean@ == normalize(t));
                }
                let is_stop = if ignore_stopwords {
                    check_stopword(&clean)
                } else {
                    false
                };
                if !is_stop {
                    proof {
                        assert(keeps(t, ignore_stopwords));
                        lemma_norm_len_le(done, ignore_stopwords);
                        assert(table.total() < usize::MAX);
                    }
                    let ghost pre = table;
                    table.increment(clean);
                    proof {
                        lemma_norm_push(done, t, ignore_stopwords);
                        assert(norm_of(done.push(t), ignore_stopwords) == norm_of(
                            done,
                            ignore_stopwords,
                        ).push(normalize(t)));
                        assert forall|w: Seq<char>| #[trigger] table.spec_count(w) == norm_of(
                            done.push(t),
                            ignore_stopwords,
                        ).to_multiset().count(w) by {
                            let q = norm_of(done, ignore_stopwords);
                            assert(norm_of(done.push(t), ignore_stopwords).to_multiset()
                                =~= q.push(normalize(t)).to_multiset());
                            vstd::seq_lib::to_multiset_build(q, normalize(t));
                            assert(q.push(normalize(t)).to_multiset() =~= q.to_multiset().insert(
                                normalize(t),
                            ));
                            assert(q.to_multiset().insert(normalize(t)).count(w)
                                == q.to_multiset().count(w) + (if w == normalize(t) {
                                1nat
                            } else {
                                0nat
                            }));
                            assert(table.spec_count(w) == pre.spec_count(w) + (if w == clean@ {
                                1nat
                            } else {
                                0nat
                            }));
                            assert(pre.spec_count(w) == q.to_multiset().count(w));
                        }
                    }
                } else {
                    proof {
                        assert(!keeps(t, ignore_stopwords));
                        lemma_norm_push(done, t, ignore_stopwords);
                    }
                }
            } else {
                proof {
                    lemma_trim_front_at(t, m as int);
                    assert(trim_front(t) =~= t.subrange(m as int, m as int));
                    assert(trim_front(t).len() == 0);
                    assert(trimmed(t).len() == 0);
                    assert(!keeps(t, ignore_stopwords));
                    lemma_norm_push(done, t, ignore_stopwords);
                }
            }
            proof {
                done = done.push(t);
            }
            i = j;
        }
    }
    proof {
        assert(s.subrange(n as int, n as int) =~= Seq::<char>::empty());
        assert(raw_tokens(s.subrange(n as int, n as int)) =~= Seq::<Seq<char>>::empty());
        assert(done + raw_tokens(s.subrange(n as int, n as int)) =~= done);
        assert(raw_tokens(s) == done);
    }
    table
}

} // verus!
