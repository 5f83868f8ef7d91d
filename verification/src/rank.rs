//! The ranker: select the `n` most frequent entries of a table, ordered by
//! descending count. Among equal counts the order is the table's entry
//! order (first occurrence first); the reported contract fixes only the
//! descending-count order, as the choice of tie-break is not part of it.

use vstd::prelude::*;
use vstd::multiset::Multiset;
use crate::table::{WordFrequencyTable, seq_count, lemma_seq_count_single};

verus! {

/// In a well-formed entry sequence, a pair that occurs is the only entry
/// for its word, so the word's total is that pair's count.
proof fn lemma_entry_count(s: Seq<(String, usize)>, i: int)
    requires
        forall|x: int, y: int| 0 <= x < y < s.len() ==> (#[trigger] s[x]).0@ != (#[trigger] s[y]).0@,
        0 <= i < s.len(),
    ensures
        seq_count(s, s[i].0@) == s[i].1,
{
    assert forall|j: int| 0 <= j < s.len() && j != i implies (#[trigger] s[j]).0@ != s[i].0@ by {
        if j < i {
            assert(s[j].0@ != s[i].0@);
        } else {
            assert(s[i].0@ != s[j].0@);
        }
    }
    lemma_seq_count_single(s, s[i].0@, i);
}

/// The `n` entries of `counts` with the highest counts, in descending
/// count order: exactly `min(n, table size)` entries, each one an entry of
/// the table with its stored count, no word twice, and no left-out entry
/// counts more than the last reported one.
pub fn top_words(counts: &WordFrequencyTable, n: usize) -> (r: Vec<(String, usize)>)
    requires
        counts.wf(),
    ensures
        r@.len() == if n <= counts@.len() {
            n as int
        } else {
            counts@.len() as int
        },
        forall|i: int, j: int| 0 <= i < j < r@.len() ==> (#[trigger] r@[i]).1 >= (#[trigger] r@[j]).1,
        forall|i: int| 0 <= i < r@.len() ==> counts@.contains(#[trigger] r@[i]),
        forall|i: int| 0 <= i < r@.len() ==> counts.spec_count((#[trigger] r@[i]).0@) == r@[i].1,
        forall|i: int, j: int| 0 <= i < j < r@.len() ==> (#[trigger] r@[i]).0@ != (#[trigger] r@[j]).0@,
        n >= counts@.len() ==> r@.to_multiset() == counts@.to_multiset(),
        forall|i: int|
            0 <= i < counts@.len() && r@.len() > 0 && !r@.contains(#[trigger] counts@[i])
                ==> counts@[i].1 <= r@[r@.len() - 1].1,
{
    broadcast use vstd::seq_lib::group_to_multiset_ensures;
    broadcast use vstd::multiset::group_multiset_axioms;

    let entries = counts.entries();
    let mut rest: Vec<(String, usize)> = Vec::new();
    let mut k: usize = 0;
    while k < entries.len()
        invariant
            entries@ == counts@,
            k <= entries@.len(),
            rest@.len() == k,
            forall|i: int| 0 <= i < k ==> rest@[i] == entries@[i],
        decreases entries@.len() - k,
    {
        let w = entries[k].0.clone();
        let c = entries[k].1;
        rest.push((w, c));
        k += 1;
    }
    proof {
        assert(rest@ =~= counts@);
    }
    let mut out: Vec<(String, usize)> = Vec::new();
    while out.len() < n && rest.len() > 0
        invariant
            counts.wf(),
            out@.len() + rest@.len() == counts@.len(),
            out@.len() <= n,
            out@.to_multiset().add(rest@.to_multiset()) == counts@.to_multiset(),
            forall|i: int, j: int|
                0 <= i < j < out@.len() ==> (#[trigger] out@[i]).1 >= (#[trigger] out@[j]).1,
            forall|i: int|
                0 <= i < rest@.len() && out@.len() > 0 ==> (#[trigger] rest@[i]).1
                    <= out@[out@.len() - 1].1,
        decreases rest@.len(),
    {
        let mut best: usize = 0;
        let mut idx: usize = 1;
        while idx < rest.len()
            invariant
                rest@.len() > 0,
                best < idx <= rest@.len(),
                forall|q: int| 0 <= q < idx ==> (#[trigger] rest@[q]).1 <= rest@[best as int].1,
            decreases rest@.len() - idx,
        {
            if rest[idx].1 > rest[best].1 {
                best = idx;
            }
            idx += 1;
        }
        let ghost rest0 = rest@;
        let ghost out0 = out@;
        let p = rest.remove(best);
        out.push(p);
        proof {
            vstd::seq_lib::to_multiset_contains(rest0, p);
            vstd::seq_lib::to_multiset_build(out0, p);
            vstd::seq_lib::to_multiset_remove(rest0, best as int);
            assert(rest0.contains(p));
            assert(rest0.to_multiset().count(p) > 0);
            assert(out@.to_multiset() =~= out0.to_multiset().insert(p));
            assert(rest@.to_multiset() =~= rest0.to_multiset().remove(p));
            assert(out@.to_multiset().add(rest@.to_multiset()) =~= counts@.to_multiset());
            assert(forall|i: int|
                0 <= i < rest@.len() ==> (#[trigger] rest@[i]).1 <= p.1);
        }
    }
    proof {
        if n >= counts@.len() {
            assert(rest@.len() == 0);
            assert(rest@.to_multiset() =~= Multiset::<(String, usize)>::empty());
            assert(out@.to_multiset() =~= counts@.to_multiset());
        }
        assert(counts@.no_duplicates()) by {
            assert forall|x: int, y: int|
                0 <= x < y < counts@.len() implies counts@[x] != counts@[y] by {
                assert(counts@[x].0@ != counts@[y].0@);
            }
        }
        counts@.lemma_multiset_has_no_duplicates();
        assert forall|i: int| 0 <= i < out@.len() implies counts@.contains(#[trigger] out@[i]) by {
            assert(out@.to_multiset().count(out@[i]) > 0);
            assert(counts@.to_multiset().count(out@[i]) > 0);
        }
        assert forall|i: int|
            0 <= i < out@.len() implies counts.spec_count((#[trigger] out@[i]).0@)
            == out@[i].1 by {
            assert(counts@.contains(out@[i]));
            let e = choose|e: int| 0 <= e < counts@.len() && counts@[e] == out@[i];
            lemma_entry_count(counts@, e);
        }
        assert(forall|x: (String, usize)| #[trigger] out@.to_multiset().count(x)
            <= counts@.to_multiset().count(x));
        out@.lemma_multiset_has_no_duplicates_conv();
        assert forall|i: int, j: int|
            0 <= i < j < out@.len() implies (#[trigger] out@[i]).0@ != (#[trigger] out@[j]).0@ by {
            if out@[i].0@ == out@[j].0@ {
                let ei = choose|e: int| 0 <= e < counts@.len() && counts@[e] == out@[i];
                let ej = choose|e: int| 0 <= e < counts@.len() && counts@[e] == out@[j];
                assert(counts@.contains(out@[i]));
                assert(counts@.contains(out@[j]));
                if ei != ej {
                    assert(counts@[ei].0@ != counts@[ej].0@);
                } else {
                    assert(out@[i] == out@[j]);
                    assert(out@.no_duplicates());
                }
            }
        }
        assert forall|i: int|
            0 <= i < counts@.len() && out@.len() > 0 && !out@.contains(#[trigger] counts@[i])
                implies counts@[i].1 <= out@[out@.len() - 1].1 by {
            let e = counts@[i];
            assert(counts@.to_multiset().count(e) > 0);
            assert(out@.to_multiset().count(e) == 0);
            assert(rest@.to_multiset().count(e) > 0);
            assert(rest@.contains(e));
            let q = choose|q: int| 0 <= q < rest@.len() && rest@[q] == e;
            assert(rest@[q].1 <= out@[out@.len() - 1].1);
        }
    }
    out
}

} // verus!
