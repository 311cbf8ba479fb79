//! `todo generate --pairs`: the ratchet granularity of the baseline, one
//! (rule, path, count) budget per pair of the current findings.

use crate::baseline::{BaselineEntry, BaselinePair};
use crate::runner::{lemma_text_lt_irrefl, lemma_text_lt_total, lemma_text_lt_trans, text_less_pub, text_lt};
use crate::text::str_eq;
use vstd::prelude::*;

verus! {

pub type PairName = (Seq<char>, Seq<char>);

/// Pairs in order: by rule id, then by path.
pub open spec fn pair_lt(a: PairName, b: PairName) -> bool {
    text_lt(a.0, b.0) || (a.0 == b.0 && text_lt(a.1, b.1))
}

pub open spec fn pair_of(p: BaselinePair) -> PairName {
    (p.rule_id@, p.path@)
}

pub open spec fn entry_pair(e: BaselineEntry) -> PairName {
    (e.rule_id@, e.path@)
}

/// How many entries record the pair `k`.
pub open spec fn count_pair(s: Seq<BaselineEntry>, k: PairName) -> nat
    decreases s.len(),
{
    if s.len() == 0 {
        0
    } else {
        count_pair(s.drop_last(), k) + if entry_pair(s.last()) == k { 1nat } else { 0nat }
    }
}

/// `r` holds one budget per pair recorded in `s`, in pair order, each
/// counting that pair's entries.
pub open spec fn counts_of(r: Seq<BaselinePair>, s: Seq<BaselineEntry>) -> bool {
    &&& forall|i: int, j: int| 0 <= i < j < r.len() ==> pair_lt(pair_of(#[trigger] r[i]), pair_of(#[trigger] r[j]))
    &&& forall|i: int| 0 <= i < r.len() ==> (#[trigger] r[i]).count == count_pair(s, pair_of(r[i])) && r[i].count > 0
    &&& forall|k: int| 0 <= k < s.len() ==> exists|i: int| 0 <= i < r.len() && pair_of(#[trigger] r[i]) == entry_pair(#[trigger] s[k])
}

proof fn lemma_pair_lt(a: PairName, b: PairName, c: PairName)
    ensures
        !pair_lt(a, a),
        pair_lt(a, b) ==> !pair_lt(b, a),
        a != b ==> pair_lt(a, b) || pair_lt(b, a),
        pair_lt(a, b) && pair_lt(b, c) ==> pair_lt(a, c),
{
    lemma_text_lt_irrefl(a.0);
    lemma_text_lt_irrefl(a.1);
    lemma_text_lt_total(a.0, b.0);
    lemma_text_lt_total(a.1, b.1);
    if text_lt(a.0, b.0) && text_lt(b.0, c.0) {
        lemma_text_lt_trans(a.0, b.0, c.0);
    }
    if text_lt(a.1, b.1) && text_lt(b.1, c.1) {
        lemma_text_lt_trans(a.1, b.1, c.1);
    }
}

proof fn lemma_count_absent(s: Seq<BaselineEntry>, k: PairName)
    requires
        forall|j: int| 0 <= j < s.len() ==> entry_pair(#[trigger] s[j]) != k,
    ensures
        count_pair(s, k) == 0,
    decreases s.len(),
{
    if s.len() > 0 {
        assert(entry_pair(s[s.len() - 1]) != k);
        assert forall|j: int| 0 <= j < s.drop_last().len() implies entry_pair(#[trigger] s.drop_last()[j]) != k by {
            assert(s.drop_last()[j] == s[j]);
        }
        lemma_count_absent(s.drop_last(), k);
    }
}

fn pair_less(a: &BaselineEntry, b: &BaselinePair) -> (r: bool)
    ensures
        r == pair_lt(entry_pair(*a), pair_of(*b)),
{
    text_less_pub(a.rule_id.as_str(), b.rule_id.as_str()) || (str_eq(a.rule_id.as_str(), b.rule_id.as_str()) && text_less_pub(
        a.path.as_str(),
        b.path.as_str(),
    ))
}

/// One budget per (rule, path) pair of the entries, in pair order, each
/// counting that pair's entries.
pub fn pair_counts(entries: &Vec<BaselineEntry>) -> (r: Vec<BaselinePair>)
    ensures
        counts_of(r@, entries@),
{
    let mut out: Vec<BaselinePair> = Vec::new();
    let mut n: usize = 0;
    while n < entries.len()
        invariant
            n <= entries@.len(),
            counts_of(out@, entries@.subrange(0, n as int)),
            forall|i: int| 0 <= i < out@.len() ==> (#[trigger] out@[i]).count <= n,
        decreases entries@.len() - n,
    {
        let e = &entries[n];
        let ghost s0 = entries@.subrange(0, n as int);
        let ghost s1 = entries@.subrange(0, n + 1);
        let ghost o0 = out@;
        let ghost k = entry_pair(*e);
        assert(s1.drop_last() =~= s0);
        assert(s1.last() == *e);
        let mut i: usize = 0;
        while i < out.len() && pair_less(e, &out[i]) == false && !(str_eq(e.rule_id.as_str(), out[i].rule_id.as_str()) && str_eq(
            e.path.as_str(),
            out[i].path.as_str(),
        ))
            invariant
                i <= out@.len(),
                out@ == o0,
                k == entry_pair(*e),
                forall|j: int| 0 <= j < i ==> pair_lt(pair_of(#[trigger] o0[j]), k),
            decreases out@.len() - i,
        {
            proof {
                lemma_pair_lt(k, pair_of(o0[i as int]), k);
            }
            i = i + 1;
        }
        if i < out.len() && str_eq(e.rule_id.as_str(), out[i].rule_id.as_str()) && str_eq(e.path.as_str(), out[i].path.as_str()) {
            let c = out[i].count;
            let p = BaselinePair { rule_id: out[i].rule_id.clone(), path: out[i].path.clone(), count: c + 1 };
            out.set(i, p);
            proof {
                assert(out@ =~= o0.update(i as int, p));
                assert forall|a: int, b: int| 0 <= a < b < out@.len() implies pair_lt(pair_of(#[trigger] out@[a]), pair_of(#[trigger] out@[b])) by {
                    assert(pair_of(out@[a]) == pair_of(o0[a]));
                    assert(pair_of(out@[b]) == pair_of(o0[b]));
                }
                assert forall|j: int| 0 <= j < out@.len() implies (#[trigger] out@[j]).count == count_pair(s1, pair_of(out@[j]))
                    && out@[j].count > 0 by {
                    assert(count_pair(s1, pair_of(out@[j])) == count_pair(s0, pair_of(out@[j])) + if k == pair_of(out@[j]) { 1nat } else { 0nat });
                    if j != i {
                        lemma_pair_lt(pair_of(o0[j]), pair_of(o0[i as int]), k);
                        if j < i {
                            assert(pair_lt(pair_of(o0[j]), pair_of(o0[i as int])));
                        } else {
                            assert(pair_lt(pair_of(o0[i as int]), pair_of(o0[j])));
                            lemma_pair_lt(pair_of(o0[i as int]), pair_of(o0[j]), k);
                        }
                    }
                }
                assert forall|q: int| 0 <= q < s1.len() implies exists|j: int| 0 <= j < out@.len() && pair_of(#[trigger] out@[j]) == entry_pair(
                    #[trigger] s1[q],
                ) by {
                    if q < n {
                        assert(s1[q] == s0[q]);
                        let j = choose|j: int| 0 <= j < o0.len() && pair_of(#[trigger] o0[j]) == entry_pair(#[trigger] s0[q]);
                        assert(pair_of(out@[j]) == pair_of(o0[j]));
                    } else {
                        assert(pair_of(out@[i as int]) == k);
                    }
                }
            }
        } else {
            let p = BaselinePair { rule_id: e.rule_id.clone(), path: e.path.clone(), count: 1 };
            proof {
                if i < o0.len() {
                    lemma_pair_lt(k, pair_of(o0[i as int]), k);
                }
                assert(forall|j: int| 0 <= j < o0.len() ==> pair_of(#[trigger] o0[j]) != k) by {
                    assert forall|j: int| 0 <= j < o0.len() implies pair_of(#[trigger] o0[j]) != k by {
                        if j < i {
                            lemma_pair_lt(pair_of(o0[j]), k, k);
                        } else {
                            lemma_pair_lt(k, pair_of(o0[i as int]), pair_of(o0[j]));
                            if j > i {
                                assert(pair_lt(pair_of(o0[i as int]), pair_of(o0[j])));
                            }
                            lemma_pair_lt(k, pair_of(o0[j]), k);
                        }
                    }
                }
                assert forall|q: int| 0 <= q < s0.len() implies entry_pair(#[trigger] s0[q]) != k by {
                    let j = choose|j: int| 0 <= j < o0.len() && pair_of(#[trigger] o0[j]) == entry_pair(#[trigger] s0[q]);
                    assert(pair_of(o0[j]) != k);
                }
                lemma_count_absent(s0, k);
            }
            out.insert(i, p);
            proof {
                assert(out@ =~= o0.insert(i as int, p));
                assert forall|a: int, b: int| 0 <= a < b < out@.len() implies pair_lt(pair_of(#[trigger] out@[a]), pair_of(#[trigger] out@[b])) by {
                    if a < i && b < i {
                        assert(out@[a] == o0[a] && out@[b] == o0[b]);
                    } else if a < i && b == i {
                        assert(out@[a] == o0[a]);
                    } else if a < i && b > i {
                        assert(out@[a] == o0[a] && out@[b] == o0[b - 1]);
                        lemma_pair_lt(pair_of(o0[a]), k, pair_of(o0[b - 1]));
                        if b - 1 > i {
                            lemma_pair_lt(k, pair_of(o0[i as int]), pair_of(o0[b - 1]));
                        }
                    } else if a == i {
                        assert(out@[b] == o0[b - 1]);
                        if b - 1 > i {
                            lemma_pair_lt(k, pair_of(o0[i as int]), pair_of(o0[b - 1]));
                        }
                    } else {
                        assert(out@[a] == o0[a - 1] && out@[b] == o0[b - 1]);
                    }
                }
                assert forall|j: int| 0 <= j < out@.len() implies (#[trigger] out@[j]).count == count_pair(s1, pair_of(out@[j]))
                    && out@[j].count > 0 by {
                    assert(count_pair(s1, pair_of(out@[j])) == count_pair(s0, pair_of(out@[j])) + if k == pair_of(out@[j]) { 1nat } else { 0nat });
                    if j < i {
                        assert(out@[j] == o0[j]);
                    } else if j > i {
                        assert(out@[j] == o0[j - 1]);
                    }
                }
                assert forall|q: int| 0 <= q < s1.len() implies exists|j: int| 0 <= j < out@.len() && pair_of(#[trigger] out@[j]) == entry_pair(
                    #[trigger] s1[q],
                ) by {
                    if q < n {
                        assert(s1[q] == s0[q]);
                        let j = choose|j: int| 0 <= j < o0.len() && pair_of(#[trigger] o0[j]) == entry_pair(#[trigger] s0[q]);
                        if j < i {
                            assert(out@[j] == o0[j]);
                        } else {
                            assert(out@[j + 1] == o0[j]);
                        }
                    } else {
                        assert(out@[i as int] == p);
                    }
                }
            }
        }
        n = n + 1;
    }
    assert(entries@.subrange(0, n as int) =~= entries@);
    out
}

} // verus!
