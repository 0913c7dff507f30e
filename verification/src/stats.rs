//! Percentiles over a sample set. Deliberately not a mean: the tail is the interesting part, and a
//! mean is the statistic that hides it.

use crate::text::{decimal, push_decimal};
use vstd::prelude::*;
use vstd::relations::{sorted_by, total_ordering};
use vstd::string::StringExecFns;

verus! {

/// The samples in ascending order.
pub open spec fn in_order(s: Seq<u64>) -> Seq<u64> {
    s.sort_by(|a: u64, b: u64| a <= b)
}

/// No sample is above a later one.
pub open spec fn ascending(s: Seq<u64>) -> bool {
    forall|i: int, j: int| 0 <= i < j < s.len() ==> s[i] <= s[j]
}

/// The place, in ascending order of `n` samples, of the one at `per_mille` thousandths of the way
/// from the first to the last: the nearest, and of two equally near the later.
pub open spec fn rank(n: nat, per_mille: nat) -> int {
    ((n - 1) * per_mille + 500) / 1000
}

/// The sample at `per_mille` thousandths of the way from the least to the greatest.
pub open spec fn percentile(s: Seq<u64>, per_mille: nat) -> u64 {
    in_order(s)[rank(s.len(), per_mille)]
}

/// `in_order` is the same samples, ascending, and there is no other such arrangement.
pub proof fn lemma_in_order(s: Seq<u64>)
    ensures
        ascending(in_order(s)),
        in_order(s).to_multiset() == s.to_multiset(),
        in_order(s).len() == s.len(),
        forall|t: Seq<u64>|
            ascending(t) && #[trigger] t.to_multiset() == s.to_multiset() ==> t == in_order(s),
{
    let leq = |a: u64, b: u64| a <= b;
    assert(total_ordering(leq));
    s.lemma_sort_by_ensures(leq);
    let o = in_order(s);
    assert(ascending(o)) by {
        assert forall|i: int, j: int| 0 <= i < j < o.len() implies o[i] <= o[j] by {
            assert(leq(o[i], o[j]));
        }
    }
    vstd::seq_lib::to_multiset_len(s);
    vstd::seq_lib::to_multiset_len(o);
    assert forall|t: Seq<u64>|
        ascending(t) && #[trigger] t.to_multiset() == s.to_multiset() implies t == o by {
        assert(sorted_by(t, leq)) by {
            assert forall|i: int, j: int| 0 <= i < j < t.len() implies #[trigger] leq(
                t[i],
                t[j],
            ) by {}
        }
        vstd::seq_lib::lemma_sorted_unique(t, o, leq);
    }
}

/// A percentile up to the thousandth thousandth is one of the samples.
pub proof fn lemma_rank_bounds(n: nat, per_mille: nat)
    requires
        n > 0,
        per_mille <= 1000,
    ensures
        0 <= rank(n, per_mille) < n,
        rank(n, 0) == 0,
        rank(n, 1000) == n - 1,
{
    assert(0 <= (n - 1) * per_mille <= (n - 1) * 1000) by (nonlinear_arith)
        requires
            n > 0,
            per_mille <= 1000,
    ;
}

/// The place of a percentile is the nearest there is: a thousand times the place misses `per_mille`
/// times the last place by no more than five hundred, and of two that are equally near it is the
/// later.
pub proof fn law_rank_is_nearest(n: nat, per_mille: nat)
    requires
        n > 0,
        per_mille <= 1000,
    ensures
        0 <= rank(n, per_mille) <= n - 1,
        -500 < 1000 * rank(n, per_mille) - (n - 1) * per_mille <= 500,
{
    lemma_rank_bounds(n, per_mille);
}

/// A percentile is the sample at the nearest place, however the samples are put in order: with as
/// many of them before it as its distance from the first asks for, and none of those above it.
pub proof fn law_percentile_is_nearest(s: Seq<u64>, t: Seq<u64>, per_mille: nat)
    requires
        s.len() > 0,
        per_mille <= 1000,
        s.to_multiset() == t.to_multiset(),
        forall|i: int, j: int| 0 <= i < j < t.len() ==> t[i] <= t[j],
    ensures
        t.len() == s.len(),
        exists|r: int|
            0 <= r < t.len() && -500 < 1000 * r - (t.len() - 1) * per_mille <= 500
                && #[trigger] t[r] == percentile(s, per_mille),
{
    lemma_in_order(s);
    law_rank_is_nearest(s.len(), per_mille);
    vstd::seq_lib::to_multiset_len(s);
    vstd::seq_lib::to_multiset_len(t);
    assert(ascending(t));
    assert(t == in_order(s));
    assert(t[rank(s.len(), per_mille)] == percentile(s, per_mille));
}

/// There is no interpolation: every percentile is one of the samples.
pub proof fn law_percentiles_are_samples(s: Seq<u64>, per_mille: nat)
    requires
        s.len() > 0,
        per_mille <= 1000,
    ensures
        s.contains(percentile(s, per_mille)),
{
    lemma_in_order(s);
    lemma_rank_bounds(s.len(), per_mille);
    let o = in_order(s);
    let v = percentile(s, per_mille);
    assert(o[rank(s.len(), per_mille)] == v);
    vstd::seq_lib::to_multiset_contains(o, v);
    vstd::seq_lib::to_multiset_contains(s, v);
}

/// A higher percentile is nowhere lower.
pub proof fn law_percentiles_ascend(s: Seq<u64>, low: nat, high: nat)
    requires
        s.len() > 0,
        low <= high <= 1000,
    ensures
        percentile(s, 0) <= percentile(s, low) <= percentile(s, high) <= percentile(s, 1000),
        percentile(s, 0) == in_order(s)[0],
        percentile(s, 1000) == in_order(s)[s.len() - 1],
{
    lemma_in_order(s);
    lemma_rank_bounds(s.len(), low);
    lemma_rank_bounds(s.len(), high);
    assert((s.len() - 1) * low <= (s.len() - 1) * high) by (nonlinear_arith)
        requires
            s.len() > 0,
            low <= high,
    ;
}

/// The order in which the samples were taken does not matter.
pub proof fn law_percentiles_ignore_order(s: Seq<u64>, t: Seq<u64>, per_mille: nat)
    requires
        s.to_multiset() == t.to_multiset(),
    ensures
        percentile(s, per_mille) == percentile(t, per_mille),
{
    lemma_in_order(s);
    lemma_in_order(t);
    vstd::seq_lib::to_multiset_len(s);
    vstd::seq_lib::to_multiset_len(t);
}

/// Sort in place: `<[u64]>::sort_unstable` of the standard library. Claimed of it: the same values,
/// in ascending order.
#[verifier::external_body]
fn sort_unstable(v: &mut [u64])
    ensures
        ascending(final(v)@),
        final(v)@.to_multiset() == old(v)@.to_multiset(),
{
    v.sort_unstable();
}

/// The place of the sample at `per_mille` thousandths.
fn rank_of(n: usize, per_mille: u64) -> (r: usize)
    requires
        n > 0,
        per_mille <= 1000,
    ensures
        r == rank(n as nat, per_mille as nat),
{
    proof {
        lemma_rank_bounds(n as nat, per_mille as nat);
        assert(0 <= (n - 1) * per_mille <= 0xffff_ffff_ffff_ffff * 1000) by (nonlinear_arith)
            requires
                0 < n <= 0xffff_ffff_ffff_ffff,
                per_mille <= 1000,
        ;
    }
    (((n - 1) as u128 * per_mille as u128 + 500) / 1000) as usize
}

/// A summary of a sample set.
#[derive(Debug, Clone, Copy, PartialEq, Eq, Structural)]
pub struct Stats {
    pub n: usize,
    pub min: u64,
    pub p50: u64,
    pub p90: u64,
    pub p99: u64,
    pub p999: u64,
    pub max: u64,
}

/// What is said of these samples.
pub open spec fn told(s: Seq<u64>) -> Stats {
    Stats {
        n: s.len() as usize,
        min: in_order(s)[0],
        p50: percentile(s, 500),
        p90: percentile(s, 900),
        p99: percentile(s, 990),
        p999: percentile(s, 999),
        max: in_order(s)[s.len() - 1],
    }
}

/// `v` is the one of the ascending samples `t` that is nearest to `per_mille` thousandths of the way
/// from the first to the last, of two equally near the later.
pub open spec fn stands_at(t: Seq<u64>, per_mille: nat, v: u64) -> bool {
    exists|r: int|
        0 <= r < t.len() && -500 < 1000 * r - (t.len() - 1) * per_mille <= 500 && #[trigger] t[r]
            == v
}

/// What is said of samples, in terms of their ascending order: how many they are, the first and the
/// last, and those at 500, 900, 990 and 999 thousandths of the way between.
pub proof fn law_told_of_samples(s: Seq<u64>, t: Seq<u64>)
    requires
        0 < s.len() <= usize::MAX,
        s.to_multiset() == t.to_multiset(),
        forall|i: int, j: int| 0 <= i < j < t.len() ==> t[i] <= t[j],
    ensures
        told(s).n == s.len(),
        told(s).min == t[0],
        told(s).max == t[t.len() - 1],
        stands_at(t, 500, told(s).p50),
        stands_at(t, 900, told(s).p90),
        stands_at(t, 990, told(s).p99),
        stands_at(t, 999, told(s).p999),
{
    lemma_in_order(s);
    assert(ascending(t));
    assert(t == in_order(s));
    law_percentile_is_nearest(s, t, 500);
    law_percentile_is_nearest(s, t, 900);
    law_percentile_is_nearest(s, t, 990);
    law_percentile_is_nearest(s, t, 999);
}

impl Stats {
    /// Sort the samples and read the percentiles off.
    pub fn from(v: &mut [u64]) -> (r: Stats)
        requires
            old(v)@.len() > 0,
        ensures
            final(v)@ == in_order(old(v)@),
            r == (Stats {
                n: old(v)@.len() as usize,
                min: in_order(old(v)@)[0],
                p50: percentile(old(v)@, 500),
                p90: percentile(old(v)@, 900),
                p99: percentile(old(v)@, 990),
                p999: percentile(old(v)@, 999),
                max: in_order(old(v)@)[old(v)@.len() - 1],
            }),
            r == told(old(v)@),
    {
        let n: usize = v.len();
        sort_unstable(v);
        proof {
            lemma_in_order(old(v)@);
            lemma_rank_bounds(n as nat, 500);
            lemma_rank_bounds(n as nat, 900);
            lemma_rank_bounds(n as nat, 990);
            lemma_rank_bounds(n as nat, 999);
        }
        Stats {
            n,
            min: v[0],
            p50: v[rank_of(n, 500)],
            p90: v[rank_of(n, 900)],
            p99: v[rank_of(n, 990)],
            p999: v[rank_of(n, 999)],
            max: v[n - 1],
        }
    }
}

/// The two percentiles of a short table.
#[derive(Debug, Clone, Copy, PartialEq, Eq, Structural)]
pub struct Summary {
    pub p50: u64,
    pub p99: u64,
}

/// Sort the samples and read two percentiles off.
pub fn summarise(v: &mut [u64]) -> (r: Summary)
    requires
        old(v)@.len() > 0,
    ensures
        final(v)@ == in_order(old(v)@),
        r == (Summary { p50: percentile(old(v)@, 500), p99: percentile(old(v)@, 990) }),
{
    let n: usize = v.len();
    sort_unstable(v);
    proof {
        lemma_in_order(old(v)@);
        lemma_rank_bounds(n as nat, 500);
        lemma_rank_bounds(n as nat, 990);
    }
    Summary { p50: v[rank_of(n, 500)], p99: v[rank_of(n, 990)] }
}

/// The sample in the middle of the ascending order, of two the later.
pub open spec fn middle(s: Seq<u64>) -> u64 {
    in_order(s)[s.len() as int / 2]
}

/// The middle is in the middle: it is one of the samples, and in ascending order as many come before
/// it as behind it, or one more.
pub proof fn law_middle_is_in_the_middle(s: Seq<u64>, t: Seq<u64>)
    requires
        s.len() > 0,
        s.to_multiset() == t.to_multiset(),
        forall|i: int, j: int| 0 <= i < j < t.len() ==> t[i] <= t[j],
    ensures
        t.len() == s.len(),
        exists|r: int|
            0 <= r < t.len() && (r == t.len() - 1 - r || r == t.len() - r) && #[trigger] t[r]
                == middle(s),
{
    lemma_in_order(s);
    vstd::seq_lib::to_multiset_len(s);
    vstd::seq_lib::to_multiset_len(t);
    assert(ascending(t));
    assert(t == in_order(s));
    assert(t[s.len() as int / 2] == middle(s));
}

/// Sort the samples and take the one in the middle, of two the later.
pub fn median(v: &mut [u64]) -> (r: u64)
    requires
        old(v)@.len() > 0,
    ensures
        final(v)@ == in_order(old(v)@),
        r == in_order(old(v)@)[old(v)@.len() as int / 2],
        r == middle(old(v)@),
{
    let n: usize = v.len();
    sort_unstable(v);
    proof {
        lemma_in_order(old(v)@);
    }
    v[n / 2]
}

/// One row of a table of raw samples: what was measured, the number of the sample, and its value,
/// separated by commas.
pub fn csv_row(kind: &str, index: u64, ns: u64) -> (r: String)
    ensures
        r@ == kind@ + ","@ + decimal(index as nat) + ","@ + decimal(ns as nat),
{
    let mut s = String::from_str(kind);
    s.append(",");
    push_decimal(&mut s, index);
    s.append(",");
    push_decimal(&mut s, ns);
    s
}

} // verus!
