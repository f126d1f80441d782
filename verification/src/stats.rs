use vstd::prelude::*;
use vstd::relations::{sorted_by, total_ordering};
use vstd::seq_lib::{lemma_multiset_commutative, lemma_sorted_unique};

verus! {

/// The order in which trial statistics are ranked.
pub open spec fn stat_leq() -> spec_fn(u64, u64) -> bool {
    |a: u64, b: u64| a <= b
}

/// The trial statistics in ascending order.
pub open spec fn sorted_stats(s: Seq<u64>) -> Seq<u64> {
    s.sort_by(stat_leq())
}

/// Sum of a sample sequence.
pub open spec fn sum_of(s: Seq<u64>) -> int
    decreases s.len(),
{
    if s.len() == 0 {
        0
    } else {
        sum_of(s.drop_last()) + s.last()
    }
}

/// Arithmetic mean of a non-empty sample sequence, rounded down.
pub open spec fn mean_of(s: Seq<u64>) -> int
    recommends
        s.len() > 0,
{
    sum_of(s) / (s.len() as int)
}

pub proof fn lemma_sum_bounds(s: Seq<u64>)
    ensures
        0 <= sum_of(s) <= s.len() * u64::MAX,
    decreases s.len(),
{
    if s.len() == 0 {
    } else {
        lemma_sum_bounds(s.drop_last());
        assert((s.len() - 1) * u64::MAX + u64::MAX == s.len() * u64::MAX) by (nonlinear_arith);
    }
}

pub proof fn lemma_sum_push(s: Seq<u64>, v: u64)
    ensures
        sum_of(s.push(v)) == sum_of(s) + v,
{
    assert(s.push(v).drop_last() =~= s);
}

/// `stat_leq` is a total order.
pub proof fn lemma_stat_leq_total()
    ensures
        total_ordering(stat_leq()),
{
}

/// Sorts trial statistics ascending by insertion into a fresh vector.
pub fn sort_stats(v: &Vec<u64>) -> (r: Vec<u64>)
    ensures
        r@ == sorted_stats(v@),
        r@.len() == v@.len(),
{
    let mut out: Vec<u64> = Vec::new();
    let mut i: usize = 0;
    proof {
        assert(v@.take(0int) =~= out@);
    }
    while i < v.len()
        invariant
            i <= v@.len(),
            out@.len() == i,
            sorted_by(out@, stat_leq()),
            out@.to_multiset() == v@.take(i as int).to_multiset(),
        decreases v@.len() - i,
    {
        let x = v[i];
        let mut p: usize = 0;
        while p < out.len() && out[p] <= x
            invariant
                p <= out@.len(),
                forall|k: int| 0 <= k < p ==> out@[k] <= x,
            decreases out@.len() - p,
        {
            p = p + 1;
        }
        let ghost prev = out@;
        out.insert(p, x);
        proof {
            assert(out@ =~= prev.take(p as int) + seq![x] + prev.skip(p as int));
            lemma_insert_multiset(prev, x, p as int);
            assert(v@.take(i + 1).drop_last() =~= v@.take(i as int));
            assert(v@.take(i + 1) =~= v@.take(i as int).push(v@[i as int]));
            broadcast use vstd::seq_lib::group_to_multiset_ensures;

            assert(out@.to_multiset() =~= v@.take(i + 1).to_multiset());
            assert forall|a: int, b: int|
                0 <= a < b < out@.len() implies stat_leq()(out@[a], out@[b]) by {
                if b < p {
                    assert(out@[a] == prev[a] && out@[b] == prev[b]);
                } else if a > p {
                    assert(out@[a] == prev[a - 1] && out@[b] == prev[b - 1]);
                } else if a == p {
                    assert(out@[a] == x && out@[b] == prev[b - 1]);
                    assert(!(prev[p as int] <= x));
                    assert(stat_leq()(prev[p as int], prev[b - 1]) || b - 1 == p);
                } else if b == p {
                    assert(out@[a] == prev[a] && out@[b] == x);
                } else {
                    assert(out@[a] == prev[a] && out@[b] == prev[b - 1]);
                    assert(a < p && b - 1 >= p);
                    assert(out@[a] <= x);
                    assert(b - 1 == p || stat_leq()(prev[p as int], prev[b - 1]));
                    assert(!(prev[p as int] <= x));
                }
            }
        }
        i = i + 1;
    }
    proof {
        assert(v@.take(v@.len() as int) =~= v@);
        v@.lemma_sort_by_ensures(stat_leq());
        lemma_stat_leq_total();
        lemma_sorted_unique(out@, sorted_stats(v@), stat_leq());
    }
    out
}

/// Inserting a value into a sequence adds it to the sequence's multiset.
proof fn lemma_insert_multiset(s: Seq<u64>, x: u64, p: int)
    requires
        0 <= p <= s.len(),
    ensures
        (s.take(p) + seq![x] + s.skip(p)).to_multiset() == s.to_multiset().insert(x),
{
    broadcast use vstd::seq_lib::group_to_multiset_ensures;

    lemma_multiset_commutative(s.take(p) + seq![x], s.skip(p));
    lemma_multiset_commutative(s.take(p), seq![x]);
    lemma_multiset_commutative(s.take(p), s.skip(p));
    assert(s.take(p) + s.skip(p) =~= s);
    assert(seq![x].to_multiset() =~= Seq::<u64>::empty().push(x).to_multiset());
    assert(Seq::<u64>::empty().to_multiset() =~= vstd::multiset::Multiset::<u64>::empty());
    assert((s.take(p) + seq![x] + s.skip(p)).to_multiset() =~= s.to_multiset().insert(x));
}

/// Robust summary of one configuration's trials: the average of the two
/// middle order statistics of the sorted trial list.
pub open spec fn reduce_spec(trials: Seq<u64>) -> int
    recommends
        trials.len() >= 2,
{
    let s = sorted_stats(trials);
    let m = trials.len() as int / 2;
    (s[m - 1] + s[m]) / 2
}

/// Reduces an even number of trial statistics to their middle-two average;
/// the result never exceeds a bound that every trial respects.
pub fn reduce_trials(trials: &Vec<u64>) -> (r: u64)
    requires
        trials@.len() >= 2,
        trials@.len() % 2 == 0,
    ensures
        r == reduce_spec(trials@),
        exists|i: int, j: int|
            0 <= i < trials@.len() && 0 <= j < trials@.len() && r == (trials@[i] + trials@[j])
                / 2,
{
    let sorted = sort_stats(trials);
    let m = trials.len() / 2;
    let lo = sorted[m - 1];
    let hi = sorted[m];
    proof {
        broadcast use vstd::seq_lib::group_to_multiset_ensures;

        trials@.lemma_sort_by_ensures(stat_leq());
        assert(sorted@.contains(lo) && sorted@.contains(hi));
        assert(trials@.contains(lo)) by {
            assert(sorted@.to_multiset().contains(lo));
            assert(trials@.to_multiset().contains(lo));
        }
        assert(trials@.contains(hi)) by {
            assert(sorted@.to_multiset().contains(hi));
            assert(trials@.to_multiset().contains(hi));
        }
        let ki = choose|ki: int| 0 <= ki < trials@.len() && trials@[ki] == lo;
        let kj = choose|kj: int| 0 <= kj < trials@.len() && trials@[kj] == hi;
        assert(0 <= ki < trials@.len() && 0 <= kj < trials@.len() && ((lo as u128 + hi as u128)
            / 2) as u64 == (trials@[ki] + trials@[kj]) / 2);
    }
    (((lo as u128) + (hi as u128)) / 2) as u64
}

} // verus!
