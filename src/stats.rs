//! Aggregates over distance tables: how many finite distances there are,
//! their sum, the sum of their squares and their maximum. Mean and
//! population standard deviation follow from the first three.
use vstd::prelude::*;
use crate::graph::adj_wf;
use crate::paths::{bfs, is_distance_table};

verus! {

/// The finite entries of one table, in order.
pub open spec fn row_finite(row: Seq<Option<usize>>) -> Seq<int>
    decreases row.len(),
{
    if row.len() == 0 {
        seq![]
    } else {
        let prior = row_finite(row.drop_last());
        match row.last() {
            Some(d) => prior.push(d as int),
            None => prior,
        }
    }
}

/// The finite entries of all tables, table after table.
pub open spec fn finite_distances(all: Seq<Vec<Option<usize>>>) -> Seq<int>
    decreases all.len(),
{
    if all.len() == 0 {
        seq![]
    } else {
        finite_distances(all.drop_last()) + row_finite(all.last()@)
    }
}

pub open spec fn sum_of(s: Seq<int>) -> int
    decreases s.len(),
{
    if s.len() == 0 {
        0
    } else {
        sum_of(s.drop_last()) + s.last()
    }
}

pub open spec fn sum_sq_of(s: Seq<int>) -> int
    decreases s.len(),
{
    if s.len() == 0 {
        0
    } else {
        sum_sq_of(s.drop_last()) + s.last() * s.last()
    }
}

/// The largest entry, or zero for none.
pub open spec fn max_of(s: Seq<int>) -> int
    decreases s.len(),
{
    if s.len() == 0 {
        0
    } else if s.last() > max_of(s.drop_last()) {
        s.last()
    } else {
        max_of(s.drop_last())
    }
}

/// The integer aggregates of the finite entries of a set of distance tables.
pub struct DistanceTotals {
    pub count: u128,
    pub sum: u128,
    pub sum_sq: u128,
    pub max: usize,
}

proof fn lemma_row_finite_concat(a: Seq<Option<usize>>, b: Seq<Option<usize>>)
    ensures
        row_finite(a + b) == row_finite(a) + row_finite(b),
    decreases b.len(),
{
    if b.len() == 0 {
        assert(a + b =~= a);
        assert(row_finite(a) + row_finite(b) =~= row_finite(a));
    } else {
        assert((a + b).drop_last() =~= a + b.drop_last());
        lemma_row_finite_concat(a, b.drop_last());
        match b.last() {
            Some(d) => {
                assert(row_finite(a) + row_finite(b) =~= (row_finite(a) + row_finite(b.drop_last())).push(d as int));
            },
            None => {},
        }
    }
}

proof fn lemma_finite_distances_concat(a: Seq<Vec<Option<usize>>>, b: Seq<Vec<Option<usize>>>)
    ensures
        finite_distances(a + b) == finite_distances(a) + finite_distances(b),
    decreases b.len(),
{
    if b.len() == 0 {
        assert(a + b =~= a);
        assert(finite_distances(a) + finite_distances(b) =~= finite_distances(a));
    } else {
        assert((a + b).drop_last() =~= a + b.drop_last());
        lemma_finite_distances_concat(a, b.drop_last());
        assert(finite_distances(a) + finite_distances(b)
            =~= (finite_distances(a) + finite_distances(b.drop_last())) + row_finite(b.last()@));
    }
}

proof fn lemma_entries_nonneg(s: Seq<Option<usize>>)
    ensures
        forall|i: int| 0 <= i < row_finite(s).len() ==> row_finite(s)[i] >= 0,
    decreases s.len(),
{
    if s.len() > 0 {
        lemma_entries_nonneg(s.drop_last());
        let p = row_finite(s.drop_last());
        assert forall|i: int| 0 <= i < row_finite(s).len() implies row_finite(s)[i] >= 0 by {
            if i < p.len() {
                assert(row_finite(s)[i] == p[i]);
            }
        }
    }
}

proof fn lemma_all_nonneg(all: Seq<Vec<Option<usize>>>)
    ensures
        forall|i: int| 0 <= i < finite_distances(all).len() ==> finite_distances(all)[i] >= 0,
    decreases all.len(),
{
    if all.len() > 0 {
        lemma_all_nonneg(all.drop_last());
        lemma_entries_nonneg(all.last()@);
        let p = finite_distances(all.drop_last());
        let q = row_finite(all.last()@);
        assert forall|i: int| 0 <= i < finite_distances(all).len() implies finite_distances(all)[i] >= 0 by {
            if i < p.len() {
                assert(finite_distances(all)[i] == p[i]);
            } else {
                assert(finite_distances(all)[i] == q[i - p.len()]);
            }
        }
    }
}

/// Sums over a prefix of non-negative entries are no larger than over the
/// whole, and a sum is no larger than the sum of squares.
proof fn lemma_sums_prefix(s: Seq<int>, n: int)
    requires
        0 <= n <= s.len(),
        forall|i: int| 0 <= i < s.len() ==> s[i] >= 0,
    ensures
        0 <= sum_of(s.take(n)) <= sum_of(s),
        0 <= sum_sq_of(s.take(n)) <= sum_sq_of(s),
        sum_of(s) <= sum_sq_of(s),
    decreases s.len(),
{
    if s.len() > 0 {
        let x = s.last();
        assert(x * x >= x) by (nonlinear_arith)
            requires
                x >= 0,
        ;
        if n == s.len() {
            assert(s.take(n) =~= s);
            lemma_sums_prefix(s.drop_last(), 0);
        } else {
            assert(s.take(n) =~= s.drop_last().take(n));
            lemma_sums_prefix(s.drop_last(), n);
        }
    } else {
        assert(s.take(n) =~= s);
    }
}

proof fn lemma_seen_prefix(all: Seq<Vec<Option<usize>>>, t: int, j: int)
    requires
        0 <= t < all.len(),
        0 <= j <= all[t]@.len(),
    ensures
        ({
            let seen = finite_distances(all.take(t)) + row_finite(all[t]@.take(j));
            &&& seen.len() <= finite_distances(all).len()
            &&& seen == finite_distances(all).take(seen.len() as int)
        }),
{
    let row = all[t]@;
    let one = seq![all[t]];
    assert(one.drop_last() =~= Seq::<Vec<Option<usize>>>::empty());
    assert(one.last() == all[t]);
    assert(finite_distances(one.drop_last()) =~= Seq::<int>::empty());
    assert(finite_distances(one) =~= row_finite(row));
    assert(all =~= all.take(t) + (one + all.skip(t + 1)));
    lemma_finite_distances_concat(all.take(t), one + all.skip(t + 1));
    lemma_finite_distances_concat(one, all.skip(t + 1));
    assert(row =~= row.take(j) + row.skip(j));
    lemma_row_finite_concat(row.take(j), row.skip(j));
    let seen = finite_distances(all.take(t)) + row_finite(row.take(j));
    assert(finite_distances(all) =~= seen + (row_finite(row.skip(j)) + finite_distances(all.skip(t + 1))));
    assert(seen =~= finite_distances(all).take(seen.len() as int));
}

/// The distance table of every node, in node order.
pub fn distance_tables(adj: &Vec<Vec<usize>>) -> (r: Vec<Vec<Option<usize>>>)
    requires
        adj_wf(adj@),
    ensures
        r@.len() == adj@.len(),
        forall|i: int| 0 <= i < r@.len() ==> is_distance_table(adj@, i, #[trigger] r@[i]@),
{
    let mut all: Vec<Vec<Option<usize>>> = Vec::new();
    let mut i: usize = 0;
    while i < adj.len()
        invariant
            adj_wf(adj@),
            i <= adj@.len(),
            all@.len() == i,
            forall|k: int| 0 <= k < i ==> is_distance_table(adj@, k, #[trigger] all@[k]@),
        decreases adj@.len() - i,
    {
        all.push(bfs(adj, i));
        i = i + 1;
    }
    all
}

/// The largest finite distance in the tables; zero where there is none.
pub fn max_distance(all: &Vec<Vec<Option<usize>>>) -> (r: usize)
    ensures
        r == max_of(finite_distances(all@)),
{
    let mut max: usize = 0;
    let ghost mut seen: Seq<int> = seq![];
    let mut t: usize = 0;
    while t < all.len()
        invariant
            t <= all@.len(),
            seen == finite_distances(all@.take(t as int)),
            max == max_of(seen),
        decreases all@.len() - t,
    {
        let row = &all[t];
        let mut j: usize = 0;
        assert(row@.take(0) =~= Seq::<Option<usize>>::empty());
        assert(seen + row_finite(row@.take(0)) =~= seen);
        while j < row.len()
            invariant
                t < all@.len(),
                row == all@[t as int],
                j <= row@.len(),
                seen == finite_distances(all@.take(t as int)) + row_finite(row@.take(j as int)),
                max == max_of(seen),
            decreases row@.len() - j,
        {
            assert(row@.take(j + 1).drop_last() =~= row@.take(j as int));
            if let Some(d) = row[j] {
                proof {
                    let prior = seen;
                    seen = seen.push(d as int);
                    assert(seen.drop_last() =~= prior);
                }
                assert(seen =~= finite_distances(all@.take(t as int)) + row_finite(row@.take(j + 1)));
                if d > max {
                    max = d;
                }
            } else {
                assert(seen =~= finite_distances(all@.take(t as int)) + row_finite(row@.take(j + 1)));
            }
            j = j + 1;
        }
        assert(row@.take(row@.len() as int) =~= row@);
        assert(all@.take(t + 1).drop_last() =~= all@.take(t as int));
        t = t + 1;
    }
    assert(all@.take(all@.len() as int) =~= all@);
    max
}

/// Count, sum, sum of squares and maximum of the finite distances in the
/// tables. With no finite distance all four are zero.
pub fn distance_totals(all: &Vec<Vec<Option<usize>>>) -> (r: DistanceTotals)
    requires
        finite_distances(all@).len() <= u128::MAX,
        sum_sq_of(finite_distances(all@)) <= u128::MAX,
    ensures
        r.count == finite_distances(all@).len(),
        r.sum == sum_of(finite_distances(all@)),
        r.sum_sq == sum_sq_of(finite_distances(all@)),
        r.max == max_of(finite_distances(all@)),
{
    let ghost whole = finite_distances(all@);
    proof {
        lemma_all_nonneg(all@);
    }
    let mut count: u128 = 0;
    let mut sum: u128 = 0;
    let mut sum_sq: u128 = 0;
    let mut max: usize = 0;
    let ghost mut seen: Seq<int> = seq![];
    let mut t: usize = 0;
    while t < all.len()
        invariant
            t <= all@.len(),
            whole == finite_distances(all@),
            whole.len() <= u128::MAX,
            sum_sq_of(whole) <= u128::MAX,
            forall|i: int| 0 <= i < whole.len() ==> whole[i] >= 0,
            seen == finite_distances(all@.take(t as int)),
            count == seen.len(),
            sum == sum_of(seen),
            sum_sq == sum_sq_of(seen),
            max == max_of(seen),
        decreases all@.len() - t,
    {
        let row = &all[t];
        let mut j: usize = 0;
        assert(row@.take(0) =~= Seq::<Option<usize>>::empty());
        assert(seen + row_finite(row@.take(0)) =~= seen);
        while j < row.len()
            invariant
                t < all@.len(),
                row == all@[t as int],
                j <= row@.len(),
                whole == finite_distances(all@),
                whole.len() <= u128::MAX,
                sum_sq_of(whole) <= u128::MAX,
                forall|i: int| 0 <= i < whole.len() ==> whole[i] >= 0,
                seen == finite_distances(all@.take(t as int)) + row_finite(row@.take(j as int)),
                count == seen.len(),
                sum == sum_of(seen),
                sum_sq == sum_sq_of(seen),
                max == max_of(seen),
            decreases row@.len() - j,
        {
            assert(row@.take(j + 1).drop_last() =~= row@.take(j as int));
            if let Some(d) = row[j] {
                proof {
                    let prior = seen;
                    seen = seen.push(d as int);
                    assert(seen.drop_last() =~= prior);
                    assert(seen =~= finite_distances(all@.take(t as int)) + row_finite(row@.take(j + 1)));
                    lemma_seen_prefix(all@, t as int, j + 1);
                    lemma_sums_prefix(whole, seen.len() as int);
                    assert((d as int) * (d as int) <= u128::MAX) by (nonlinear_arith)
                        requires
                            0 <= d <= usize::MAX,
                    ;
                }
                let dd = d as u128;
                count = count + 1;
                sum = sum + dd;
                sum_sq = sum_sq + dd * dd;
                if d > max {
                    max = d;
                }
            } else {
                assert(seen =~= finite_distances(all@.take(t as int)) + row_finite(row@.take(j + 1)));
            }
            j = j + 1;
        }
        assert(row@.take(row@.len() as int) =~= row@);
        assert(all@.take(t + 1).drop_last() =~= all@.take(t as int));
        t = t + 1;
    }
    assert(all@.take(all@.len() as int) =~= all@);
    DistanceTotals { count, sum, sum_sq, max }
}

proof fn lemma_sum_at_most_max(s: Seq<int>)
    requires
        forall|i: int| 0 <= i < s.len() ==> s[i] >= 0,
    ensures
        0 <= sum_of(s) <= max_of(s) * s.len(),
        max_of(s) >= 0,
    decreases s.len(),
{
    if s.len() > 0 {
        let p = s.drop_last();
        lemma_sum_at_most_max(p);
        let (m, mp, n) = (max_of(s), max_of(p), p.len() as int);
        assert(mp * n <= m * n) by (nonlinear_arith)
            requires
                0 <= mp <= m,
                n >= 0,
        ;
        assert(m * n + m == m * (n + 1)) by (nonlinear_arith);
    }
}

/// The mean of the finite distances lies between zero and their maximum:
/// their sum is at least zero and at most the maximum times their count.
pub proof fn lemma_mean_within_max(all: Seq<Vec<Option<usize>>>)
    ensures
        0 <= sum_of(finite_distances(all)),
        sum_of(finite_distances(all)) <= max_of(finite_distances(all)) * finite_distances(all).len(),
{
    lemma_all_nonneg(all);
    lemma_sum_at_most_max(finite_distances(all));
}

} // verus!
