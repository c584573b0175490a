//! The partition row-distribution engine.
//!
//! A preset describes how a requested number of rows is spread over groups of
//! equally sized partitions, and how a monotonically increasing stress
//! iteration index is mapped — deterministically and periodically — to one
//! partition together with its expected row count.

use vstd::arithmetic::div_mod::*;
use vstd::arithmetic::mul::*;
use vstd::prelude::*;

use crate::gcd::max_gcd_split_wf;
use crate::gcd::max_gcd_with_tail;
use crate::gcd::spec_best_split;

verus! {

/// One homogeneous slice of the key space: `n_partitions` partitions holding
/// `n_rows_per_partition` rows each.
#[derive(Clone, Copy, Debug, PartialEq, Eq, Structural)]
pub struct PartitionGroup {
    pub n_rows_per_group: u64,
    pub n_partitions: u64,
    pub n_rows_per_partition: u64,
}

/// One cycle type of the interleaving plan for a group: `n_cycles` cycles,
/// each drawing `n_rows_for_left` rows from the group itself and
/// `n_rows_for_right` rows from all groups after it.
#[derive(Clone, Copy, Debug, PartialEq, Eq, Structural)]
pub struct RowDistribution {
    pub n_cycles: u64,
    pub n_rows_for_left: u64,
    pub n_rows_for_right: u64,
    pub n_rows_for_left_and_right: u64,
    pub n_rows_for_all_cycles: u64,
}

/// A preset: the ordered partition groups, the interleaving plan of each, and
/// the total number of rows they cover.
#[derive(Clone, Debug)]
pub struct RowDistributionPreset {
    pub total_rows: u64,
    pub partition_groups: Vec<PartitionGroup>,
    pub row_distributions: Vec<(RowDistribution, RowDistribution)>,
}

/// The internal invariant of one partition group.
pub open spec fn group_wf(g: PartitionGroup) -> bool {
    &&& g.n_partitions >= 1
    &&& g.n_rows_per_partition >= 1
    &&& g.n_rows_per_group == g.n_partitions * g.n_rows_per_partition
}

/// The internal invariant of one cycle type.
pub open spec fn dist_wf(d: RowDistribution) -> bool {
    &&& d.n_rows_for_left_and_right == d.n_rows_for_left + d.n_rows_for_right
    &&& d.n_rows_for_all_cycles == d.n_cycles * d.n_rows_for_left_and_right
}

/// The two cycle types of a group together cover exactly the group's own
/// `n1` rows on their left side and the `n2` rows of all later groups on
/// their right side.
pub open spec fn pair_wf(d1: RowDistribution, d2: RowDistribution, n1: int, n2: int) -> bool {
    &&& dist_wf(d1)
    &&& dist_wf(d2)
    &&& d1.n_rows_for_left >= 1
    &&& d2.n_rows_for_left >= 1
    &&& d1.n_cycles * d1.n_rows_for_left + d2.n_cycles * d2.n_rows_for_left == n1
    &&& d1.n_cycles * d1.n_rows_for_right + d2.n_cycles * d2.n_rows_for_right == n2
}

/// The rows of all groups from position `i` on.
pub open spec fn rows_sum_from(gs: Seq<PartitionGroup>, i: int) -> int
    decreases gs.len() - i,
{
    if i < 0 || i >= gs.len() {
        0
    } else {
        gs[i].n_rows_per_group + rows_sum_from(gs, i + 1)
    }
}

/// The partitions of all groups from position `i` on.
pub open spec fn parts_sum_from(gs: Seq<PartitionGroup>, i: int) -> int
    decreases gs.len() - i,
{
    if i < 0 || i >= gs.len() {
        0
    } else {
        gs[i].n_partitions + parts_sum_from(gs, i + 1)
    }
}

pub proof fn lemma_rows_sum_from_nonneg(gs: Seq<PartitionGroup>, i: int)
    ensures
        rows_sum_from(gs, i) >= 0,
    decreases gs.len() - i,
{
    if 0 <= i < gs.len() {
        lemma_rows_sum_from_nonneg(gs, i + 1);
    }
}

pub proof fn lemma_parts_sum_from_nonneg(gs: Seq<PartitionGroup>, i: int)
    ensures
        parts_sum_from(gs, i) >= 0,
    decreases gs.len() - i,
{
    if 0 <= i < gs.len() {
        lemma_parts_sum_from_nonneg(gs, i + 1);
    }
}

/// A later suffix never covers more rows than an earlier one.
pub proof fn lemma_rows_sum_from_le(gs: Seq<PartitionGroup>, j: int, i: int)
    requires
        0 <= j <= i,
    ensures
        rows_sum_from(gs, i) <= rows_sum_from(gs, j),
    decreases i - j,
{
    if j < i {
        lemma_rows_sum_from_le(gs, j + 1, i);
    }
}

/// With every group well-formed, a suffix has no more partitions than rows.
pub proof fn lemma_parts_le_rows(gs: Seq<PartitionGroup>, i: int)
    requires
        forall|j: int| 0 <= j < gs.len() ==> group_wf(#[trigger] gs[j]),
    ensures
        parts_sum_from(gs, i) <= rows_sum_from(gs, i),
    decreases gs.len() - i,
{
    if 0 <= i < gs.len() {
        lemma_parts_le_rows(gs, i + 1);
        assert(gs[i].n_partitions <= gs[i].n_partitions * gs[i].n_rows_per_partition)
            by (nonlinear_arith)
            requires
                gs[i].n_partitions >= 0,
                gs[i].n_rows_per_partition >= 1,
        ;
    }
}

/// The full well-formedness of a preset: groups and cycle types aligned, every
/// group internally consistent, every cycle-type pair covering exactly its
/// group against the rows of the groups after it, and `total_rows` the sum of
/// all groups.
pub open spec fn preset_wf(p: RowDistributionPreset) -> bool {
    let gs = p.partition_groups@;
    let ds = p.row_distributions@;
    &&& ds.len() == gs.len()
    &&& forall|i: int| 0 <= i < gs.len() ==> group_wf(#[trigger] gs[i])
    &&& forall|i: int|
        0 <= i < gs.len() ==> pair_wf(
            (#[trigger] ds[i]).0,
            ds[i].1,
            gs[i].n_rows_per_group as int,
            rows_sum_from(gs, i + 1),
        )
    &&& p.total_rows == rows_sum_from(gs, 0)
}

/// The two cycle types that the chosen gcd split of `(n1, n2)` gives rise
/// to: type one folds in both tails, type two covers the remaining cycles
/// without them.
pub open spec fn spec_dists_for(n1: u64, n2: u64) -> (RowDistribution, RowDistribution) {
    let s = spec_best_split(n1, n2);
    let g = s.0;
    let m1 = s.1.0;
    let t1 = s.1.1;
    let m2 = s.2.0;
    let t2 = s.2.1;
    let b1: int = if t1 > 0 {
        1
    } else {
        0
    };
    let b2: int = if t2 > 0 {
        1
    } else {
        0
    };
    (
        RowDistribution {
            n_cycles: (t1 + t2) as u64,
            n_rows_for_left: (m1 + b1) as u64,
            n_rows_for_right: (m2 + b2) as u64,
            n_rows_for_left_and_right: (m1 + b1 + m2 + b2) as u64,
            n_rows_for_all_cycles: ((t1 + t2) * (m1 + b1 + m2 + b2)) as u64,
        },
        RowDistribution {
            n_cycles: (g - t1 - t2) as u64,
            n_rows_for_left: m1,
            n_rows_for_right: m2,
            n_rows_for_left_and_right: (m1 + m2) as u64,
            n_rows_for_all_cycles: ((g - t1 - t2) * (m1 + m2)) as u64,
        },
    )
}

/// From a well-formed gcd split for `(n1, n2)` the derived cycle-type fields
/// are in bounds and cover `n1` on the left and `n2` on the right.
proof fn lemma_split_to_pair(n1: u64, n2: u64, s: (u64, (u64, u64), (u64, u64)))
    requires
        n1 >= 1,
        max_gcd_split_wf(n1, n2, s),
    ensures
        ({
            let g = s.0 as int;
            let m1 = s.1.0 as int;
            let t1 = s.1.1 as int;
            let m2 = s.2.0 as int;
            let t2 = s.2.1 as int;
            let b1: int = if t1 > 0 {
                1
            } else {
                0
            };
            let b2: int = if t2 > 0 {
                1
            } else {
                0
            };
            &&& m1 >= 1
            &&& t1 + t2 <= g
            &&& m1 + b1 <= n1
            &&& m2 + b2 <= n2
            &&& (t1 + t2) * (m1 + b1) + (g - t1 - t2) * m1 == n1
            &&& (t1 + t2) * (m2 + b2) + (g - t1 - t2) * m2 == n2
            &&& (t1 + t2) * ((m1 + b1) + (m2 + b2)) <= n1 + n2
            &&& (g - t1 - t2) * (m1 + m2) <= n1 + n2
        }),
{
    let g = s.0 as int;
    let m1 = s.1.0 as int;
    let t1 = s.1.1 as int;
    let m2 = s.2.0 as int;
    let t2 = s.2.1 as int;
    let b1: int = if t1 > 0 {
        1
    } else {
        0
    };
    let b2: int = if t2 > 0 {
        1
    } else {
        0
    };
    assert(t1 < n1) by {
        assert(n1 as int / 100 < n1) by {
            if n1 > 1 {
                lemma_div_decreases(n1 as int, 100);
            }
        }
    }
    assert(m1 >= 1) by (nonlinear_arith)
        requires
            n1 as int == g * m1 + t1,
            t1 < n1,
            g >= 1,
            m1 >= 0,
    ;
    assert((t1 + t2) * (m1 + b1) + (g - t1 - t2) * m1 == n1) by (nonlinear_arith)
        requires
            n1 as int == g * m1 + t1,
            t1 == 0 || t2 == 0,
            b1 == if t1 > 0 {
                1int
            } else {
                0int
            },
            t1 >= 0,
            t2 >= 0,
    ;
    assert((t1 + t2) * (m2 + b2) + (g - t1 - t2) * m2 == n2) by (nonlinear_arith)
        requires
            n2 as int == g * m2 + t2,
            t1 == 0 || t2 == 0,
            b2 == if t2 > 0 {
                1int
            } else {
                0int
            },
            t1 >= 0,
            t2 >= 0,
    ;
    assert(m1 + b1 <= n1) by (nonlinear_arith)
        requires
            n1 as int == g * m1 + t1,
            g >= 1,
            m1 >= 1,
            t1 >= 0,
            t1 > 0 ==> t1 < g,
            b1 == if t1 > 0 {
                1int
            } else {
                0int
            },
    ;
    assert(m2 + b2 <= n2) by (nonlinear_arith)
        requires
            n2 as int == g * m2 + t2,
            g >= 1,
            m2 >= 0,
            t2 >= 0,
            t2 > 0 ==> t2 < g,
            b2 == if t2 > 0 {
                1int
            } else {
                0int
            },
    ;
    assert((t1 + t2) * ((m1 + b1) + (m2 + b2)) == (t1 + t2) * (m1 + b1) + (t1 + t2) * (m2 + b2))
        by (nonlinear_arith);
    assert((g - t1 - t2) * (m1 + m2) == (g - t1 - t2) * m1 + (g - t1 - t2) * m2)
        by (nonlinear_arith);
    assert((g - t1 - t2) * m1 >= 0 && (g - t1 - t2) * m2 >= 0 && (t1 + t2) * (m1 + b1) >= 0 && (t1
        + t2) * (m2 + b2) >= 0) by (nonlinear_arith)
        requires
            t1 + t2 <= g,
            t1 >= 0,
            t2 >= 0,
            m1 >= 0,
            m2 >= 0,
            b1 >= 0,
            b2 >= 0,
    ;
}

impl RowDistributionPreset {
    /// Builds a preset over the given groups with an empty interleaving plan;
    /// `total_rows` is the sum of all group row counts.
    pub fn new(partition_groups: Vec<PartitionGroup>) -> (r: RowDistributionPreset)
        requires
            rows_sum_from(partition_groups@, 0) <= u64::MAX,
        ensures
            r.partition_groups@ == partition_groups@,
            r.row_distributions@.len() == 0,
            r.total_rows == rows_sum_from(partition_groups@, 0),
    {
        let n = partition_groups.len();
        let mut total_rows: u64 = 0;
        let mut i: usize = 0;
        proof {
            lemma_rows_sum_from_nonneg(partition_groups@, 0);
        }
        while i < n
            invariant
                n == partition_groups@.len(),
                i <= n,
                total_rows == rows_sum_from(partition_groups@, 0) - rows_sum_from(
                    partition_groups@,
                    i as int,
                ),
                rows_sum_from(partition_groups@, 0) <= u64::MAX,
            decreases n - i,
        {
            proof {
                lemma_rows_sum_from_nonneg(partition_groups@, i + 1);
                assert(rows_sum_from(partition_groups@, i as int) == partition_groups@[
                    i as int
                ].n_rows_per_group + rows_sum_from(partition_groups@, i + 1));
            }
            total_rows = total_rows + partition_groups[i].n_rows_per_group;
            i = i + 1;
        }
        RowDistributionPreset { total_rows, partition_groups, row_distributions: Vec::new() }
    }

    /// Generates the two complementary cycle types for every group, walking
    /// the groups in stored order against the rows of all groups after them.
    pub fn generate_row_distributions(&mut self)
        requires
            old(self).row_distributions@.len() == 0,
            old(self).total_rows == rows_sum_from(old(self).partition_groups@, 0),
            forall|i: int|
                0 <= i < old(self).partition_groups@.len() ==> group_wf(
                    #[trigger] old(self).partition_groups@[i],
                ),
        ensures
            final(self).total_rows == old(self).total_rows,
            final(self).partition_groups@ == old(self).partition_groups@,
            final(self).row_distributions@.len() == final(self).partition_groups@.len(),
            preset_wf(*final(self)),
            forall|i: int|
                0 <= i < final(self).partition_groups@.len()
                    ==> #[trigger] final(self).row_distributions@[i] == spec_dists_for(
                    final(self).partition_groups@[i].n_rows_per_group,
                    rows_sum_from(final(self).partition_groups@, i + 1) as u64,
                ),
    {
        let ghost gs = self.partition_groups@;
        let mut other_rows: u64 = self.total_rows;
        let n = self.partition_groups.len();
        let mut i: usize = 0;
        while i < n
            invariant
                n == gs.len(),
                i <= n,
                self.partition_groups@ == gs,
                self.total_rows == old(self).total_rows,
                self.total_rows == rows_sum_from(gs, 0),
                forall|j: int| 0 <= j < gs.len() ==> group_wf(#[trigger] gs[j]),
                other_rows == rows_sum_from(gs, i as int),
                self.row_distributions@.len() == i,
                forall|j: int|
                    0 <= j < i ==> pair_wf(
                        (#[trigger] self.row_distributions@[j]).0,
                        self.row_distributions@[j].1,
                        gs[j].n_rows_per_group as int,
                        rows_sum_from(gs, j + 1),
                    ),
                forall|j: int|
                    0 <= j < i ==> #[trigger] self.row_distributions@[j] == spec_dists_for(
                        gs[j].n_rows_per_group,
                        rows_sum_from(gs, j + 1) as u64,
                    ),
            decreases n - i,
        {
            let group_rows = self.partition_groups[i].n_rows_per_group;
            proof {
                assert(group_wf(gs[i as int]));
                assert(group_rows >= 1) by (nonlinear_arith)
                    requires
                        group_rows == gs[i as int].n_partitions
                            * gs[i as int].n_rows_per_partition,
                        gs[i as int].n_partitions >= 1,
                        gs[i as int].n_rows_per_partition >= 1,
                ;
                lemma_rows_sum_from_nonneg(gs, i + 1);
                assert(rows_sum_from(gs, i as int) == group_rows + rows_sum_from(gs, i + 1));
            }
            other_rows = other_rows - group_rows;
            let split = max_gcd_with_tail(group_rows, other_rows);
            proof {
                lemma_split_to_pair(group_rows, other_rows, split);
            }
            let (cycles_num, (mult_n1, tail_n1), (mult_n2, tail_n2)) = split;
            let c1: u64 = tail_n1 + tail_n2;
            let l1: u64 = mult_n1 + if tail_n1 > 0 {
                1
            } else {
                0
            };
            let r1: u64 = mult_n2 + if tail_n2 > 0 {
                1
            } else {
                0
            };
            let c2: u64 = cycles_num - tail_n1 - tail_n2;
            let lr1: u64 = l1 + r1;
            let lr2: u64 = mult_n1 + mult_n2;
            let cycle_type_1 = RowDistribution {
                n_cycles: c1,
                n_rows_for_left: l1,
                n_rows_for_right: r1,
                n_rows_for_left_and_right: lr1,
                n_rows_for_all_cycles: c1 * lr1,
            };
            let cycle_type_2 = RowDistribution {
                n_cycles: c2,
                n_rows_for_left: mult_n1,
                n_rows_for_right: mult_n2,
                n_rows_for_left_and_right: lr2,
                n_rows_for_all_cycles: c2 * lr2,
            };
            proof {
                assert(pair_wf(
                    cycle_type_1,
                    cycle_type_2,
                    gs[i as int].n_rows_per_group as int,
                    rows_sum_from(gs, i as int + 1),
                ));
                assert(split == spec_best_split(group_rows, other_rows));
                assert((cycle_type_1, cycle_type_2) == spec_dists_for(group_rows, other_rows));
            }
            self.row_distributions.push((cycle_type_1, cycle_type_2));
            i = i + 1;
        }
    }
}

/// The mathematical index-resolution walk: starting at group `i` with the
/// remaining index `idx` and the partitions of all earlier groups in
/// `offset`, either the current group's cycle structure places `idx` on a
/// left (this-group) row — yielding the partition index and the group's rows
/// per partition — or the consumed left rows are stripped and the walk moves
/// to the next group.
pub open spec fn spec_resolve(
    gs: Seq<PartitionGroup>,
    ds: Seq<(RowDistribution, RowDistribution)>,
    i: int,
    idx: int,
    offset: int,
) -> Option<(int, int)>
    decreases gs.len() - i,
{
    if i < 0 || i >= gs.len() {
        None
    } else {
        let g = gs[i];
        let d1 = ds[i].0;
        let d2 = ds[i].1;
        if idx < d1.n_rows_for_all_cycles {
            let done1 = (idx + d1.n_rows_for_right) / (d1.n_rows_for_left_and_right as int);
            let done1_rows = done1 * d1.n_rows_for_left_and_right;
            if done1_rows <= idx && idx < done1_rows + d1.n_rows_for_left {
                Some(
                    (
                        offset + (idx - done1_rows + done1 * d1.n_rows_for_left) % (
                        g.n_partitions as int),
                        g.n_rows_per_partition as int,
                    ),
                )
            } else {
                spec_resolve(
                    gs,
                    ds,
                    i + 1,
                    idx - done1 * d1.n_rows_for_left,
                    offset + g.n_partitions,
                )
            }
        } else {
            let done1_rows = d1.n_cycles * d1.n_rows_for_left_and_right;
            let done2 = (idx - done1_rows + d2.n_rows_for_right) / (
            d2.n_rows_for_left_and_right as int);
            let done2_rows = done2 * d2.n_rows_for_left_and_right;
            if done1_rows + done2_rows <= idx && idx < done1_rows + done2_rows
                + d2.n_rows_for_left {
                Some(
                    (
                        offset + (idx - d1.n_cycles * d1.n_rows_for_right - done2_rows + done2
                            * d2.n_rows_for_left) % (g.n_partitions as int),
                        g.n_rows_per_partition as int,
                    ),
                )
            } else {
                spec_resolve(
                    gs,
                    ds,
                    i + 1,
                    idx - d1.n_cycles * d1.n_rows_for_left - done2 * d2.n_rows_for_left,
                    offset + g.n_partitions,
                )
            }
        }
    }
}

/// The partition and expected row count that a preset assigns to a stress
/// iteration index: the index is reduced modulo `total_rows` and resolved by
/// the walk over the groups.
pub open spec fn spec_partition_info(p: RowDistributionPreset, idx: int) -> Option<(int, int)> {
    spec_resolve(p.partition_groups@, p.row_distributions@, 0, idx % (p.total_rows as int), 0)
}

/// How one group treats a remaining index below its combined cycle span:
/// every quantity the walk computes is bounded, a matched index yields a
/// non-negative left ordinal below the group's own rows, and a passed-on
/// index is exactly the number of right rows consumed before it — below the
/// rows of all later groups.
proof fn lemma_group_step(d1: RowDistribution, d2: RowDistribution, n1: int, n2: int, idx: int)
    requires
        pair_wf(d1, d2, n1, n2),
        n1 >= 1,
        0 <= idx < n1 + n2,
    ensures
        d1.n_cycles * d1.n_rows_for_left_and_right + d2.n_cycles * d2.n_rows_for_left_and_right
            == n1 + n2,
        d1.n_cycles * d1.n_rows_for_right <= d1.n_cycles * d1.n_rows_for_left_and_right,
        idx < d1.n_rows_for_all_cycles ==> ({
            let l1 = d1.n_rows_for_left as int;
            let lr1 = d1.n_rows_for_left_and_right as int;
            let done1 = (idx + d1.n_rows_for_right) / lr1;
            let done1_rows = done1 * lr1;
            &&& 0 <= done1 <= d1.n_cycles
            &&& done1_rows <= idx + d1.n_rows_for_right
            &&& (done1_rows <= idx && idx < done1_rows + l1) ==> 0 <= idx - done1_rows + done1
                * l1 < n1
            &&& !(done1_rows <= idx && idx < done1_rows + l1) ==> 0 <= idx - done1 * l1 < n2
        }),
        idx >= d1.n_rows_for_all_cycles ==> ({
            let l1 = d1.n_rows_for_left as int;
            let l2 = d2.n_rows_for_left as int;
            let lr2 = d2.n_rows_for_left_and_right as int;
            let all1 = d1.n_cycles * d1.n_rows_for_left_and_right;
            let done2 = (idx - all1 + d2.n_rows_for_right) / lr2;
            let done2_rows = done2 * lr2;
            &&& 0 <= done2 <= d2.n_cycles
            &&& done2_rows <= idx - all1 + d2.n_rows_for_right
            &&& (all1 + done2_rows <= idx && idx < all1 + done2_rows + l2) ==> 0 <= idx
                - d1.n_cycles * d1.n_rows_for_right - done2_rows + done2 * l2 < n1
            &&& !(all1 + done2_rows <= idx && idx < all1 + done2_rows + l2) ==> 0 <= idx
                - d1.n_cycles * d1.n_rows_for_left - done2 * l2 < n2
        }),
{
    let c1 = d1.n_cycles as int;
    let l1 = d1.n_rows_for_left as int;
    let r1 = d1.n_rows_for_right as int;
    let lr1 = d1.n_rows_for_left_and_right as int;
    let all1 = c1 * lr1;
    let c2 = d2.n_cycles as int;
    let l2 = d2.n_rows_for_left as int;
    let r2 = d2.n_rows_for_right as int;
    let lr2 = d2.n_rows_for_left_and_right as int;
    let all2 = c2 * lr2;
    assert(all1 == c1 * l1 + c1 * r1 && all2 == c2 * l2 + c2 * r2) by (nonlinear_arith)
        requires
            lr1 == l1 + r1,
            lr2 == l2 + r2,
            all1 == c1 * lr1,
            all2 == c2 * lr2,
    ;
    assert(all1 + all2 == n1 + n2);
    assert(c1 * r1 >= 0 && c1 * l1 >= 0 && c2 * r2 >= 0 && c2 * l2 >= 0) by {
        lemma_mul_nonnegative(c1, r1);
        lemma_mul_nonnegative(c1, l1);
        lemma_mul_nonnegative(c2, r2);
        lemma_mul_nonnegative(c2, l2);
    }
    if idx < d1.n_rows_for_all_cycles {
        lemma_fundamental_div_mod(idx, lr1);
        lemma_mod_bound(idx, lr1);
        let q = idx / lr1;
        let o = idx % lr1;
        lemma_div_pos_is_pos(idx, lr1);
        assert(q < c1) by (nonlinear_arith)
            requires
                idx == lr1 * q + o,
                idx < c1 * lr1,
                0 <= o < lr1,
                q >= 0,
        ;
        let done1 = (idx + r1) / lr1;
        if o < l1 {
            assert(q * lr1 + (o + r1) == idx + r1) by (nonlinear_arith)
                requires
                    idx == lr1 * q + o,
            ;
            lemma_fundamental_div_mod_converse(idx + r1, lr1, q, o + r1);
            assert(done1 == q);
            assert(done1 * lr1 == lr1 * q) by (nonlinear_arith)
                requires
                    done1 == q,
            ;
            assert(done1 * lr1 <= idx && idx < done1 * lr1 + l1);
            assert(idx - done1 * lr1 + done1 * l1 == q * l1 + o) by (nonlinear_arith)
                requires
                    idx == lr1 * q + o,
                    done1 == q,
            ;
            assert(q * l1 + o < n1) by {
                lemma_mul_inequality(q + 1, c1, l1);
                assert((q + 1) * l1 == q * l1 + l1) by (nonlinear_arith);
                assert(c1 * l1 + c2 * l2 == n1);
            }
            assert(q * l1 >= 0) by {
                lemma_mul_nonnegative(q, l1);
            }
        } else {
            assert(0 <= o + r1 - lr1 < lr1);
            assert(idx + r1 == lr1 * (q + 1) + (o + r1 - lr1)) by (nonlinear_arith)
                requires
                    idx == lr1 * q + o,
            ;
            assert((q + 1) * lr1 + (o + r1 - lr1) == idx + r1) by (nonlinear_arith)
                requires
                    idx == lr1 * q + o,
            ;
            lemma_fundamental_div_mod_converse(idx + r1, lr1, q + 1, o + r1 - lr1);
            assert(done1 == q + 1);
            assert(done1 * lr1 == lr1 * q + lr1) by (nonlinear_arith)
                requires
                    done1 == q + 1,
            ;
            assert(idx < done1 * lr1);
            assert(idx - done1 * l1 == q * r1 + (o - l1)) by (nonlinear_arith)
                requires
                    idx == lr1 * q + o,
                    done1 == q + 1,
                    lr1 == l1 + r1,
            ;
            assert(q * r1 + (o - l1) < n2) by {
                lemma_mul_inequality(q + 1, c1, r1);
                assert((q + 1) * r1 == q * r1 + r1) by (nonlinear_arith);
                assert(c1 * r1 + c2 * r2 == n2);
                assert(o - l1 < r1);
            }
            assert(q * r1 >= 0) by {
                lemma_mul_nonnegative(q, r1);
            }
            assert(done1 <= c1);
        }
    } else {
        let j = idx - all1;
        assert(0 <= j < all2);
        assert(lr2 >= 1);
        lemma_fundamental_div_mod(j, lr2);
        lemma_mod_bound(j, lr2);
        let q2 = j / lr2;
        let o2 = j % lr2;
        lemma_div_pos_is_pos(j, lr2);
        assert(q2 < c2) by (nonlinear_arith)
            requires
                j == lr2 * q2 + o2,
                j < c2 * lr2,
                0 <= o2 < lr2,
                q2 >= 0,
        ;
        let done2 = (j + r2) / lr2;
        if o2 < l2 {
            assert(q2 * lr2 + (o2 + r2) == j + r2) by (nonlinear_arith)
                requires
                    j == lr2 * q2 + o2,
            ;
            lemma_fundamental_div_mod_converse(j + r2, lr2, q2, o2 + r2);
            assert(done2 == q2);
            assert(done2 * lr2 == lr2 * q2) by (nonlinear_arith)
                requires
                    done2 == q2,
            ;
            assert(all1 + done2 * lr2 <= idx && idx < all1 + done2 * lr2 + l2);
            assert(idx - c1 * r1 - done2 * lr2 + done2 * l2 == c1 * l1 + q2 * l2 + o2)
                by (nonlinear_arith)
                requires
                    j == lr2 * q2 + o2,
                    idx == all1 + j,
                    all1 == c1 * l1 + c1 * r1,
                    done2 == q2,
                    lr2 == l2 + r2,
            ;
            assert(c1 * l1 + q2 * l2 + o2 < n1) by {
                lemma_mul_inequality(q2 + 1, c2, l2);
                assert((q2 + 1) * l2 == q2 * l2 + l2) by (nonlinear_arith);
                assert(c1 * l1 + c2 * l2 == n1);
            }
            assert(q2 * l2 >= 0) by {
                lemma_mul_nonnegative(q2, l2);
            }
        } else {
            assert(0 <= o2 + r2 - lr2 < lr2);
            assert(j + r2 == lr2 * (q2 + 1) + (o2 + r2 - lr2)) by (nonlinear_arith)
                requires
                    j == lr2 * q2 + o2,
            ;
            assert((q2 + 1) * lr2 + (o2 + r2 - lr2) == j + r2) by (nonlinear_arith)
                requires
                    j == lr2 * q2 + o2,
            ;
            lemma_fundamental_div_mod_converse(j + r2, lr2, q2 + 1, o2 + r2 - lr2);
            assert(done2 == q2 + 1);
            assert(done2 * lr2 == lr2 * q2 + lr2) by (nonlinear_arith)
                requires
                    done2 == q2 + 1,
            ;
            assert(idx < all1 + done2 * lr2);
            assert(idx - c1 * l1 - done2 * l2 == c1 * r1 + q2 * r2 + (o2 - l2))
                by (nonlinear_arith)
                requires
                    j == lr2 * q2 + o2,
                    idx == all1 + j,
                    all1 == c1 * l1 + c1 * r1,
                    done2 == q2 + 1,
                    lr2 == l2 + r2,
            ;
            assert(c1 * r1 + q2 * r2 + (o2 - l2) < n2) by {
                lemma_mul_inequality(q2 + 1, c2, r2);
                assert((q2 + 1) * r2 == q2 * r2 + r2) by (nonlinear_arith);
                assert(c1 * r1 + c2 * r2 == n2);
                assert(o2 - l2 < r2);
            }
            assert(q2 * r2 >= 0) by {
                lemma_mul_nonnegative(q2, r2);
            }
            assert(done2 <= c2);
        }
    }
}

/// A well-formed group holds at least one row.
pub proof fn lemma_group_rows_pos(g: PartitionGroup)
    requires
        group_wf(g),
    ensures
        g.n_rows_per_group >= 1,
{
    assert(g.n_partitions * g.n_rows_per_partition >= 1) by (nonlinear_arith)
        requires
            g.n_partitions >= 1,
            g.n_rows_per_partition >= 1,
    ;
}

/// A well-formed preset with at least one group covers at least one row.
pub proof fn lemma_total_rows_pos(p: RowDistributionPreset)
    requires
        preset_wf(p),
        p.partition_groups@.len() >= 1,
    ensures
        p.total_rows >= 1,
{
    let gs = p.partition_groups@;
    lemma_group_rows_pos(gs[0]);
    lemma_rows_sum_from_nonneg(gs, 1);
}

/// Every index below the remaining rows resolves: the walk starting at group
/// `i` returns a partition index within the partitions of groups `i..`, and a
/// positive per-partition row count taken from one of those groups.
pub proof fn lemma_resolve_in_range(
    gs: Seq<PartitionGroup>,
    ds: Seq<(RowDistribution, RowDistribution)>,
    i: int,
    idx: int,
    offset: int,
)
    requires
        ds.len() == gs.len(),
        forall|j: int| 0 <= j < gs.len() ==> group_wf(#[trigger] gs[j]),
        forall|j: int|
            0 <= j < gs.len() ==> pair_wf(
                (#[trigger] ds[j]).0,
                ds[j].1,
                gs[j].n_rows_per_group as int,
                rows_sum_from(gs, j + 1),
            ),
        0 <= i < gs.len(),
        0 <= idx < rows_sum_from(gs, i),
        offset >= 0,
    ensures
        spec_resolve(gs, ds, i, idx, offset) matches Some(pr) && offset <= pr.0 < offset
            + parts_sum_from(gs, i) && pr.1 >= 1 && (exists|j: int|
            i <= j < gs.len() && offset + parts_sum_from(gs, i) - #[trigger] parts_sum_from(
                gs,
                j,
            ) <= pr.0 < offset + parts_sum_from(gs, i) - parts_sum_from(gs, j + 1) && pr.1
                == gs[j].n_rows_per_partition),
    decreases gs.len() - i,
{
    let g = gs[i];
    let d1 = ds[i].0;
    let d2 = ds[i].1;
    let n1 = g.n_rows_per_group as int;
    let n2 = rows_sum_from(gs, i + 1);
    lemma_group_rows_pos(g);
    lemma_group_step(d1, d2, n1, n2, idx);
    lemma_parts_sum_from_nonneg(gs, i + 1);
    let count = g.n_partitions as int;
    if idx < d1.n_rows_for_all_cycles {
        let done1 = (idx + d1.n_rows_for_right) / (d1.n_rows_for_left_and_right as int);
        let done1_rows = done1 * d1.n_rows_for_left_and_right;
        if done1_rows <= idx && idx < done1_rows + d1.n_rows_for_left {
            lemma_mod_bound(idx - done1_rows + done1 * d1.n_rows_for_left, count);
            assert(parts_sum_from(gs, i) - parts_sum_from(gs, i + 1) == count);
            assert(i <= i < gs.len() && gs[i].n_rows_per_partition == g.n_rows_per_partition);
        } else {
            let idx2 = idx - done1 * d1.n_rows_for_left;
            assert(0 <= idx2 < n2);
            assert(i + 1 < gs.len()) by {
                if i + 1 >= gs.len() {
                    assert(rows_sum_from(gs, i + 1) == 0);
                }
            }
            lemma_resolve_in_range(gs, ds, i + 1, idx2, offset + count);
        }
    } else {
        let all1 = d1.n_cycles * d1.n_rows_for_left_and_right;
        let done2 = (idx - all1 + d2.n_rows_for_right) / (d2.n_rows_for_left_and_right as int);
        let done2_rows = done2 * d2.n_rows_for_left_and_right;
        if all1 + done2_rows <= idx && idx < all1 + done2_rows + d2.n_rows_for_left {
            lemma_mod_bound(
                idx - d1.n_cycles * d1.n_rows_for_right - done2_rows + done2
                    * d2.n_rows_for_left,
                count,
            );
            assert(parts_sum_from(gs, i) - parts_sum_from(gs, i + 1) == count);
            assert(i <= i < gs.len() && gs[i].n_rows_per_partition == g.n_rows_per_partition);
        } else {
            let idx2 = idx - d1.n_cycles * d1.n_rows_for_left - done2 * d2.n_rows_for_left;
            assert(0 <= idx2 < n2);
            assert(i + 1 < gs.len()) by {
                if i + 1 >= gs.len() {
                    assert(rows_sum_from(gs, i + 1) == 0);
                }
            }
            lemma_resolve_in_range(gs, ds, i + 1, idx2, offset + count);
        }
    }
}

/// For every index below `total_rows`, a well-formed preset resolves it to a
/// partition index below the total partition count, with a positive expected
/// row count equal to some group's rows per partition.
pub proof fn lemma_partition_info_in_range(p: RowDistributionPreset, idx: int)
    requires
        preset_wf(p),
        p.partition_groups@.len() >= 1,
        0 <= idx < p.total_rows,
    ensures
        spec_partition_info(p, idx) matches Some(pr) && 0 <= pr.0 < parts_sum_from(
            p.partition_groups@,
            0,
        ) && pr.1 >= 1 && (exists|j: int|
            0 <= j < p.partition_groups@.len() && parts_sum_from(p.partition_groups@, 0)
                - #[trigger] parts_sum_from(p.partition_groups@, j) <= pr.0 < parts_sum_from(
                p.partition_groups@,
                0,
            ) - parts_sum_from(p.partition_groups@, j + 1) && pr.1
                == p.partition_groups@[j].n_rows_per_partition),
{
    lemma_total_rows_pos(p);
    lemma_small_mod(idx as nat, p.total_rows as nat);
    lemma_resolve_in_range(p.partition_groups@, p.row_distributions@, 0, idx, 0);
}

/// The index-to-partition mapping is periodic with period `total_rows`.
pub proof fn lemma_partition_info_periodic(p: RowDistributionPreset, idx: int, k: int)
    requires
        preset_wf(p),
        p.partition_groups@.len() >= 1,
        idx >= 0,
        k >= 0,
    ensures
        spec_partition_info(p, idx + k * p.total_rows) == spec_partition_info(p, idx),
{
    lemma_total_rows_pos(p);
    let t = p.total_rows as int;
    lemma_mod_multiples_vanish(k, idx, t);
    assert(t * k == k * t) by (nonlinear_arith);
    assert((idx + k * t) % t == idx % t);
}

impl RowDistributionPreset {
    /// Returns the partition index and the number of rows expected in that
    /// partition for the given stress iteration index.  The mapping is the
    /// walk of [`spec_partition_info`]: periodic in the index with period
    /// `total_rows`, total, and always within the preset's partitions.
    pub fn get_partition_info(&self, idx: u64) -> (r: (u64, u64))
        requires
            preset_wf(*self),
            self.partition_groups@.len() >= 1,
        ensures
            spec_partition_info(*self, idx as int) matches Some(pr) && pr.0 == r.0 as int && pr.1
                == r.1 as int,
            r.0 < parts_sum_from(self.partition_groups@, 0),
            r.1 >= 1,
    {
        let ghost gs = self.partition_groups@;
        let ghost ds = self.row_distributions@;
        proof {
            lemma_total_rows_pos(*self);
        }
        let mut rem: u64 = idx % self.total_rows;
        let mut partn_offset: u64 = 0;
        let n = self.partition_groups.len();
        let mut i: usize = 0;
        while i < n
            invariant
                preset_wf(*self),
                gs == self.partition_groups@,
                ds == self.row_distributions@,
                n == gs.len(),
                n >= 1,
                i <= n,
                rem < rows_sum_from(gs, i as int),
                partn_offset == parts_sum_from(gs, 0) - parts_sum_from(gs, i as int),
                spec_partition_info(*self, idx as int) == spec_resolve(
                    gs,
                    ds,
                    i as int,
                    rem as int,
                    partn_offset as int,
                ),
            decreases n - i,
        {
            let pg = self.partition_groups[i];
            let d = self.row_distributions[i];
            let d1 = d.0;
            let d2 = d.1;
            let ghost n1 = pg.n_rows_per_group as int;
            let ghost n2 = rows_sum_from(gs, i as int + 1);
            proof {
                assert(group_wf(gs[i as int]));
                assert(pair_wf(ds[i as int].0, ds[i as int].1, n1, n2));
                lemma_group_rows_pos(gs[i as int]);
                lemma_rows_sum_from_nonneg(gs, i as int + 1);
                lemma_group_step(d1, d2, n1, n2, rem as int);
                lemma_parts_sum_from_nonneg(gs, i as int + 1);
                lemma_parts_le_rows(gs, 0);
                lemma_parts_sum_from_nonneg(gs, 0);
                lemma_rows_sum_from_nonneg(gs, 0);
                lemma_rows_sum_from_le(gs, 0, i as int);
                assert(parts_sum_from(gs, i as int) == pg.n_partitions + parts_sum_from(
                    gs,
                    i as int + 1,
                ));
                assert(partn_offset + pg.n_partitions <= parts_sum_from(gs, 0));
                assert(parts_sum_from(gs, 0) <= rows_sum_from(gs, 0));
                assert(rows_sum_from(gs, 0) == self.total_rows);
            }
            let c1 = d1.n_cycles;
            let l1 = d1.n_rows_for_left;
            let r1 = d1.n_rows_for_right;
            let lr1 = d1.n_rows_for_left_and_right;
            let c2 = d2.n_cycles;
            let l2 = d2.n_rows_for_left;
            let r2 = d2.n_rows_for_right;
            let lr2 = d2.n_rows_for_left_and_right;
            proof {
                assert(c1 * lr1 + c2 * lr2 == n1 + n2);
                assert(c1 * lr1 >= 0 && c2 * lr2 >= 0) by {
                    lemma_mul_nonnegative(c1 as int, lr1 as int);
                    lemma_mul_nonnegative(c2 as int, lr2 as int);
                }
                assert(c1 * l1 <= n1 && c2 * l2 <= n1 && c1 * r1 <= n2 && c2 * r2 <= n2) by {
                    lemma_mul_nonnegative(c1 as int, l1 as int);
                    lemma_mul_nonnegative(c2 as int, l2 as int);
                    lemma_mul_nonnegative(c1 as int, r1 as int);
                    lemma_mul_nonnegative(c2 as int, r2 as int);
                }
            }
            if rem < d1.n_rows_for_all_cycles {
                let done1_wide: u128 = (rem as u128 + r1 as u128) / (lr1 as u128);
                proof {
                    assert(done1_wide == (rem as int + r1 as int) / (lr1 as int));
                    assert(done1_wide <= c1);
                    assert(done1_wide * lr1 <= c1 * lr1) by {
                        lemma_mul_inequality(done1_wide as int, c1 as int, lr1 as int);
                    }
                    assert(done1_wide * l1 <= c1 * l1) by {
                        lemma_mul_inequality(done1_wide as int, c1 as int, l1 as int);
                    }
                }
                let done1: u64 = done1_wide as u64;
                let done1_rows: u64 = done1 * lr1;
                if done1_rows <= rem && rem - done1_rows < l1 {
                    let lefts: u64 = rem - done1_rows + done1 * l1;
                    let ret: u64 = partn_offset + lefts % pg.n_partitions;
                    proof {
                        lemma_mod_bound(lefts as int, pg.n_partitions as int);
                        assert(spec_resolve(gs, ds, i as int, rem as int, partn_offset as int)
                            matches Some(pr) && pr.0 == ret as int && pr.1
                            == pg.n_rows_per_partition as int);
                    }
                    return (ret, pg.n_rows_per_partition);
                }
                rem = rem - done1 * l1;
            } else {
                let all1: u64 = d1.n_rows_for_all_cycles;
                proof {
                    assert(all1 == c1 * lr1);
                    assert(c1 * r1 <= c1 * lr1) by (nonlinear_arith)
                        requires
                            r1 <= lr1,
                            c1 >= 0,
                    ;
                }
                let done2_wide: u128 = ((rem - all1) as u128 + r2 as u128) / (lr2 as u128);
                proof {
                    assert(done2_wide == (rem as int - all1 as int + r2 as int) / (lr2 as int));
                    assert(done2_wide <= c2);
                    assert(done2_wide * lr2 <= c2 * lr2) by {
                        lemma_mul_inequality(done2_wide as int, c2 as int, lr2 as int);
                    }
                    assert(done2_wide * l2 <= c2 * l2) by {
                        lemma_mul_inequality(done2_wide as int, c2 as int, l2 as int);
                    }
                }
                let done2: u64 = done2_wide as u64;
                let done2_rows: u64 = done2 * lr2;
                let total_done: u64 = all1 + done2_rows;
                if total_done <= rem && rem - total_done < l2 {
                    let c1r1: u64 = c1 * r1;
                    let lefts: u64 = rem - c1r1 - done2_rows + done2 * l2;
                    let ret: u64 = partn_offset + lefts % pg.n_partitions;
                    proof {
                        lemma_mod_bound(lefts as int, pg.n_partitions as int);
                        assert(spec_resolve(gs, ds, i as int, rem as int, partn_offset as int)
                            matches Some(pr) && pr.0 == ret as int && pr.1
                            == pg.n_rows_per_partition as int);
                    }
                    return (ret, pg.n_rows_per_partition);
                }
                let c1l1: u64 = c1 * l1;
                rem = rem - c1l1 - done2 * l2;
            }
            partn_offset = partn_offset + pg.n_partitions;
            i = i + 1;
        }
        proof {
            assert(rows_sum_from(gs, n as int) == 0);
            assert(false);
        }
        (0, 0)
    }
}

} // verus!
