//! GRASP metaheuristic: a randomized greedy construction followed by
//! steepest-descent local search over the adjacent-subset swap neighborhood,
//! restarted for a fixed number of independent iterations, keeping the best
//! (lowest-makespan) locally optimal partition found.

use vstd::prelude::*;

use rand::prelude::IteratorRandom;

pub use crate::common::Partition;
pub use crate::common::Subset;

verus! {

use vstd::multiset::Multiset;
use crate::common::SolverError;
use crate::common::compute_max_sum;
use crate::common::compute_min_sum;
use crate::common::index_of_min_sum;
use crate::common::lemma_min_le_max;
use crate::common::lemma_part_mset_pointwise;
use crate::common::lemma_part_mset_push;
use crate::common::lemma_part_mset_update;
use crate::common::lemma_sums_total_pointwise;
use crate::common::lemma_sum_seq_elem;
use crate::common::lemma_sum_seq_nonneg;
use crate::common::lemma_sum_seq_push;
use crate::common::lemma_sum_seq_remove;
use crate::common::lemma_sum_seq_update;
use crate::common::lemma_sums_total_elem;
use crate::common::lemma_sums_total_nonneg;
use crate::common::lemma_sums_total_pair;
use crate::common::lemma_sums_total_push;
use crate::common::lemma_sums_total_update;
use crate::common::max_sum;
use crate::common::part_mset;
use crate::common::partition_wf;
use crate::common::subset_wf;
use crate::common::subsets_wf;
use crate::common::sum_seq;
use crate::common::sums_total;

broadcast use vstd::seq_lib::group_to_multiset_ensures;

/// Size of the restricted candidate list: how many of the largest remaining
/// numbers the randomized construction step samples from.
pub const CANDIDATES_LIST_SIZE: usize = 5;

/// Relies on rand::seq::IteratorRandom::choose over the range `0..n`, drawn
/// from rand::thread_rng: it returns `Some` of one element of the range
/// whenever the range is non-empty. Which element comes back is random, so
/// nothing more than the bound is stated.
#[verifier::external_body]
fn random_index(n: usize) -> (r: usize)
    requires
        n >= 1,
    ensures
        r < n,
{
    match (0..n).choose(&mut rand::thread_rng()) {
        Some(i) => i,
        None => 0,
    }
}

/// A swap move: element `j` of subset `i` exchanged with element `m` of the
/// index-adjacent subset `i + 1`.
pub open spec fn valid_swap(ss: Seq<Subset>, i: int, j: int, m: int) -> bool {
    &&& 0 <= i < ss.len() - 1
    &&& 0 <= j < ss[i].numbers@.len()
    &&& 0 <= m < ss[i + 1].numbers@.len()
}

/// The subset sums after the swap `(i, j, m)`, by the same delta update the
/// implementation uses.
pub open spec fn swapped_sums(ss: Seq<Subset>, i: int, j: int, m: int) -> Seq<int> {
    Seq::new(
        ss.len(),
        |t: int|
            if t == i {
                ss[i].sum - ss[i].numbers@[j] + ss[i + 1].numbers@[m]
            } else if t == i + 1 {
                ss[i + 1].sum - ss[i + 1].numbers@[m] + ss[i].numbers@[j]
            } else {
                ss[t].sum as int
            },
    )
}

/// Largest value of a sequence of mathematical integers.
pub open spec fn seq_max(s: Seq<int>) -> int
    decreases s.len(),
{
    if s.len() <= 1 {
        s[0]
    } else {
        let rest = seq_max(s.drop_last());
        if s.last() >= rest {
            s.last()
        } else {
            rest
        }
    }
}

/// The makespan the partition would have after the swap `(i, j, m)`.
pub open spec fn swap_makespan(ss: Seq<Subset>, i: int, j: int, m: int) -> int {
    seq_max(swapped_sums(ss, i, j, m))
}

/// `rs` is exactly `ss` after the swap `(i, j, m)`: the two affected number
/// lists exchange their elements, every other subset keeps its numbers, and
/// every cached sum equals the delta-updated sum.
pub open spec fn is_swap_result(ss: Seq<Subset>, i: int, j: int, m: int, rs: Seq<Subset>) -> bool {
    &&& rs.len() == ss.len()
    &&& rs[i].numbers@ == ss[i].numbers@.update(j, ss[i + 1].numbers@[m])
    &&& rs[i + 1].numbers@ == ss[i + 1].numbers@.update(m, ss[i].numbers@[j])
    &&& forall|u: int|
        0 <= u < ss.len() && u != i && u != i + 1 ==> (#[trigger] rs[u]).numbers@ == ss[u].numbers@
    &&& forall|u: int| 0 <= u < ss.len() ==> (#[trigger] rs[u]).sum as int == swapped_sums(
        ss,
        i,
        j,
        m,
    )[u]
}

/// `(i, j, m)` is met before `(i2, j2, m2)` in the neighborhood enumeration:
/// ascending subset index, then first element index, then second.
pub open spec fn swap_before(i: int, j: int, m: int, i2: int, j2: int, m2: int) -> bool {
    ||| i < i2
    ||| (i == i2 && j < j2)
    ||| (i == i2 && j == j2 && m < m2)
}

/// No single adjacent-subset element swap lowers the makespan.
pub open spec fn is_local_optimum(p: Partition) -> bool {
    forall|i: int, j: int, m: int|
        valid_swap(p.subsets@, i, j, m) ==> #[trigger] swap_makespan(p.subsets@, i, j, m)
            >= p.maximum_sum
}

/// A sequence of subsets whose cached sums match a given integer sequence
/// pointwise has that sequence's maximum as its largest sum.
proof fn lemma_max_sum_matches(ss: Seq<Subset>, s: Seq<int>)
    requires
        ss.len() == s.len(),
        ss.len() >= 1,
        forall|t: int| 0 <= t < ss.len() ==> (#[trigger] ss[t]).sum == s[t],
    ensures
        max_sum(ss) == seq_max(s),
    decreases ss.len(),
{
    if ss.len() > 1 {
        lemma_max_sum_matches(ss.drop_last(), s.drop_last());
    }
}

/// Index of the largest remaining number (the next number a max-priority
/// queue over the pool would pop).
fn index_of_max(v: &Vec<u64>) -> (r: usize)
    requires
        v@.len() >= 1,
    ensures
        r < v@.len(),
        forall|t: int| 0 <= t < v@.len() ==> v@[t] <= v@[r as int],
{
    let mut r: usize = 0;
    let mut i: usize = 1;
    while i < v.len()
        invariant
            r < i <= v@.len(),
            forall|t: int| 0 <= t < i ==> v@[t] <= v@[r as int],
        decreases v@.len() - i,
    {
        if v[i] > v[r] {
            r = i;
        }
        i = i + 1;
    }
    r
}

fn copy_vec(v: &Vec<u64>) -> (r: Vec<u64>)
    ensures
        r@ == v@,
{
    let mut r: Vec<u64> = Vec::new();
    let mut t: usize = 0;
    while t < v.len()
        invariant
            t <= v@.len(),
            r@ == v@.take(t as int),
        decreases v@.len() - t,
    {
        proof {
            assert(v@.take(t + 1) =~= v@.take(t as int).push(v@[t as int]));
        }
        r.push(v[t]);
        t = t + 1;
    }
    proof {
        assert(v@.take(v@.len() as int) =~= v@);
    }
    r
}

fn copy_with_update(v: &Vec<u64>, idx: usize, val: u64) -> (r: Vec<u64>)
    requires
        idx < v@.len(),
    ensures
        r@ == v@.update(idx as int, val),
{
    let ghost goal = v@.update(idx as int, val);
    let mut r: Vec<u64> = Vec::new();
    let mut t: usize = 0;
    while t < v.len()
        invariant
            t <= v@.len(),
            idx < v@.len(),
            goal == v@.update(idx as int, val),
            r@ == goal.take(t as int),
        decreases v@.len() - t,
    {
        proof {
            assert(goal.take(t + 1) =~= goal.take(t as int).push(goal[t as int]));
        }
        if t == idx {
            r.push(val);
        } else {
            r.push(v[t]);
        }
        t = t + 1;
    }
    proof {
        assert(goal.take(goal.len() as int) =~= goal);
    }
    r
}

/// Makespan the partition would have after swap `(i, j, m)`, computed by the
/// delta update without building the neighbor.
#[verifier::loop_isolation(false)]
fn swap_quality(subsets: &Vec<Subset>, i: usize, j: usize, m: usize) -> (r: i64)
    requires
        subsets_wf(subsets@),
        valid_swap(subsets@, i as int, j as int, m as int),
        sums_total(subsets@) <= i64::MAX,
    ensures
        r as int == swap_makespan(subsets@, i as int, j as int, m as int),
{
    let ghost sums = swapped_sums(subsets@, i as int, j as int, m as int);
    let len = subsets.len();
    proof {
        assert(i as int + 1 < len as int);
        lemma_sum_seq_elem(subsets@[i as int].numbers@, j as int);
        lemma_sum_seq_elem(subsets@[i as int + 1].numbers@, m as int);
        lemma_sum_seq_nonneg(subsets@[i as int].numbers@);
        lemma_sum_seq_nonneg(subsets@[i as int + 1].numbers@);
        lemma_sums_total_pair(subsets@, i as int, i as int + 1);
        lemma_sums_total_elem(subsets@, i as int);
        lemma_sums_total_nonneg(subsets@);
    }
    let a = subsets[i].numbers[j];
    let b = subsets[i + 1].numbers[m];
    let si: i64 = subsets[i].sum - (a as i64) + (b as i64);
    let si1: i64 = subsets[i + 1].sum - (b as i64) + (a as i64);
    let mut r: i64 = if i == 0 {
        si
    } else {
        subsets[0].sum
    };
    proof {
        assert(r as int == sums[0]);
    }
    let mut t: usize = 1;
    while t < subsets.len()
        invariant
            1 <= t <= subsets@.len(),
            r as int == seq_max(sums.take(t as int)),
        decreases subsets@.len() - t,
    {
        proof {
            assert(sums.take(t + 1).drop_last() =~= sums.take(t as int));
            assert(sums.take(t + 1).last() == sums[t as int]);
        }
        let v: i64 = if t == i {
            si
        } else if t == i + 1 {
            si1
        } else {
            subsets[t].sum
        };
        proof {
            assert(v as int == sums[t as int]);
        }
        if v > r {
            r = v;
        }
        t = t + 1;
    }
    proof {
        assert(sums.take(sums.len() as int) =~= sums);
    }
    r
}

/// Build the neighbor reached by swap `(i, j, m)`: the two affected number
/// lists exchange their elements, the two sums take the same delta in the
/// same step, and both extremal caches are recomputed exactly.
fn apply_swap(solution: &Partition, i: usize, j: usize, m: usize) -> (r: Partition)
    requires
        partition_wf(*solution),
        valid_swap(solution.subsets@, i as int, j as int, m as int),
        sums_total(solution.subsets@) <= i64::MAX,
    ensures
        partition_wf(r),
        r.subsets@.len() == solution.subsets@.len(),
        part_mset(r.subsets@) == part_mset(solution.subsets@),
        sums_total(r.subsets@) == sums_total(solution.subsets@),
        r.maximum_sum as int == swap_makespan(solution.subsets@, i as int, j as int, m as int),
        is_swap_result(solution.subsets@, i as int, j as int, m as int, r.subsets@),
{
    let ghost ss = solution.subsets@;
    let ghost sums = swapped_sums(ss, i as int, j as int, m as int);
    let len = solution.subsets.len();
    proof {
        assert(i as int + 1 < len as int);
        lemma_sum_seq_elem(ss[i as int].numbers@, j as int);
        lemma_sum_seq_elem(ss[i as int + 1].numbers@, m as int);
        lemma_sum_seq_nonneg(ss[i as int].numbers@);
        lemma_sum_seq_nonneg(ss[i as int + 1].numbers@);
        lemma_sums_total_pair(ss, i as int, i as int + 1);
        lemma_sums_total_nonneg(ss);
    }
    let a = solution.subsets[i].numbers[j];
    let b = solution.subsets[i + 1].numbers[m];
    let si: i64 = solution.subsets[i].sum - (a as i64) + (b as i64);
    let si1: i64 = solution.subsets[i + 1].sum - (b as i64) + (a as i64);
    let mut new_subsets: Vec<Subset> = Vec::new();
    let mut t: usize = 0;
    while t < solution.subsets.len()
        invariant
            t <= ss.len(),
            new_subsets@.len() == t,
            valid_swap(ss, i as int, j as int, m as int),
            ss == solution.subsets@,
            sums == swapped_sums(ss, i as int, j as int, m as int),
            a == ss[i as int].numbers@[j as int],
            b == ss[i as int + 1].numbers@[m as int],
            si == sums[i as int],
            si1 == sums[i as int + 1],
            forall|u: int| 0 <= u < t ==> (#[trigger] new_subsets@[u]).sum as int == sums[u],
            forall|u: int|
                0 <= u < t ==> (#[trigger] new_subsets@[u]).numbers@ == (if u == i {
                    ss[i as int].numbers@.update(j as int, b)
                } else if u == i + 1 {
                    ss[i as int + 1].numbers@.update(m as int, a)
                } else {
                    ss[u].numbers@
                }),
        decreases ss.len() - t,
    {
        let sub: Subset = if t == i {
            Subset { numbers: copy_with_update(&solution.subsets[t].numbers, j, b), sum: si }
        } else if t == i + 1 {
            Subset { numbers: copy_with_update(&solution.subsets[t].numbers, m, a), sum: si1 }
        } else {
            Subset { numbers: copy_vec(&solution.subsets[t].numbers), sum: solution.subsets[t].sum }
        };
        new_subsets.push(sub);
        t = t + 1;
    }
    proof {
        lemma_sum_seq_update(ss[i as int].numbers@, j as int, b);
        lemma_sum_seq_update(ss[i as int + 1].numbers@, m as int, a);
        assert forall|u: int| 0 <= u < new_subsets@.len() implies subset_wf(
            #[trigger] new_subsets@[u],
        ) by {
            assert(subset_wf(ss[u]));
        }
        let u1 = ss.update(i as int, new_subsets@[i as int]);
        let u2 = u1.update(i as int + 1, new_subsets@[i as int + 1]);
        lemma_part_mset_update(ss, i as int, new_subsets@[i as int]);
        lemma_part_mset_update(u1, i as int + 1, new_subsets@[i as int + 1]);
        lemma_sums_total_update(ss, i as int, new_subsets@[i as int]);
        lemma_sums_total_update(u1, i as int + 1, new_subsets@[i as int + 1]);
        let mi = ss[i as int].numbers@.to_multiset();
        let mi1 = ss[i as int + 1].numbers@.to_multiset();
        let ni = new_subsets@[i as int].numbers@.to_multiset();
        let ni1 = new_subsets@[i as int + 1].numbers@.to_multiset();
        assert(ni == mi.insert(b).remove(a));
        assert(ni1 == mi1.insert(a).remove(b));
        assert(ss[i as int].numbers@.contains(a));
        assert(ss[i as int + 1].numbers@.contains(b));
        assert(mi.count(a) >= 1);
        assert(mi1.count(b) >= 1);
        assert(u1[i as int + 1] == ss[i as int + 1]);
        lemma_part_mset_pointwise(new_subsets@, u2);
        lemma_sums_total_pointwise(new_subsets@, u2);
        assert forall|x: u64| part_mset(u2).count(x) == part_mset(ss).count(x) by {
            assert(part_mset(u1).add(mi).count(x) == part_mset(ss).add(ni).count(x));
            assert(part_mset(u2).add(mi1).count(x) == part_mset(u1).add(ni1).count(x));
            assert(ni.count(x) == mi.insert(b).remove(a).count(x));
            assert(ni1.count(x) == mi1.insert(a).remove(b).count(x));
            assert(mi.insert(b).count(a) >= 1);
            assert(mi1.insert(a).count(b) >= 1);
        }
        assert(part_mset(u2) =~= part_mset(ss));
        assert(sums_total(u2) == sums_total(ss));
        lemma_max_sum_matches(new_subsets@, sums);
        lemma_min_le_max(new_subsets@);
    }
    let maximum = compute_max_sum(&new_subsets);
    let minimum = compute_min_sum(&new_subsets);
    Partition { subsets: new_subsets, maximum_sum: maximum as u64, minimum_sum: minimum as u64 }
}

/// Steepest-descent step: enumerate every adjacent-subset element swap and
/// return the neighbor with the lowest makespan, ties broken by the first
/// swap met in enumeration order (ascending subset index, then both element
/// indexes). Returns `None` exactly when the neighborhood is empty.
#[verifier::loop_isolation(false)]
pub fn best_neighbor(solution: &Partition) -> (r: Option<Partition>)
    requires
        partition_wf(*solution),
        sums_total(solution.subsets@) <= i64::MAX,
    ensures
        match r {
            Some(b) => {
                &&& partition_wf(b)
                &&& b.subsets@.len() == solution.subsets@.len()
                &&& part_mset(b.subsets@) == part_mset(solution.subsets@)
                &&& sums_total(b.subsets@) == sums_total(solution.subsets@)
                &&& forall|i: int, j: int, m: int|
                    valid_swap(solution.subsets@, i, j, m) ==> b.maximum_sum as int
                        <= #[trigger] swap_makespan(solution.subsets@, i, j, m)
                &&& exists|i: int, j: int, m: int|
                    valid_swap(solution.subsets@, i, j, m) && b.maximum_sum as int
                        == #[trigger] swap_makespan(solution.subsets@, i, j, m)
                &&& exists|i: int, j: int, m: int|
                    {
                        &&& #[trigger] valid_swap(solution.subsets@, i, j, m)
                        &&& b.maximum_sum as int == swap_makespan(solution.subsets@, i, j, m)
                        &&& is_swap_result(solution.subsets@, i, j, m, b.subsets@)
                        &&& forall|i2: int, j2: int, m2: int|
                            valid_swap(solution.subsets@, i2, j2, m2) && swap_before(
                                i2,
                                j2,
                                m2,
                                i,
                                j,
                                m,
                            ) ==> (b.maximum_sum as int) < #[trigger] swap_makespan(
                                solution.subsets@,
                                i2,
                                j2,
                                m2,
                            )
                    }
            },
            None => forall|i: int, j: int, m: int| !valid_swap(solution.subsets@, i, j, m),
        },
{
    let ghost ss = solution.subsets@;
    let k = solution.subsets.len();
    let mut found = false;
    let mut bi: usize = 0;
    let mut bj: usize = 0;
    let mut bm: usize = 0;
    let mut bq: i64 = 0;
    let mut i: usize = 0;
    while k >= 2 && i < k - 1
        invariant
            i <= k,
            found ==> (valid_swap(ss, bi as int, bj as int, bm as int) && bq as int
                == swap_makespan(ss, bi as int, bj as int, bm as int)),
            found ==> forall|ii: int, jj: int, mm: int|
                #[trigger] valid_swap(ss, ii, jj, mm) && swap_before(ii, jj, mm, bi as int,
                bj as int, bm as int) ==> (bq as int) < swap_makespan(ss, ii, jj, mm),
            forall|ii: int, jj: int, mm: int|
                #[trigger] valid_swap(ss, ii, jj, mm) && ii < i ==> found && bq as int
                    <= swap_makespan(ss, ii, jj, mm),
        decreases k - i,
    {
        let ni = solution.subsets[i].numbers.len();
        let mut j: usize = 0;
        while j < ni
            invariant
                j <= ni,
                i + 1 < k,
                ni == ss[i as int].numbers@.len(),
                found ==> (valid_swap(ss, bi as int, bj as int, bm as int) && bq as int
                    == swap_makespan(ss, bi as int, bj as int, bm as int)),
                found ==> forall|ii: int, jj: int, mm: int|
                    #[trigger] valid_swap(ss, ii, jj, mm) && swap_before(ii, jj, mm, bi as int,
                    bj as int, bm as int) ==> (bq as int) < swap_makespan(ss, ii, jj, mm),
                forall|ii: int, jj: int, mm: int|
                    #[trigger] valid_swap(ss, ii, jj, mm) && (ii < i || (ii == i && jj < j))
                        ==> found && bq as int <= swap_makespan(ss, ii, jj, mm),
            decreases ni - j,
        {
            let nm = solution.subsets[i + 1].numbers.len();
            let mut m: usize = 0;
            while m < nm
                invariant
                    m <= nm,
                    j < ni,
                    i + 1 < k,
                    ni == ss[i as int].numbers@.len(),
                    nm == ss[i as int + 1].numbers@.len(),
                    found ==> (valid_swap(ss, bi as int, bj as int, bm as int) && bq as int
                        == swap_makespan(ss, bi as int, bj as int, bm as int)),
                    found ==> forall|ii: int, jj: int, mm: int|
                        #[trigger] valid_swap(ss, ii, jj, mm) && swap_before(ii, jj, mm, bi as int,
                        bj as int, bm as int) ==> (bq as int) < swap_makespan(ss, ii, jj, mm),
                    forall|ii: int, jj: int, mm: int|
                        #[trigger] valid_swap(ss, ii, jj, mm) && (ii < i || (ii == i && jj < j) || (
                        ii == i && jj == j && mm < m)) ==> found && bq as int <= swap_makespan(
                            ss,
                            ii,
                            jj,
                            mm,
                        ),
                decreases nm - m,
            {
                let q = swap_quality(&solution.subsets, i, j, m);
                if !found || q < bq {
                    found = true;
                    bi = i;
                    bj = j;
                    bm = m;
                    bq = q;
                }
                m = m + 1;
            }
            j = j + 1;
        }
        i = i + 1;
    }
    if found {
        let nb = apply_swap(solution, bi, bj, bm);
        Some(nb)
    } else {
        proof {
            assert forall|ii: int, jj: int, mm: int| !valid_swap(ss, ii, jj, mm) by {
                if valid_swap(ss, ii, jj, mm) {
                    assert(ss.len() >= 2);
                    assert(ii < i);
                    assert(false);
                }
            }
        }
        None
    }
}

/// Hill-climb to a local optimum: replace the partition with its best
/// neighbor while that neighbor strictly lowers the makespan. The makespan
/// never increases, and the result admits no improving adjacent swap. A
/// partition that is already a local optimum — in particular one with fewer
/// than two subsets, whose neighborhood is empty — is returned unchanged.
#[verifier::loop_isolation(false)]
pub fn local_search(solution: Partition) -> (r: Partition)
    requires
        partition_wf(solution),
        sums_total(solution.subsets@) <= i64::MAX,
    ensures
        partition_wf(r),
        r.subsets@.len() == solution.subsets@.len(),
        part_mset(r.subsets@) == part_mset(solution.subsets@),
        sums_total(r.subsets@) == sums_total(solution.subsets@),
        r.maximum_sum <= solution.maximum_sum,
        is_local_optimum(r),
        is_local_optimum(solution) ==> r == solution,
{
    let mut curr = solution;
    loop
        invariant
            partition_wf(curr),
            curr.subsets@.len() == solution.subsets@.len(),
            part_mset(curr.subsets@) == part_mset(solution.subsets@),
            sums_total(curr.subsets@) == sums_total(solution.subsets@),
            curr.maximum_sum <= solution.maximum_sum,
            is_local_optimum(solution) ==> curr == solution,
        decreases curr.maximum_sum,
    {
        match best_neighbor(&curr) {
            None => {
                return curr;
            },
            Some(neighbor) => {
                if neighbor.solution_quality() < curr.solution_quality() {
                    proof {
                        if is_local_optimum(solution) {
                            let (wi, wj, wm): (int, int, int) = choose|wi: int, wj: int, wm: int|
                                valid_swap(curr.subsets@, wi, wj, wm)
                                    && neighbor.maximum_sum as int == #[trigger] swap_makespan(
                                    curr.subsets@,
                                    wi,
                                    wj,
                                    wm,
                                );
                            assert(swap_makespan(solution.subsets@, wi, wj, wm)
                                >= solution.maximum_sum);
                            assert(false);
                        }
                    }
                    curr = neighbor;
                } else {
                    return curr;
                }
            },
        }
    }
}

/// Size of the restricted candidate list drawn from a pool of `len` numbers.
pub open spec fn rcl_size(len: int) -> int {
    if len < CANDIDATES_LIST_SIZE as int {
        len
    } else {
        CANDIDATES_LIST_SIZE as int
    }
}

/// The rule of one construction round. `cands` is the restricted candidate
/// list: min(CANDIDATES_LIST_SIZE, pool size) numbers taken from the pool
/// `queue0`, every number left in the pool no larger than any of its members.
/// The drawn index `choice` picks `n` from the list; `n` is appended to
/// `parts0[ti]`, the first subset whose sum is minimal, every other subset is
/// unchanged, and the pool ends as it began with one occurrence of `n`
/// removed.
pub open spec fn construction_step(
    parts0: Seq<Subset>,
    queue0: Seq<u64>,
    choice: int,
    n: u64,
    ti: int,
    cands: Seq<u64>,
    parts1: Seq<Subset>,
    queue1: Seq<u64>,
) -> bool {
    &&& cands.len() == rcl_size(queue0.len() as int)
    &&& cands.to_multiset().subset_of(queue0.to_multiset())
    &&& forall|x: u64|
        #[trigger] queue0.to_multiset().sub(cands.to_multiset()).count(x) > 0 ==> forall|t: int|
            0 <= t < cands.len() ==> x <= #[trigger] cands[t]
    &&& n == cands[choice]
    &&& queue1.to_multiset() == queue0.to_multiset().remove(n)
    &&& 0 <= ti < parts0.len()
    &&& forall|t: int| 0 <= t < parts0.len() ==> parts0[ti].sum <= (#[trigger] parts0[t]).sum
    &&& forall|t: int| 0 <= t < ti ==> (#[trigger] parts0[t]).sum > parts0[ti].sum
    &&& parts1[ti].numbers@ == parts0[ti].numbers@.push(n)
    &&& parts1[ti].sum == parts0[ti].sum + n
    &&& forall|t: int| 0 <= t < parts0.len() && t != ti ==> #[trigger] parts1[t] == parts0[t]
}

/// One round of the randomized greedy construction: draw the restricted
/// candidate list of the largest remaining numbers, take the candidate that
/// the drawn index selects, append it to the first subset with the smallest
/// sum, and return the other candidates to the pool.
#[verifier::loop_isolation(false)]
pub fn assign_round(parts: &mut Vec<Subset>, queue: &mut Vec<u64>, choice: usize)
    requires
        old(parts)@.len() >= 1,
        subsets_wf(old(parts)@),
        old(queue)@.len() >= 1,
        (choice as int) < rcl_size(old(queue)@.len() as int),
        sums_total(old(parts)@) + sum_seq(old(queue)@) <= i64::MAX,
    ensures
        final(parts)@.len() == old(parts)@.len(),
        subsets_wf(final(parts)@),
        final(queue)@.len() == old(queue)@.len() - 1,
        part_mset(final(parts)@).add(final(queue)@.to_multiset()) == part_mset(old(parts)@).add(
            old(queue)@.to_multiset(),
        ),
        sums_total(final(parts)@) + sum_seq(final(queue)@) == sums_total(old(parts)@) + sum_seq(
            old(queue)@,
        ),
        exists|n: u64, ti: int, cands: Seq<u64>|
            #[trigger] construction_step(
                old(parts)@,
                old(queue)@,
                choice as int,
                n,
                ti,
                cands,
                final(parts)@,
                final(queue)@,
            ),
{
    let ghost parts0 = old(parts)@;
    let ghost q_start = queue@;
    let ghost q_start_mset = queue@.to_multiset();
    let ghost q_start_sum = sum_seq(queue@);
    let ghost q_start_len = queue@.len();
    let limit = if queue.len() < CANDIDATES_LIST_SIZE {
        queue.len()
    } else {
        CANDIDATES_LIST_SIZE
    };
    let mut candidates: Vec<u64> = Vec::new();
    let mut c: usize = 0;
    while c < limit
        invariant
            c <= limit,
            candidates@.len() == c,
            queue@.len() == q_start_len - c,
            candidates@.to_multiset().add(queue@.to_multiset()) == q_start_mset,
            sum_seq(candidates@) + sum_seq(queue@) == q_start_sum,
            forall|t1: int, t2: int|
                0 <= t1 <= t2 < candidates@.len() ==> (#[trigger] candidates@[t1])
                    >= (#[trigger] candidates@[t2]),
            forall|qt: int, ct: int|
                0 <= qt < queue@.len() && 0 <= ct < candidates@.len() ==> (#[trigger] queue@[qt])
                    <= (#[trigger] candidates@[ct]),
        decreases limit - c,
    {
        let ix = index_of_max(&queue);
        proof {
            lemma_sum_seq_remove(queue@, ix as int);
        }
        let x = queue.remove(ix);
        proof {
            lemma_sum_seq_push(candidates@, x);
            assert(candidates@.push(x).to_multiset().add(queue@.to_multiset()) =~= q_start_mset);
        }
        candidates.push(x);
        c = c + 1;
    }
    let ghost cands = candidates@;
    let ghost rem = queue@;
    proof {
        assert forall|xx: u64|
            #[trigger] q_start_mset.sub(cands.to_multiset()).count(xx) > 0 implies forall|t: int|
            0 <= t < cands.len() ==> xx <= #[trigger] cands[t] by {
            assert(q_start_mset.sub(cands.to_multiset()).count(xx) == rem.to_multiset().count(xx));
            assert(rem.contains(xx));
            let qt = choose|qt: int| 0 <= qt < rem.len() && rem[qt] == xx;
            assert(forall|t: int| 0 <= t < cands.len() ==> rem[qt] <= #[trigger] cands[t]);
        }
        assert(cands.to_multiset().subset_of(q_start_mset)) by {
            assert(forall|xx: u64| #[trigger] cands.to_multiset().count(xx)
                <= q_start_mset.count(xx));
        }
    }
    proof {
        lemma_sum_seq_remove(candidates@, choice as int);
        assert(candidates@.to_multiset().count(candidates@[choice as int]) >= 1);
    }
    let chosen = candidates.remove(choice);
    proof {
        assert(chosen == cands[choice as int]);
        assert(candidates@.to_multiset().add(queue@.to_multiset()) =~= q_start_mset.remove(
            chosen,
        ));
    }
    while candidates.len() > 0
        invariant
            candidates@.to_multiset().add(queue@.to_multiset()) == q_start_mset.remove(chosen),
            sum_seq(candidates@) + sum_seq(queue@) == q_start_sum - chosen,
            queue@.len() + candidates@.len() == q_start_len - 1,
        decreases candidates@.len(),
    {
        proof {
            let last = candidates@.len() - 1;
            assert(candidates@.drop_last() =~= candidates@.remove(last));
            lemma_sum_seq_remove(candidates@, last);
        }
        let x = candidates.pop().unwrap();
        proof {
            lemma_sum_seq_push(queue@, x);
            assert(candidates@.to_multiset().add(queue@.push(x).to_multiset())
                =~= q_start_mset.remove(chosen));
        }
        queue.push(x);
    }
    proof {
        lemma_sums_total_nonneg(parts@);
        lemma_sum_seq_nonneg(queue@);
        assert(sum_seq(candidates@) == 0);
        assert(candidates@.to_multiset() =~= Multiset::<u64>::empty());
        assert(queue@.to_multiset() =~= q_start_mset.remove(chosen));
    }
    let ti = index_of_min_sum(&parts);
    proof {
        lemma_sums_total_elem(parts@, ti as int);
        lemma_sum_seq_nonneg(parts@[ti as int].numbers@);
    }
    let mut target = parts.remove(ti);
    let ghost old_numbers = target.numbers@;
    target.sum = target.sum + (chosen as i64);
    target.numbers.push(chosen);
    parts.insert(ti, target);
    proof {
        lemma_sum_seq_push(old_numbers, chosen);
        assert(parts@ =~~= parts0.update(ti as int, target));
        lemma_part_mset_update(parts0, ti as int, target);
        lemma_sums_total_update(parts0, ti as int, target);
        assert(target.numbers@.to_multiset() == old_numbers.to_multiset().insert(chosen));
        assert(q_start_mset.count(chosen) >= 1);
        let m_old = parts0[ti as int].numbers@.to_multiset();
        assert forall|x: u64|
            part_mset(parts@).add(queue@.to_multiset()).count(x) == part_mset(parts0).add(
                q_start_mset,
            ).count(x) by {
            assert(part_mset(parts@).add(m_old).count(x) == part_mset(parts0).add(
                m_old.insert(chosen),
            ).count(x));
            assert(queue@.to_multiset().count(x) == q_start_mset.remove(chosen).count(x));
        }
        assert(part_mset(parts@).add(queue@.to_multiset()) =~= part_mset(parts0).add(
            q_start_mset,
        ));
        assert(construction_step(
            parts0,
            q_start,
            choice as int,
            chosen,
            ti as int,
            cands,
            parts@,
            queue@,
        ));
    }
}

/// One randomized greedy construction: numbers are drawn from a restricted
/// candidate list of the largest remaining numbers (one of them chosen at
/// random) and appended to the subset with the currently smallest sum, ties
/// broken by the lowest subset index. The result has exactly k subsets whose
/// numbers are exactly the input multiset.
#[verifier::loop_isolation(false)]
pub fn greedy_heuristic(nums: &Vec<u64>, k: u64) -> (r: Result<Partition, SolverError>)
    requires
        sum_seq(nums@) <= i64::MAX,
        k <= usize::MAX as u64,
    ensures
        nums@.len() == 0 ==> r == Err::<Partition, SolverError>(SolverError::EmptyInput),
        nums@.len() > 0 && k == 0 ==> r == Err::<Partition, SolverError>(
            SolverError::InvalidSubsetCount,
        ),
        nums@.len() > 0 && k >= 1 ==> (r matches Ok(p) && partition_wf(p) && p.subsets@.len() == k
            && part_mset(p.subsets@) == nums@.to_multiset() && sums_total(p.subsets@) == sum_seq(
            nums@,
        )),
{
    if nums.len() == 0 {
        return Err(SolverError::EmptyInput);
    }
    if k == 0 {
        return Err(SolverError::InvalidSubsetCount);
    }
    let mut parts: Vec<Subset> = Vec::new();
    let mut i: u64 = 0;
    while i < k
        invariant
            i <= k,
            parts@.len() == i,
            subsets_wf(parts@),
            part_mset(parts@) == Multiset::<u64>::empty(),
            sums_total(parts@) == 0,
        decreases k - i,
    {
        let empty = Subset { numbers: Vec::new(), sum: 0 };
        proof {
            assert(sum_seq(empty.numbers@) == 0);
            assert(empty.numbers@.to_multiset() =~= Multiset::<u64>::empty());
            lemma_part_mset_push(parts@, empty);
            assert(part_mset(parts@).add(Multiset::<u64>::empty()) =~= part_mset(parts@));
            lemma_sums_total_push(parts@, empty);
        }
        parts.push(empty);
        i = i + 1;
    }
    let mut queue: Vec<u64> = Vec::new();
    let mut qi: usize = 0;
    while qi < nums.len()
        invariant
            qi <= nums@.len(),
            queue@ == nums@.take(qi as int),
        decreases nums@.len() - qi,
    {
        proof {
            assert(nums@.take(qi + 1) =~= nums@.take(qi as int).push(nums@[qi as int]));
        }
        queue.push(nums[qi]);
        qi = qi + 1;
    }
    proof {
        assert(nums@.take(nums@.len() as int) =~= nums@);
    }
    while queue.len() > 0
        invariant
            parts@.len() == k,
            subsets_wf(parts@),
            part_mset(parts@).add(queue@.to_multiset()) == nums@.to_multiset(),
            sums_total(parts@) + sum_seq(queue@) == sum_seq(nums@),
        decreases queue@.len(),
    {
        let limit = if queue.len() < CANDIDATES_LIST_SIZE {
            queue.len()
        } else {
            CANDIDATES_LIST_SIZE
        };
        let choice = random_index(limit);
        assign_round(&mut parts, &mut queue, choice);
        proof {
            assert(part_mset(parts@).add(queue@.to_multiset()) =~= nums@.to_multiset());
        }
    }
    proof {
        assert(queue@.to_multiset() =~= Multiset::<u64>::empty());
        assert(sum_seq(queue@) == 0);
        assert(part_mset(parts@).add(Multiset::<u64>::empty()) =~= part_mset(parts@));
        lemma_min_le_max(parts@);
    }
    let maximum = compute_max_sum(&parts);
    let minimum = compute_min_sum(&parts);
    Ok(Partition { subsets: parts, maximum_sum: maximum as u64, minimum_sum: minimum as u64 })
}

/// The best (lowest) quality among the makespans seen so far.
pub open spec fn best_quality(qs: Seq<u64>) -> int
    decreases qs.len(),
{
    if qs.len() <= 1 {
        qs[0] as int
    } else {
        let rest = best_quality(qs.drop_last());
        if qs.last() < rest {
            qs.last() as int
        } else {
            rest
        }
    }
}

/// Law: the best makespan tracked across GRASP iterations is non-increasing
/// as the iteration count grows — given the qualities the first iterations
/// produced, one further iteration can only keep or lower the tracked best.
pub proof fn lemma_grasp_best_monotonic(qs: Seq<u64>, q: u64)
    requires
        qs.len() >= 1,
    ensures
        best_quality(qs.push(q)) <= best_quality(qs),
{
    assert(qs.push(q).drop_last() =~= qs);
}

/// Multi-start GRASP driver: `max_iter` independent rounds of randomized
/// greedy construction refined by local search, returning the round with the
/// lowest makespan. The result covers the input multiset with exactly k
/// subsets and is a local optimum of the adjacent-swap neighborhood.
#[verifier::loop_isolation(false)]
pub fn grasp(nums: &Vec<u64>, k: u64, max_iter: u64) -> (r: Result<Partition, SolverError>)
    requires
        sum_seq(nums@) <= i64::MAX,
        k <= usize::MAX as u64,
    ensures
        nums@.len() == 0 ==> r == Err::<Partition, SolverError>(SolverError::EmptyInput),
        nums@.len() > 0 && k == 0 ==> r == Err::<Partition, SolverError>(
            SolverError::InvalidSubsetCount,
        ),
        nums@.len() > 0 && k >= 1 && max_iter == 0 ==> r == Err::<Partition, SolverError>(
            SolverError::NoSolutionFound,
        ),
        nums@.len() > 0 && k >= 1 && max_iter > 0 ==> (r matches Ok(p) && partition_wf(p)
            && p.subsets@.len() == k && part_mset(p.subsets@) == nums@.to_multiset()
            && sums_total(p.subsets@) == sum_seq(nums@) && is_local_optimum(p)),
{
    if nums.len() == 0 {
        return Err(SolverError::EmptyInput);
    }
    if k == 0 {
        return Err(SolverError::InvalidSubsetCount);
    }
    if max_iter == 0 {
        return Err(SolverError::NoSolutionFound);
    }
    let mut best: Option<Partition> = None;
    let ghost mut quals: Seq<u64> = Seq::empty();
    let mut i: u64 = 0;
    while i < max_iter
        invariant
            i <= max_iter,
            quals.len() == i,
            i == 0 ==> best is None,
            i > 0 ==> (best matches Some(b) && partition_wf(b) && b.subsets@.len() == k
                && part_mset(b.subsets@) == nums@.to_multiset() && sums_total(b.subsets@)
                == sum_seq(nums@) && is_local_optimum(b) && b.maximum_sum as int == best_quality(
                quals,
            )),
        decreases max_iter - i,
    {
        let constructed = match greedy_heuristic(nums, k) {
            Ok(s) => s,
            Err(e) => {
                proof {
                    assert(false);
                }
                return Err(e);
            },
        };
        proof {
            lemma_sums_total_nonneg(constructed.subsets@);
        }
        let solution = local_search(constructed);
        let ghost prev_quals = quals;
        proof {
            quals = quals.push(solution.maximum_sum);
            assert(quals.drop_last() =~= prev_quals);
            assert(quals.last() == solution.maximum_sum);
        }
        let is_better = match &best {
            Some(partition) => solution.solution_quality() < partition.solution_quality(),
            None => true,
        };
        if is_better {
            best = Some(solution);
        }
        i = i + 1;
    }
    match best {
        Some(b) => Ok(b),
        None => {
            proof {
                assert(false);
            }
            Err(SolverError::NoSolutionFound)
        },
    }
}

} // verus!
