//! Shared data model: a candidate solution (`Partition` of `Subset`s) with
//! cached quality metrics, and the spec-level model of sums and contents.

use vstd::prelude::*;

verus! {

use vstd::multiset::Multiset;

broadcast use vstd::seq_lib::group_to_multiset_ensures;

/// One group of the partition: the numbers assigned to it and a cached sum.
/// The cache is signed because local-search deltas pass through it, but for a
/// well-formed subset it always equals the (non-negative) sum of `numbers`.
#[verifier::ext_equal]
#[derive(Clone, Debug, PartialEq, Eq)]
pub struct Subset {
    pub numbers: Vec<u64>,
    pub sum: i64,
}

/// A candidate solution: exactly k subsets plus cached extremal sums.
/// `maximum_sum` is the makespan (GRASP's objective); `maximum_sum -
/// minimum_sum` is the spread (Karmarkar-Karp's merge-ordering key).
#[derive(Clone, Debug, PartialEq, Eq)]
pub struct Partition {
    pub subsets: Vec<Subset>,
    pub maximum_sum: u64,
    pub minimum_sum: u64,
}

/// Why a solver could not produce a partition.
#[derive(Clone, Copy, Debug, PartialEq, Eq, Structural)]
pub enum SolverError {
    /// No numbers to partition.
    EmptyInput,
    /// The requested subset count k was zero.
    InvalidSubsetCount,
    /// GRASP was invoked with an iteration budget of zero.
    NoSolutionFound,
}

/// Mathematical sum of a sequence of numbers.
pub open spec fn sum_seq(s: Seq<u64>) -> int
    decreases s.len(),
{
    if s.len() == 0 {
        0
    } else {
        sum_seq(s.drop_last()) + s.last()
    }
}

/// The subset's cached sum is exactly the sum of its numbers.
pub open spec fn subset_wf(s: Subset) -> bool {
    s.sum as int == sum_seq(s.numbers@)
}

pub open spec fn subsets_wf(ss: Seq<Subset>) -> bool {
    forall|i: int| 0 <= i < ss.len() ==> subset_wf(#[trigger] ss[i])
}

/// All numbers held by a sequence of subsets, as a multiset.
pub open spec fn part_mset(ss: Seq<Subset>) -> Multiset<u64>
    decreases ss.len(),
{
    if ss.len() == 0 {
        Multiset::empty()
    } else {
        part_mset(ss.drop_last()).add(ss.last().numbers@.to_multiset())
    }
}

/// Total of the cached subset sums.
pub open spec fn sums_total(ss: Seq<Subset>) -> int
    decreases ss.len(),
{
    if ss.len() == 0 {
        0
    } else {
        sums_total(ss.drop_last()) + ss.last().sum
    }
}

/// Largest cached subset sum (meaningful for non-empty `ss`).
pub open spec fn max_sum(ss: Seq<Subset>) -> int
    decreases ss.len(),
{
    if ss.len() <= 1 {
        ss[0].sum as int
    } else {
        let rest = max_sum(ss.drop_last());
        if ss.last().sum >= rest {
            ss.last().sum as int
        } else {
            rest
        }
    }
}

/// Smallest cached subset sum (meaningful for non-empty `ss`).
pub open spec fn min_sum(ss: Seq<Subset>) -> int
    decreases ss.len(),
{
    if ss.len() <= 1 {
        ss[0].sum as int
    } else {
        let rest = min_sum(ss.drop_last());
        if ss.last().sum <= rest {
            ss.last().sum as int
        } else {
            rest
        }
    }
}

/// A fully consistent partition: at least one subset, every subset's cached
/// sum true, and both extremal caches equal to the true extremes.
pub open spec fn partition_wf(p: Partition) -> bool {
    &&& p.subsets@.len() >= 1
    &&& subsets_wf(p.subsets@)
    &&& p.maximum_sum as int == max_sum(p.subsets@)
    &&& p.minimum_sum as int == min_sum(p.subsets@)
}

/// The spread of a partition: makespan minus smallest subset sum.
pub open spec fn spread_of(p: Partition) -> int {
    p.maximum_sum - p.minimum_sum
}

pub proof fn lemma_sum_seq_nonneg(s: Seq<u64>)
    ensures
        sum_seq(s) >= 0,
    decreases s.len(),
{
    if s.len() > 0 {
        lemma_sum_seq_nonneg(s.drop_last());
    }
}

/// Every element is at most the sum of the whole sequence.
pub proof fn lemma_sum_seq_elem(s: Seq<u64>, j: int)
    requires
        0 <= j < s.len(),
    ensures
        s[j] <= sum_seq(s),
    decreases s.len(),
{
    lemma_sum_seq_nonneg(s.drop_last());
    if j < s.len() - 1 {
        lemma_sum_seq_elem(s.drop_last(), j);
    }
}

pub proof fn lemma_sum_seq_push(s: Seq<u64>, x: u64)
    ensures
        sum_seq(s.push(x)) == sum_seq(s) + x,
{
    assert(s.push(x).drop_last() =~= s);
}

pub proof fn lemma_sum_seq_remove(s: Seq<u64>, i: int)
    requires
        0 <= i < s.len(),
    ensures
        sum_seq(s.remove(i)) == sum_seq(s) - s[i],
    decreases s.len(),
{
    if i == s.len() - 1 {
        assert(s.remove(i) =~= s.drop_last());
    } else {
        assert(s.remove(i).drop_last() =~= s.drop_last().remove(i));
        assert(s.remove(i).last() == s.last());
        lemma_sum_seq_remove(s.drop_last(), i);
    }
}

pub proof fn lemma_sum_seq_concat(a: Seq<u64>, b: Seq<u64>)
    ensures
        sum_seq(a + b) == sum_seq(a) + sum_seq(b),
    decreases b.len(),
{
    if b.len() == 0 {
        assert(a + b =~= a);
    } else {
        assert((a + b).drop_last() =~= a + b.drop_last());
        assert((a + b).last() == b.last());
        lemma_sum_seq_concat(a, b.drop_last());
    }
}

pub proof fn lemma_sum_seq_update(s: Seq<u64>, j: int, x: u64)
    requires
        0 <= j < s.len(),
    ensures
        sum_seq(s.update(j, x)) == sum_seq(s) - s[j] + x,
    decreases s.len(),
{
    if j == s.len() - 1 {
        assert(s.update(j, x).drop_last() =~= s.drop_last());
        assert(s.update(j, x).last() == x);
    } else {
        assert(s.update(j, x).drop_last() =~= s.drop_last().update(j, x));
        assert(s.update(j, x).last() == s.last());
        lemma_sum_seq_update(s.drop_last(), j, x);
    }
}

pub proof fn lemma_part_mset_update(ss: Seq<Subset>, i: int, s: Subset)
    requires
        0 <= i < ss.len(),
    ensures
        part_mset(ss.update(i, s)).add(ss[i].numbers@.to_multiset()) == part_mset(ss).add(
            s.numbers@.to_multiset(),
        ),
    decreases ss.len(),
{
    if i == ss.len() - 1 {
        assert(ss.update(i, s).drop_last() =~= ss.drop_last());
        assert(ss.update(i, s).last() == s);
        assert(part_mset(ss.drop_last()).add(s.numbers@.to_multiset()).add(
            ss[i].numbers@.to_multiset(),
        ) =~= part_mset(ss.drop_last()).add(ss.last().numbers@.to_multiset()).add(
            s.numbers@.to_multiset(),
        ));
    } else {
        assert(ss.update(i, s).drop_last() =~= ss.drop_last().update(i, s));
        assert(ss.update(i, s).last() == ss.last());
        lemma_part_mset_update(ss.drop_last(), i, s);
        assert(part_mset(ss.drop_last().update(i, s)).add(ss.last().numbers@.to_multiset()).add(
            ss[i].numbers@.to_multiset(),
        ) =~= part_mset(ss.drop_last().update(i, s)).add(ss[i].numbers@.to_multiset()).add(
            ss.last().numbers@.to_multiset(),
        ));
        assert(part_mset(ss.drop_last()).add(s.numbers@.to_multiset()).add(
            ss.last().numbers@.to_multiset(),
        ) =~= part_mset(ss.drop_last()).add(ss.last().numbers@.to_multiset()).add(
            s.numbers@.to_multiset(),
        ));
    }
}

/// Two subset sequences whose number lists agree pointwise hold the same
/// multiset of numbers.
pub proof fn lemma_part_mset_pointwise(ss1: Seq<Subset>, ss2: Seq<Subset>)
    requires
        ss1.len() == ss2.len(),
        forall|t: int| 0 <= t < ss1.len() ==> (#[trigger] ss1[t]).numbers@ == ss2[t].numbers@,
    ensures
        part_mset(ss1) == part_mset(ss2),
    decreases ss1.len(),
{
    if ss1.len() > 0 {
        lemma_part_mset_pointwise(ss1.drop_last(), ss2.drop_last());
    }
}

/// Two subset sequences whose cached sums agree pointwise have the same sum
/// total.
pub proof fn lemma_sums_total_pointwise(ss1: Seq<Subset>, ss2: Seq<Subset>)
    requires
        ss1.len() == ss2.len(),
        forall|t: int| 0 <= t < ss1.len() ==> (#[trigger] ss1[t]).sum == ss2[t].sum,
    ensures
        sums_total(ss1) == sums_total(ss2),
    decreases ss1.len(),
{
    if ss1.len() > 0 {
        lemma_sums_total_pointwise(ss1.drop_last(), ss2.drop_last());
    }
}

pub proof fn lemma_sums_total_update(ss: Seq<Subset>, i: int, s: Subset)
    requires
        0 <= i < ss.len(),
    ensures
        sums_total(ss.update(i, s)) == sums_total(ss) - ss[i].sum + s.sum,
    decreases ss.len(),
{
    if i == ss.len() - 1 {
        assert(ss.update(i, s).drop_last() =~= ss.drop_last());
        assert(ss.update(i, s).last() == s);
    } else {
        assert(ss.update(i, s).drop_last() =~= ss.drop_last().update(i, s));
        assert(ss.update(i, s).last() == ss.last());
        lemma_sums_total_update(ss.drop_last(), i, s);
    }
}

pub proof fn lemma_part_mset_push(ss: Seq<Subset>, s: Subset)
    ensures
        part_mset(ss.push(s)) == part_mset(ss).add(s.numbers@.to_multiset()),
{
    assert(ss.push(s).drop_last() =~= ss);
}

pub proof fn lemma_part_mset_remove(ss: Seq<Subset>, i: int)
    requires
        0 <= i < ss.len(),
    ensures
        part_mset(ss) == part_mset(ss.remove(i)).add(ss[i].numbers@.to_multiset()),
    decreases ss.len(),
{
    if i == ss.len() - 1 {
        assert(ss.remove(i) =~= ss.drop_last());
    } else {
        assert(ss.remove(i).drop_last() =~= ss.drop_last().remove(i));
        assert(ss.remove(i).last() == ss.last());
        lemma_part_mset_remove(ss.drop_last(), i);
        assert(part_mset(ss.drop_last()).add(ss.last().numbers@.to_multiset())
            == part_mset(ss.drop_last().remove(i)).add(ss.drop_last()[i].numbers@.to_multiset()).add(
            ss.last().numbers@.to_multiset()));
        assert(part_mset(ss.remove(i)).add(ss[i].numbers@.to_multiset())
            =~= part_mset(ss.drop_last().remove(i)).add(ss.last().numbers@.to_multiset()).add(
            ss[i].numbers@.to_multiset()));
    }
}

pub proof fn lemma_sums_total_push(ss: Seq<Subset>, s: Subset)
    ensures
        sums_total(ss.push(s)) == sums_total(ss) + s.sum,
{
    assert(ss.push(s).drop_last() =~= ss);
}

pub proof fn lemma_sums_total_remove(ss: Seq<Subset>, i: int)
    requires
        0 <= i < ss.len(),
    ensures
        sums_total(ss.remove(i)) == sums_total(ss) - ss[i].sum,
    decreases ss.len(),
{
    if i == ss.len() - 1 {
        assert(ss.remove(i) =~= ss.drop_last());
    } else {
        assert(ss.remove(i).drop_last() =~= ss.drop_last().remove(i));
        assert(ss.remove(i).last() == ss.last());
        lemma_sums_total_remove(ss.drop_last(), i);
    }
}

pub proof fn lemma_sums_total_nonneg(ss: Seq<Subset>)
    requires
        subsets_wf(ss),
    ensures
        sums_total(ss) >= 0,
    decreases ss.len(),
{
    if ss.len() > 0 {
        lemma_sums_total_nonneg(ss.drop_last());
        lemma_sum_seq_nonneg(ss.last().numbers@);
    }
}

/// A single cached sum is at most the total of all cached sums.
pub proof fn lemma_sums_total_elem(ss: Seq<Subset>, i: int)
    requires
        subsets_wf(ss),
        0 <= i < ss.len(),
    ensures
        ss[i].sum <= sums_total(ss),
{
    lemma_sums_total_remove(ss, i);
    assert(subsets_wf(ss.remove(i)));
    lemma_sums_total_nonneg(ss.remove(i));
}

/// Two distinct cached sums together are at most the total.
pub proof fn lemma_sums_total_pair(ss: Seq<Subset>, i: int, l: int)
    requires
        subsets_wf(ss),
        0 <= i < ss.len(),
        0 <= l < ss.len(),
        i != l,
    ensures
        ss[i].sum + ss[l].sum <= sums_total(ss),
{
    lemma_sums_total_remove(ss, i);
    assert(subsets_wf(ss.remove(i)));
    let l2 = if l < i { l } else { l - 1 };
    assert(ss.remove(i)[l2] == ss[l]);
    lemma_sums_total_elem(ss.remove(i), l2);
}

pub proof fn lemma_max_sum_ge(ss: Seq<Subset>, i: int)
    requires
        0 <= i < ss.len(),
    ensures
        ss[i].sum <= max_sum(ss),
    decreases ss.len(),
{
    if ss.len() > 1 && i < ss.len() - 1 {
        lemma_max_sum_ge(ss.drop_last(), i);
    }
}

pub proof fn lemma_max_sum_witness(ss: Seq<Subset>)
    requires
        ss.len() >= 1,
    ensures
        exists|i: int| 0 <= i < ss.len() && ss[i].sum == max_sum(ss),
    decreases ss.len(),
{
    if ss.len() == 1 {
        assert(ss[0].sum == max_sum(ss));
    } else if ss.last().sum >= max_sum(ss.drop_last()) {
        assert(ss[ss.len() - 1].sum == max_sum(ss));
    } else {
        lemma_max_sum_witness(ss.drop_last());
        let i = choose|i: int| 0 <= i < ss.drop_last().len() && ss.drop_last()[i].sum == max_sum(
            ss.drop_last(),
        );
        assert(ss[i].sum == max_sum(ss));
    }
}

pub proof fn lemma_min_sum_le(ss: Seq<Subset>, i: int)
    requires
        0 <= i < ss.len(),
    ensures
        min_sum(ss) <= ss[i].sum,
    decreases ss.len(),
{
    if ss.len() > 1 && i < ss.len() - 1 {
        lemma_min_sum_le(ss.drop_last(), i);
    }
}

pub proof fn lemma_min_sum_witness(ss: Seq<Subset>)
    requires
        ss.len() >= 1,
    ensures
        exists|i: int| 0 <= i < ss.len() && ss[i].sum == min_sum(ss),
    decreases ss.len(),
{
    if ss.len() == 1 {
        assert(ss[0].sum == min_sum(ss));
    } else if ss.last().sum <= min_sum(ss.drop_last()) {
        assert(ss[ss.len() - 1].sum == min_sum(ss));
    } else {
        lemma_min_sum_witness(ss.drop_last());
        let i = choose|i: int| 0 <= i < ss.drop_last().len() && ss.drop_last()[i].sum == min_sum(
            ss.drop_last(),
        );
        assert(ss[i].sum == min_sum(ss));
    }
}

/// For a well-formed partition the smallest cached sum never exceeds the
/// largest, and both are non-negative.
pub proof fn lemma_min_le_max(ss: Seq<Subset>)
    requires
        ss.len() >= 1,
        subsets_wf(ss),
    ensures
        0 <= min_sum(ss),
        min_sum(ss) <= max_sum(ss),
{
    lemma_min_sum_witness(ss);
    let i = choose|i: int| 0 <= i < ss.len() && ss[i].sum == min_sum(ss);
    lemma_max_sum_ge(ss, i);
    lemma_min_sum_le(ss, i);
    lemma_sum_seq_nonneg(ss[i].numbers@);
}

impl Partition {
    /// GRASP's objective: the makespan, i.e. the largest subset sum.
    pub fn solution_quality(&self) -> (r: u64)
        ensures
            r == self.maximum_sum,
    {
        self.maximum_sum
    }

    /// Karmarkar-Karp's merge-ordering key: the spread between the largest
    /// and the smallest subset sum.
    pub fn min_max_sum_difference(&self) -> (r: u64)
        requires
            partition_wf(*self),
        ensures
            r as int == spread_of(*self),
    {
        proof {
            lemma_min_le_max(self.subsets@);
        }
        self.maximum_sum - self.minimum_sum
    }
}

/// Largest cached subset sum, computed by one scan.
pub fn compute_max_sum(subsets: &Vec<Subset>) -> (r: i64)
    requires
        subsets@.len() >= 1,
    ensures
        r as int == max_sum(subsets@),
{
    let mut r: i64 = subsets[0].sum;
    let mut i: usize = 1;
    while i < subsets.len()
        invariant
            1 <= i <= subsets@.len(),
            r as int == max_sum(subsets@.take(i as int)),
        decreases subsets@.len() - i,
    {
        proof {
            assert(subsets@.take(i + 1).drop_last() =~= subsets@.take(i as int));
            assert(subsets@.take(i + 1).last() == subsets@[i as int]);
        }
        if subsets[i].sum > r {
            r = subsets[i].sum;
        }
        i = i + 1;
    }
    proof {
        assert(subsets@.take(subsets@.len() as int) =~= subsets@);
    }
    r
}

/// Index of the first subset with the smallest cached sum.
pub fn index_of_min_sum(v: &Vec<Subset>) -> (r: usize)
    requires
        v@.len() >= 1,
    ensures
        r < v@.len(),
        forall|t: int| 0 <= t < v@.len() ==> v@[r as int].sum <= v@[t].sum,
        forall|t: int| 0 <= t < r ==> v@[r as int].sum < v@[t].sum,
{
    let mut r: usize = 0;
    let mut i: usize = 1;
    while i < v.len()
        invariant
            r < i <= v@.len(),
            forall|t: int| 0 <= t < i ==> v@[r as int].sum <= v@[t].sum,
            forall|t: int| 0 <= t < r ==> v@[r as int].sum < v@[t].sum,
        decreases v@.len() - i,
    {
        if v[i].sum < v[r].sum {
            r = i;
        }
        i = i + 1;
    }
    r
}

/// Smallest cached subset sum, computed by one scan.
pub fn compute_min_sum(subsets: &Vec<Subset>) -> (r: i64)
    requires
        subsets@.len() >= 1,
    ensures
        r as int == min_sum(subsets@),
{
    let mut r: i64 = subsets[0].sum;
    let mut i: usize = 1;
    while i < subsets.len()
        invariant
            1 <= i <= subsets@.len(),
            r as int == min_sum(subsets@.take(i as int)),
        decreases subsets@.len() - i,
    {
        proof {
            assert(subsets@.take(i + 1).drop_last() =~= subsets@.take(i as int));
            assert(subsets@.take(i + 1).last() == subsets@[i as int]);
        }
        if subsets[i].sum < r {
            r = subsets[i].sum;
        }
        i = i + 1;
    }
    proof {
        assert(subsets@.take(subsets@.len() as int) =~= subsets@);
    }
    r
}

} // verus!
