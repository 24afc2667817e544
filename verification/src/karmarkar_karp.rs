//! Karmarkar-Karp differencing solver: every number starts as a degenerate
//! k-way partition, and the two partitions with the largest spread are merged
//! (largest subset paired with smallest) until a single partition remains.

use vstd::prelude::*;

pub use crate::common::Partition;
pub use crate::common::Subset;

verus! {

use vstd::multiset::Multiset;
use crate::common::SolverError;
use crate::common::lemma_max_sum_ge;
use crate::common::lemma_max_sum_witness;
use crate::common::lemma_min_le_max;
use crate::common::lemma_min_sum_le;
use crate::common::lemma_min_sum_witness;
use crate::common::lemma_part_mset_push;
use crate::common::lemma_part_mset_remove;
use crate::common::lemma_sum_seq_concat;
use crate::common::lemma_sum_seq_elem;
use crate::common::lemma_sum_seq_nonneg;
use crate::common::lemma_sum_seq_push;
use crate::common::lemma_sums_total_nonneg;
use crate::common::lemma_sums_total_push;
use crate::common::lemma_sums_total_remove;
use crate::common::compute_max_sum;
use crate::common::compute_min_sum;
use crate::common::index_of_min_sum;
use crate::common::max_sum;
use crate::common::min_sum;
use crate::common::part_mset;
use crate::common::partition_wf;
use crate::common::spread_of;
use crate::common::subset_wf;
use crate::common::subsets_wf;
use crate::common::sum_seq;
use crate::common::sums_total;

broadcast use vstd::seq_lib::group_to_multiset_ensures;

/// All numbers held by a queue of partitions, as one multiset.
pub open spec fn queue_mset(q: Seq<Partition>) -> Multiset<u64>
    decreases q.len(),
{
    if q.len() == 0 {
        Multiset::empty()
    } else {
        queue_mset(q.drop_last()).add(part_mset(q.last().subsets@))
    }
}

/// Total of all cached subset sums over a queue of partitions.
pub open spec fn queue_sums(q: Seq<Partition>) -> int
    decreases q.len(),
{
    if q.len() == 0 {
        0
    } else {
        queue_sums(q.drop_last()) + sums_total(q.last().subsets@)
    }
}

pub proof fn lemma_queue_mset_push(q: Seq<Partition>, p: Partition)
    ensures
        queue_mset(q.push(p)) == queue_mset(q).add(part_mset(p.subsets@)),
{
    assert(q.push(p).drop_last() =~= q);
}

pub proof fn lemma_queue_mset_remove(q: Seq<Partition>, i: int)
    requires
        0 <= i < q.len(),
    ensures
        queue_mset(q) == queue_mset(q.remove(i)).add(part_mset(q[i].subsets@)),
    decreases q.len(),
{
    if i == q.len() - 1 {
        assert(q.remove(i) =~= q.drop_last());
    } else {
        assert(q.remove(i).drop_last() =~= q.drop_last().remove(i));
        assert(q.remove(i).last() == q.last());
        lemma_queue_mset_remove(q.drop_last(), i);
        assert(queue_mset(q.drop_last().remove(i)).add(part_mset(q.last().subsets@)).add(
            part_mset(q[i].subsets@),
        ) =~= queue_mset(q.drop_last().remove(i)).add(part_mset(q[i].subsets@)).add(
            part_mset(q.last().subsets@),
        ));
    }
}

pub proof fn lemma_queue_sums_push(q: Seq<Partition>, p: Partition)
    ensures
        queue_sums(q.push(p)) == queue_sums(q) + sums_total(p.subsets@),
{
    assert(q.push(p).drop_last() =~= q);
}

pub proof fn lemma_queue_sums_remove(q: Seq<Partition>, i: int)
    requires
        0 <= i < q.len(),
    ensures
        queue_sums(q.remove(i)) == queue_sums(q) - sums_total(q[i].subsets@),
    decreases q.len(),
{
    if i == q.len() - 1 {
        assert(q.remove(i) =~= q.drop_last());
    } else {
        assert(q.remove(i).drop_last() =~= q.drop_last().remove(i));
        assert(q.remove(i).last() == q.last());
        lemma_queue_sums_remove(q.drop_last(), i);
    }
}

pub proof fn lemma_queue_sums_nonneg(q: Seq<Partition>)
    requires
        forall|t: int| 0 <= t < q.len() ==> subsets_wf(#[trigger] q[t].subsets@),
    ensures
        queue_sums(q) >= 0,
    decreases q.len(),
{
    if q.len() > 0 {
        lemma_queue_sums_nonneg(q.drop_last());
        lemma_sums_total_nonneg(q.last().subsets@);
    }
}

impl Subset {
    /// Concatenate two subsets, summing their cached sums in the same step.
    pub fn merge(s1: Subset, s2: Subset) -> (r: Subset)
        requires
            subset_wf(s1),
            subset_wf(s2),
            s1.sum + s2.sum <= i64::MAX,
        ensures
            subset_wf(r),
            r.numbers@ == s1.numbers@ + s2.numbers@,
            r.sum == s1.sum + s2.sum,
            r.numbers@.to_multiset() == s1.numbers@.to_multiset().add(s2.numbers@.to_multiset()),
    {
        proof {
            lemma_sum_seq_nonneg(s1.numbers@);
            lemma_sum_seq_nonneg(s2.numbers@);
            lemma_sum_seq_concat(s1.numbers@, s2.numbers@);
            vstd::seq_lib::lemma_multiset_commutative(s1.numbers@, s2.numbers@);
        }
        let new_sum = s1.sum + s2.sum;
        let mut numbers = s1.numbers;
        let mut rest = s2.numbers;
        numbers.append(&mut rest);
        Subset { numbers, sum: new_sum }
    }
}

/// Index of a subset with the largest cached sum.
fn index_of_max_sum(v: &Vec<Subset>) -> (r: usize)
    requires
        v@.len() >= 1,
    ensures
        r < v@.len(),
        forall|t: int| 0 <= t < v@.len() ==> v@[t].sum <= v@[r as int].sum,
{
    let mut r: usize = 0;
    let mut i: usize = 1;
    while i < v.len()
        invariant
            r < i <= v@.len(),
            forall|t: int| 0 <= t < i ==> v@[t].sum <= v@[r as int].sum,
        decreases v@.len() - i,
    {
        if v[i].sum > v[r].sum {
            r = i;
        }
        i = i + 1;
    }
    r
}

impl Partition {
    /// Merge two partitions with the same subset count: the largest remaining
    /// subset of the first is concatenated with the smallest remaining subset
    /// of the second, until all subsets are paired. The result covers exactly
    /// the numbers of both inputs and its caches are recomputed exactly.
    pub fn merge(p1: Partition, p2: Partition) -> (r: Partition)
        requires
            partition_wf(p1),
            partition_wf(p2),
            p1.subsets@.len() == p2.subsets@.len(),
            sums_total(p1.subsets@) + sums_total(p2.subsets@) <= i64::MAX,
        ensures
            partition_wf(r),
            r.subsets@.len() == p1.subsets@.len(),
            part_mset(r.subsets@) == part_mset(p1.subsets@).add(part_mset(p2.subsets@)),
            sums_total(r.subsets@) == sums_total(p1.subsets@) + sums_total(p2.subsets@),
            r.maximum_sum <= p1.maximum_sum + p2.maximum_sum,
            r.minimum_sum >= p1.minimum_sum + p2.minimum_sum,
            exists|pa: Seq<Subset>, pb: Seq<Subset>|
                #![trigger pa.to_multiset(), pb.to_multiset()]
                {
                    &&& pa.len() == p1.subsets@.len()
                    &&& pb.len() == p1.subsets@.len()
                    &&& pa.to_multiset() == p1.subsets@.to_multiset()
                    &&& pb.to_multiset() == p2.subsets@.to_multiset()
                    &&& forall|t1: int, t2: int|
                        0 <= t1 <= t2 < pa.len() ==> (#[trigger] pa[t1]).sum >= (#[trigger] pa[t2]).sum
                    &&& forall|t1: int, t2: int|
                        0 <= t1 <= t2 < pb.len() ==> (#[trigger] pb[t1]).sum <= (#[trigger] pb[t2]).sum
                    &&& forall|t: int|
                        0 <= t < pa.len() ==> (#[trigger] r.subsets@[t]).numbers@ == pa[t].numbers@
                            + pb[t].numbers@
                    &&& forall|t: int|
                        0 <= t < pa.len() ==> (#[trigger] r.subsets@[t]).sum == pa[t].sum + pb[t].sum
                },
    {
        let ghost k = p1.subsets@.len() as int;
        let ghost max1 = p1.maximum_sum as int;
        let ghost max2 = p2.maximum_sum as int;
        let ghost min1 = p1.minimum_sum as int;
        let ghost min2 = p2.minimum_sum as int;
        proof {
            assert forall|t: int| 0 <= t < p1.subsets@.len() implies min1
                <= (#[trigger] p1.subsets@[t]).sum <= max1 by {
                lemma_max_sum_ge(p1.subsets@, t);
                lemma_min_sum_le(p1.subsets@, t);
            }
            assert forall|t: int| 0 <= t < p2.subsets@.len() implies min2
                <= (#[trigger] p2.subsets@[t]).sum <= max2 by {
                lemma_max_sum_ge(p2.subsets@, t);
                lemma_min_sum_le(p2.subsets@, t);
            }
        }
        let ghost total = sums_total(p1.subsets@) + sums_total(p2.subsets@);
        let ghost m_total = part_mset(p1.subsets@).add(part_mset(p2.subsets@));
        let ghost subs1 = p1.subsets@.to_multiset();
        let ghost subs2 = p2.subsets@.to_multiset();
        let ghost mut wa: Seq<Subset> = Seq::empty();
        let ghost mut wb: Seq<Subset> = Seq::empty();
        let mut a = p1.subsets;
        let mut b = p2.subsets;
        let mut merged: Vec<Subset> = Vec::new();
        proof {
            assert(wa.to_multiset() =~= Multiset::<Subset>::empty());
            assert(wb.to_multiset() =~= Multiset::<Subset>::empty());
            assert(Multiset::<Subset>::empty().add(subs1) =~= subs1);
            assert(Multiset::<Subset>::empty().add(subs2) =~= subs2);
        }
        while a.len() > 0
            invariant
                a@.len() == b@.len(),
                merged@.len() + a@.len() == k,
                subsets_wf(a@),
                subsets_wf(b@),
                subsets_wf(merged@),
                sums_total(merged@) + sums_total(a@) + sums_total(b@) == total,
                part_mset(merged@).add(part_mset(a@)).add(part_mset(b@)) == m_total,
                total <= i64::MAX,
                forall|t: int| 0 <= t < a@.len() ==> min1 <= (#[trigger] a@[t]).sum <= max1,
                forall|t: int| 0 <= t < b@.len() ==> min2 <= (#[trigger] b@[t]).sum <= max2,
                forall|t: int|
                    0 <= t < merged@.len() ==> min1 + min2 <= (#[trigger] merged@[t]).sum <= max1
                        + max2,
                wa.len() == merged@.len(),
                wb.len() == merged@.len(),
                wa.to_multiset().add(a@.to_multiset()) == subs1,
                wb.to_multiset().add(b@.to_multiset()) == subs2,
                forall|t1: int, t2: int|
                    0 <= t1 <= t2 < wa.len() ==> (#[trigger] wa[t1]).sum >= (#[trigger] wa[t2]).sum,
                forall|t1: int, t2: int|
                    0 <= t1 <= t2 < wb.len() ==> (#[trigger] wb[t1]).sum <= (#[trigger] wb[t2]).sum,
                forall|t: int|
                    0 <= t < merged@.len() ==> (#[trigger] merged@[t]).numbers@ == wa[t].numbers@
                        + wb[t].numbers@,
                forall|t: int| 0 <= t < merged@.len() ==> (#[trigger] merged@[t]).sum == wa[t].sum
                    + wb[t].sum,
                wa.len() > 0 ==> forall|t: int| 0 <= t < a@.len() ==> (#[trigger] a@[t]).sum
                    <= wa.last().sum,
                wb.len() > 0 ==> forall|t: int| 0 <= t < b@.len() ==> (#[trigger] b@[t]).sum
                    >= wb.last().sum,
            decreases a@.len(),
        {
            let i1 = index_of_max_sum(&a);
            let i2 = index_of_min_sum(&b);
            proof {
                lemma_sums_total_remove(a@, i1 as int);
                lemma_sums_total_remove(b@, i2 as int);
                lemma_part_mset_remove(a@, i1 as int);
                lemma_part_mset_remove(b@, i2 as int);
                assert(subsets_wf(a@.remove(i1 as int)));
                assert(subsets_wf(b@.remove(i2 as int)));
                lemma_sums_total_nonneg(a@.remove(i1 as int));
                lemma_sums_total_nonneg(b@.remove(i2 as int));
                lemma_sums_total_nonneg(merged@);
                lemma_sum_seq_nonneg(a@[i1 as int].numbers@);
                lemma_sum_seq_nonneg(b@[i2 as int].numbers@);
            }
            proof {
                assert(a@.to_multiset().count(a@[i1 as int]) >= 1);
                assert(b@.to_multiset().count(b@[i2 as int]) >= 1);
            }
            let s1 = a.remove(i1);
            let s2 = b.remove(i2);
            proof {
                let ghost wa0 = wa;
                let ghost wb0 = wb;
                wa = wa.push(s1);
                wb = wb.push(s2);
                assert(wa.drop_last() =~= wa0);
                assert(wb.drop_last() =~= wb0);
                assert(wa.to_multiset() =~= wa0.to_multiset().insert(s1));
                assert(wb.to_multiset() =~= wb0.to_multiset().insert(s2));
                assert(wa.to_multiset().add(a@.to_multiset()) =~= subs1);
                assert(wb.to_multiset().add(b@.to_multiset()) =~= subs2);
            }
            let s = Subset::merge(s1, s2);
            proof {
                lemma_sums_total_push(merged@, s);
                lemma_part_mset_push(merged@, s);
                assert(part_mset(merged@.push(s)).add(part_mset(a@)).add(part_mset(b@))
                    =~= m_total);
            }
            merged.push(s);
        }
        proof {
            assert(part_mset(a@) =~= Multiset::empty());
            assert(part_mset(b@) =~= Multiset::empty());
            assert(part_mset(merged@).add(part_mset(a@)).add(part_mset(b@)) =~= part_mset(
                merged@,
            ));
            lemma_min_le_max(merged@);
            lemma_max_sum_witness(merged@);
            lemma_min_sum_witness(merged@);
            assert(a@.to_multiset() =~= Multiset::<Subset>::empty());
            assert(b@.to_multiset() =~= Multiset::<Subset>::empty());
            assert(wa.to_multiset() =~= subs1);
            assert(wb.to_multiset() =~= subs2);
        }
        let new_maximum_sum = compute_max_sum(&merged);
        let new_minimum_sum = compute_min_sum(&merged);
        Partition {
            subsets: merged,
            maximum_sum: new_maximum_sum as u64,
            minimum_sum: new_minimum_sum as u64,
        }
    }
}

/// The degenerate seed partition for one number: one subset holding just `n`
/// and k - 1 empty subsets.
pub fn create_initial_partition(k: u64, n: u64) -> (r: Partition)
    requires
        1 <= k,
        k <= usize::MAX as u64,
        n <= i64::MAX,
    ensures
        partition_wf(r),
        r.subsets@.len() == k,
        part_mset(r.subsets@) == Multiset::empty().insert(n),
        sums_total(r.subsets@) == n,
        r.maximum_sum == n,
        r.minimum_sum == if k == 1 { n } else { 0u64 },
        r.subsets@[0].numbers@ == seq![n],
        forall|t: int| 1 <= t < k ==> (#[trigger] r.subsets@[t]).numbers@ == Seq::<u64>::empty(),
{
    let mut first_numbers: Vec<u64> = Vec::new();
    first_numbers.push(n);
    let first = Subset { numbers: first_numbers, sum: n as i64 };
    proof {
        assert(first.numbers@ =~= seq![n]);
        assert(seq![n].drop_last() =~= Seq::<u64>::empty());
        assert(sum_seq(Seq::<u64>::empty()) == 0);
        assert(sum_seq(seq![n]) == n);
        assert(seq![n] =~= Seq::<u64>::empty().push(n));
        assert(seq![n].to_multiset() =~= Multiset::empty().insert(n));
    }
    let mut subsets: Vec<Subset> = Vec::new();
    subsets.push(first);
    proof {
        assert(subsets@.drop_last() =~= Seq::<Subset>::empty());
        assert(part_mset(Seq::<Subset>::empty()) == Multiset::<u64>::empty());
        assert(sums_total(Seq::<Subset>::empty()) == 0);
        assert(part_mset(subsets@) =~= Multiset::empty().insert(n));
    }
    let mut i: u64 = 1;
    while i < k
        invariant
            1 <= i <= k,
            k <= usize::MAX as u64,
            n <= i64::MAX,
            subsets@.len() == i,
            subsets@[0].numbers@ == seq![n],
            subsets@[0].sum == n,
            forall|t: int| 1 <= t < i ==> (#[trigger] subsets@[t]).numbers@ == Seq::<u64>::empty()
                && subsets@[t].sum == 0,
            subsets_wf(subsets@),
            part_mset(subsets@) == Multiset::empty().insert(n),
            sums_total(subsets@) == n,
            max_sum(subsets@) == n,
            min_sum(subsets@) == if i == 1 { n as int } else { 0 },
        decreases k - i,
    {
        let empty = Subset { numbers: Vec::new(), sum: 0 };
        proof {
            assert(sum_seq(empty.numbers@) == 0);
            assert(empty.numbers@.to_multiset() =~= Multiset::<u64>::empty());
            lemma_part_mset_push(subsets@, empty);
            assert(part_mset(subsets@).add(Multiset::<u64>::empty()) =~= part_mset(subsets@));
            lemma_sums_total_push(subsets@, empty);
            assert(subsets@.push(empty).drop_last() =~= subsets@);
        }
        subsets.push(empty);
        i = i + 1;
    }
    Partition { subsets, maximum_sum: n, minimum_sum: if k == 1 { n } else { 0 } }
}

/// Index of a partition with the largest spread.
fn index_of_max_spread(v: &Vec<Partition>) -> (r: usize)
    requires
        v@.len() >= 1,
        forall|t: int| 0 <= t < v@.len() ==> partition_wf(#[trigger] v@[t]),
    ensures
        r < v@.len(),
        forall|t: int| 0 <= t < v@.len() ==> spread_of(#[trigger] v@[t]) <= spread_of(v@[r as int]),
{
    let mut r: usize = 0;
    let mut best = v[0].min_max_sum_difference();
    let mut i: usize = 1;
    while i < v.len()
        invariant
            r < i <= v@.len(),
            forall|t: int| 0 <= t < v@.len() ==> partition_wf(#[trigger] v@[t]),
            best as int == spread_of(v@[r as int]),
            forall|t: int| 0 <= t < i ==> spread_of(#[trigger] v@[t]) <= spread_of(v@[r as int]),
        decreases v@.len() - i,
    {
        let s = v[i].min_max_sum_difference();
        if s > best {
            r = i;
            best = s;
        }
        i = i + 1;
    }
    r
}

/// Remove and return the two partitions with the largest spreads: the first
/// returned has the largest spread of all, the second the largest of the
/// rest, and the queue ends as it began with exactly those two taken out.
/// Ties are broken by the lowest position in the queue.
pub fn select_top_two_partitions(parts: &mut Vec<Partition>) -> (r: (Partition, Partition))
    requires
        old(parts)@.len() >= 2,
        forall|t: int| 0 <= t < old(parts)@.len() ==> partition_wf(#[trigger] old(parts)@[t]),
    ensures
        old(parts)@.to_multiset() == final(parts)@.to_multiset().insert(r.0).insert(r.1),
        forall|t: int| 0 <= t < old(parts)@.len() ==> spread_of(#[trigger] old(parts)@[t])
            <= spread_of(r.0),
        final(parts)@.len() == old(parts)@.len() - 2,
        partition_wf(r.0),
        partition_wf(r.1),
        forall|t: int| 0 <= t < final(parts)@.len() ==> partition_wf(#[trigger] final(parts)@[t]),
        queue_mset(old(parts)@) == queue_mset(final(parts)@).add(part_mset(r.0.subsets@)).add(
            part_mset(r.1.subsets@),
        ),
        queue_sums(old(parts)@) == queue_sums(final(parts)@) + sums_total(r.0.subsets@)
            + sums_total(r.1.subsets@),
        spread_of(r.1) <= spread_of(r.0),
        forall|t: int| 0 <= t < final(parts)@.len() ==> spread_of(#[trigger] final(parts)@[t])
            <= spread_of(r.1),
        exists|t: int| 0 <= t < old(parts)@.len() && old(parts)@[t] == r.0,
        exists|t: int| 0 <= t < old(parts)@.len() && old(parts)@[t] == r.1,
        forall|t: int| 0 <= t < final(parts)@.len() ==> exists|u: int|
            0 <= u < old(parts)@.len() && #[trigger] old(parts)@[u] == #[trigger] final(parts)@[t],
{
    let ghost q0 = parts@;
    let i1 = index_of_max_spread(parts);
    proof {
        lemma_queue_mset_remove(parts@, i1 as int);
        lemma_queue_sums_remove(parts@, i1 as int);
    }
    let first = parts.remove(i1);
    let ghost q1 = parts@;
    let i2 = index_of_max_spread(parts);
    proof {
        lemma_queue_mset_remove(parts@, i2 as int);
        lemma_queue_sums_remove(parts@, i2 as int);
    }
    let second = parts.remove(i2);
    proof {
        assert(q0.to_multiset().count(first) >= 1);
        assert(q1.to_multiset().count(second) >= 1);
        assert(q1.to_multiset() =~= q0.to_multiset().remove(first));
        assert(parts@.to_multiset() =~= q1.to_multiset().remove(second));
        assert(q0.to_multiset() =~= parts@.to_multiset().insert(first).insert(second));
        assert(queue_mset(q0) =~= queue_mset(parts@).add(part_mset(first.subsets@)).add(
            part_mset(second.subsets@),
        ));
        assert(forall|t: int| 0 <= t < q1.len() ==> exists|u: int| 0 <= u < q0.len()
            && #[trigger] q0[u] == #[trigger] q1[t]);
        assert(forall|t: int| 0 <= t < parts@.len() ==> exists|u: int| 0 <= u < q1.len()
            && #[trigger] q1[u] == #[trigger] parts@[t]);
    }
    (first, second)
}

/// One merge round of the Karmarkar-Karp loop: take out the two partitions
/// with the largest spread, merge them, and put the result back at the end
/// of the queue. The queue shrinks by exactly one partition, and neither the
/// multiset of numbers nor their total sum changes; the merged pair dominated
/// the whole queue by spread.
pub fn merge_step(parts: &mut Vec<Partition>)
    requires
        old(parts)@.len() >= 2,
        forall|t: int| 0 <= t < old(parts)@.len() ==> partition_wf(#[trigger] old(parts)@[t]),
        forall|t: int| 0 <= t < old(parts)@.len() ==> (#[trigger] old(parts)@[t]).subsets@.len()
            == old(parts)@[0].subsets@.len(),
        queue_sums(old(parts)@) <= i64::MAX,
    ensures
        final(parts)@.len() == old(parts)@.len() - 1,
        forall|t: int| 0 <= t < final(parts)@.len() ==> partition_wf(#[trigger] final(parts)@[t]),
        forall|t: int| 0 <= t < final(parts)@.len() ==> (#[trigger] final(parts)@[t]).subsets@.len()
            == old(parts)@[0].subsets@.len(),
        queue_mset(final(parts)@) == queue_mset(old(parts)@),
        queue_sums(final(parts)@) == queue_sums(old(parts)@),
        exists|p1: Partition, p2: Partition|
            #![trigger spread_of(p1), spread_of(p2)]
            {
                &&& old(parts)@.to_multiset() == final(parts)@.drop_last().to_multiset().insert(
                    p1,
                ).insert(p2)
                &&& spread_of(p2) <= spread_of(p1)
                &&& forall|t: int|
                    0 <= t < old(parts)@.len() ==> spread_of(#[trigger] old(parts)@[t])
                        <= spread_of(p1)
                &&& forall|t: int|
                    0 <= t < final(parts)@.len() - 1 ==> spread_of(#[trigger] final(parts)@[t])
                        <= spread_of(p2)
                &&& partition_wf(p1)
                &&& partition_wf(p2)
                &&& part_mset(final(parts)@.last().subsets@) == part_mset(p1.subsets@).add(
                    part_mset(p2.subsets@),
                )
                &&& sums_total(final(parts)@.last().subsets@) == sums_total(p1.subsets@)
                    + sums_total(p2.subsets@)
            },
{
    let ghost q0 = parts@;
    let (p1, p2) = select_top_two_partitions(parts);
    proof {
        assert(forall|t: int| 0 <= t < parts@.len() ==> subsets_wf(
            (#[trigger] parts@[t]).subsets@,
        ));
        lemma_queue_sums_nonneg(parts@);
        lemma_sums_total_nonneg(p1.subsets@);
        lemma_sums_total_nonneg(p2.subsets@);
        assert(p1.subsets@.len() == q0[0].subsets@.len());
        assert(p2.subsets@.len() == q0[0].subsets@.len());
    }
    let ghost rest = parts@;
    let merged = Partition::merge(p1, p2);
    proof {
        lemma_queue_mset_push(parts@, merged);
        lemma_queue_sums_push(parts@, merged);
        assert(queue_mset(parts@.push(merged)) =~= queue_mset(q0));
    }
    parts.push(merged);
    proof {
        assert(parts@.drop_last() =~= rest);
        assert(parts@.last() == merged);
    }
}

/// Karmarkar-Karp differencing solver, generalized to k ways: returns one
/// partition of exactly k subsets covering the input multiset exactly, or the
/// error naming the rejected input.
pub fn karmarkar_karp(nums: &Vec<u64>, k: u64) -> (r: Result<Partition, SolverError>)
    requires
        sum_seq(nums@) <= i64::MAX,
        k <= usize::MAX as u64,
    ensures
        nums@.len() == 0 ==> r == Err::<Partition, SolverError>(SolverError::EmptyInput),
        nums@.len() > 0 && k == 0 ==> r == Err::<Partition, SolverError>(
            SolverError::InvalidSubsetCount,
        ),
        nums@.len() > 0 && k >= 1 ==> (r matches Ok(p) && partition_wf(p) && p.subsets@.len() == k
            && part_mset(p.subsets@) == nums@.to_multiset() && sums_total(p.subsets@) == sum_seq(
            nums@,
        )),
{
    if nums.len() == 0 {
        return Err(SolverError::EmptyInput);
    }
    if k == 0 {
        return Err(SolverError::InvalidSubsetCount);
    }
    let mut parts: Vec<Partition> = Vec::new();
    let mut i: usize = 0;
    while i < nums.len()
        invariant
            0 <= i <= nums@.len(),
            1 <= k <= usize::MAX as u64,
            sum_seq(nums@) <= i64::MAX,
            parts@.len() == i,
            forall|t: int| 0 <= t < parts@.len() ==> partition_wf(#[trigger] parts@[t]),
            forall|t: int| 0 <= t < parts@.len() ==> (#[trigger] parts@[t]).subsets@.len() == k,
            queue_mset(parts@) == nums@.take(i as int).to_multiset(),
            queue_sums(parts@) == sum_seq(nums@.take(i as int)),
        decreases nums@.len() - i,
    {
        proof {
            lemma_sum_seq_elem(nums@, i as int);
            lemma_sum_seq_nonneg(nums@);
            assert(nums@.take(i + 1).drop_last() =~= nums@.take(i as int));
            assert(nums@.take(i + 1) =~= nums@.take(i as int).push(nums@[i as int]));
        }
        let p = create_initial_partition(k, nums[i]);
        proof {
            lemma_queue_mset_push(parts@, p);
            lemma_queue_sums_push(parts@, p);
            assert(queue_mset(parts@.push(p)) =~= nums@.take(i + 1).to_multiset());
            lemma_sum_seq_push(nums@.take(i as int), nums@[i as int]);
        }
        parts.push(p);
        i = i + 1;
    }
    proof {
        assert(nums@.take(nums@.len() as int) =~= nums@);
    }
    while parts.len() > 1
        invariant
            parts@.len() >= 1,
            forall|t: int| 0 <= t < parts@.len() ==> partition_wf(#[trigger] parts@[t]),
            forall|t: int| 0 <= t < parts@.len() ==> (#[trigger] parts@[t]).subsets@.len() == k,
            queue_mset(parts@) == nums@.to_multiset(),
            queue_sums(parts@) == sum_seq(nums@),
            sum_seq(nums@) <= i64::MAX,
        decreases parts@.len(),
    {
        merge_step(&mut parts);
    }
    proof {
        assert(parts@.drop_last() =~= Seq::<Partition>::empty());
        assert(queue_mset(Seq::<Partition>::empty()) == Multiset::<u64>::empty());
        assert(queue_sums(Seq::<Partition>::empty()) == 0);
        assert(parts@.last() == parts@[0]);
        assert(queue_mset(parts@) =~= part_mset(parts@[0].subsets@));
        assert(queue_sums(parts@) == sums_total(parts@[0].subsets@));
    }
    let p = parts.remove(0);
    Ok(p)
}

} // verus!
