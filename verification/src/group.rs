//! The path grouper: partitions the ordered hop collection into
//! disjoint per-path buckets, preserving each hop's original
//! within-path order.

use vstd::prelude::*;
use crate::types::CoreError;
use crate::types::Hop;
use crate::types::HopModel;

verus! {

/// The largest `path_id` among `s`, or `-1` when `s` is empty.
pub open spec fn max_path_id(s: Seq<HopModel>) -> int
    decreases s.len(),
{
    if s.len() == 0 {
        -1
    } else {
        let m = max_path_id(s.drop_last());
        if s.last().path_id > m {
            s.last().path_id as int
        } else {
            m
        }
    }
}

/// The number of paths implied by the hop collection:
/// `max(path_id) + 1`, or 0 when there are no hops.
pub open spec fn spec_path_count(s: Seq<HopModel>) -> int {
    max_path_id(s) + 1
}

/// The hops of path `k`, in their original relative order.
pub open spec fn hops_with_path(s: Seq<HopModel>, k: int) -> Seq<HopModel> {
    s.filter(|h: HopModel| h.path_id as int == k)
}

/// Every hop's `path_id` lies below `pc`.
pub open spec fn all_ids_below(s: Seq<HopModel>, pc: int) -> bool {
    forall|i: int| 0 <= i < s.len() ==> (#[trigger] s[i]).path_id < pc
}

proof fn lemma_max_path_id_bound(s: Seq<HopModel>, i: int)
    requires
        0 <= i < s.len(),
    ensures
        s[i].path_id <= max_path_id(s),
    decreases s.len(),
{
    if i < s.len() - 1 {
        lemma_max_path_id_bound(s.drop_last(), i);
    }
}

/// The implied path count is at most one more than the largest value
/// a `path_id` can take.
pub proof fn lemma_path_count_range(s: Seq<HopModel>)
    ensures
        0 <= spec_path_count(s) <= 0x1_0000_0000,
    decreases s.len(),
{
    if s.len() > 0 {
        lemma_path_count_range(s.drop_last());
    }
}

/// Every hop's `path_id` lies below the implied path count.
pub proof fn lemma_path_ids_in_range(s: Seq<HopModel>)
    ensures
        forall|i: int| 0 <= i < s.len() ==> (#[trigger] s[i].path_id) < spec_path_count(s),
{
    assert forall|i: int| 0 <= i < s.len() implies (#[trigger] s[i].path_id) < spec_path_count(
        s,
    ) by {
        lemma_max_path_id_bound(s, i);
    }
}

/// Computes the number of paths implied by the hop collection:
/// one more than the largest `path_id`, or 0 when there are no hops.
pub fn path_count(hops: &Vec<Hop>) -> (r: u64)
    ensures
        r == spec_path_count(hops.deep_view()),
{
    let ghost hm = hops.deep_view();
    let mut c: u64 = 0;
    let mut i: usize = 0;
    while i < hops.len()
        invariant
            i <= hops@.len(),
            hm == hops.deep_view(),
            c == spec_path_count(hm.subrange(0, i as int)),
        decreases hops@.len() - i,
    {
        let pid1 = (hops[i].path_id as u64) + 1;
        if pid1 > c {
            c = pid1;
        }
        i = i + 1;
        proof {
            let pre = hm.subrange(0, i as int);
            assert(pre.drop_last() =~= hm.subrange(0, i - 1));
            assert(pre.last() == hm[i - 1]);
        }
    }
    proof {
        assert(hm.subrange(0, hm.len() as int) =~= hm);
    }
    c
}

/// Distributes the hops over `path_count` buckets indexed by
/// `path_id`, keeping each hop's original relative order; a `path_id`
/// at or above `path_count` is an input error.
pub fn group_by_path(hops: Vec<Hop>, path_count: usize) -> (r: Result<Vec<Vec<Hop>>, CoreError>)
    ensures
        !all_ids_below(hops.deep_view(), path_count as int) ==> r == Err::<
            Vec<Vec<Hop>>,
            CoreError,
        >(CoreError::InvalidPathId),
        all_ids_below(hops.deep_view(), path_count as int) ==> (r matches Ok(buckets)
            && buckets@.len() == path_count && forall|k: int|
            0 <= k < path_count ==> (#[trigger] buckets@[k].deep_view()) == hops_with_path(
                hops.deep_view(),
                k,
            )),
{
    let ghost hm = hops.deep_view();
    let ghost hv = hops@;
    let mut buckets: Vec<Vec<Hop>> = Vec::new();
    let mut k: usize = 0;
    while k < path_count
        invariant
            k <= path_count,
            buckets@.len() == k,
            forall|j: int| 0 <= j < k ==> (#[trigger] buckets@[j].deep_view()).len() == 0,
        decreases path_count - k,
    {
        buckets.push(Vec::new());
        k = k + 1;
    }

    let n = hops.len();
    let mut rem = hops;
    let mut idx: usize = 0;
    while idx < n
        invariant
            idx <= n,
            n == hv.len(),
            hm.len() == hv.len(),
            hm == hops.deep_view(),
            hv == hops@,
            forall|i: int| 0 <= i < hv.len() ==> hm[i] == (#[trigger] hv[i])@,
            rem@ == hv.subrange(idx as int, n as int),
            buckets@.len() == path_count,
            forall|i: int| 0 <= i < idx ==> (#[trigger] hm[i]).path_id < path_count as int,
            forall|j: int|
                0 <= j < path_count ==> (#[trigger] buckets@[j].deep_view()) == hops_with_path(
                    hm.subrange(0, idx as int),
                    j,
                ),
        decreases n - idx,
    {
        let h = rem.remove(0);
        proof {
            assert(h == hv[idx as int]);
            assert(rem@ =~= hv.subrange(idx + 1, n as int));
        }
        if h.path_id as usize >= path_count {
            proof {
                assert(hm[idx as int].path_id as int >= path_count);
            }
            return Err(CoreError::InvalidPathId);
        }
        let p = h.path_id as usize;
        let ghost bs0 = buckets@;
        let ghost hmodel = h@;
        let mut b = buckets.remove(p);
        b.push(h);
        buckets.insert(p, b);
        idx = idx + 1;
        proof {
            let pre1 = hm.subrange(0, idx as int);
            let pre0 = hm.subrange(0, idx - 1);
            assert(pre1.drop_last() =~= pre0);
            assert(pre1.last() == hm[idx - 1]);
            assert(forall|j: int|
                0 <= j < path_count && j != p ==> buckets@[j] == #[trigger] bs0[j]);
            assert(buckets@[p as int]@ == bs0[p as int]@.push(hv[idx - 1]));
            assert(buckets@[p as int].deep_view() =~= bs0[p as int].deep_view().push(hmodel));
            assert forall|j: int| 0 <= j < path_count implies (#[trigger] buckets@[j].deep_view())
                == hops_with_path(pre1, j) by {
                pre0.lemma_filter_push(hmodel, |hh: HopModel| hh.path_id as int == j);
                assert(pre0.push(hmodel) =~= pre1);
            }
        }
    }
    proof {
        assert(hm.subrange(0, n as int) =~= hm);
    }
    Ok(buckets)
}

} // verus!
