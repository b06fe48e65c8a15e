//! The end-to-end computation: group the hops into paths, split the
//! amount over the non-empty paths, propagate fees and expiries along
//! each path, and sort the collected rows for output.

use vstd::prelude::*;
use vstd::arithmetic::div_mod::lemma_div_nonincreasing;
use vstd::arithmetic::div_mod::lemma_div_pos_is_pos;
use crate::group::all_ids_below;
use crate::group::group_by_path;
use crate::group::hops_with_path;
use crate::group::lemma_path_ids_in_range;
use crate::group::path_count;
use crate::group::spec_path_count;
use crate::order::sort_instructions;
use crate::order::sort_model;
use crate::order::sorted_le;
use crate::propagate::path_instructions;
use crate::propagate::propagate;
use crate::propagate::propagation_fits;
use crate::types::CoreError;
use crate::types::Hop;
use crate::types::HopModel;
use crate::types::HtlcInstruction;
use crate::types::HtlcInstructionModel;
use crate::types::PaymentContext;
use crate::types::PaymentContextModel;

verus! {

/// How many of the paths `0..pc` have at least one hop.
pub open spec fn nonempty_path_count(hops: Seq<HopModel>, pc: int) -> int
    decreases pc,
{
    if pc <= 0 {
        0
    } else {
        nonempty_path_count(hops, pc - 1) + if hops_with_path(hops, pc - 1).len() > 0 {
            1int
        } else {
            0int
        }
    }
}

/// The payment is split: more than one path carries hops.
pub open spec fn spec_multipath(hops: Seq<HopModel>) -> bool {
    nonempty_path_count(hops, spec_path_count(hops)) > 1
}

/// The amount each path delivers: the total divided (flooring) by the
/// number of non-empty paths when the payment is split, the full
/// total otherwise.
pub open spec fn spec_per_path_amount(hops: Seq<HopModel>, amount_msat: u64) -> int {
    let ne = nonempty_path_count(hops, spec_path_count(hops));
    if ne > 1 {
        amount_msat as int / ne
    } else {
        amount_msat as int
    }
}

/// Every path's propagation stays within the integer widths.
pub open spec fn all_paths_fit(hops: Seq<HopModel>, ctx: PaymentContextModel) -> bool {
    forall|k: int|
        0 <= k < spec_path_count(hops) ==> propagation_fits(
            #[trigger] hops_with_path(hops, k),
            spec_per_path_amount(hops, ctx.amount_msat) as u64,
            ctx.current_height,
            ctx.min_final_cltv_delta,
        )
}

/// The rows of paths `0..pc`, concatenated in path order, each path's
/// rows in its own hop order.
pub open spec fn all_path_instructions(
    hops: Seq<HopModel>,
    ctx: PaymentContextModel,
    pc: int,
) -> Seq<HtlcInstructionModel>
    decreases pc,
{
    if pc <= 0 {
        Seq::empty()
    } else {
        all_path_instructions(hops, ctx, pc - 1) + path_instructions(
            (pc - 1) as u32,
            hops_with_path(hops, pc - 1),
            ctx,
            spec_per_path_amount(hops, ctx.amount_msat) as u64,
            spec_multipath(hops),
        )
    }
}

/// The full output: every path's rows, sorted by
/// `(path_id, channel_name)`.
pub open spec fn process_output(hops: Seq<HopModel>, ctx: PaymentContextModel) -> Seq<
    HtlcInstructionModel,
> {
    sort_model(all_path_instructions(hops, ctx, spec_path_count(hops)))
}

proof fn lemma_nonempty_count_zero(hops: Seq<HopModel>, pc: int)
    requires
        forall|j: int| 0 <= j < pc ==> (#[trigger] hops_with_path(hops, j)).len() == 0,
    ensures
        nonempty_path_count(hops, pc) == 0,
    decreases pc,
{
    if pc > 0 {
        lemma_nonempty_count_zero(hops, pc - 1);
    }
}

/// The per-path amount never exceeds the total.
pub proof fn lemma_per_path_amount_bounds(hops: Seq<HopModel>, amount_msat: u64)
    ensures
        0 <= spec_per_path_amount(hops, amount_msat) <= amount_msat,
{
    let ne = nonempty_path_count(hops, spec_path_count(hops));
    if ne > 1 {
        lemma_div_pos_is_pos(amount_msat as int, ne);
        lemma_div_nonincreasing(amount_msat as int, ne);
    }
}

/// Runs the whole computation over the hop collection: groups hops by
/// `path_id`, splits the total amount over the non-empty paths,
/// propagates fees and expiries backward along every path, and
/// returns all rows sorted by `(path_id, channel_name)`. The output
/// is a function of the inputs alone, so identical inputs always
/// yield identical output.
pub fn process(hops: Vec<Hop>, ctx: &PaymentContext) -> (r: Result<Vec<HtlcInstruction>, CoreError>)
    requires
        spec_path_count(hops.deep_view()) <= usize::MAX,
    ensures
        spec_multipath(hops.deep_view()) && ctx.payment_secret@.len() != 32 ==> r == Err::<
            Vec<HtlcInstruction>,
            CoreError,
        >(CoreError::SecretLengthMismatch),
        !(spec_multipath(hops.deep_view()) && ctx.payment_secret@.len() != 32) && !all_paths_fit(
            hops.deep_view(),
            ctx@,
        ) ==> r == Err::<Vec<HtlcInstruction>, CoreError>(CoreError::ArithmeticOverflow),
        !(spec_multipath(hops.deep_view()) && ctx.payment_secret@.len() != 32) && all_paths_fit(
            hops.deep_view(),
            ctx@,
        ) ==> (r matches Ok(v) && v.deep_view() == process_output(hops.deep_view(), ctx@)
            && sorted_le(v.deep_view())),
{
    let ghost hm = hops.deep_view();
    let pc64 = path_count(&hops);
    let pc = pc64 as usize;
    proof {
        lemma_path_ids_in_range(hm);
        crate::group::lemma_path_count_range(hm);
        assert(pc as int == spec_path_count(hm));
        assert(all_ids_below(hm, pc as int));
    }
    let buckets = match group_by_path(hops, pc) {
        Ok(b) => b,
        Err(e) => {
            proof {
                assert(false);
            }
            return Err(e);
        },
    };

    let mut ne: usize = 0;
    let mut k: usize = 0;
    while k < pc
        invariant
            k <= pc,
            ne <= k,
            hm == hops.deep_view(),
            buckets@.len() == pc,
            pc as int == spec_path_count(hm),
            forall|j: int|
                0 <= j < pc ==> (#[trigger] buckets@[j].deep_view()) == hops_with_path(hm, j),
            ne as int == nonempty_path_count(hm, k as int),
        decreases pc - k,
    {
        if buckets[k].len() > 0 {
            ne = ne + 1;
        }
        proof {
            assert(buckets@[k as int].deep_view().len() == buckets@[k as int]@.len());
            assert(nonempty_path_count(hm, k + 1) == nonempty_path_count(hm, k as int)
                + if hops_with_path(hm, k as int).len() > 0 {
                1int
            } else {
                0int
            });
        }
        k = k + 1;
    }

    let multipath = ne > 1;
    proof {
        assert(multipath == spec_multipath(hm));
        lemma_per_path_amount_bounds(hm, ctx.amount_msat);
    }
    let per_path: u64 = if ne > 1 {
        ctx.amount_msat / (ne as u64)
    } else {
        ctx.amount_msat
    };
    proof {
        assert(per_path as int == spec_per_path_amount(hm, ctx.amount_msat));
    }

    let mut all: Vec<HtlcInstruction> = Vec::new();
    let mut k: usize = 0;
    while k < pc
        invariant
            k <= pc,
            pc as int <= 0x1_0000_0000,
            hm == hops.deep_view(),
            buckets@.len() == pc,
            pc as int == spec_path_count(hm),
            forall|j: int|
                0 <= j < pc ==> (#[trigger] buckets@[j].deep_view()) == hops_with_path(hm, j),
            multipath == spec_multipath(hm),
            per_path as int == spec_per_path_amount(hm, ctx.amount_msat),
            multipath && ctx.payment_secret@.len() != 32 ==> forall|j: int|
                0 <= j < k ==> (#[trigger] hops_with_path(hm, j)).len() == 0,
            forall|j: int|
                0 <= j < k ==> propagation_fits(
                    #[trigger] hops_with_path(hm, j),
                    per_path,
                    ctx.current_height,
                    ctx.min_final_cltv_delta,
                ),
            all.deep_view() == all_path_instructions(hm, ctx@, k as int),
        decreases pc - k,
    {
        let bucket = &buckets[k];
        proof {
            assert(bucket.deep_view() == hops_with_path(hm, k as int));
        }
        match propagate(k as u32, bucket, ctx, per_path, multipath) {
            Ok(mut rows) => {
                proof {
                    let bm = hops_with_path(hm, k as int);
                    assert(bucket@.len() == bm.len());
                    assert(!(multipath && bucket@.len() > 0 && ctx.payment_secret@.len() != 32));
                    assert(propagation_fits(
                        bm,
                        per_path,
                        ctx.current_height,
                        ctx.min_final_cltv_delta,
                    ));
                    if multipath && ctx.payment_secret@.len() != 32 {
                        assert(bm.len() == 0);
                    }
                    assert(spec_per_path_amount(hm, ctx.amount_msat) as u64 == per_path);
                }
                all.append(&mut rows);
                proof {
                    assert(all.deep_view() =~= all_path_instructions(hm, ctx@, k + 1));
                }
            },
            Err(e) => {
                proof {
                    let bm = hops_with_path(hm, k as int);
                    assert(bucket@.len() == bm.len());
                    assert(spec_per_path_amount(hm, ctx.amount_msat) as u64 == per_path);
                    if multipath && ctx.payment_secret@.len() != 32 {
                        // only a bucket with hops can fail here, and it
                        // fails the secret check before anything else
                        assert(bm.len() > 0);
                        assert(e == CoreError::SecretLengthMismatch);
                    } else {
                        assert(!propagation_fits(
                            bm,
                            per_path,
                            ctx.current_height,
                            ctx.min_final_cltv_delta,
                        ));
                        assert(!all_paths_fit(hm, ctx@));
                        assert(e == CoreError::ArithmeticOverflow);
                    }
                }
                return Err(e);
            },
        }
        k = k + 1;
    }
    proof {
        if multipath && ctx.payment_secret@.len() != 32 {
            lemma_nonempty_count_zero(hm, pc as int);
            assert(false);
        }
        assert(spec_per_path_amount(hm, ctx.amount_msat) as u64 == per_path);
        assert(all_paths_fit(hm, ctx@));
    }
    let sorted = sort_instructions(all);
    Ok(sorted)
}

} // verus!
