//! Backward fee/expiry propagation: walking one path from the
//! recipient back to the sender, accumulating each hop's forwarding
//! fee and time-lock delta, and attaching the auxiliary record to the
//! final hop of a split payment.

use vstd::prelude::*;
use vstd::arithmetic::div_mod::lemma_div_pos_is_pos;
use vstd::arithmetic::mul::lemma_mul_nonnegative;
use crate::fee::calculate_fee;
use crate::fee::fee_amount;
use crate::tlv::create_mpp_tlv;
use crate::tlv::mpp_record_hex;
use crate::types::CoreError;
use crate::types::Hop;
use crate::types::HopModel;
use crate::types::HtlcInstruction;
use crate::types::HtlcInstructionModel;
use crate::types::PaymentContext;
use crate::types::PaymentContextModel;

verus! {

/// The amount the hop at distance `d` from the recipient (0 = the hop
/// adjacent to the recipient) must forward outward: the delivered
/// per-path amount plus every fee charged strictly closer to the
/// recipient.
pub open spec fn amount_at(hops: Seq<HopModel>, per_path_amount: u64, d: int) -> int
    decreases d,
{
    if d <= 0 {
        per_path_amount as int
    } else {
        let prev = amount_at(hops, per_path_amount, d - 1);
        let h = hops[hops.len() - d];
        prev + fee_amount(prev, h.base_fee_msat, h.proportional_fee_ppm)
    }
}

/// The absolute expiry the hop at distance `d` from the recipient must
/// enforce: the recipient's final expiry plus every time-lock delta
/// required strictly closer to the recipient.
pub open spec fn expiry_at(
    hops: Seq<HopModel>,
    current_height: u32,
    min_final_cltv_delta: u32,
    d: int,
) -> int
    decreases d,
{
    if d <= 0 {
        current_height + min_final_cltv_delta
    } else {
        expiry_at(hops, current_height, min_final_cltv_delta, d - 1) + hops[hops.len()
            - d].cltv_delta
    }
}

/// Every amount fits in 64 bits and every expiry in 32 bits along the
/// path; propagation succeeds exactly on such inputs.
pub open spec fn propagation_fits(
    hops: Seq<HopModel>,
    per_path_amount: u64,
    current_height: u32,
    min_final_cltv_delta: u32,
) -> bool {
    &&& forall|d: int|
        0 <= d < hops.len() ==> #[trigger] amount_at(hops, per_path_amount, d) <= u64::MAX
    &&& forall|d: int|
        0 <= d < hops.len() ==> #[trigger] expiry_at(hops, current_height, min_final_cltv_delta, d)
            <= u32::MAX
}

/// The output row for the hop at index `i` (sender-to-recipient order)
/// of a path of `hops.len()` hops.
pub open spec fn instruction_at(
    path_id: u32,
    hops: Seq<HopModel>,
    ctx: PaymentContextModel,
    per_path_amount: u64,
    multipath: bool,
    i: int,
) -> HtlcInstructionModel {
    HtlcInstructionModel {
        path_id: path_id,
        channel_name: hops[i].channel_name,
        htlc_amount_msat: amount_at(hops, per_path_amount, hops.len() - 1 - i) as u64,
        htlc_expiry: expiry_at(
            hops,
            ctx.current_height,
            ctx.min_final_cltv_delta,
            hops.len() - 1 - i,
        ) as u32,
        tlv: if multipath && i == hops.len() - 1 {
            mpp_record_hex(ctx.payment_secret, ctx.amount_msat)
        } else {
            "NULL"@
        },
    }
}

/// The output rows of one path, in the path's own hop order.
pub open spec fn path_instructions(
    path_id: u32,
    hops: Seq<HopModel>,
    ctx: PaymentContextModel,
    per_path_amount: u64,
    multipath: bool,
) -> Seq<HtlcInstructionModel> {
    Seq::new(hops.len(), |i: int| instruction_at(path_id, hops, ctx, per_path_amount, multipath, i))
}

/// Amounts never go below the delivered per-path amount.
pub proof fn lemma_amount_nonnegative(hops: Seq<HopModel>, per_path_amount: u64, d: int)
    ensures
        amount_at(hops, per_path_amount, d) >= per_path_amount,
    decreases d,
{
    if d > 0 {
        lemma_amount_nonnegative(hops, per_path_amount, d - 1);
        let prev = amount_at(hops, per_path_amount, d - 1);
        let h = hops[hops.len() - d];
        lemma_mul_nonnegative(prev, h.proportional_fee_ppm as int);
        lemma_div_pos_is_pos(prev * h.proportional_fee_ppm, 1_000_000);
    }
}

/// Moving away from the recipient, the forwarded amount never
/// decreases: each hop adds a non-negative fee.
pub proof fn lemma_amount_monotone(hops: Seq<HopModel>, per_path_amount: u64, d1: int, d2: int)
    requires
        0 <= d1 <= d2,
    ensures
        amount_at(hops, per_path_amount, d1) <= amount_at(hops, per_path_amount, d2),
    decreases d2 - d1,
{
    if d1 < d2 {
        lemma_amount_monotone(hops, per_path_amount, d1, d2 - 1);
        lemma_amount_nonnegative(hops, per_path_amount, d2 - 1);
        let prev = amount_at(hops, per_path_amount, d2 - 1);
        let h = hops[hops.len() - d2];
        lemma_mul_nonnegative(prev, h.proportional_fee_ppm as int);
        lemma_div_pos_is_pos(prev * h.proportional_fee_ppm, 1_000_000);
    }
}

/// Moving away from the recipient, the expiry never decreases: each
/// hop adds a non-negative time-lock delta.
pub proof fn lemma_expiry_monotone(
    hops: Seq<HopModel>,
    current_height: u32,
    min_final_cltv_delta: u32,
    d1: int,
    d2: int,
)
    requires
        0 <= d1 <= d2,
    ensures
        expiry_at(hops, current_height, min_final_cltv_delta, d1) <= expiry_at(
            hops,
            current_height,
            min_final_cltv_delta,
            d2,
        ),
    decreases d2 - d1,
{
    if d1 < d2 {
        lemma_expiry_monotone(hops, current_height, min_final_cltv_delta, d1, d2 - 1);
    }
}

/// Along a path's output rows, `htlc_amount_msat` is non-decreasing
/// moving from the recipient toward the sender.
pub proof fn lemma_htlc_amount_monotone(
    path_id: u32,
    hops: Seq<HopModel>,
    ctx: PaymentContextModel,
    per_path_amount: u64,
    multipath: bool,
    i1: int,
    i2: int,
)
    requires
        0 <= i1 <= i2 < hops.len(),
        propagation_fits(hops, per_path_amount, ctx.current_height, ctx.min_final_cltv_delta),
    ensures
        path_instructions(path_id, hops, ctx, per_path_amount, multipath)[i2].htlc_amount_msat
            <= path_instructions(
            path_id,
            hops,
            ctx,
            per_path_amount,
            multipath,
        )[i1].htlc_amount_msat,
{
    let d1 = hops.len() - 1 - i1;
    let d2 = hops.len() - 1 - i2;
    lemma_amount_monotone(hops, per_path_amount, d2, d1);
    lemma_amount_nonnegative(hops, per_path_amount, d1);
    lemma_amount_nonnegative(hops, per_path_amount, d2);
}

/// Along a path's output rows, `htlc_expiry` is non-decreasing moving
/// from the recipient toward the sender.
pub proof fn lemma_htlc_expiry_monotone(
    path_id: u32,
    hops: Seq<HopModel>,
    ctx: PaymentContextModel,
    per_path_amount: u64,
    multipath: bool,
    i1: int,
    i2: int,
)
    requires
        0 <= i1 <= i2 < hops.len(),
        propagation_fits(hops, per_path_amount, ctx.current_height, ctx.min_final_cltv_delta),
    ensures
        path_instructions(path_id, hops, ctx, per_path_amount, multipath)[i2].htlc_expiry
            <= path_instructions(path_id, hops, ctx, per_path_amount, multipath)[i1].htlc_expiry,
{
    let d1 = hops.len() - 1 - i1;
    let d2 = hops.len() - 1 - i2;
    lemma_expiry_monotone(hops, ctx.current_height, ctx.min_final_cltv_delta, 0, d2);
    lemma_expiry_monotone(hops, ctx.current_height, ctx.min_final_cltv_delta, d2, d1);
}

/// A path with no hops produces no output rows and cannot fail:
/// propagation over it fits trivially.
pub proof fn lemma_empty_path_skipped(
    path_id: u32,
    ctx: PaymentContextModel,
    per_path_amount: u64,
    multipath: bool,
)
    ensures
        path_instructions(
            path_id,
            Seq::<HopModel>::empty(),
            ctx,
            per_path_amount,
            multipath,
        ).len() == 0,
        propagation_fits(
            Seq::<HopModel>::empty(),
            per_path_amount,
            ctx.current_height,
            ctx.min_final_cltv_delta,
        ),
{
}

/// Walks one path's hops from the recipient back to the sender and
/// produces one HTLC output row per hop, in the path's own hop order.
/// The final hop of the path carries the hex-encoded auxiliary record
/// when the payment is split across several paths; every other row
/// carries the literal `NULL`.
pub fn propagate(
    path_id: u32,
    hops: &Vec<Hop>,
    ctx: &PaymentContext,
    per_path_amount: u64,
    multipath: bool,
) -> (r: Result<Vec<HtlcInstruction>, CoreError>)
    ensures
        (multipath && hops@.len() > 0 && ctx.payment_secret@.len() != 32) ==> r == Err::<
            Vec<HtlcInstruction>,
            CoreError,
        >(CoreError::SecretLengthMismatch),
        !(multipath && hops@.len() > 0 && ctx.payment_secret@.len() != 32) && !propagation_fits(
            hops.deep_view(),
            per_path_amount,
            ctx.current_height,
            ctx.min_final_cltv_delta,
        ) ==> r == Err::<Vec<HtlcInstruction>, CoreError>(CoreError::ArithmeticOverflow),
        !(multipath && hops@.len() > 0 && ctx.payment_secret@.len() != 32) && propagation_fits(
            hops.deep_view(),
            per_path_amount,
            ctx.current_height,
            ctx.min_final_cltv_delta,
        ) ==> (r matches Ok(v) && v.deep_view() == path_instructions(
            path_id,
            hops.deep_view(),
            ctx@,
            per_path_amount,
            multipath,
        )),
{
    let ghost hm = hops.deep_view();
    let n = hops.len();
    if n == 0 {
        let out: Vec<HtlcInstruction> = Vec::new();
        proof {
            assert(out.deep_view() =~= path_instructions(
                path_id,
                hm,
                ctx@,
                per_path_amount,
                multipath,
            ));
        }
        return Ok(out);
    }
    if multipath && ctx.payment_secret.len() != 32 {
        return Err(CoreError::SecretLengthMismatch);
    }
    if (ctx.current_height as u64) + (ctx.min_final_cltv_delta as u64) > u32::MAX as u64 {
        proof {
            assert(expiry_at(hm, ctx.current_height, ctx.min_final_cltv_delta, 0) > u32::MAX);
        }
        return Err(CoreError::ArithmeticOverflow);
    }

    let mut amts: Vec<u64> = Vec::new();
    let mut exps: Vec<u32> = Vec::new();
    let mut cur_amt: u64 = per_path_amount;
    let mut cur_exp: u32 = ctx.current_height + ctx.min_final_cltv_delta;
    let mut d: usize = 0;
    while d < n
        invariant
            d <= n,
            n == hm.len(),
            hm == hops.deep_view(),
            n == hops@.len(),
            multipath ==> ctx.payment_secret@.len() == 32,
            amts@.len() == d,
            exps@.len() == d,
            forall|j: int| 0 <= j < d ==> amts@[j] == amount_at(hm, per_path_amount, j),
            forall|j: int|
                0 <= j < d ==> exps@[j] == expiry_at(
                    hm,
                    ctx.current_height,
                    ctx.min_final_cltv_delta,
                    j,
                ),
            d < n ==> cur_amt == amount_at(hm, per_path_amount, d as int),
            d < n ==> cur_exp == expiry_at(
                hm,
                ctx.current_height,
                ctx.min_final_cltv_delta,
                d as int,
            ),
        decreases n - d,
    {
        amts.push(cur_amt);
        exps.push(cur_exp);
        if d + 1 < n {
            let h = &hops[n - 1 - d];
            proof {
                assert(h@ == hm[n - 1 - d as int]);
            }
            let fee = match calculate_fee(cur_amt, h.base_fee_msat, h.proportional_fee_ppm) {
                Ok(f) => f,
                Err(_) => {
                    proof {
                        assert(amount_at(hm, per_path_amount, d + 1) > u64::MAX);
                    }
                    return Err(CoreError::ArithmeticOverflow);
                },
            };
            if cur_amt > u64::MAX - fee {
                proof {
                    assert(amount_at(hm, per_path_amount, d + 1) > u64::MAX);
                }
                return Err(CoreError::ArithmeticOverflow);
            }
            cur_amt = cur_amt + fee;
            if (cur_exp as u64) + (h.cltv_delta as u64) > u32::MAX as u64 {
                proof {
                    assert(expiry_at(hm, ctx.current_height, ctx.min_final_cltv_delta, d + 1)
                        > u32::MAX);
                }
                return Err(CoreError::ArithmeticOverflow);
            }
            cur_exp = cur_exp + h.cltv_delta;
            proof {
                assert(cur_amt == amount_at(hm, per_path_amount, d + 1));
                assert(cur_exp == expiry_at(hm, ctx.current_height, ctx.min_final_cltv_delta, d + 1));
            }
        }
        d = d + 1;
    }

    let mut out: Vec<HtlcInstruction> = Vec::new();
    let mut i: usize = 0;
    while i < n
        invariant
            i <= n,
            n == hm.len(),
            hm == hops.deep_view(),
            n == hops@.len(),
            amts@.len() == n,
            exps@.len() == n,
            multipath ==> ctx.payment_secret@.len() == 32,
            forall|j: int| 0 <= j < n ==> amts@[j] == amount_at(hm, per_path_amount, j),
            forall|j: int|
                0 <= j < n ==> exps@[j] == expiry_at(
                    hm,
                    ctx.current_height,
                    ctx.min_final_cltv_delta,
                    j,
                ),
            out@.len() == i,
            forall|j: int|
                0 <= j < i ==> out@[j]@ == instruction_at(
                    path_id,
                    hm,
                    ctx@,
                    per_path_amount,
                    multipath,
                    j,
                ),
        decreases n - i,
    {
        let tlv: String = if multipath && i == n - 1 {
            match create_mpp_tlv(ctx.payment_secret.as_slice(), ctx.amount_msat) {
                Ok(s) => s,
                Err(e) => {
                    // the secret length was checked before the loops
                    proof {
                        assert(false);
                    }
                    return Err(e);
                },
            }
        } else {
            String::from_str("NULL")
        };
        let h = &hops[i];
        let instr = HtlcInstruction {
            path_id: path_id,
            channel_name: h.channel_name.clone(),
            htlc_amount_msat: amts[n - 1 - i],
            htlc_expiry: exps[n - 1 - i],
            tlv: tlv,
        };
        out.push(instr);
        proof {
            assert(h@ == hm[i as int]);
            assert(out@[i as int]@ == instruction_at(
                path_id,
                hm,
                ctx@,
                per_path_amount,
                multipath,
                i as int,
            ));
        }
        i = i + 1;
    }
    proof {
        assert forall|dd: int| 0 <= dd < hm.len() implies #[trigger] amount_at(
            hm,
            per_path_amount,
            dd,
        ) <= u64::MAX by {
            assert(amts@[dd] == amount_at(hm, per_path_amount, dd));
        }
        assert forall|dd: int| 0 <= dd < hm.len() implies #[trigger] expiry_at(
            hm,
            ctx.current_height,
            ctx.min_final_cltv_delta,
            dd,
        ) <= u32::MAX by {
            assert(exps@[dd] == expiry_at(hm, ctx.current_height, ctx.min_final_cltv_delta, dd));
        }
        assert(propagation_fits(hm, per_path_amount, ctx.current_height, ctx.min_final_cltv_delta));
        assert(out.deep_view() =~= path_instructions(
            path_id,
            hm,
            ctx@,
            per_path_amount,
            multipath,
        ));
    }
    Ok(out)
}

} // verus!
