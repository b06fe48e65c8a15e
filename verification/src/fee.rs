//! The forwarding-fee formula: a flat base fee plus a proportional
//! part in parts-per-million of the forwarded amount.

use vstd::prelude::*;
use crate::types::CoreError;

verus! {

/// The fee a hop charges to forward `amount_msat` outward:
/// `base_fee_msat + floor(amount_msat * proportional_fee_ppm / 1_000_000)`.
pub open spec fn fee_amount(
    amount_msat: int,
    base_fee_msat: u64,
    proportional_fee_ppm: u64,
) -> int {
    base_fee_msat + (amount_msat * proportional_fee_ppm) / 1_000_000
}

/// Computes the fee for forwarding an HTLC of `amount_msat` through a
/// hop with the given fee parameters, failing instead of wrapping when
/// the fee does not fit in 64 bits.
pub fn calculate_fee(
    amount_msat: u64,
    base_fee_msat: u64,
    proportional_fee_ppm: u64,
) -> (r: Result<u64, CoreError>)
    ensures
        fee_amount(amount_msat as int, base_fee_msat, proportional_fee_ppm) <= u64::MAX ==> r
            == Ok::<u64, CoreError>(
            fee_amount(amount_msat as int, base_fee_msat, proportional_fee_ppm) as u64,
        ),
        fee_amount(amount_msat as int, base_fee_msat, proportional_fee_ppm) > u64::MAX ==> r
            == Err::<u64, CoreError>(CoreError::ArithmeticOverflow),
{
    proof {
        assert(amount_msat * proportional_fee_ppm <= u64::MAX * u64::MAX) by (nonlinear_arith)
            requires
                amount_msat <= u64::MAX,
                proportional_fee_ppm <= u64::MAX,
        ;
    }
    let prod: u128 = (amount_msat as u128) * (proportional_fee_ppm as u128);
    proof {
        assert(prod / 1_000_000 <= prod) by (nonlinear_arith);
    }
    let fee: u128 = (base_fee_msat as u128) + prod / 1_000_000;
    if fee > u64::MAX as u128 {
        Err(CoreError::ArithmeticOverflow)
    } else {
        Ok(fee as u64)
    }
}

} // verus!

