//! Data model: hops, the payment context, the per-hop output rows, and
//! the library's error type, together with their mathematical views.

use vstd::prelude::*;

verus! {

/// Errors the computation surfaces instead of recovering internally.
#[derive(Debug, Clone, Copy, PartialEq, Eq, Structural)]
pub enum CoreError {
    /// A hop carries a `path_id` outside the dense `0..path_count` range.
    InvalidPathId,
    /// The payment secret is not exactly 32 bytes when an auxiliary
    /// record must be built.
    SecretLengthMismatch,
    /// An amount or expiry accumulator would exceed its integer type.
    ArithmeticOverflow,
}

/// One forwarding hop of a payment path, immutable once read.
#[derive(Debug)]
pub struct Hop {
    /// Index of the path this hop belongs to.
    pub path_id: u32,
    /// Channel identifier, unique within its path.
    pub channel_name: String,
    /// Additional time-lock units this hop's outgoing channel requires.
    pub cltv_delta: u32,
    /// Flat fee in millisatoshi this hop charges to forward.
    pub base_fee_msat: u64,
    /// Fee rate in parts-per-million of the forwarded amount.
    pub proportional_fee_ppm: u64,
}

/// Mathematical view of a [`Hop`].
pub ghost struct HopModel {
    pub path_id: u32,
    pub channel_name: Seq<char>,
    pub cltv_delta: u32,
    pub base_fee_msat: u64,
    pub proportional_fee_ppm: u64,
}

impl View for Hop {
    type V = HopModel;

    open spec fn view(&self) -> HopModel {
        HopModel {
            path_id: self.path_id,
            channel_name: self.channel_name@,
            cltv_delta: self.cltv_delta,
            base_fee_msat: self.base_fee_msat,
            proportional_fee_ppm: self.proportional_fee_ppm,
        }
    }
}

impl DeepView for Hop {
    type V = HopModel;

    open spec fn deep_view(&self) -> HopModel {
        self@
    }
}

/// The per-invocation payment parameters, shared read-only by every
/// path's propagation.
pub struct PaymentContext {
    /// Total amount to deliver to the recipient, in millisatoshi.
    pub amount_msat: u64,
    /// Minimum time-lock delta the recipient demands on its final hop.
    pub min_final_cltv_delta: u32,
    /// Current reference block height.
    pub current_height: u32,
    /// Payment secret, used only when more than one path exists; it
    /// must then be exactly 32 bytes.
    pub payment_secret: Vec<u8>,
}

/// Mathematical view of a [`PaymentContext`].
pub ghost struct PaymentContextModel {
    pub amount_msat: u64,
    pub min_final_cltv_delta: u32,
    pub current_height: u32,
    pub payment_secret: Seq<u8>,
}

impl View for PaymentContext {
    type V = PaymentContextModel;

    open spec fn view(&self) -> PaymentContextModel {
        PaymentContextModel {
            amount_msat: self.amount_msat,
            min_final_cltv_delta: self.min_final_cltv_delta,
            current_height: self.current_height,
            payment_secret: self.payment_secret@,
        }
    }
}

/// One output row: the HTLC a hop must emit on its outgoing channel.
#[derive(Debug, PartialEq)]
pub struct HtlcInstruction {
    /// Index of the path the hop belongs to.
    pub path_id: u32,
    /// The hop's channel identifier.
    pub channel_name: String,
    /// Amount the hop forwards outward, in millisatoshi.
    pub htlc_amount_msat: u64,
    /// Absolute block height the hop enforces on the outgoing HTLC.
    pub htlc_expiry: u32,
    /// Either the literal `NULL` or the hex-encoded auxiliary record.
    pub tlv: String,
}

/// Mathematical view of an [`HtlcInstruction`].
#[verifier::ext_equal]
pub ghost struct HtlcInstructionModel {
    pub path_id: u32,
    pub channel_name: Seq<char>,
    pub htlc_amount_msat: u64,
    pub htlc_expiry: u32,
    pub tlv: Seq<char>,
}

impl View for HtlcInstruction {
    type V = HtlcInstructionModel;

    open spec fn view(&self) -> HtlcInstructionModel {
        HtlcInstructionModel {
            path_id: self.path_id,
            channel_name: self.channel_name@,
            htlc_amount_msat: self.htlc_amount_msat,
            htlc_expiry: self.htlc_expiry,
            tlv: self.tlv@,
        }
    }
}

impl DeepView for HtlcInstruction {
    type V = HtlcInstructionModel;

    open spec fn deep_view(&self) -> HtlcInstructionModel {
        self@
    }
}

} // verus!
