use htlc_propagation::fee::calculate_fee;
use htlc_propagation::pipeline::process;
use htlc_propagation::propagate::propagate;
use htlc_propagation::types::CoreError;
use htlc_propagation::types::Hop;
use htlc_propagation::types::PaymentContext;

fn hop(path_id: u32, name: &str, cltv_delta: u32, base_fee_msat: u64, ppm: u64) -> Hop {
    Hop {
        path_id,
        channel_name: name.to_string(),
        cltv_delta,
        base_fee_msat,
        proportional_fee_ppm: ppm,
    }
}

fn single_path_hops() -> Vec<Hop> {
    vec![
        hop(0, "alpha", 20, 5000, 200),
        hop(0, "bravo", 30, 2000, 500),
        hop(0, "charlie", 40, 1000, 100),
    ]
}

fn single_path_context() -> PaymentContext {
    PaymentContext {
        amount_msat: 200_000_000,
        min_final_cltv_delta: 40,
        current_height: 800_000,
        payment_secret: (0u8..32).collect(),
    }
}

#[test]
fn single_path_exact_values() {
    let out = process(single_path_hops(), &single_path_context()).unwrap();
    assert_eq!(out.len(), 3);

    // hop nearest the recipient: the delivered amount and final expiry
    assert_eq!(out[2].channel_name, "charlie");
    assert_eq!(out[2].htlc_amount_msat, 200_000_000);
    assert_eq!(out[2].htlc_expiry, 800_040);
    assert_eq!(out[2].tlv, "NULL");

    // bravo adds charlie's fee (1000 + 200_000_000 * 100 / 1e6) and delta
    assert_eq!(out[1].channel_name, "bravo");
    assert_eq!(out[1].htlc_amount_msat, 200_021_000);
    assert_eq!(out[1].htlc_expiry, 800_080);
    assert_eq!(out[1].tlv, "NULL");

    // alpha adds bravo's fee (2000 + 200_021_000 * 500 / 1e6) and delta
    assert_eq!(out[0].channel_name, "alpha");
    assert_eq!(out[0].htlc_amount_msat, 200_123_010);
    assert_eq!(out[0].htlc_expiry, 800_110);
    assert_eq!(out[0].tlv, "NULL");
}

#[test]
fn propagate_matches_process_for_single_path() {
    let hops = single_path_hops();
    let ctx = single_path_context();
    let rows = propagate(0, &hops, &ctx, ctx.amount_msat, false).unwrap();
    let out = process(single_path_hops(), &ctx).unwrap();
    assert_eq!(rows, out);
}

#[test]
fn amounts_nondecreasing_toward_sender() {
    let out = process(single_path_hops(), &single_path_context()).unwrap();
    for w in out.windows(2) {
        assert!(w[0].htlc_amount_msat >= w[1].htlc_amount_msat);
    }
}

#[test]
fn expiries_nondecreasing_toward_sender() {
    let out = process(single_path_hops(), &single_path_context()).unwrap();
    for w in out.windows(2) {
        assert!(w[0].htlc_expiry >= w[1].htlc_expiry);
    }
}

#[test]
fn identical_inputs_identical_outputs() {
    let a = process(single_path_hops(), &single_path_context()).unwrap();
    let b = process(single_path_hops(), &single_path_context()).unwrap();
    assert_eq!(a, b);
}

#[test]
fn empty_input_empty_output() {
    let out = process(Vec::new(), &single_path_context()).unwrap();
    assert!(out.is_empty());
}

#[test]
fn empty_path_contributes_no_rows() {
    // path 1 has no hops: ids 0 and 2 are used, the hole is skipped
    let hops = vec![hop(0, "a0", 10, 0, 0), hop(2, "c2", 10, 0, 0)];
    let ctx = single_path_context();
    let out = process(hops, &ctx).unwrap();
    assert_eq!(out.len(), 2);
    assert_eq!(out[0].path_id, 0);
    assert_eq!(out[1].path_id, 2);
    // two non-empty paths split the amount
    assert_eq!(out[0].htlc_amount_msat, 100_000_000);
    assert_eq!(out[1].htlc_amount_msat, 100_000_000);
}

#[test]
fn empty_path_of_single_hop_path_keeps_full_amount() {
    let hops = vec![hop(0, "only", 10, 7, 7)];
    let ctx = single_path_context();
    let out = process(hops, &ctx).unwrap();
    assert_eq!(out.len(), 1);
    assert_eq!(out[0].htlc_amount_msat, 200_000_000);
    assert_eq!(out[0].htlc_expiry, 800_040);
    assert_eq!(out[0].tlv, "NULL");
}

#[test]
fn output_sorted_by_channel_name() {
    // hop order z, y, x: the output is re-sorted by channel name, so
    // the recipient-side hop (smallest amount) comes first
    let hops = vec![
        hop(0, "z", 1, 10, 0),
        hop(0, "y", 2, 20, 0),
        hop(0, "x", 4, 40, 0),
    ];
    let ctx = PaymentContext {
        amount_msat: 1000,
        min_final_cltv_delta: 5,
        current_height: 100,
        payment_secret: Vec::new(),
    };
    let out = process(hops, &ctx).unwrap();
    let summary: Vec<(&str, u64, u32)> = out
        .iter()
        .map(|r| (r.channel_name.as_str(), r.htlc_amount_msat, r.htlc_expiry))
        .collect();
    assert_eq!(
        summary,
        [("x", 1000, 105), ("y", 1040, 109), ("z", 1060, 111)]
    );
}

#[test]
fn calculate_fee_exact() {
    assert_eq!(calculate_fee(200_000_000, 1000, 100), Ok(21_000));
    assert_eq!(calculate_fee(200_021_000, 2000, 500), Ok(102_010));
    // the proportional part floors
    assert_eq!(calculate_fee(3, 0, 500_000), Ok(1));
    assert_eq!(calculate_fee(1, 0, 500_000), Ok(0));
}

#[test]
fn calculate_fee_overflow() {
    assert_eq!(
        calculate_fee(u64::MAX, u64::MAX, 1_000_000),
        Err(CoreError::ArithmeticOverflow)
    );
}

#[test]
fn propagate_amount_overflow() {
    let hops = vec![hop(0, "x", 0, 0, 0), hop(0, "y", 0, 1, 0)];
    let ctx = PaymentContext {
        amount_msat: u64::MAX,
        min_final_cltv_delta: 0,
        current_height: 0,
        payment_secret: Vec::new(),
    };
    let r = propagate(0, &hops, &ctx, u64::MAX, false);
    assert_eq!(r, Err(CoreError::ArithmeticOverflow));
}

#[test]
fn propagate_expiry_overflow() {
    let hops = vec![hop(0, "x", 0, 0, 0)];
    let ctx = PaymentContext {
        amount_msat: 1000,
        min_final_cltv_delta: 1,
        current_height: u32::MAX,
        payment_secret: Vec::new(),
    };
    let r = propagate(0, &hops, &ctx, 1000, false);
    assert_eq!(r, Err(CoreError::ArithmeticOverflow));
}

#[test]
fn multipath_bad_secret_is_rejected() {
    let hops = vec![hop(0, "a", 10, 0, 0), hop(1, "b", 10, 0, 0)];
    let ctx = PaymentContext {
        amount_msat: 1000,
        min_final_cltv_delta: 10,
        current_height: 100,
        payment_secret: vec![1, 2, 3],
    };
    let r = process(hops, &ctx);
    assert_eq!(r, Err(CoreError::SecretLengthMismatch));
}

#[test]
fn single_path_ignores_secret_length() {
    // with one path no auxiliary record is built, so a short secret
    // is never inspected
    let hops = vec![hop(0, "a", 10, 0, 0)];
    let ctx = PaymentContext {
        amount_msat: 1000,
        min_final_cltv_delta: 10,
        current_height: 100,
        payment_secret: vec![1, 2, 3],
    };
    let out = process(hops, &ctx).unwrap();
    assert_eq!(out.len(), 1);
    assert_eq!(out[0].tlv, "NULL");
}
