use htlc_propagation::pipeline::process;
use htlc_propagation::tlv::bytes_to_hex;
use htlc_propagation::tlv::create_mpp_tlv;
use htlc_propagation::types::CoreError;
use htlc_propagation::types::Hop;
use htlc_propagation::types::PaymentContext;

fn parse_hex(s: &str) -> Vec<u8> {
    assert!(s.len() % 2 == 0);
    let digits: Vec<u8> = s
        .chars()
        .map(|c| c.to_digit(16).expect("hex digit") as u8)
        .collect();
    digits.chunks(2).map(|d| d[0] * 16 + d[1]).collect()
}

fn read_be_u64(bytes: &[u8]) -> u64 {
    bytes.iter().fold(0u64, |acc, b| acc * 256 + *b as u64)
}

fn hop(path_id: u32, name: &str) -> Hop {
    Hop {
        path_id,
        channel_name: name.to_string(),
        cltv_delta: 10,
        base_fee_msat: 100,
        proportional_fee_ppm: 10,
    }
}

#[test]
fn tlv_round_trip() {
    let secret: Vec<u8> = (100u8..132).collect();
    let hex = create_mpp_tlv(&secret, 987_654_321).unwrap();
    assert_eq!(hex.len(), 112);
    let bytes = parse_hex(&hex);
    assert_eq!(bytes.len(), 56);
    assert_eq!(read_be_u64(&bytes[0..8]), 8);
    assert_eq!(read_be_u64(&bytes[8..16]), 40);
    assert_eq!(&bytes[16..48], secret.as_slice());
    assert_eq!(read_be_u64(&bytes[48..56]), 987_654_321);
}

#[test]
fn tlv_exact_hex() {
    let secret = vec![0u8; 32];
    let hex = create_mpp_tlv(&secret, 256).unwrap();
    let expected = format!(
        "{}{}{}{}",
        "0000000000000008",
        "0000000000000028",
        "0000000000000000000000000000000000000000000000000000000000000000",
        "0000000000000100"
    );
    assert_eq!(hex, expected);
}

#[test]
fn tlv_rejects_wrong_secret_length() {
    assert_eq!(
        create_mpp_tlv(&[0u8; 31], 1),
        Err(CoreError::SecretLengthMismatch)
    );
    assert_eq!(
        create_mpp_tlv(&[0u8; 33], 1),
        Err(CoreError::SecretLengthMismatch)
    );
}

#[test]
fn bytes_to_hex_lowercase() {
    let v = vec![0x00u8, 0x0f, 0xa5, 0xff];
    assert_eq!(bytes_to_hex(&v), "000fa5ff");
}

#[test]
fn multipath_tlv_placement() {
    // two paths: the hop nearest the recipient of each carries the
    // record, every other hop carries the literal NULL
    let hops = vec![hop(0, "a1"), hop(0, "a2"), hop(1, "b1")];
    let secret: Vec<u8> = (0u8..32).collect();
    let total: u64 = 200_000_000;
    let ctx = PaymentContext {
        amount_msat: total,
        min_final_cltv_delta: 40,
        current_height: 800_000,
        payment_secret: secret.clone(),
    };
    let out = process(hops, &ctx).unwrap();
    assert_eq!(out.len(), 3);
    assert_eq!(out[0].channel_name, "a1");
    assert_eq!(out[0].tlv, "NULL");

    for row in [&out[1], &out[2]] {
        let hex = &row.tlv;
        assert_eq!(hex.len(), 112);
        assert!(hex.chars().all(|c| c.is_ascii_hexdigit() && !c.is_ascii_uppercase()));
        let bytes = parse_hex(hex);
        assert_eq!(read_be_u64(&bytes[0..8]), 8);
        assert_eq!(read_be_u64(&bytes[8..16]), 40);
        assert_eq!(&bytes[16..48], secret.as_slice());
        // the record carries the grand total, not the per-path half
        assert_eq!(read_be_u64(&bytes[48..56]), total);
    }

    // per-path amounts are the floored halves of the total
    assert_eq!(out[2].htlc_amount_msat, 100_000_000);
}
