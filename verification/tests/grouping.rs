use htlc_propagation::group::group_by_path;
use htlc_propagation::group::path_count;
use htlc_propagation::types::CoreError;
use htlc_propagation::types::Hop;

fn hop(path_id: u32, name: &str) -> Hop {
    Hop {
        path_id,
        channel_name: name.to_string(),
        cltv_delta: 1,
        base_fee_msat: 2,
        proportional_fee_ppm: 3,
    }
}

#[test]
fn path_count_is_max_plus_one() {
    assert_eq!(path_count(&Vec::new()), 0);
    assert_eq!(path_count(&vec![hop(0, "a")]), 1);
    assert_eq!(path_count(&vec![hop(2, "a"), hop(0, "b")]), 3);
}

#[test]
fn grouping_preserves_order_within_paths() {
    let hops = vec![
        hop(1, "x"),
        hop(0, "a"),
        hop(1, "y"),
        hop(0, "b"),
        hop(1, "z"),
    ];
    let buckets = group_by_path(hops, 2).unwrap();
    assert_eq!(buckets.len(), 2);
    let names0: Vec<&str> = buckets[0].iter().map(|h| h.channel_name.as_str()).collect();
    let names1: Vec<&str> = buckets[1].iter().map(|h| h.channel_name.as_str()).collect();
    assert_eq!(names0, ["a", "b"]);
    assert_eq!(names1, ["x", "y", "z"]);
}

#[test]
fn grouping_keeps_empty_buckets() {
    let hops = vec![hop(0, "a"), hop(2, "b")];
    let buckets = group_by_path(hops, 3).unwrap();
    assert_eq!(buckets.len(), 3);
    assert_eq!(buckets[0].len(), 1);
    assert_eq!(buckets[1].len(), 0);
    assert_eq!(buckets[2].len(), 1);
}

#[test]
fn grouping_rejects_out_of_range_id() {
    let hops = vec![hop(0, "a"), hop(5, "b")];
    let r = group_by_path(hops, 2);
    assert!(matches!(r, Err(CoreError::InvalidPathId)));
}
