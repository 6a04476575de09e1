//! The budget of media in flight.
use smg::inflight::{count_units, InflightRefusal, MultimodalInflight};

#[test]
fn a_request_above_the_whole_budget_is_refused_at_once() {
    let inflight = MultimodalInflight::new(4096);
    assert_eq!(
        inflight.reserve(5000).unwrap_err(),
        InflightRefusal::TooLarge
    );
    assert!(inflight.reserve(0).is_ok());
}

#[test]
fn a_begun_unit_counts_whole() {
    assert_eq!(count_units(0), 0);
    assert_eq!(count_units(1), 1);
    assert_eq!(count_units(1024), 1);
    assert_eq!(count_units(1025), 2);
    let inflight = MultimodalInflight::new(4096);
    assert_eq!(inflight.units(), 4);
    assert_eq!(inflight.reserve(3000), Ok(3));
    assert_eq!(inflight.reserve(4096), Ok(4));
    assert_eq!(inflight.budget_bytes(), 4096);
}

#[test]
fn a_budget_has_at_least_one_unit() {
    let inflight = MultimodalInflight::new(0);
    assert_eq!(inflight.units(), 1);
    assert_eq!(inflight.reserve(1024), Ok(1));
    assert_eq!(inflight.reserve(1025), Err(InflightRefusal::TooLarge));
}

#[test]
fn the_largest_budget_stays_in_range() {
    let inflight = MultimodalInflight::new(usize::MAX);
    assert_eq!(inflight.units(), usize::MAX / 1024 + 1);
    assert_eq!(inflight.reserve(usize::MAX), Err(InflightRefusal::TooLarge));
}

#[test]
fn refusals_are_answered() {
    let inflight = MultimodalInflight::new(4096);
    let large = inflight.refusal(5000, InflightRefusal::TooLarge);
    assert_eq!(large.status, 413);
    assert_eq!(large.code, "multimodal_payload_too_large");
    assert_eq!(
        large.message,
        "the request carries 5000 bytes of preprocessed media, more than the 4096 bytes this gateway holds in flight"
    );
    assert_eq!(large.metric, "multimodal_too_large");
    let busy = inflight.refusal(1024, InflightRefusal::Busy);
    assert_eq!(busy.status, 429);
    assert_eq!(busy.code, "multimodal_inflight_budget");
    assert_eq!(
        busy.message,
        "the gateway is already holding its budget of preprocessed media in flight; retry shortly"
    );
    assert_eq!(busy.metric, "multimodal_inflight");
}
