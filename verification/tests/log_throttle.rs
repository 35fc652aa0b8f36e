use dkms::log_throttle::nth_is_loud;

#[test]
fn first_events_are_loud_then_only_powers_of_two() {
    let loud: Vec<u64> = (0..40).filter(|&n| nth_is_loud(n)).collect();
    assert_eq!(loud, vec![0, 1, 2, 4, 8, 16, 32]);
}
