use img_process_server::memory::{sample_tier, select_tier, Tier, GIGABYTE, MIN_AVAILABLE_MEMORY};

#[test]
fn less_than_two_gigabytes_goes_to_disk() {
    assert_eq!(select_tier(0), Tier::Disk);
    assert_eq!(select_tier(1_000_000_000), Tier::Disk);
    assert_eq!(select_tier(1_999_999_999), Tier::Disk);
}

#[test]
fn two_gigabytes_or_more_stay_in_memory() {
    assert_eq!(select_tier(2_000_000_000), Tier::Memory);
    assert_eq!(select_tier(2_000_000_001), Tier::Memory);
    assert_eq!(select_tier(16_000_000_000), Tier::Memory);
    assert_eq!(select_tier(u64::MAX), Tier::Memory);
}

#[test]
fn the_threshold_is_counted_in_decimal_gigabytes() {
    assert_eq!(GIGABYTE, 1_000_000_000);
    assert_eq!(MIN_AVAILABLE_MEMORY, 2);
    assert_eq!(select_tier(2 * 1024 * 1024 * 1024), Tier::Memory);
    assert_eq!(select_tier(2 * 1024 * 1024 * 1024 - 200_000_000), Tier::Disk);
}

#[test]
fn the_probe_answers() {
    let tier = sample_tier();
    assert!(tier == Tier::Memory || tier == Tier::Disk);
}
