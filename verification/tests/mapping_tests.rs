use pixelbridge::settings::{
    ConfigurationError, LedMapping, Settings, TextDevice, Wled, DEFAULT_RECEIVE_BUFFER_SIZE,
};
use pixelbridge::table::MappingTable;

fn run(source_start: u16, target_start: u16, length: u16) -> LedMapping {
    LedMapping { source_start, target_start, length: Some(length), reverse: None }
}

fn wled(url: &str, mappings: Vec<LedMapping>, number_of_leds: u16) -> Wled {
    Wled { url: url.to_string(), mappings, number_of_leds }
}

#[test]
fn absent_length_means_one_pixel() {
    let m = LedMapping { source_start: 4, target_start: 9, length: None, reverse: None };
    assert_eq!(m.run_length(), 1);
    assert!(!m.is_reversed());
    let r = LedMapping { source_start: 4, target_start: 9, length: Some(7), reverse: Some(true) };
    assert_eq!(r.run_length(), 7);
    assert!(r.is_reversed());
}

#[test]
fn empty_set_is_refused() {
    let mut none: Vec<LedMapping> = Vec::new();
    assert_eq!(
        Settings::process_mappings(&mut none),
        Err(ConfigurationError::EmptyMappingSet)
    );
    assert_eq!(MappingTable::new(Vec::new()).err(), Some(ConfigurationError::EmptyMappingSet));
}

#[test]
fn overlapping_set_is_refused() {
    let mappings = vec![run(0, 0, 5), run(0, 3, 2)];
    assert_eq!(
        MappingTable::new(mappings.clone()).err(),
        Some(ConfigurationError::OverlappingTargetRanges)
    );
    let mut in_place = mappings;
    assert_eq!(
        Settings::process_mappings(&mut in_place),
        Err(ConfigurationError::OverlappingTargetRanges)
    );
}

#[test]
fn overlap_is_found_whatever_the_order() {
    let mappings = vec![run(0, 3, 2), run(0, 0, 5)];
    assert_eq!(
        MappingTable::new(mappings).err(),
        Some(ConfigurationError::OverlappingTargetRanges)
    );
}

#[test]
fn same_start_is_an_overlap() {
    let mappings = vec![run(0, 4, 1), run(9, 4, 1)];
    assert_eq!(
        MappingTable::new(mappings).err(),
        Some(ConfigurationError::OverlappingTargetRanges)
    );
}

#[test]
fn touching_ranges_are_accepted() {
    let table = MappingTable::new(vec![run(0, 5, 5), run(0, 0, 5)]).unwrap();
    assert_eq!(table.as_slice(), &[run(0, 0, 5), run(0, 5, 5)]);
    assert_eq!(table.first_target(), 0);
    assert_eq!(table.target_end(), 10);
}

#[test]
fn mappings_are_sorted_by_target_start() {
    let mut mappings = vec![run(1, 30, 2), run(2, 10, 3), run(3, 20, 1), run(4, 0, 10)];
    assert_eq!(Settings::process_mappings(&mut mappings), Ok(()));
    assert_eq!(mappings, vec![run(4, 0, 10), run(2, 10, 3), run(3, 20, 1), run(1, 30, 2)]);
}

#[test]
fn source_side_is_not_validated() {
    let table = MappingTable::new(vec![run(7, 0, 3), run(7, 3, 3), run(60000, 6, 60000)]);
    assert!(table.is_ok());
}

#[test]
fn equal_starts_keep_their_given_order() {
    let first = LedMapping { source_start: 1, target_start: 5, length: Some(0), reverse: None };
    let second = LedMapping { source_start: 2, target_start: 5, length: Some(0), reverse: None };
    let third = LedMapping { source_start: 3, target_start: 5, length: Some(2), reverse: None };
    let mut mappings = vec![first, second, third, run(0, 0, 5)];
    assert_eq!(Settings::process_mappings(&mut mappings), Ok(()));
    assert_eq!(mappings, vec![run(0, 0, 5), first, second, third]);
}

#[test]
fn empty_run_after_a_filled_one_at_the_same_start_is_an_overlap() {
    let filled = run(0, 5, 2);
    let empty = LedMapping { source_start: 0, target_start: 5, length: Some(0), reverse: None };
    assert_eq!(
        MappingTable::new(vec![filled, empty]).err(),
        Some(ConfigurationError::OverlappingTargetRanges)
    );
    assert!(MappingTable::new(vec![empty, filled]).is_ok());
}

#[test]
fn in_place_sort_happens_before_the_overlap_is_reported() {
    let mut mappings = vec![run(0, 3, 2), run(0, 0, 5)];
    assert_eq!(
        Settings::process_mappings(&mut mappings),
        Err(ConfigurationError::OverlappingTargetRanges)
    );
    assert_eq!(mappings, vec![run(0, 0, 5), run(0, 3, 2)]);
}

#[test]
fn run_at_the_far_end_of_the_index_range_does_not_wrap() {
    let table = MappingTable::new(vec![run(0, 65535, 65535), run(0, 65534, 1)]).unwrap();
    assert_eq!(table.first_target(), 65534);
    assert_eq!(table.target_end(), 131070);
}

#[test]
fn complaints_are_worded() {
    assert_eq!(
        ConfigurationError::EmptyMappingSet.message(),
        "There has to be at least one mapping per device!"
    );
    assert_eq!(
        ConfigurationError::OverlappingTargetRanges.message(),
        "Overlapping target ranges are not allowed!"
    );
}

#[test]
fn settings_put_every_device_in_canonical_order() {
    let settings = Settings::new(
        "0.0.0.0:5568".to_string(),
        Some(4096),
        vec![TextDevice {
            topic_prefix: "strip".to_string(),
            mappings: vec![run(0, 4, 1), run(1, 2, 1)],
        }],
        vec![wled("10.0.0.2:21324", vec![run(5, 8, 2), run(0, 0, 8)], 10)],
    )
    .unwrap();
    assert_eq!(settings.udp_bind_address, "0.0.0.0:5568");
    assert_eq!(settings.receive_buffer_size, Some(4096));
    assert_eq!(settings.receive_capacity(), 4096);
    assert_eq!(settings.text_devices.len(), 1);
    assert_eq!(settings.text_devices[0].topic_prefix, "strip");
    assert_eq!(settings.text_devices[0].mappings, vec![run(1, 2, 1), run(0, 4, 1)]);
    assert_eq!(settings.wleds.len(), 1);
    assert_eq!(settings.wleds[0].url, "10.0.0.2:21324");
    assert_eq!(settings.wleds[0].number_of_leds, 10);
    assert_eq!(settings.wleds[0].mappings, vec![run(0, 0, 8), run(5, 8, 2)]);
}

#[test]
fn settings_without_a_buffer_size_use_the_default() {
    let settings = Settings::new(
        "0.0.0.0:1".to_string(),
        None,
        Vec::new(),
        vec![wled("a", vec![run(0, 0, 1)], 1)],
    )
    .unwrap();
    assert_eq!(DEFAULT_RECEIVE_BUFFER_SIZE, 2048);
    assert_eq!(settings.receive_capacity(), 2048);
}

#[test]
fn settings_report_the_first_device_that_fails() {
    let refused = Settings::new(
        "0.0.0.0:1".to_string(),
        None,
        vec![TextDevice {
            topic_prefix: "t".to_string(),
            mappings: vec![run(0, 0, 2), run(0, 1, 2)],
        }],
        vec![wled("a", Vec::new(), 1)],
    );
    assert_eq!(refused.err(), Some(ConfigurationError::OverlappingTargetRanges));
    let refused = Settings::new(
        "0.0.0.0:1".to_string(),
        None,
        vec![TextDevice { topic_prefix: "t".to_string(), mappings: vec![run(0, 0, 2)] }],
        vec![wled("a", Vec::new(), 1), wled("b", vec![run(0, 0, 2), run(0, 1, 2)], 4)],
    );
    assert_eq!(refused.err(), Some(ConfigurationError::EmptyMappingSet));
}

#[test]
fn settings_without_devices_are_accepted() {
    let settings = Settings::new("0.0.0.0:1".to_string(), None, Vec::new(), Vec::new()).unwrap();
    assert!(settings.text_devices.is_empty());
    assert!(settings.wleds.is_empty());
}
