use bricks::almanac::{Mapping, MappingRange};

#[test]
fn test_mapping_range_lookup() {
    let example = MappingRange {
        dest_start: 50,
        source_start: 98,
        len: 2,
    };
    assert_eq!(example.get(97), None);
    assert_eq!(example.get(98), Some(50));
    assert_eq!(example.get(99), Some(51));
    assert_eq!(example.get(100), None);
}

#[test]
fn test_mapping_lookup() {
    let mapping = Mapping::try_from("50 98 2\n52 50 48\n").expect("example should be valid");
    assert_eq!(mapping.get(0), 0);
    assert_eq!(mapping.get(1), 1);
    assert_eq!(mapping.get(48), 48);
    assert_eq!(mapping.get(49), 49);
    assert_eq!(mapping.get(50), 52);
    assert_eq!(mapping.get(51), 53);
    assert_eq!(mapping.get(96), 98);
    assert_eq!(mapping.get(97), 99);
    assert_eq!(mapping.get(98), 50);
    assert_eq!(mapping.get(99), 51);
}

#[test]
fn mapping_rejects_bad_lines() {
    assert!(Mapping::try_from("50 98\n").is_err());
    assert!(Mapping::try_from("50 x 2\n").is_err());
    assert!(Mapping::try_from("4294967295 0 2\n").is_err());
    assert!(Mapping::try_from("").is_ok());
}

#[test]
fn range_from_text() {
    let r = MappingRange::try_from("50 98 2").expect("range should be valid");
    assert_eq!((r.dest_start, r.source_start, r.len), (50, 98, 2));
    assert!(MappingRange::try_from("50 98").is_err());
}
