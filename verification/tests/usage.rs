use metamath_pipeline::segment::StatementAddress;
use metamath_pipeline::segment_order::SegmentId;
use metamath_pipeline::usage::{Reader, Usage, VersionedIndex};

fn key(name: &str) -> Vec<u8> {
    name.as_bytes().to_vec()
}

fn at(segment: u32, index: i32) -> Option<StatementAddress> {
    Some(StatementAddress::new(SegmentId(segment), index))
}

#[test]
fn new_index_shows_nothing() {
    let index = VersionedIndex::new();
    let seen = index.show(&key("A"));
    assert_eq!(seen.address, None);
    assert_eq!(seen.version, 0);
    assert_eq!(index.lookup(&key("A")), None);
    assert_eq!(index.version_of(&key("A"), SegmentId(1)), 0);
}

#[test]
fn versions_rise_only_with_a_change() {
    let mut index = VersionedIndex::new();
    assert!(index.set(&key("A"), at(1, 0)));
    assert_eq!(index.show(&key("A")).version, 1);
    assert_eq!(index.lookup(&key("A")), at(1, 0));
    assert!(!index.set(&key("A"), at(1, 0)));
    assert_eq!(index.show(&key("A")).version, 1);
    assert!(index.set(&key("A"), at(1, 4)));
    assert_eq!(index.show(&key("A")).version, 2);
    assert!(index.set(&key("A"), None));
    assert_eq!(index.show(&key("A")).version, 3);
    assert_eq!(index.lookup(&key("A")), None);
    assert!(!index.set(&key("A"), None));
    assert!(index.set(&key("A"), at(1, 4)));
    assert_eq!(index.show(&key("A")).version, 4);
    assert!(index.set(&key("B"), None));
    assert_eq!(index.show(&key("B")).version, 1);
}

#[test]
fn version_of_is_that_of_the_entry_in_its_segment() {
    let mut index = VersionedIndex::new();
    index.set(&key("A"), at(3, 0));
    index.set(&key("A"), at(3, 1));
    assert_eq!(index.version_of(&key("A"), SegmentId(3)), 2);
    assert_eq!(index.version_of(&key("A"), SegmentId(4)), 0);
    index.set(&key("A"), None);
    assert_eq!(index.version_of(&key("A"), SegmentId(3)), 0);
}

#[test]
fn renaming_one_label_changes_no_other_version() {
    let mut index = VersionedIndex::new();
    index.set(&key("A"), at(1, 0));
    index.set(&key("B"), at(2, 0));
    index.set(&key("C"), at(2, 1));
    let a = index.show(&key("A")).version;
    let b = index.show(&key("B")).version;
    let c = index.show(&key("C")).version;
    // Segment 2 is parsed again: B is now B2, C is as it was.
    assert!(index.set(&key("B"), None));
    assert!(index.set(&key("B2"), at(2, 0)));
    assert!(!index.set(&key("C"), at(2, 1)));
    assert_eq!(index.show(&key("A")).version, a);
    assert_eq!(index.show(&key("C")).version, c);
    assert_eq!(index.show(&key("B")).version, b + 1);
    assert_eq!(index.show(&key("B2")).version, 1);
}

#[test]
fn a_reader_records_what_it_is_asked() {
    let mut index = VersionedIndex::new();
    index.set(&key("A"), at(1, 0));
    index.set(&key("B"), at(2, 5));
    let mut reader = Reader::new(&index);
    assert_eq!(reader.lookup(&key("B")), at(2, 5));
    assert_eq!(reader.lookup(&key("Z")), None);
    let usage = reader.into_usage();
    assert_eq!(usage.len(), 2);
    assert!(usage.still_valid(&index));

    // An entry that was not read may change.
    index.set(&key("A"), at(1, 9));
    assert!(usage.still_valid(&index));
    // Setting what is there already changes nothing.
    index.set(&key("B"), at(2, 5));
    assert!(usage.still_valid(&index));
    // An entry that was read changes.
    index.set(&key("B"), at(2, 6));
    assert!(!usage.still_valid(&index));
}

#[test]
fn a_usage_notices_what_appears_and_what_moves() {
    let mut index = VersionedIndex::new();
    index.set(&key("A"), at(1, 0));
    let mut reader = Reader::new(&index);
    reader.lookup(&key("Z"));
    let missing = reader.into_usage();
    let mut reader = Reader::new(&index);
    reader.lookup(&key("A"));
    let present = reader.into_usage();
    index.set(&key("Z"), at(1, 1));
    assert!(!missing.still_valid(&index));
    assert!(present.still_valid(&index));
    index.set(&key("A"), at(2, 0));
    assert!(!present.still_valid(&index));
    assert!(Usage::new().still_valid(&index));
    assert_eq!(Usage::new().len(), 0);
}
