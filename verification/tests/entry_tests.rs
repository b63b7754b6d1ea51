use dat3::entry::{prepare_all, reversed, CompressionLevel, FileEntry, SourceFile};
use dat3::error::ArchiveError;
use dat3::filter::filter_and_track_patterns;

#[test]
fn levels_run_from_zero_to_nine() {
    for level in 0..=9u8 {
        assert_eq!(CompressionLevel::new(level).unwrap().level(), level);
    }
    assert_eq!(CompressionLevel::new(10).err(), Some(ArchiveError::Validation));
    assert_eq!(CompressionLevel::new(255).err(), Some(ArchiveError::Validation));
}

#[test]
fn entry_with_data_is_stored() {
    let e = FileEntry::with_data("a.txt".to_string(), vec![1, 2, 3], false);
    assert_eq!(e.name, "a.txt");
    assert_eq!(e.offset, 0);
    assert_eq!(e.size, 3);
    assert_eq!(e.packed_size, 3);
    assert!(!e.compressed);
    assert_eq!(e.data, Some(vec![1, 2, 3]));
}

#[test]
fn entry_with_packed_data_keeps_both_lengths() {
    let e = FileEntry::with_compression_data("a.txt".to_string(), vec![0; 10], vec![7, 7]);
    assert_eq!(e.size, 10);
    assert_eq!(e.packed_size, 2);
    assert!(e.compressed);
    assert_eq!(e.data, Some(vec![7, 7]));
}

#[test]
fn packed_answer_is_kept_only_where_it_is_shorter() {
    let shorter = FileEntry::from_packing("n".to_string(), vec![1; 8], Some(vec![2; 7])).unwrap();
    assert!(shorter.compressed);
    assert_eq!((shorter.size, shorter.packed_size), (8, 7));
    assert_eq!(shorter.data, Some(vec![2; 7]));
    let equal = FileEntry::from_packing("n".to_string(), vec![1; 8], Some(vec![2; 8])).unwrap();
    assert!(!equal.compressed);
    assert_eq!((equal.size, equal.packed_size), (8, 8));
    assert_eq!(equal.data, Some(vec![1; 8]));
    let unasked = FileEntry::from_packing("n".to_string(), vec![1; 8], None).unwrap();
    assert!(!unasked.compressed);
    assert_eq!(unasked.data, Some(vec![1; 8]));
}

#[test]
fn level_zero_stores() {
    let level = CompressionLevel::new(0).unwrap();
    let e = FileEntry::prepare("z".to_string(), vec![0; 1000], level).unwrap();
    assert!(!e.compressed);
    assert_eq!((e.size, e.packed_size), (1000, 1000));
}

#[test]
fn repetitive_bytes_are_packed() {
    let level = CompressionLevel::new(6).unwrap();
    let e = FileEntry::prepare("z".to_string(), vec![0; 1000], level).unwrap();
    assert!(e.compressed);
    assert_eq!(e.size, 1000);
    assert!(e.packed_size < 1000);
    assert_eq!(e.data.as_ref().map(|d| d.len()), Some(e.packed_size as usize));
    // A zlib stream opens with 0x78.
    assert_eq!(e.data.as_ref().map(|d| d[0]), Some(0x78));
}

#[test]
fn bytes_that_do_not_shrink_are_stored() {
    let level = CompressionLevel::new(9).unwrap();
    let e = FileEntry::prepare("z".to_string(), vec![1, 2, 3], level).unwrap();
    assert!(!e.compressed);
    assert_eq!(e.data, Some(vec![1, 2, 3]));
}

#[test]
fn stored_bytes_are_read_lazily_and_within_bounds() {
    let source = [10u8, 11, 12, 13, 14];
    let mut e = FileEntry::with_data("a".to_string(), vec![1], false);
    assert_eq!(e.read_stored(&source), Ok(vec![1]));
    e.data = None;
    e.offset = 1;
    e.packed_size = 3;
    assert_eq!(e.read_stored(&source), Ok(vec![11, 12, 13]));
    e.packed_size = 4;
    assert_eq!(e.read_stored(&source), Ok(vec![11, 12, 13, 14]));
    e.packed_size = 5;
    assert_eq!(e.read_stored(&source), Err(ArchiveError::Bounds));
    e.offset = 6;
    e.packed_size = 0;
    assert_eq!(e.read_stored(&source), Err(ArchiveError::Bounds));
}

#[test]
fn reversed_turns_the_order_round() {
    assert_eq!(reversed(vec![1, 2, 3]), vec![3, 2, 1]);
    assert_eq!(reversed(Vec::<u8>::new()), Vec::<u8>::new());
}

#[test]
fn sources_are_prepared_in_their_order() {
    let sources = vec![
        SourceFile { data: vec![1], target: "m/a/one".to_string(), strip_leading_directory: true },
        SourceFile { data: vec![2, 2], target: "two".to_string(), strip_leading_directory: false },
    ];
    let batch = prepare_all(sources, CompressionLevel::new(0).unwrap()).unwrap();
    assert_eq!(batch.len(), 2);
    assert_eq!(batch[0].name, "a\\one");
    assert_eq!(batch[0].data, Some(vec![1]));
    assert_eq!(batch[1].name, "two");
    assert_eq!(batch[1].size, 2);
}

#[test]
fn filter_without_patterns_keeps_everything() {
    let items = vec![1, 2, 3];
    let (kept, missing) = filter_and_track_patterns(&items, &[], |_, _| false);
    assert_eq!(kept, vec![&1, &2, &3]);
    assert!(missing.is_empty());
}

#[test]
fn filter_keeps_matches_once_and_reports_unused_patterns() {
    let items = vec!["apple".to_string(), "banana".to_string(), "cherry".to_string()];
    let patterns = vec!["an".to_string(), "a".to_string(), "x".to_string(), "rr".to_string()];
    let (kept, missing) =
        filter_and_track_patterns(&items, &patterns, |item: &String, p: &str| item.contains(p));
    assert_eq!(kept, vec![&items[0], &items[1], &items[2]]);
    assert_eq!(missing, vec!["x".to_string()]);
}

#[test]
fn pattern_that_matches_behind_another_is_not_reported() {
    let items = vec!["ab".to_string()];
    let patterns = vec!["a".to_string(), "ab".to_string(), "b".to_string()];
    let (kept, missing) =
        filter_and_track_patterns(&items, &patterns, |item: &String, p: &str| item.contains(p));
    assert_eq!(kept.len(), 1);
    assert!(missing.is_empty());
}
