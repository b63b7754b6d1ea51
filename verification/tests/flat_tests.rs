use dat3::entries::NameOrder;
use dat3::entry::{CompressionLevel, FileEntry, SourceFile};
use dat3::error::ArchiveError;
use dat3::flat::Dat2Archive;
use dat3::names::NamePolicy;

fn le(n: u32) -> [u8; 4] {
    n.to_le_bytes()
}

fn names(archive: &Dat2Archive) -> Vec<String> {
    archive.entries().iter().map(|e| e.name.clone()).collect()
}

fn plain(name: &str, data: &[u8]) -> FileEntry {
    FileEntry::with_data(name.to_string(), data.to_vec(), false)
}

#[test]
fn empty_archive_is_count_and_footer() {
    let bytes = Dat2Archive::new().save().unwrap();
    let mut expected = Vec::new();
    expected.extend_from_slice(&le(0));
    expected.extend_from_slice(&le(4));
    expected.extend_from_slice(&le(12));
    assert_eq!(bytes, expected);
}

#[test]
fn empty_archive_cannot_be_opened_again() {
    // The tree of an empty archive starts at offset 0, which reading refuses.
    let bytes = Dat2Archive::new().save().unwrap();
    assert_eq!(Dat2Archive::from_bytes(bytes).err(), Some(ArchiveError::Format));
}

#[test]
fn one_entry_is_laid_out_byte_for_byte() {
    let mut archive = Dat2Archive::new();
    archive.add_entries(vec![plain("A.TXT", b"hello")]);
    let bytes = archive.save().unwrap();
    let mut expected = Vec::new();
    expected.extend_from_slice(b"hello");
    expected.extend_from_slice(&le(1));
    expected.extend_from_slice(&le(5));
    expected.extend_from_slice(b"A.TXT");
    expected.push(0);
    expected.extend_from_slice(&le(5));
    expected.extend_from_slice(&le(5));
    expected.extend_from_slice(&le(0));
    expected.extend_from_slice(&le(26));
    expected.extend_from_slice(&le(39));
    assert_eq!(bytes, expected);
}

#[test]
fn footer_gives_length_and_place_of_the_count() {
    let mut archive = Dat2Archive::new();
    archive.add_entries(vec![plain("b", &[1; 10]), plain("a", &[2; 7])]);
    let bytes = archive.save().unwrap();
    let n = bytes.len();
    let tree_size = u32::from_le_bytes(bytes[n - 8..n - 4].try_into().unwrap()) as usize;
    let dat_size = u32::from_le_bytes(bytes[n - 4..].try_into().unwrap()) as usize;
    assert_eq!(dat_size, n);
    let tree_start = dat_size - tree_size - 8;
    assert_eq!(tree_start, 17);
    assert_eq!(&bytes[tree_start..tree_start + 4], &le(2));
}

#[test]
fn saved_archive_opens_with_the_same_entries() {
    let mut archive = Dat2Archive::new();
    archive.add_entries(vec![
        plain("b\\two.bin", &[2; 6]),
        FileEntry::with_compression_data("a\\one.bin".to_string(), vec![0; 50], vec![9, 9, 9]),
    ]);
    let bytes = archive.save().unwrap();
    let back = Dat2Archive::from_bytes(bytes.clone()).unwrap();
    let entries = back.entries();
    assert_eq!(entries.len(), 2);
    assert_eq!(entries[0].name, "a\\one.bin");
    assert_eq!((entries[0].size, entries[0].packed_size), (50, 3));
    assert!(entries[0].compressed);
    assert_eq!(entries[0].offset, 0);
    assert_eq!(entries[0].data, None);
    assert_eq!(back.read_file_data(&entries[0]), Ok(vec![9, 9, 9]));
    assert_eq!(entries[1].name, "b\\two.bin");
    assert_eq!((entries[1].size, entries[1].packed_size), (6, 6));
    assert!(!entries[1].compressed);
    assert_eq!(entries[1].offset, 3);
    assert_eq!(back.read_file_data(&entries[1]), Ok(vec![2; 6]));
    assert_eq!(back.raw(), &bytes);
    // Saving what was opened gives the same file.
    assert_eq!(back.save(), Ok(bytes));
}

#[test]
fn untouched_entries_are_carried_over_when_one_is_added() {
    let mut first = Dat2Archive::new();
    first.add_entries(vec![plain("k", b"keep me"), plain("z", b"zz")]);
    let mut second = Dat2Archive::from_bytes(first.save().unwrap()).unwrap();
    second.add_entries(vec![plain("m", b"middle")]);
    assert_eq!(names(&second), vec!["k", "m", "z"]);
    let third = Dat2Archive::from_bytes(second.save().unwrap()).unwrap();
    assert_eq!(names(&third), vec!["k", "m", "z"]);
    let entries = third.entries();
    assert_eq!(third.read_file_data(&entries[0]), Ok(b"keep me".to_vec()));
    assert_eq!(third.read_file_data(&entries[1]), Ok(b"middle".to_vec()));
    assert_eq!(third.read_file_data(&entries[2]), Ok(b"zz".to_vec()));
}

#[test]
fn entries_are_sorted_by_name_ignoring_case() {
    let mut archive = Dat2Archive::new();
    archive.add_entries(vec![plain("b", b"1"), plain("C", b"2"), plain("A", b"3"), plain("d", b"4")]);
    assert_eq!(names(&archive), vec!["A", "b", "C", "d"]);
    // Adding to what is sorted keeps it sorted; what was in order stays.
    archive.add_entries(vec![plain("bb", b"5")]);
    assert_eq!(names(&archive), vec!["A", "b", "bb", "C", "d"]);
    archive.add_entries(Vec::new());
    assert_eq!(names(&archive), vec!["A", "b", "bb", "C", "d"]);
}

#[test]
fn names_that_differ_in_case_only_keep_their_order() {
    let mut archive = Dat2Archive::new();
    archive.add_entries(vec![plain("x", b"1"), plain("A", b"2"), plain("a", b"3")]);
    assert_eq!(names(&archive), vec!["A", "a", "x"]);
    let mut other = Dat2Archive::new();
    other.add_entries(vec![plain("x", b"1"), plain("a", b"2"), plain("A", b"3")]);
    assert_eq!(names(&other), vec!["a", "A", "x"]);
}

#[test]
fn exact_order_puts_capitals_first() {
    let mut archive = Dat2Archive::new();
    archive.add_entries_with(
        vec![plain("b", b"1"), plain("C", b"2"), plain("A", b"3")],
        NameOrder::Exact,
    );
    assert_eq!(names(&archive), vec!["A", "C", "b"]);
}

#[test]
fn first_of_two_entries_with_one_name_is_kept() {
    let mut archive = Dat2Archive::new();
    archive.add_entries(vec![plain("same", b"first"), plain("other", b"o"), plain("same", b"second")]);
    assert_eq!(names(&archive), vec!["other", "same"]);
    assert_eq!(archive.entries()[1].data, Some(b"first".to_vec()));
}

#[test]
fn added_entry_replaces_the_entry_of_its_name() {
    let mut archive = Dat2Archive::new();
    archive.add_entries(vec![plain("a", b"old"), plain("b", b"stay")]);
    archive.add_entries(vec![plain("a", b"new")]);
    assert_eq!(names(&archive), vec!["a", "b"]);
    assert_eq!(archive.entries()[0].data, Some(b"new".to_vec()));
    assert_eq!(archive.entries()[1].data, Some(b"stay".to_vec()));
}

#[test]
fn files_are_added_under_their_archive_names() {
    let mut archive = Dat2Archive::new();
    let sources = vec![
        SourceFile {
            data: vec![0; 500],
            target: "mod/data/zeros.bin".to_string(),
            strip_leading_directory: true,
        },
        SourceFile { data: vec![1, 2], target: "b.bin".to_string(), strip_leading_directory: false },
    ];
    assert_eq!(archive.add_file(sources, CompressionLevel::new(6).unwrap()), Ok(()));
    assert_eq!(names(&archive), vec!["b.bin", "data\\zeros.bin"]);
    let entries = archive.entries();
    assert!(!entries[0].compressed);
    assert!(entries[1].compressed);
    assert_eq!(entries[1].size, 500);
    assert!(entries[1].packed_size < 500);
}

#[test]
fn packed_entry_is_unpacked_on_extraction() {
    let content: Vec<u8> = (0..2000u32).map(|i| (i % 7) as u8).collect();
    let mut archive = Dat2Archive::new();
    let sources = vec![SourceFile {
        data: content.clone(),
        target: "p.bin".to_string(),
        strip_leading_directory: false,
    }];
    archive.add_file(sources, CompressionLevel::new(9).unwrap()).unwrap();
    assert!(archive.entries()[0].compressed);
    let back = Dat2Archive::from_bytes(archive.save().unwrap()).unwrap();
    let (files, missing) = back.extract(&[]).unwrap();
    assert!(missing.is_empty());
    assert_eq!(files.len(), 1);
    assert_eq!(files[0].name, "p.bin");
    assert_eq!(files[0].data, content);
    assert_eq!(back.extract_entry(&back.entries()[0]), Ok(content));
}

#[test]
fn damaged_packed_entry_is_a_compression_error() {
    let mut archive = Dat2Archive::new();
    archive.add_entries(vec![FileEntry::with_compression_data(
        "bad".to_string(),
        vec![0; 10],
        vec![1, 2, 3],
    )]);
    assert_eq!(archive.extract(&[]).err(), Some(ArchiveError::Compression));
}

#[test]
fn extraction_picks_by_pattern_and_reports_unused_patterns() {
    let mut archive = Dat2Archive::new();
    archive.add_entries(vec![
        plain("art\\a.frm", b"A"),
        plain("art\\b.frm", b"B"),
        plain("text\\c.msg", b"C"),
    ]);
    let patterns = vec!["art/".to_string(), "nothing".to_string()];
    let (files, missing) = archive.extract(&patterns).unwrap();
    assert_eq!(files.len(), 2);
    assert_eq!(files[0].name, "art\\a.frm");
    assert_eq!(files[0].data, b"A".to_vec());
    assert_eq!(files[1].name, "art\\b.frm");
    assert_eq!(missing, vec!["nothing".to_string()]);
}

#[test]
fn listing_gives_sizes_flag_and_name() {
    let mut archive = Dat2Archive::new();
    archive.add_entries(vec![
        plain("one", &[0; 3]),
        FileEntry::with_compression_data("two".to_string(), vec![0; 9], vec![1, 2]),
    ]);
    let (rows, missing) = archive.list(&[]);
    assert!(missing.is_empty());
    assert_eq!(rows.len(), 2);
    assert_eq!((rows[0].size, rows[0].packed_size, rows[0].compressed), (3, 3, false));
    assert_eq!(rows[0].name, "one");
    assert_eq!((rows[1].size, rows[1].packed_size, rows[1].compressed), (9, 2, true));
    assert_eq!(rows[1].name, "two");
    let (rows, missing) = archive.list(&["w".to_string(), "q".to_string()]);
    assert_eq!(rows.len(), 1);
    assert_eq!(rows[0].name, "two");
    assert_eq!(missing, vec!["q".to_string()]);
}

#[test]
fn delete_takes_one_entry_out() {
    let mut archive = Dat2Archive::new();
    archive.add_entries(vec![plain("d\\a", b"1"), plain("d\\b", b"2")]);
    assert_eq!(archive.delete_file("d/a"), Ok(()));
    assert_eq!(names(&archive), vec!["d\\b"]);
    assert_eq!(archive.delete_file("d\\a"), Err(ArchiveError::NotFound));
    assert_eq!(names(&archive), vec!["d\\b"]);
    assert_eq!(archive.delete_file("d\\b"), Ok(()));
    assert!(archive.entries().is_empty());
}

#[test]
fn short_buffer_is_refused() {
    assert_eq!(Dat2Archive::from_bytes(vec![0; 7]).err(), Some(ArchiveError::Format));
    assert_eq!(Dat2Archive::from_bytes(Vec::new()).err(), Some(ArchiveError::Format));
}

#[test]
fn footer_must_give_the_length_of_the_buffer() {
    let mut archive = Dat2Archive::new();
    archive.add_entries(vec![plain("a", b"data")]);
    let mut bytes = archive.save().unwrap();
    bytes.push(0);
    assert_eq!(Dat2Archive::from_bytes(bytes).err(), Some(ArchiveError::Format));
}

#[test]
fn tree_must_start_at_four_or_later() {
    // Three bytes of data, then the tree.
    let mut archive = Dat2Archive::new();
    archive.add_entries(vec![plain("a", b"abc")]);
    let bytes = archive.save().unwrap();
    assert_eq!(Dat2Archive::from_bytes(bytes).err(), Some(ArchiveError::Format));
    // A tree larger than the file.
    let mut bytes = vec![0u8; 4];
    bytes.extend_from_slice(&le(100));
    bytes.extend_from_slice(&le(12));
    assert_eq!(Dat2Archive::from_bytes(bytes).err(), Some(ArchiveError::Format));
}

#[test]
fn record_that_runs_over_the_tree_is_refused() {
    let mut archive = Dat2Archive::new();
    archive.add_entries(vec![plain("name", b"data")]);
    let mut bytes = archive.save().unwrap();
    // Announce two entries where the tree holds one.
    bytes[4] = 2;
    assert_eq!(Dat2Archive::from_bytes(bytes).err(), Some(ArchiveError::Format));
}

#[test]
fn strict_policy_refuses_a_name_that_is_not_ascii() {
    let mut archive = Dat2Archive::new();
    archive.add_entries(vec![plain("grün", b"data")]);
    let bytes = archive.save().unwrap();
    assert_eq!(
        Dat2Archive::from_bytes_with(bytes.clone(), NamePolicy::StrictAscii).err(),
        Some(ArchiveError::Encoding)
    );
    let back = Dat2Archive::from_bytes(bytes).unwrap();
    assert_eq!(back.entries()[0].name, "grün");
}

#[test]
fn entry_outside_the_buffer_fails_when_it_is_read() {
    let mut archive = Dat2Archive::new();
    archive.add_entries(vec![plain("name", b"data")]);
    let mut bytes = archive.save().unwrap();
    // The offset is the last field of the record, in front of the footer.
    let at = bytes.len() - 12;
    bytes[at] = 200;
    let back = Dat2Archive::from_bytes(bytes).unwrap();
    assert_eq!(back.entries()[0].offset, 200);
    assert_eq!(back.read_file_data(&back.entries()[0]), Err(ArchiveError::Bounds));
    assert_eq!(back.extract(&[]).err(), Some(ArchiveError::Bounds));
    assert_eq!(back.save().err(), Some(ArchiveError::Bounds));
}

#[test]
fn parse_directory_tree_lists_the_entries() {
    let mut archive = Dat2Archive::new();
    archive.add_entries(vec![plain("a", b"data"), plain("b", b"more")]);
    let bytes = archive.save().unwrap();
    let files = Dat2Archive::parse_directory_tree(&bytes, NamePolicy::Permissive).unwrap();
    assert_eq!(files.len(), 2);
    assert_eq!((files[1].offset, files[1].size), (4, 4));
}
