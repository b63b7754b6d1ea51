use dat3::archive::DatArchive;
use dat3::entry::{CompressionLevel, FileEntry, SourceFile};
use dat3::error::ArchiveError;
use dat3::tree::Dat1Archive;

fn be(n: u32) -> [u8; 4] {
    n.to_be_bytes()
}

fn source(target: &str, data: &[u8]) -> SourceFile {
    SourceFile { data: data.to_vec(), target: target.to_string(), strip_leading_directory: false }
}

fn names(archive: &Dat1Archive) -> Vec<String> {
    archive.entries().iter().map(|e| e.name.clone()).collect()
}

fn level(n: u8) -> CompressionLevel {
    CompressionLevel::new(n).unwrap()
}

/// An archive with one packed file `f` in the root directory.
fn archive_with_packed(stream: &[u8], size: u32) -> Vec<u8> {
    let mut bytes = Vec::new();
    bytes.extend_from_slice(&be(1));
    bytes.extend_from_slice(&be(0x0A));
    bytes.extend_from_slice(&be(0));
    bytes.extend_from_slice(&be(0));
    bytes.extend_from_slice(&[1, b'.']);
    bytes.extend_from_slice(&be(1));
    bytes.extend_from_slice(&be(0x0A));
    bytes.extend_from_slice(&be(0x10));
    bytes.extend_from_slice(&be(0));
    bytes.extend_from_slice(&[1, b'f']);
    bytes.extend_from_slice(&be(0x40));
    bytes.extend_from_slice(&be(16 + 2 + 16 + 18));
    bytes.extend_from_slice(&be(size));
    bytes.extend_from_slice(&be(stream.len() as u32));
    bytes.extend_from_slice(stream);
    bytes
}

#[test]
fn new_archive_is_header_and_root() {
    let bytes = Dat1Archive::new().save().unwrap();
    let mut expected = Vec::new();
    expected.extend_from_slice(&be(1));
    expected.extend_from_slice(&be(0x0A));
    expected.extend_from_slice(&be(0));
    expected.extend_from_slice(&be(0));
    expected.extend_from_slice(&[1, b'.']);
    expected.extend_from_slice(&be(0));
    expected.extend_from_slice(&be(0x0A));
    expected.extend_from_slice(&be(0x10));
    expected.extend_from_slice(&be(0));
    assert_eq!(bytes, expected);
    let back = Dat1Archive::from_bytes(bytes.clone()).unwrap();
    assert!(back.entries().is_empty());
    assert_eq!(back.save(), Ok(bytes));
}

#[test]
fn one_file_is_laid_out_byte_for_byte() {
    let mut archive = Dat1Archive::new();
    archive.add_file(vec![source("x.txt", b"hi")], level(0)).unwrap();
    let bytes = archive.save().unwrap();
    let mut expected = Vec::new();
    expected.extend_from_slice(&be(1));
    expected.extend_from_slice(&be(0x0A));
    expected.extend_from_slice(&be(0));
    expected.extend_from_slice(&be(0));
    expected.extend_from_slice(&[1, b'.']);
    expected.extend_from_slice(&be(1));
    expected.extend_from_slice(&be(0x0A));
    expected.extend_from_slice(&be(0x10));
    expected.extend_from_slice(&be(0));
    expected.extend_from_slice(&[5]);
    expected.extend_from_slice(b"x.txt");
    expected.extend_from_slice(&be(0x20));
    expected.extend_from_slice(&be(56));
    expected.extend_from_slice(&be(2));
    expected.extend_from_slice(&be(0));
    expected.extend_from_slice(b"hi");
    assert_eq!(bytes, expected);
}

#[test]
fn files_go_to_the_directory_of_their_name() {
    let mut archive = Dat1Archive::new();
    let sources = vec![
        source("art/tiles/a.frm", b"AAAA"),
        source("root.txt", b"r"),
        source("art/tiles/b.frm", b"BB"),
        source("text/c.msg", b"CCC"),
    ];
    archive.add_file(sources, level(6)).unwrap();
    // Directories in the order in which they came up: ".", "art\tiles", "text".
    assert_eq!(
        names(&archive),
        vec!["root.txt", "art\\tiles\\a.frm", "art\\tiles\\b.frm", "text\\c.msg"]
    );
    let bytes = archive.save().unwrap();
    assert_eq!(&bytes[0..4], &be(3));
    assert_eq!(&bytes[16..18], &[1, b'.']);
    assert_eq!(&bytes[18..28], b"\x09art\\tiles");
    assert_eq!(&bytes[28..33], b"\x04text");
    let back = Dat1Archive::from_bytes(bytes.clone()).unwrap();
    assert_eq!(names(&back), names(&archive));
    let entries = back.entries();
    assert_eq!(back.read_file_data(entries[0]), Ok(b"r".to_vec()));
    assert_eq!(back.read_file_data(entries[1]), Ok(b"AAAA".to_vec()));
    assert_eq!(back.read_file_data(entries[2]), Ok(b"BB".to_vec()));
    assert_eq!(back.read_file_data(entries[3]), Ok(b"CCC".to_vec()));
    for e in entries.iter() {
        assert!(!e.compressed);
        assert_eq!(e.size, e.packed_size);
        assert_eq!(e.data, None);
    }
    assert_eq!(back.save(), Ok(bytes));
}

#[test]
fn new_files_are_stored_whatever_the_level() {
    let mut archive = Dat1Archive::new();
    archive.add_file(vec![source("zeros", &[0; 4000])], level(9)).unwrap();
    let entries = archive.entries();
    assert!(!entries[0].compressed);
    assert_eq!((entries[0].size, entries[0].packed_size), (4000, 4000));
}

#[test]
fn packed_file_of_plain_block_unpacks_to_its_bytes() {
    let stream = [0xFF, 0xFC, b'd', b'a', b't', b'a', 0x00, 0x00];
    let bytes = archive_with_packed(&stream, 4);
    let archive = Dat1Archive::from_bytes(bytes).unwrap();
    let entries = archive.entries();
    assert_eq!(entries.len(), 1);
    assert_eq!(entries[0].name, "f");
    assert!(entries[0].compressed);
    assert_eq!((entries[0].size, entries[0].packed_size), (4, 8));
    assert_eq!(archive.read_file_data(entries[0]), Ok(stream.to_vec()));
    assert_eq!(archive.extract_entry(entries[0]), Ok(b"data".to_vec()));
    let (files, missing) = archive.extract(&[]).unwrap();
    assert!(missing.is_empty());
    assert_eq!(files.len(), 1);
    assert_eq!(files[0].name, "f");
    assert_eq!(files[0].data, b"data".to_vec());
}

#[test]
fn packed_file_is_carried_through_a_save_unchanged() {
    let stream = [0x00, 0x05, 0x03, b'A', b'B', 0xEE, 0xF0, 0x00, 0x00];
    let bytes = archive_with_packed(&stream, 5);
    let archive = Dat1Archive::from_bytes(bytes.clone()).unwrap();
    assert_eq!(archive.save(), Ok(bytes));
    assert_eq!(archive.extract_entry(archive.entries()[0]), Ok(b"ABABA".to_vec()));
}

#[test]
fn damaged_packed_file_is_a_compression_error() {
    let bytes = archive_with_packed(&[0x00, 0x09, 0x01], 5);
    let archive = Dat1Archive::from_bytes(bytes).unwrap();
    assert_eq!(archive.extract(&[]).err(), Some(ArchiveError::Compression));
}

#[test]
fn packed_length_zero_stands_for_the_length() {
    let mut archive = Dat1Archive::new();
    archive.add_file(vec![source("a", b"12345")], level(0)).unwrap();
    let bytes = archive.save().unwrap();
    // The last field of the record is the packed length, written as zero.
    let n = bytes.len();
    assert_eq!(&bytes[n - 9..n - 5], &be(0));
    let back = Dat1Archive::from_bytes(bytes).unwrap();
    assert_eq!(back.entries()[0].packed_size, 5);
}

#[test]
fn added_file_replaces_the_file_of_its_name() {
    let mut archive = Dat1Archive::new();
    archive.add_file(vec![source("d/a", b"old"), source("d/b", b"b")], level(0)).unwrap();
    archive.add_file(vec![source("d/a", b"new"), source("d/a", b"late")], level(0)).unwrap();
    assert_eq!(names(&archive), vec!["d\\b", "d\\a"]);
    assert_eq!(archive.entries()[1].data, Some(b"new".to_vec()));
}

#[test]
fn delete_leaves_the_directory() {
    let mut archive = Dat1Archive::new();
    archive.add_file(vec![source("d/a", b"1")], level(0)).unwrap();
    assert_eq!(archive.delete_file("d/a"), Ok(()));
    assert!(archive.entries().is_empty());
    assert_eq!(archive.delete_file("d/a"), Err(ArchiveError::NotFound));
    let bytes = archive.save().unwrap();
    assert_eq!(&bytes[0..4], &be(2));
    let back = Dat1Archive::from_bytes(bytes).unwrap();
    assert!(back.entries().is_empty());
}

#[test]
fn listing_picks_by_pattern() {
    let mut archive = Dat1Archive::new();
    archive
        .add_file(vec![source("art/a.frm", b"1"), source("snd/b.acm", b"22")], level(0))
        .unwrap();
    let (rows, missing) = archive.list(&["snd/".to_string(), "zzz".to_string()]);
    assert_eq!(rows.len(), 1);
    assert_eq!(rows[0].name, "snd\\b.acm");
    assert_eq!((rows[0].size, rows[0].packed_size, rows[0].compressed), (2, 2, false));
    assert_eq!(missing, vec!["zzz".to_string()]);
}

#[test]
fn short_archive_is_refused() {
    assert_eq!(Dat1Archive::from_bytes(vec![0; 15]).err(), Some(ArchiveError::Format));
    // One directory announced, no name.
    let mut bytes = Vec::new();
    bytes.extend_from_slice(&be(1));
    bytes.extend_from_slice(&[0; 12]);
    assert_eq!(Dat1Archive::from_bytes(bytes.clone()).err(), Some(ArchiveError::Format));
    // The name is there, the record of the directory is not.
    bytes.extend_from_slice(&[1, b'.']);
    assert_eq!(Dat1Archive::from_bytes(bytes.clone()).err(), Some(ArchiveError::Format));
    // A record that announces a file which is not there.
    bytes.extend_from_slice(&be(1));
    bytes.extend_from_slice(&[0; 12]);
    assert_eq!(Dat1Archive::from_bytes(bytes).err(), Some(ArchiveError::Format));
}

#[test]
fn file_outside_the_buffer_fails_when_it_is_read() {
    let mut bytes = archive_with_packed(&[0xFF, 0xFF, 1], 1);
    bytes.pop();
    let archive = Dat1Archive::from_bytes(bytes).unwrap();
    assert_eq!(archive.read_file_data(archive.entries()[0]), Err(ArchiveError::Bounds));
    assert_eq!(archive.extract(&[]).err(), Some(ArchiveError::Bounds));
    assert_eq!(archive.save().err(), Some(ArchiveError::Bounds));
}

#[test]
fn name_longer_than_a_byte_can_say_is_refused() {
    let mut archive = Dat1Archive::new();
    let long = "n".repeat(256);
    archive.add_entries(vec![FileEntry::with_data(long, vec![1], false)]);
    assert_eq!(archive.save().err(), Some(ArchiveError::TooLarge));
    let mut fits = Dat1Archive::new();
    fits.add_entries(vec![FileEntry::with_data("n".repeat(255), vec![1], false)]);
    assert!(fits.save().is_ok());
}

#[test]
fn layout_is_told_from_the_first_bytes() {
    assert!(DatArchive::is_dat1_format(&Dat1Archive::new().save().unwrap()));
    let mut header = Vec::new();
    header.extend_from_slice(&be(999));
    header.extend_from_slice(&be(0x5E));
    header.extend_from_slice(&[0; 8]);
    assert!(DatArchive::is_dat1_format(&header));
    header[3] = 0xE8; // 1000 directories
    assert!(!DatArchive::is_dat1_format(&header));
    assert!(DatArchive::is_dat1_format(&[0, 0, 0, 1, 0, 0, 0, 0x0A]));
    assert!(!DatArchive::is_dat1_format(&[0, 0, 0, 1, 0, 0, 0]));
    assert!(!DatArchive::is_dat1_format(&[]));
    let mut none = vec![0u8; 16];
    none[7] = 0x0A;
    assert!(!DatArchive::is_dat1_format(&none));
    none[3] = 1;
    none[7] = 0x0B;
    assert!(!DatArchive::is_dat1_format(&none));
}

#[test]
fn facade_opens_either_layout() {
    let mut tree = DatArchive::new_dat1();
    tree.add_file(vec![source("a/b", b"tree")], level(0)).unwrap();
    let tree_bytes = tree.save().unwrap();
    let opened = DatArchive::open(tree_bytes.clone()).unwrap();
    assert!(matches!(opened, DatArchive::Dat1(_)));
    assert_eq!(opened.save(), Ok(tree_bytes));
    let (files, _) = opened.extract(&[]).unwrap();
    assert_eq!(files[0].name, "a\\b");
    assert_eq!(files[0].data, b"tree".to_vec());

    let mut flat = DatArchive::new_dat2();
    flat.add_file(vec![source("a/b", b"flat")], level(0)).unwrap();
    let flat_bytes = flat.save().unwrap();
    let mut opened = DatArchive::open(flat_bytes.clone()).unwrap();
    assert!(matches!(opened, DatArchive::Dat2(_)));
    assert_eq!(opened.save(), Ok(flat_bytes));
    let (rows, missing) = opened.list(&["b".to_string()]);
    assert_eq!(rows.len(), 1);
    assert!(missing.is_empty());
    assert_eq!(opened.delete_file("a/b"), Ok(()));
    assert_eq!(opened.delete_file("a/b"), Err(ArchiveError::NotFound));
}

#[test]
fn facade_reads_what_looks_like_a_tree_as_a_tree_only() {
    // Sixteen bytes that look like a tree header and are no archive.
    let mut bytes = Vec::new();
    bytes.extend_from_slice(&be(1));
    bytes.extend_from_slice(&be(0x0A));
    bytes.extend_from_slice(&[0; 8]);
    assert_eq!(DatArchive::open(bytes).err(), Some(ArchiveError::Format));
    // A flat archive is not mistaken for a tree.
    let mut flat = DatArchive::new_dat2();
    flat.add_file(vec![source("name", b"some data")], level(0)).unwrap();
    let bytes = flat.save().unwrap();
    assert!(!DatArchive::is_dat1_format(&bytes));
}
