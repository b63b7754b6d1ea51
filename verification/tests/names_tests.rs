use dat3::error::ArchiveError;
use dat3::response::{response_names, response_request, ResponseRequest};
use dat3::names::{
    archive_name, decode_filename, decode_filename_with, display_path,
    get_filename_from_dat_path, normalize_path_for_archive, normalize_path_for_display,
    normalize_user_path, output_name, to_system_path, NamePolicy,
};

#[test]
fn ascii_name_is_taken_as_it_is() {
    assert_eq!(decode_filename(b"ART\\TILES.LST"), Ok("ART\\TILES.LST".to_string()));
}

#[test]
fn name_ends_at_first_zero_byte() {
    assert_eq!(decode_filename(b"abc\0def"), Ok("abc".to_string()));
    assert_eq!(decode_filename(b"\0"), Ok(String::new()));
}

#[test]
fn utf8_name_is_read_as_utf8() {
    assert_eq!(decode_filename("grün.txt".as_bytes()), Ok("grün.txt".to_string()));
}

#[test]
fn single_byte_name_falls_back_to_the_western_code_page() {
    assert_eq!(decode_filename(&[b'c', b'a', b'f', 0xE9]), Ok("café".to_string()));
    assert_eq!(decode_filename(&[0x80]), Ok("€".to_string()));
}

#[test]
fn malformed_name_behind_a_byte_order_mark_is_read_with_replacements() {
    assert_eq!(
        decode_filename(&[0xEF, 0xBB, 0xBF, 0xFF]),
        Ok("\u{feff}\u{fffd}".to_string())
    );
}

#[test]
fn strict_policy_refuses_what_is_not_ascii() {
    assert_eq!(
        decode_filename_with(&[b'a', 0xE9], NamePolicy::StrictAscii),
        Err(ArchiveError::Encoding)
    );
    assert_eq!(
        decode_filename_with("ü".as_bytes(), NamePolicy::StrictAscii),
        Err(ArchiveError::Encoding)
    );
    assert_eq!(
        decode_filename_with(b"plain.txt", NamePolicy::StrictAscii),
        Ok("plain.txt".to_string())
    );
}

#[test]
fn archive_paths_use_backslashes() {
    assert_eq!(normalize_path_for_archive("a/b/c.txt"), "a\\b\\c.txt");
    assert_eq!(normalize_path_for_archive("a\\b"), "a\\b");
}

#[test]
fn user_paths_use_forward_slashes() {
    assert_eq!(normalize_user_path("a\\b\\c.txt"), "a/b/c.txt");
    assert_eq!(normalize_user_path("plain"), "plain");
}

#[test]
fn display_path_follows_the_separator() {
    assert_eq!(display_path("a/b\\c", '\\'), "a\\b\\c");
    assert_eq!(display_path("a/b\\c", '/'), "a/b/c");
}

#[test]
fn display_and_system_paths_use_the_platform_separator() {
    let sep = std::path::MAIN_SEPARATOR;
    assert_eq!(normalize_path_for_display("a\\b/c"), format!("a{sep}b{sep}c"));
    assert_eq!(to_system_path("a\\b"), format!("a{sep}b"));
    assert_eq!(output_name("a\\b\\c.txt", false), format!("a{sep}b{sep}c.txt"));
}

#[test]
fn file_name_is_the_last_component() {
    assert_eq!(get_filename_from_dat_path("a\\b\\c.txt"), "c.txt");
    assert_eq!(get_filename_from_dat_path("a/b/c.txt"), "c.txt");
    assert_eq!(get_filename_from_dat_path("a/b\\c.txt"), "c.txt");
    assert_eq!(get_filename_from_dat_path("c.txt"), "c.txt");
    assert_eq!(get_filename_from_dat_path("dir\\"), "");
    assert_eq!(get_filename_from_dat_path(""), "");
    assert_eq!(get_filename_from_dat_path("ä\\ö.txt"), "ö.txt");
    assert_eq!(output_name("a\\b\\c.txt", true), "c.txt");
}

#[test]
fn archive_name_strips_the_first_component_on_request() {
    assert_eq!(archive_name("mod/art/x.frm", true), "art\\x.frm");
    assert_eq!(archive_name("mod/art/x.frm", false), "mod\\art\\x.frm");
    assert_eq!(archive_name("x.frm", true), "x.frm");
    assert_eq!(archive_name("mod\\x.frm", true), "x.frm");
    assert_eq!(archive_name("mod/", true), "");
}

#[test]
fn response_file_lists_one_name_to_a_line() {
    let content = "a.txt\r\n  b\\c.txt \n\n# a comment\n\t#also\nlast";
    assert_eq!(
        response_names(content),
        vec!["a.txt".to_string(), "b\\c.txt".to_string(), "last".to_string()]
    );
    assert!(response_names("").is_empty());
    assert!(response_names("\n\n  \n").is_empty());
    assert_eq!(response_names("x # y\n"), vec!["x # y".to_string()]);
    assert_eq!(response_names("\u{a0}ü \u{2003}\n"), vec!["ü".to_string()]);
}

#[test]
fn single_at_argument_names_a_response_file() {
    let one = vec!["@list.txt".to_string()];
    assert!(matches!(response_request(&one), ResponseRequest::File(p) if p == "list.txt"));
    let plain = vec!["a".to_string(), "b".to_string()];
    assert!(matches!(response_request(&plain), ResponseRequest::Names(n) if n == plain));
    let mixed = vec!["a".to_string(), "@b".to_string()];
    assert!(matches!(response_request(&mixed), ResponseRequest::Mixed));
    let two = vec!["@a".to_string(), "@b".to_string()];
    assert!(matches!(response_request(&two), ResponseRequest::Mixed));
    assert!(matches!(response_request(&[]), ResponseRequest::Names(n) if n.is_empty()));
    let bare = vec!["@".to_string()];
    assert!(matches!(response_request(&bare), ResponseRequest::File(p) if p.is_empty()));
}

#[test]
fn user_path_without_backslash_is_borrowed() {
    assert!(matches!(normalize_user_path("a/b"), std::borrow::Cow::Borrowed("a/b")));
    assert!(matches!(normalize_user_path("a\\b"), std::borrow::Cow::Owned(_)));
}
