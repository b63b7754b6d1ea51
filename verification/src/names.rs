//! Names of entries: how the bytes of a stored name become text, and how
//! path separators are brought into one form.
//!
//! Inside an archive a name is separated by backslashes.
use crate::error::ArchiveError;
use encoding_rs::WINDOWS_1252;
use std::borrow::Cow;
use vstd::prelude::*;
use vstd::slice::slice_subrange;
use vstd::string::*;
use vstd::utf8::*;

verus! {

/// Longest stored name, in bytes, that is handed to the single-byte
/// fallback decoder.
pub const LEGACY_NAME_MAX: usize = 0x1000_0000;

/// Which stored names are accepted when an archive is read.
#[derive(Debug, Clone, Copy, PartialEq, Eq, Structural)]
pub enum NamePolicy {
    /// UTF-8 where the bytes are UTF-8, else the single-byte Western
    /// code page, else UTF-8 with replacement characters.
    Permissive,
    /// Only names made of ASCII bytes.
    StrictAscii,
}

/// Number of bytes in front of the first zero byte of `b`.
pub open spec fn first_nul(b: Seq<u8>) -> int
    decreases b.len(),
{
    if b.len() == 0 || b[0] == 0 {
        0
    } else {
        1 + first_nul(b.drop_first())
    }
}

/// `b` up to its first zero byte, which ends a stored name early.
pub open spec fn trim_at_nul(b: Seq<u8>) -> Seq<u8> {
    b.subrange(0, first_nul(b))
}

/// Every byte of `b` is below 128.
pub open spec fn is_ascii_bytes(b: Seq<u8>) -> bool {
    forall|i: int| 0 <= i < b.len() ==> b[i] < 0x80
}

/// What `String::from_utf8_lossy` makes of `bytes`.
pub uninterp spec fn lossy_text(bytes: Seq<u8>) -> Seq<char>;

/// What `encoding_rs::WINDOWS_1252.decode` makes of `bytes`: the text, and
/// whether it met a malformed sequence.
pub uninterp spec fn legacy_text(bytes: Seq<u8>) -> (Seq<char>, bool);

/// What `str::to_lowercase` makes of `text`.
pub uninterp spec fn lowercased(text: Seq<char>) -> Seq<char>;

/// `text` with each `from` replaced by `to`.
pub open spec fn replace_char(text: Seq<char>, from: char, to: char) -> Seq<char> {
    Seq::new(
        text.len(),
        |i: int|
            if text[i] == from {
                to
            } else {
                text[i]
            },
    )
}

/// `needle` occurs in `hay` as a run of consecutive characters.
pub open spec fn occurs_in(hay: Seq<char>, needle: Seq<char>) -> bool {
    exists|i: int|
        0 <= i && i + needle.len() <= hay.len() && #[trigger] hay.subrange(
            i,
            i + needle.len(),
        ) == needle
}

/// `std::str::from_utf8`: the text that `bytes` encode, which exists exactly
/// where they are well-formed UTF-8.
#[verifier::external_body]
fn utf8_text_of(bytes: &[u8]) -> (r: Option<&str>)
    ensures
        r is Some <==> valid_utf8(bytes@),
        r is Some ==> encode_utf8(r.unwrap()@) == bytes@,
{
    match std::str::from_utf8(bytes) {
        Ok(text) => Some(text),
        Err(_) => None,
    }
}

/// `String::from_utf8_lossy`: its result is a function of the bytes alone
/// and is named `lossy_text`.
#[verifier::external_body]
fn lossy_text_of(bytes: &[u8]) -> (r: String)
    ensures
        r@ == lossy_text(bytes@),
{
    String::from_utf8_lossy(bytes).into_owned()
}

/// `encoding_rs::Encoding::decode` on `WINDOWS_1252`: text and error flag are
/// a function of the bytes alone and are named `legacy_text`. The call sizes
/// its buffer at about three times the input and panics where that
/// overflows, which the bound on the length rules out.
#[verifier::external_body]
fn legacy_text_of(bytes: &[u8]) -> (r: (String, bool))
    requires
        bytes@.len() <= LEGACY_NAME_MAX,
    ensures
        (r.0@, r.1) == legacy_text(bytes@),
{
    let (text, _, malformed) = WINDOWS_1252.decode(bytes);
    (text.into_owned(), malformed)
}

/// `str::to_lowercase`: its result is a function of the text alone and is
/// named `lowercased`.
#[verifier::external_body]
pub(crate) fn lowercase_of(text: &str) -> (r: String)
    ensures
        r@ == lowercased(text@),
{
    text.to_lowercase()
}

/// `str::replace` with a single character as pattern and a replacement of
/// one character: every match is replaced, everything else stays.
#[verifier::external_body]
fn replace_of(text: &str, from: char, to: char) -> (r: String)
    ensures
        r@ == replace_char(text@, from, to),
{
    let mut buffer = [0u8; 4];
    text.replace(from, to.encode_utf8(&mut buffer))
}

/// `str::contains` with a string as pattern: whether `needle` occurs in
/// `hay`.
#[verifier::external_body]
pub(crate) fn contains_of(hay: &str, needle: &str) -> (r: bool)
    ensures
        r == occurs_in(hay@, needle@),
{
    hay.contains(needle)
}

/// `std::path::MAIN_SEPARATOR`, the separator of the platform the library
/// was built for.
#[verifier::external_body]
fn native_separator() -> (r: char) {
    std::path::MAIN_SEPARATOR
}

/// The text that the stored name `b` stands for under `policy`, or nothing
/// where the policy refuses it.
///
/// The name ends at its first zero byte. Under the permissive policy it is
/// read as UTF-8 where it is UTF-8; else by the single-byte decoder, unless
/// it is longer than `LEGACY_NAME_MAX`, which is refused; and where that
/// decoder reports a malformed sequence, as UTF-8 with replacements.
pub open spec fn decoded_name(b: Seq<u8>, policy: NamePolicy) -> Option<Seq<char>> {
    let t = trim_at_nul(b);
    match policy {
        NamePolicy::StrictAscii => if is_ascii_bytes(t) && valid_utf8(t) {
            Some(decode_utf8(t))
        } else {
            None
        },
        NamePolicy::Permissive => if valid_utf8(t) {
            Some(decode_utf8(t))
        } else if t.len() > LEGACY_NAME_MAX {
            None
        } else if legacy_text(t).1 {
            Some(lossy_text(t))
        } else {
            Some(legacy_text(t).0)
        },
    }
}

/// Where the first zero byte of `b` is found, `first_nul` is found.
proof fn lemma_first_nul(b: Seq<u8>, k: int)
    requires
        0 <= k <= b.len(),
        forall|i: int| 0 <= i < k ==> b[i] != 0,
        k == b.len() || b[k] == 0,
    ensures
        first_nul(b) == k,
    decreases b.len(),
{
    if k > 0 {
        lemma_first_nul(b.drop_first(), k - 1);
    }
}

/// Whether every byte of `b` is below 128.
fn all_ascii(b: &[u8]) -> (r: bool)
    ensures
        r == is_ascii_bytes(b@),
{
    let mut i: usize = 0;
    while i < b.len()
        invariant
            i <= b@.len(),
            forall|j: int| 0 <= j < i ==> b@[j] < 0x80,
        decreases b@.len() - i,
    {
        if b[i] >= 0x80 {
            return false;
        }
        i = i + 1;
    }
    true
}

/// Turns the bytes of a stored name into text under `policy`.
///
/// Fails with `ArchiveError::Encoding` exactly where the policy refuses the
/// name.
pub fn decode_filename_with(bytes: &[u8], policy: NamePolicy) -> (r: Result<String, ArchiveError>)
    ensures
        match r {
            Ok(name) => decoded_name(bytes@, policy) == Some(name@),
            Err(e) => e == ArchiveError::Encoding && decoded_name(bytes@, policy) is None,
        },
{
    let mut k: usize = 0;
    while k < bytes.len() && bytes[k] != 0
        invariant
            k <= bytes@.len(),
            forall|i: int| 0 <= i < k ==> bytes@[i] != 0,
        decreases bytes@.len() - k,
    {
        k = k + 1;
    }
    proof {
        lemma_first_nul(bytes@, k as int);
    }
    let trimmed = slice_subrange(bytes, 0, k);
    let text = utf8_text_of(trimmed);
    proof {
        broadcast use encode_utf8_decode_utf8;

    }
    match policy {
        NamePolicy::StrictAscii => {
            let ascii = all_ascii(trimmed);
            match text {
                Some(t) => {
                    if ascii {
                        Ok(t.to_owned())
                    } else {
                        Err(ArchiveError::Encoding)
                    }
                },
                None => Err(ArchiveError::Encoding),
            }
        },
        NamePolicy::Permissive => {
            match text {
                Some(t) => Ok(t.to_owned()),
                None => {
                    if trimmed.len() > LEGACY_NAME_MAX {
                        Err(ArchiveError::Encoding)
                    } else {
                        let (legacy, malformed) = legacy_text_of(trimmed);
                        if malformed {
                            Ok(lossy_text_of(trimmed))
                        } else {
                            Ok(legacy)
                        }
                    }
                },
            }
        },
    }
}

/// Turns the bytes of a stored name into text under the permissive policy.
pub fn decode_filename(bytes: &[u8]) -> (r: Result<String, ArchiveError>)
    ensures
        match r {
            Ok(name) => decoded_name(bytes@, NamePolicy::Permissive) == Some(name@),
            Err(e) => e == ArchiveError::Encoding && decoded_name(bytes@, NamePolicy::Permissive)
                is None,
        },
{
    decode_filename_with(bytes, NamePolicy::Permissive)
}

/// A path as it is stored in an archive: every forward slash becomes a
/// backslash.
pub fn normalize_path_for_archive(path: &str) -> (r: String)
    ensures
        r@ == replace_char(path@, '/', '\\'),
{
    replace_of(path, '/', '\\')
}

/// A path as a user may have typed it, with every backslash turned into a
/// forward slash. A path without backslashes is handed back as it came.
pub fn normalize_user_path(path: &str) -> (r: Cow<'_, str>)
    ensures
        r@ == replace_char(path@, '\\', '/'),
        r is Borrowed <==> !path@.contains('\\'),
{
    proof {
        reveal_strlit("\\");
        assert("\\"@ =~= seq!['\\']);
    }
    if contains_of(path, "\\") {
        proof {
            let i = choose|i: int|
                0 <= i && i + 1 <= path@.len() && #[trigger] path@.subrange(i, i + 1) == seq![
                    '\\',
                ];
            assert(path@.subrange(i, i + 1)[0] == path@[i]);
        }
        Cow::Owned(replace_of(path, '\\', '/'))
    } else {
        proof {
            assert forall|i: int| 0 <= i < path@.len() implies path@[i] != '\\' by {
                if path@[i] == '\\' {
                    assert(path@.subrange(i, i + 1) =~= seq!['\\']);
                }
            }
            assert(replace_char(path@, '\\', '/') =~= path@);
        }
        Cow::Borrowed(path)
    }
}

/// A path with the separators that `separator` asks for: with a backslash,
/// every forward slash becomes one; with anything else, every backslash
/// becomes a forward slash.
pub fn display_path(path: &str, separator: char) -> (r: String)
    ensures
        r@ == if separator == '\\' {
            replace_char(path@, '/', '\\')
        } else {
            replace_char(path@, '\\', '/')
        },
{
    if separator == '\\' {
        normalize_path_for_archive(path)
    } else {
        replace_of(path, '\\', '/')
    }
}

/// A path as it is shown to the user of this platform: `display_path` with
/// the platform's separator, so one of the two forms.
pub fn normalize_path_for_display(path: &str) -> (r: String)
    ensures
        r@ == replace_char(path@, '/', '\\') || r@ == replace_char(path@, '\\', '/'),
{
    display_path(path, native_separator())
}

/// An archive path with the platform's separator in place of every
/// backslash.
pub fn to_system_path(dat_path: &str) -> (r: String)
    ensures
        exists|separator: char| r@ == replace_char(dat_path@, '\\', separator),
{
    replace_of(dat_path, '\\', native_separator())
}

/// Index behind the last separator of `path` at or before `end`, or zero
/// where there is none. A separator is a forward slash or a backslash.
pub open spec fn name_start(path: Seq<char>, end: int) -> int
    decreases end,
{
    if end <= 0 {
        0
    } else if path[end - 1] == '/' || path[end - 1] == '\\' {
        end
    } else {
        name_start(path, end - 1)
    }
}

/// The last component of `path`: what follows its last separator, or all of
/// it where it has none.
pub open spec fn last_component(path: Seq<char>) -> Seq<char> {
    path.subrange(name_start(path, path.len() as int), path.len() as int)
}

/// The last component of a path, whichever of the two separators it uses.
pub fn get_filename_from_dat_path(path: &str) -> (r: &str)
    ensures
        r@ == last_component(path@),
{
    let n = path.unicode_len();
    let mut end: usize = n;
    while end > 0
        invariant
            end <= n,
            n == path@.len(),
            name_start(path@, end as int) == name_start(path@, n as int),
        ensures
            end == 0 || path@[end - 1] == '/' || path@[end - 1] == '\\',
        decreases end,
    {
        let c = path.get_char(end - 1);
        if c == '/' || c == '\\' {
            break ;
        }
        end = end - 1;
    }
    path.substring_char(end, n)
}

/// Index of the first backslash of `path` at or behind `from`, or the
/// length of `path` where there is none.
pub open spec fn first_backslash(path: Seq<char>, from: int) -> int
    decreases path.len() - from,
{
    if from < 0 || from >= path.len() {
        path.len() as int
    } else if path[from] == '\\' {
        from
    } else {
        first_backslash(path, from + 1)
    }
}

/// The name under which a file joins an archive: `target` with backslashes
/// for forward slashes and, where `strip_leading_directory` is set and the
/// path has more than one component, without its first component.
pub open spec fn archive_name_of(target: Seq<char>, strip_leading_directory: bool) -> Seq<char> {
    let path = replace_char(target, '/', '\\');
    if strip_leading_directory && first_backslash(path, 0) < path.len() {
        path.subrange(first_backslash(path, 0) + 1, path.len() as int)
    } else {
        path
    }
}

/// The name under which a file joins an archive.
pub fn archive_name(target: &str, strip_leading_directory: bool) -> (r: String)
    ensures
        r@ == archive_name_of(target@, strip_leading_directory),
{
    let path = normalize_path_for_archive(target);
    if !strip_leading_directory {
        return path;
    }
    let n = path.as_str().unicode_len();
    let mut i: usize = 0;
    while i < n
        invariant
            i <= n,
            n == path@.len(),
            first_backslash(path@, i as int) == first_backslash(path@, 0),
        ensures
            i <= n,
            first_backslash(path@, 0) == i,
        decreases n - i,
    {
        if path.as_str().get_char(i) == '\\' {
            break ;
        }
        i = i + 1;
    }
    if i < n {
        path.as_str().substring_char(i + 1, n).to_owned()
    } else {
        path
    }
}

/// The path under which an entry is written out: its last component where
/// `flat` is set, else its name with the platform's separator.
pub fn output_name(name: &str, flat: bool) -> (r: String)
    ensures
        flat ==> r@ == last_component(name@),
        !flat ==> exists|separator: char| r@ == replace_char(name@, '\\', separator),
{
    if flat {
        get_filename_from_dat_path(name).to_owned()
    } else {
        to_system_path(name)
    }
}

/// Encoding a name and then reading it back as a stored name gives the name
/// again, as long as the name holds no NUL character.
pub proof fn lemma_name_round_trip(name: Seq<char>)
    requires
        forall|i: int| 0 <= i < name.len() ==> name[i] != '\0',
    ensures
        decoded_name(encode_utf8(name), NamePolicy::Permissive) == Some(name),
{
    lemma_encoded_name_has_no_nul(name);
    let b = encode_utf8(name);
    lemma_first_nul(b, b.len() as int);
    assert(trim_at_nul(b) == b);
    encode_utf8_valid_utf8(name);
    encode_utf8_decode_utf8(name);
}

/// The UTF-8 bytes of a text without NUL characters hold no zero byte.
pub proof fn lemma_encoded_name_has_no_nul(name: Seq<char>)
    requires
        forall|i: int| 0 <= i < name.len() ==> name[i] != '\0',
    ensures
        forall|i: int| 0 <= i < encode_utf8(name).len() ==> encode_utf8(name)[i] != 0,
    decreases name.len(),
{
    if name.len() > 0 {
        let c = name[0] as u32;
        let head = encode_scalar(c);
        let tail = encode_utf8(name.drop_first());
        assert(c != 0) by {
            char_u32_cast(name[0], c);
            assert('\0' as u32 == 0);
        }
        lemma_scalar_bytes_nonzero(c);
        lemma_encoded_name_has_no_nul(name.drop_first());
        assert forall|i: int| 0 <= i < encode_utf8(name).len() implies encode_utf8(name)[i]
            != 0 by {
            if i < head.len() {
                assert(encode_utf8(name)[i] == head[i]);
            } else {
                assert(encode_utf8(name)[i] == tail[i - head.len()]);
            }
        }
    }
}

/// No byte in the UTF-8 encoding of a scalar other than zero is zero.
proof fn lemma_scalar_bytes_nonzero(c: u32)
    requires
        c != 0,
    ensures
        forall|i: int| 0 <= i < encode_scalar(c).len() ==> encode_scalar(c)[i] != 0,
{
    assert(has_width_1_encoding(c) ==> leading_byte_width_1(c) != 0) by (bit_vector)
        requires
            c != 0,
    ;
    assert(leading_byte_width_2(c) != 0) by (bit_vector);
    assert(leading_byte_width_3(c) != 0) by (bit_vector);
    assert(leading_byte_width_4(c) != 0) by (bit_vector);
    assert(last_continuation_byte(c) != 0) by (bit_vector);
    assert(second_last_continuation_byte(c) != 0) by (bit_vector);
    assert(third_last_continuation_byte(c) != 0) by (bit_vector);
}

} // verus!
