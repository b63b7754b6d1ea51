//! Archives of the directory layout: a header with the number of
//! directories, the names of the directories, one record per directory that
//! lists its files, and behind all records the stored bytes of the files in
//! the same order. Every number is 32 bits wide, most significant byte
//! first, and every name is led by one byte that gives its length.
use crate::endian::{be_u32_at, push_be_u32, read_be_u32};
use crate::entries::{
    drop_named, entry_views, find_name, firsts_reversed, has_name, index_of_name, without_names,
};
use crate::entry::{
    all_fit, CompressionLevel, EntryView, FileEntry, prepare_all, prepared_all, source_views,
    SourceFile,
};
use crate::error::ArchiveError;
use crate::extract::{
    Coder, content, contents_from, extract_entry, extract_files, extracted_views, ExtractedFile,
};
use crate::filter::texts;
use crate::flat::{all_stored, append_stored, data_region, lemma_flat_prefix_len, stored_len};
use crate::names::{decode_filename_with, NamePolicy, normalize_path_for_archive, replace_char};
use crate::select::{
    archive_forms, ListRow, ref_views, row_of, row_views, rows_of, select, selection,
    unused_patterns,
};
use crate::tree_layout::{
    after_add, all_files, ATTR_PACKED, ATTR_STORED, dir_header, dir_names, dir_names_fit,
    dir_record, dir_records, directory_of, dirs_without, DirView, file_header, file_record,
    file_records, file_records_len, full_name, HEADER_LEN, holder, in_directory, last_backslash,
    lemma_dir_index, lemma_dir_records_len_bounds, lemma_dir_step, lemma_file_records_len_bounds,
    lemma_file_step, lemma_holder, lemma_record_pass, meta_len, name_field, parse_dir, parse_dirs,
    parse_file, parse_files, parse_name, parse_names, parsed_tree, placed, placed_all, root_name,
    saved_tree, stored_name, then_dirs, then_files, then_names, tree_data, tree_fits, tree_stored,
    with_file,
};
use vstd::prelude::*;
use vstd::slice::slice_subrange;
use vstd::string::*;
use vstd::utf8::encode_utf8;

verus! {

/// One directory of an archive.
#[derive(Debug)]
pub struct Directory {
    name: String,
    files: Vec<FileEntry>,
}

impl View for Directory {
    type V = DirView;

    closed spec fn view(&self) -> DirView {
        DirView { name: self.name@, files: entry_views(self.files@) }
    }
}

/// The directories as plain values.
pub open spec fn dir_views(dirs: Seq<Directory>) -> Seq<DirView> {
    dirs.map_values(|d: Directory| d@)
}

/// An archive of the directory layout.
#[derive(Debug)]
pub struct Dat1Archive {
    directories: Vec<Directory>,
    data: Vec<u8>,
}

/// A `Dat1Archive` as plain values.
pub struct TreeView {
    /// The directories, in the order in which they are written.
    pub directories: Seq<DirView>,
    /// The buffer that the archive was read from, empty for a new one.
    pub data: Seq<u8>,
}

impl View for Dat1Archive {
    type V = TreeView;

    closed spec fn view(&self) -> TreeView {
        TreeView { directories: dir_views(self.directories@), data: self.data@ }
    }
}

/// Reads the name at `pos`.
fn read_name(data: &[u8], pos: usize, policy: NamePolicy) -> (r: Result<
    (String, usize),
    ArchiveError,
>)
    requires
        pos <= data@.len(),
    ensures
        match r {
            Ok((name, next)) => parse_name(data@, pos as int, policy) == Ok::<
                (Seq<char>, int),
                ArchiveError,
            >((name@, next as int)) && pos < next <= data@.len(),
            Err(e) => parse_name(data@, pos as int, policy) == Err::<
                (Seq<char>, int),
                ArchiveError,
            >(e),
        },
{
    let len = data.len();
    if len - pos < 1 {
        return Err(ArchiveError::Format);
    }
    let name_len = data[pos] as usize;
    if len - pos - 1 < name_len {
        return Err(ArchiveError::Format);
    }
    let end = pos + 1 + name_len;
    match decode_filename_with(slice_subrange(data, pos + 1, end), policy) {
        Ok(name) => Ok((name, end)),
        Err(_) => Err(ArchiveError::Encoding),
    }
}

/// The text `"."`.
fn is_root(dir: &str) -> (r: bool)
    ensures
        r == (dir@ == root_name()),
{
    let n = dir.unicode_len();
    if n != 1 {
        return false;
    }
    let c = dir.get_char(0);
    proof {
        if c == '.' {
            assert(dir@ =~= root_name());
        }
    }
    c == '.'
}

/// Joins the name of a directory and the name that a record gives a file.
fn join_name(dir: &str, file: String) -> (r: String)
    ensures
        r@ == full_name(dir@, file@),
{
    if is_root(dir) {
        file
    } else {
        let mut name = dir.to_owned();
        proof {
            reveal_strlit("\\");
            assert("\\"@ =~= seq!['\\']);
        }
        name.append("\\");
        name.append(file.as_str());
        name
    }
}

/// Reads the file record at `pos`.
fn read_file(data: &[u8], pos: usize, dir: &str, policy: NamePolicy) -> (r: Result<
    (FileEntry, usize),
    ArchiveError,
>)
    requires
        pos <= data@.len(),
    ensures
        match r {
            Ok((entry, next)) => parse_file(data@, pos as int, dir@, policy) == Ok::<
                (EntryView, int),
                ArchiveError,
            >((entry@, next as int)) && pos < next <= data@.len(),
            Err(e) => parse_file(data@, pos as int, dir@, policy) == Err::<
                (EntryView, int),
                ArchiveError,
            >(e),
        },
{
    let (name, at) = match read_name(data, pos, policy) {
        Ok(found) => found,
        Err(e) => { return Err(e); },
    };
    if data.len() - at < 16 {
        return Err(ArchiveError::Format);
    }
    let attributes = read_be_u32(data, at).unwrap();
    let offset = read_be_u32(data, at + 4).unwrap();
    let size = read_be_u32(data, at + 8).unwrap();
    let packed = read_be_u32(data, at + 12).unwrap();
    let compressed = (attributes & ATTR_PACKED) != 0;
    assert(compressed == ((attributes / 0x40) % 2 == 1)) by (bit_vector)
        requires
            compressed == ((attributes & 0x40u32) != 0),
    ;
    let entry = FileEntry {
        name: join_name(dir, name),
        offset: offset as u64,
        size,
        packed_size: if packed == 0 {
            size
        } else {
            packed
        },
        compressed,
        data: None,
    };
    Ok((entry, at + 16))
}

/// Reads the record of directory `name` at `pos`.
fn read_dir(data: &[u8], pos: usize, name: String, policy: NamePolicy) -> (r: Result<
    (Directory, usize),
    ArchiveError,
>)
    requires
        pos <= data@.len(),
    ensures
        match r {
            Ok((dir, next)) => parse_dir(data@, pos as int, name@, policy) == Ok::<
                (DirView, int),
                ArchiveError,
            >((dir@, next as int)) && pos < next <= data@.len(),
            Err(e) => parse_dir(data@, pos as int, name@, policy) == Err::<
                (DirView, int),
                ArchiveError,
            >(e),
        },
{
    if data.len() - pos < 16 {
        return Err(ArchiveError::Format);
    }
    let count = read_be_u32(data, pos).unwrap();
    let mut files: Vec<FileEntry> = Vec::new();
    let mut at = pos + 16;
    let mut done: u32 = 0;
    let ghost all = parse_files(data@, pos + 16, count as nat, name@, policy);
    proof {
        assert(entry_views(files@) =~= Seq::<EntryView>::empty());
        if all is Ok {
            assert(Seq::<EntryView>::empty() + all.unwrap().0 =~= all.unwrap().0);
        }
    }
    while done < count
        invariant
            done <= count,
            count == be_u32_at(data@, pos as int),
            pos + 16 <= at <= data@.len(),
            all == parse_files(data@, pos + 16, count as nat, name@, policy),
            all == then_files(
                entry_views(files@),
                parse_files(data@, at as int, (count - done) as nat, name@, policy),
            ),
        decreases count - done,
    {
        let ghost before = entry_views(files@);
        match read_file(data, at, name.as_str(), policy) {
            Err(e) => {
                proof {
                    assert(parse_files(data@, at as int, (count - done) as nat, name@, policy)
                        == Err::<(Seq<EntryView>, int), ArchiveError>(e));
                }
                return Err(e);
            },
            Ok((entry, next)) => {
                proof {
                    let after = parse_files(
                        data@,
                        next as int,
                        (count - done - 1) as nat,
                        name@,
                        policy,
                    );
                    assert(entry_views(files@.push(entry)) =~= before.push(entry@));
                    if after is Ok {
                        assert(before + (seq![entry@] + after.unwrap().0) =~= before.push(entry@)
                            + after.unwrap().0);
                    }
                }
                files.push(entry);
                at = next;
                done = done + 1;
            },
        }
    }
    proof {
        assert(entry_views(files@) + Seq::<EntryView>::empty() =~= entry_views(files@));
    }
    Ok((Directory { name, files }, at))
}

/// Whether `name` lies in the directory `dir`.
fn lies_in(name: &str, dir: &str) -> (r: bool)
    ensures
        r == in_directory(name@, dir@),
{
    let n = name.unicode_len();
    let d = dir.unicode_len();
    if n <= d {
        return false;
    }
    if name.get_char(d) != '\\' {
        return false;
    }
    let mut i: usize = 0;
    while i < d
        invariant
            i <= d < n,
            n == name@.len(),
            d == dir@.len(),
            forall|k: int| 0 <= k < i ==> name@[k] == dir@[k],
        decreases d - i,
    {
        if name.get_char(i) != dir.get_char(i) {
            proof {
                assert(name@.take(d as int)[i as int] != dir@[i as int]);
            }
            return false;
        }
        i = i + 1;
    }
    proof {
        assert(name@.take(d as int) =~= dir@);
    }
    true
}

/// The name that the record of a file gives it.
fn record_name<'a>(name: &'a str, dir: &str) -> (r: &'a str)
    ensures
        r@ == stored_name(name@, dir@),
{
    if !is_root(dir) && lies_in(name, dir) {
        let n = name.unicode_len();
        let d = dir.unicode_len();
        let rest = name.substring_char(d + 1, n);
        proof {
            assert(name@.subrange(d + 1, n as int) =~= name@.skip(d + 1));
        }
        rest
    } else {
        name
    }
}

/// Appends a name with its length byte to `out`.
fn append_name(out: &mut Vec<u8>, name: &str)
    requires
        encode_utf8(name@).len() <= 255,
    ensures
        final(out)@ == old(out)@ + name_field(name@),
{
    let ghost before = out@;
    let bytes = name.as_bytes();
    out.push(bytes.len() as u8);
    out.extend_from_slice(bytes);
    proof {
        assert(out@ =~= before + name_field(name@));
    }
}

/// Appends the record of `file` to `out`.
fn append_file_record(out: &mut Vec<u8>, file: &FileEntry, dir: &str, offset: u32)
    requires
        encode_utf8(stored_name(file@.name, dir@)).len() <= 255,
    ensures
        final(out)@ == old(out)@ + file_record(file@, dir@, offset),
{
    let ghost before = out@;
    append_name(out, record_name(file.name.as_str(), dir));
    push_be_u32(out, if file.compressed { ATTR_PACKED } else { ATTR_STORED });
    push_be_u32(out, offset);
    push_be_u32(out, file.size);
    push_be_u32(out, if file.compressed { file.packed_size } else { 0 });
    proof {
        assert(out@ =~= before + file_record(file@, dir@, offset));
    }
}

/// What one directory adds to a file: whether its names fit, and, as far
/// as the sums stay within 32 bits, the length of its name and record and
/// the length of its data.
fn measure_dir(dir: &Directory, source: &[u8]) -> (r: Result<(bool, u64, u64), ArchiveError>)
    ensures
        match r {
            Err(e) => e == ArchiveError::Bounds && !all_stored(dir@.files, source@),
            Ok((fits, meta, data)) => {
                let meta_is = 1 + encode_utf8(dir@.name).len() + HEADER_LEN + file_records_len(
                    dir@.files,
                    dir@.name,
                );
                let data_is = data_region(dir@.files, source@).len();
                &&& all_stored(dir@.files, source@)
                &&& fits ==> dir_names_fit(dir@) && meta == meta_is && data == data_is && meta
                    + data <= u32::MAX
                &&& !fits ==> !dir_names_fit(dir@) || meta_is + data_is > u32::MAX
            },
        },
{
    let limit: u64 = u32::MAX as u64;
    let ghost files = dir@.files;
    let ghost name = dir@.name;
    let own = dir.name.as_str().as_bytes().len();
    let mut fits = own <= 255;
    let mut meta: u64 = 17 + if fits { own as u64 } else { 0 };
    let mut data: u64 = 0;
    let n = dir.files.len();
    let mut i: usize = 0;
    proof {
        assert(files.take(0) =~= Seq::<EntryView>::empty());
    }
    while i < n
        invariant
            i <= n,
            n == dir.files@.len(),
            files == entry_views(dir.files@),
            files == dir@.files,
            name == dir@.name,
            name == dir.name@,
            limit == u32::MAX,
            own == encode_utf8(name).len(),
            all_stored(files.take(i as int), source@),
            fits ==> own <= 255 && forall|j: int|
                0 <= j < i ==> encode_utf8(stored_name((#[trigger] files[j]).name, name)).len()
                    <= 255,
            fits ==> meta == 17 + own + file_records_len(files.take(i as int), name),
            fits ==> data == data_region(files.take(i as int), source@).len(),
            fits ==> meta + data <= limit,
            !fits ==> !dir_names_fit(dir@) || 17 + own + file_records_len(
                files.take(i as int),
                name,
            ) + data_region(files.take(i as int), source@).len() > limit,
        decreases n - i,
    {
        let file = &dir.files[i];
        proof {
            lemma_file_step(files, name, source@, 0, i as int);
        }
        let stored = match stored_len(file, source.len()) {
            Some(len) => len,
            None => {
                proof {
                    assert(files[i as int].stored(source@) is None);
                }
                return Err(ArchiveError::Bounds);
            },
        };
        proof {
            assert(files[i as int].stored(source@) is Some);
            assert forall|j: int| 0 <= j < i + 1 implies (#[trigger] files.take(i + 1)[j]).stored(
                source@,
            ) is Some by {
                if j < i {
                    assert(files.take(i as int)[j] == files.take(i + 1)[j]);
                }
            }
        }
        let name_len = record_name(file.name.as_str(), dir.name.as_str()).as_bytes().len();
        if fits {
            if name_len > 255 {
                fits = false;
                proof {
                    assert(encode_utf8(stored_name(files[i as int].name, name)).len() > 255);
                }
            } else {
                let room = limit - meta - data;
                if stored as u64 > room || room - (stored as u64) < 17 + name_len as u64 {
                    fits = false;
                } else {
                    data = data + stored as u64;
                    meta = meta + 17 + name_len as u64;
                }
            }
        }
        i = i + 1;
    }
    proof {
        assert(files.take(n as int) =~= files);
    }
    Ok((fits, meta, data))
}

/// Appends the record of `dir` to `out`, where the stored bytes of its
/// first file start at `base`.
fn append_dir_record(out: &mut Vec<u8>, dir: &Directory, source: &[u8], base: u32) -> (next: u32)
    requires
        all_stored(dir@.files, source@),
        dir_names_fit(dir@),
        dir@.files.len() <= u32::MAX,
        base + data_region(dir@.files, source@).len() <= u32::MAX,
    ensures
        final(out)@ == old(out)@ + dir_record(dir@, source@, base as int),
        next == base + data_region(dir@.files, source@).len(),
{
    let ghost before = out@;
    let ghost files = dir@.files;
    let ghost name = dir@.name;
    let n = dir.files.len();
    push_be_u32(out, n as u32);
    push_be_u32(out, 0x0A);
    push_be_u32(out, 0x10);
    push_be_u32(out, 0);
    let mut offset: u64 = base as u64;
    let mut i: usize = 0;
    proof {
        assert(files.take(0) =~= Seq::<EntryView>::empty());
        assert(out@ =~= before + dir_header(n as u32) + file_records(
            files.take(0),
            name,
            source@,
            base as int,
        ));
    }
    while i < n
        invariant
            i <= n,
            n == dir.files@.len(),
            files == entry_views(dir.files@),
            files == dir@.files,
            name == dir@.name,
            name == dir.name@,
            all_stored(files, source@),
            dir_names_fit(dir@),
            base + data_region(files, source@).len() <= u32::MAX,
            offset == base + data_region(files.take(i as int), source@).len(),
            out@ == before + dir_header(n as u32) + file_records(
                files.take(i as int),
                name,
                source@,
                base as int,
            ),
        decreases n - i,
    {
        let file = &dir.files[i];
        proof {
            lemma_file_step(files, name, source@, base as int, i as int);
            lemma_flat_prefix_len(files, source@, i + 1);
            assert(encode_utf8(stored_name(files[i as int].name, name)).len() <= 255);
            assert(out@ + file_record(files[i as int], name, offset as u32) =~= before + dir_header(
                n as u32,
            ) + file_records(files.take(i + 1), name, source@, base as int));
        }
        append_file_record(out, file, dir.name.as_str(), offset as u32);
        offset = offset + stored_len(file, source.len()).unwrap() as u64;
        i = i + 1;
    }
    proof {
        assert(files.take(n as int) =~= files);
    }
    offset as u32
}

/// Appends the stored bytes of the files of `dir` to `out`.
fn append_dir_data(out: &mut Vec<u8>, dir: &Directory, source: &[u8])
    requires
        all_stored(dir@.files, source@),
    ensures
        final(out)@ == old(out)@ + data_region(dir@.files, source@),
{
    let ghost before = out@;
    let ghost files = dir@.files;
    let n = dir.files.len();
    let mut i: usize = 0;
    proof {
        assert(files.take(0) =~= Seq::<EntryView>::empty());
        assert(out@ =~= before + data_region(files.take(0), source@));
    }
    while i < n
        invariant
            i <= n,
            n == dir.files@.len(),
            files == entry_views(dir.files@),
            all_stored(files, source@),
            out@ == before + data_region(files.take(i as int), source@),
        decreases n - i,
    {
        proof {
            lemma_file_step(files, Seq::empty(), source@, 0, i as int);
            assert(out@ + files[i as int].stored(source@).unwrap() =~= before + data_region(
                files.take(i + 1),
                source@,
            ));
        }
        append_stored(out, &dir.files[i], source);
        i = i + 1;
    }
    proof {
        assert(files.take(n as int) =~= files);
    }
}

/// Appending twice is appending what the two make together.
proof fn lemma_append_twice(a: Seq<u8>, b: Seq<u8>, c: Seq<u8>)
    ensures
        (a + b) + c == a + (b + c),
{
    assert((a + b) + c =~= a + (b + c));
}

/// The name of the directory that a file called `name` belongs to.
fn directory_name(name: &str) -> (r: String)
    ensures
        r@ == directory_of(name@),
{
    let n = name.unicode_len();
    let mut end: usize = n;
    while end > 0
        invariant
            end <= n,
            n == name@.len(),
            last_backslash(name@, end as int) == last_backslash(name@, n as int),
        ensures
            end <= n,
            end == 0 ==> last_backslash(name@, n as int) == -1,
            end > 0 ==> last_backslash(name@, n as int) == end - 1,
        decreases end,
    {
        if name.get_char(end - 1) == '\\' {
            break ;
        }
        end = end - 1;
    }
    if end == 0 {
        proof {
            reveal_strlit(".");
            assert("."@ =~= root_name());
        }
        ".".to_owned()
    } else {
        let head = name.substring_char(0, end - 1);
        proof {
            assert(name@.subrange(0, end - 1) =~= name@.take(end - 1));
        }
        head.to_owned()
    }
}

/// Puts `entry` into the directory that its name belongs to.
fn place(dirs: &mut Vec<Directory>, entry: FileEntry)
    ensures
        dir_views(final(dirs)@) == placed(dir_views(old(dirs)@), entry@),
{
    let ghost before = dir_views(dirs@);
    let name = directory_name(entry.name.as_str());
    let mut at: usize = 0;
    while at < dirs.len() && dirs[at].name != name
        invariant
            at <= dirs@.len(),
            forall|i: int| 0 <= i < at ==> (#[trigger] dir_views(dirs@)[i]).name != name@,
        decreases dirs@.len() - at,
    {
        at = at + 1;
    }
    proof {
        if at < dirs@.len() {
            assert(dir_views(dirs@)[at as int].name == name@);
        }
        lemma_dir_index(before, name@, at as int);
    }
    if at < dirs.len() {
        let mut dir = dirs.remove(at);
        let ghost was = dir@;
        let ghost files = entry_views(dir.files@);
        dir.files.push(entry);
        proof {
            assert(entry_views(dir.files@) =~= files.push(entry@));
            assert(dir@ == with_file(was, entry@));
        }
        dirs.insert(at, dir);
        proof {
            assert(dir_views(dirs@) =~= before.update(at as int, with_file(before[at as int], entry@)));
        }
    } else {
        let ghost one = entry@;
        let mut files: Vec<FileEntry> = Vec::new();
        files.push(entry);
        proof {
            assert(entry_views(files@) =~= seq![one]);
        }
        dirs.push(Directory { name, files });
        proof {
            assert(dir_views(dirs@) =~= before.push(
                DirView { name: directory_of(one.name), files: seq![one] },
            ));
        }
    }
}

impl Dat1Archive {
    /// An archive that holds the root directory and no file.
    pub fn new() -> (r: Self)
        ensures
            r@.directories == seq![DirView { name: root_name(), files: Seq::empty() }],
            r@.data.len() == 0,
    {
        let root = Directory { name: ".".to_owned(), files: Vec::new() };
        proof {
            reveal_strlit(".");
            assert("."@ =~= root_name());
            assert(entry_views(root.files@) =~= Seq::<EntryView>::empty());
        }
        let mut directories: Vec<Directory> = Vec::new();
        directories.push(root);
        proof {
            assert(dir_views(directories@) =~= seq![
                DirView { name: root_name(), files: Seq::empty() },
            ]);
        }
        Self { directories, data: Vec::new() }
    }

    /// Reads an archive under the permissive naming policy.
    pub fn from_bytes(data: Vec<u8>) -> (r: Result<Self, ArchiveError>)
        ensures
            match r {
                Ok(archive) => archive@.data == data@ && parsed_tree(data@, NamePolicy::Permissive)
                    == Ok::<Seq<DirView>, ArchiveError>(archive@.directories),
                Err(e) => parsed_tree(data@, NamePolicy::Permissive) == Err::<
                    Seq<DirView>,
                    ArchiveError,
                >(e),
            },
    {
        Self::from_bytes_with(data, NamePolicy::Permissive)
    }

    /// Reads an archive: the directories are those that the file names,
    /// each with the files that its record lists, every file pointing into
    /// `data`, which the archive keeps.
    ///
    /// Fails with `ArchiveError::Format` where the file ends inside a
    /// header, a name or a record, and with `ArchiveError::Encoding` where
    /// `policy` refuses a name; of several faults the earliest in the file
    /// is reported.
    pub fn from_bytes_with(data: Vec<u8>, policy: NamePolicy) -> (r: Result<Self, ArchiveError>)
        ensures
            match r {
                Ok(archive) => archive@.data == data@ && parsed_tree(data@, policy) == Ok::<
                    Seq<DirView>,
                    ArchiveError,
                >(archive@.directories),
                Err(e) => parsed_tree(data@, policy) == Err::<Seq<DirView>, ArchiveError>(e),
            },
    {
        let bytes = data.as_slice();
        if bytes.len() < HEADER_LEN {
            return Err(ArchiveError::Format);
        }
        let count = read_be_u32(bytes, 0).unwrap();
        // The names of the directories.
        let mut names: Vec<String> = Vec::new();
        let mut pos: usize = HEADER_LEN;
        let mut done: u32 = 0;
        let ghost all_names = parse_names(bytes@, 16, count as nat, policy);
        proof {
            assert(texts(names@) =~= Seq::<Seq<char>>::empty());
            if all_names is Ok {
                assert(Seq::<Seq<char>>::empty() + all_names.unwrap().0 =~= all_names.unwrap().0);
            }
        }
        while done < count
            invariant
                done <= count,
                count == be_u32_at(bytes@, 0),
                bytes@ == data@,
                16 <= pos <= bytes@.len(),
                all_names == parse_names(bytes@, 16, count as nat, policy),
                all_names == then_names(
                    texts(names@),
                    parse_names(bytes@, pos as int, (count - done) as nat, policy),
                ),
            decreases count - done,
        {
            let ghost before = texts(names@);
            match read_name(bytes, pos, policy) {
                Err(e) => {
                    proof {
                        assert(parse_names(bytes@, pos as int, (count - done) as nat, policy)
                            == Err::<(Seq<Seq<char>>, int), ArchiveError>(e));
                    }
                    return Err(e);
                },
                Ok((name, next)) => {
                    proof {
                        let after = parse_names(
                            bytes@,
                            next as int,
                            (count - done - 1) as nat,
                            policy,
                        );
                        assert(texts(names@.push(name)) =~= before.push(name@));
                        if after is Ok {
                            assert(before + (seq![name@] + after.unwrap().0) =~= before.push(name@)
                                + after.unwrap().0);
                        }
                    }
                    names.push(name);
                    pos = next;
                    done = done + 1;
                },
            }
        }
        proof {
            assert(texts(names@) + Seq::<Seq<char>>::empty() =~= texts(names@));
        }
        // The record of each directory.
        let ghost wanted = texts(names@);
        let ghost all_dirs = parse_dirs(bytes@, pos as int, wanted, 0, policy);
        let mut rest = crate::entry::reversed(names);
        let mut directories: Vec<Directory> = Vec::new();
        let ghost total = rest@.len();
        proof {
            assert(texts(rest@).reverse() =~= wanted);
            assert(dir_views(directories@) =~= Seq::<DirView>::empty());
            if all_dirs is Ok {
                assert(Seq::<DirView>::empty() + all_dirs.unwrap() =~= all_dirs.unwrap());
            }
        }
        while rest.len() > 0
            invariant
                bytes@ == data@,
                pos <= bytes@.len(),
                total == wanted.len(),
                rest@.len() <= total,
                texts(rest@).reverse() == wanted.skip(total - rest@.len()),
                parsed_tree(data@, policy) == all_dirs,
                all_dirs == then_dirs(
                    dir_views(directories@),
                    parse_dirs(bytes@, pos as int, wanted, total - rest@.len(), policy),
                ),
            decreases rest@.len(),
        {
            let ghost k = total - rest@.len();
            let ghost left = texts(rest@);
            let ghost before = dir_views(directories@);
            let name = rest.pop().unwrap();
            proof {
                assert(left.last() == name@);
                assert(left.reverse()[0] == name@);
                assert(wanted.skip(k)[0] == wanted[k]);
                assert(texts(rest@) =~= left.drop_last());
                assert(left.drop_last().reverse() =~= left.reverse().skip(1));
                assert(wanted.skip(k).skip(1) =~= wanted.skip(k + 1));
            }
            match read_dir(bytes, pos, name, policy) {
                Err(e) => { return Err(e); },
                Ok((dir, next)) => {
                    proof {
                        let after = parse_dirs(bytes@, next as int, wanted, k + 1, policy);
                        assert(dir_views(directories@.push(dir)) =~= before.push(dir@));
                        if after is Ok {
                            assert(before + (seq![dir@] + after.unwrap()) =~= before.push(dir@)
                                + after.unwrap());
                        }
                    }
                    directories.push(dir);
                    pos = next;
                },
            }
        }
        proof {
            assert(dir_views(directories@) + Seq::<DirView>::empty() =~= dir_views(directories@));
        }
        Ok(Self { directories, data })
    }

    /// The file that holds this archive: the header, the names of the
    /// directories, the record of each directory with the offsets of its
    /// files, and the stored bytes of all files in the same order. The
    /// length of everything in front of the stored bytes is worked out
    /// before the first offset is written.
    ///
    /// Fails with `ArchiveError::Bounds` where an entry names bytes outside
    /// the archive's buffer; else with `ArchiveError::TooLarge` where a name
    /// takes more than 255 bytes or the file would be longer than a 32-bit
    /// offset can say.
    pub fn save(&self) -> (r: Result<Vec<u8>, ArchiveError>)
        ensures
            match r {
                Ok(bytes) => saved_tree(self@.directories, self@.data) == Ok::<
                    Seq<u8>,
                    ArchiveError,
                >(bytes@),
                Err(e) => saved_tree(self@.directories, self@.data) == Err::<
                    Seq<u8>,
                    ArchiveError,
                >(e),
            },
    {
        let ghost dirs = self@.directories;
        let ghost source = self@.data;
        let n = self.directories.len();
        let limit: u64 = u32::MAX as u64;
        // First pass: the length of everything in front of the data.
        let mut meta: u64 = 16;
        let mut data: u64 = 0;
        let mut fits = true;
        let mut i: usize = 0;
        proof {
            assert(dirs.take(0) =~= Seq::<DirView>::empty());
        }
        while i < n
            invariant
                i <= n,
                n == self.directories@.len(),
                dirs == dir_views(self.directories@),
                source == self.data@,
                limit == u32::MAX,
                tree_stored(dirs.take(i as int), source),
                fits ==> forall|j: int| 0 <= j < i ==> dir_names_fit(#[trigger] dirs[j]),
                fits ==> meta == meta_len(dirs.take(i as int)),
                fits ==> data == tree_data(dirs.take(i as int), source).len(),
                fits ==> meta + data <= limit,
                !fits ==> (exists|j: int| 0 <= j < i && !dir_names_fit(#[trigger] dirs[j]))
                    || meta_len(dirs.take(i as int)) + tree_data(dirs.take(i as int), source).len()
                    > limit,
            decreases n - i,
        {
            let dir = &self.directories[i];
            proof {
                lemma_dir_step(dirs, source, 0, i as int);
                lemma_file_records_len_bounds(dirs[i as int].files, dirs[i as int].name);
                assert(dirs[i as int] == dir@);
            }
            let (dir_fits, dir_meta, dir_data) = match measure_dir(dir, self.data.as_slice()) {
                Ok(found) => found,
                Err(e) => {
                    proof {
                        assert(!all_stored(dirs[i as int].files, source));
                    }
                    return Err(e);
                },
            };
            proof {
                assert forall|j: int| 0 <= j < i + 1 implies all_stored(
                    (#[trigger] dirs.take(i + 1)[j]).files,
                    source,
                ) by {
                    if j < i {
                        assert(dirs.take(i as int)[j] == dirs.take(i + 1)[j]);
                    }
                }
            }
            if fits {
                if !dir_fits {
                    fits = false;
                    proof {
                        if dir_names_fit(dirs[i as int]) {
                        } else {
                            assert(!dir_names_fit(dirs[i as int]));
                        }
                    }
                } else {
                    let room = limit - meta - data;
                    if dir_meta > room || dir_data > room - dir_meta {
                        fits = false;
                    } else {
                        meta = meta + dir_meta;
                        data = data + dir_data;
                    }
                }
            } else {
                proof {
                    if exists|j: int| 0 <= j < i && !dir_names_fit(#[trigger] dirs[j]) {
                        let j = choose|j: int| 0 <= j < i && !dir_names_fit(#[trigger] dirs[j]);
                        assert(0 <= j < i + 1 && !dir_names_fit(dirs[j]));
                    }
                }
            }
            i = i + 1;
        }
        proof {
            assert(dirs.take(n as int) =~= dirs);
            assert(tree_stored(dirs, source));
        }
        if !fits {
            return Err(ArchiveError::TooLarge);
        }
        proof {
            assert(tree_fits(dirs, source));
            lemma_dir_records_len_bounds(dirs);
        }
        // Second pass: the header and the names.
        let mut out: Vec<u8> = Vec::new();
        push_be_u32(&mut out, n as u32);
        push_be_u32(&mut out, 0x0A);
        push_be_u32(&mut out, 0);
        push_be_u32(&mut out, 0);
        let mut i: usize = 0;
        proof {
            assert(out@ =~= file_header(n as u32) + dir_names(dirs.take(0)));
        }
        while i < n
            invariant
                i <= n,
                n == self.directories@.len(),
                dirs == dir_views(self.directories@),
                tree_fits(dirs, source),
                out@ == file_header(n as u32) + dir_names(dirs.take(i as int)),
            decreases n - i,
        {
            let dir = &self.directories[i];
            proof {
                lemma_dir_step(dirs, source, 0, i as int);
                assert(dirs[i as int] == dir@);
                assert(dir_names_fit(dirs[i as int]));
                assert(out@ + name_field(dirs[i as int].name) =~= file_header(n as u32)
                    + dir_names(dirs.take(i + 1)));
            }
            append_name(&mut out, dir.name.as_str());
            i = i + 1;
        }
        // Third pass: the records, with the offsets.
        let mut offset: u32 = meta as u32;
        let mut i: usize = 0;
        let ghost front = out@;
        proof {
            assert(dirs.take(n as int) =~= dirs);
            assert(meta == meta_len(dirs));
            assert(front == file_header(n as u32) + dir_names(dirs));
            assert(out@ =~= front + dir_records(dirs.take(0), source, meta as int));
        }
        while i < n
            invariant
                i <= n,
                n == self.directories@.len(),
                dirs == dir_views(self.directories@),
                source == self.data@,
                tree_stored(dirs, source),
                tree_fits(dirs, source),
                meta == meta_len(dirs),
                offset == meta + tree_data(dirs.take(i as int), source).len(),
                out@ == front + dir_records(dirs.take(i as int), source, meta as int),
            decreases n - i,
        {
            let dir = &self.directories[i];
            proof {
                assert(dirs[i as int] == dir@);
                assert(all_stored(dirs[i as int].files, source));
                assert(dir_names_fit(dirs[i as int]));
                lemma_record_pass(dirs, source, i as int);
            }
            let ghost before = out@;
            let next = append_dir_record(&mut out, dir, self.data.as_slice(), offset);
            proof {
                lemma_dir_step(dirs, source, meta as int, i as int);
                lemma_append_twice(
                    front,
                    dir_records(dirs.take(i as int), source, meta as int),
                    dir_record(dirs[i as int], source, offset as int),
                );
            }
            offset = next;
            i = i + 1;
        }
        proof {
            assert(dirs.take(n as int) =~= dirs);
            lemma_append_twice(
                file_header(n as u32),
                dir_names(dirs),
                dir_records(dirs, source, meta as int),
            );
        }
        // Fourth pass: the data.
        let mut i: usize = 0;
        let ghost head = out@;
        proof {
            assert(out@ =~= head + tree_data(dirs.take(0), source));
        }
        while i < n
            invariant
                i <= n,
                n == self.directories@.len(),
                dirs == dir_views(self.directories@),
                source == self.data@,
                tree_stored(dirs, source),
                out@ == head + tree_data(dirs.take(i as int), source),
            decreases n - i,
        {
            let dir = &self.directories[i];
            proof {
                lemma_dir_step(dirs, source, 0, i as int);
                assert(dirs[i as int] == dir@);
                assert(all_stored(dirs[i as int].files, source));
                assert(out@ + data_region(dirs[i as int].files, source) =~= head + tree_data(
                    dirs.take(i + 1),
                    source,
                ));
            }
            append_dir_data(&mut out, dir, self.data.as_slice());
            i = i + 1;
        }
        Ok(out)
    }

    /// Takes a batch of entries into the archive, each into the directory
    /// that its name belongs to; a directory that is not there yet is made
    /// behind the others.
    ///
    /// An entry of the batch replaces the file of the same name; of two
    /// entries of the batch with one name the first is kept.
    pub fn add_entries(&mut self, batch: Vec<FileEntry>)
        ensures
            final(self)@.data == old(self)@.data,
            final(self)@.directories == after_add(old(self)@.directories, entry_views(batch@)),
    {
        let ghost start = dir_views(self.directories@);
        let ghost names = entry_views(batch@);
        let n = self.directories.len();
        let mut i: usize = 0;
        while i < n
            invariant
                i <= n,
                n == self.directories@.len(),
                n == start.len(),
                names == entry_views(batch@),
                self.data@ == old(self).data@,
                forall|k: int|
                    0 <= k < i ==> (#[trigger] dir_views(self.directories@)[k]) == (DirView {
                        name: start[k].name,
                        files: without_names(start[k].files, names),
                    }),
                forall|k: int|
                    i <= k < n ==> (#[trigger] dir_views(self.directories@)[k]) == start[k],
            decreases n - i,
        {
            let ghost before = dir_views(self.directories@);
            let mut dir = self.directories.remove(i);
            let ghost was = dir@;
            drop_named(&mut dir.files, &batch);
            let ghost cleared = dir@;
            self.directories.insert(i, dir);
            proof {
                let now = dir_views(self.directories@);
                assert(was == before[i as int]);
                assert(cleared == (DirView {
                    name: was.name,
                    files: without_names(was.files, names),
                }));
                assert(now[i as int] == cleared);
                assert forall|k: int| 0 <= k < n && k != i implies (#[trigger] now[k])
                    == before[k] by {}
            }
            i = i + 1;
        }
        proof {
            assert(dir_views(self.directories@) =~= dirs_without(start, names));
        }
        let mut firsts = firsts_reversed(batch);
        let ghost cleared = dir_views(self.directories@);
        let ghost wanted = entry_views(firsts@).reverse();
        let ghost total = firsts@.len();
        proof {
            assert(wanted.take(0) =~= Seq::<EntryView>::empty());
            assert(wanted.skip(0) =~= wanted);
        }
        while firsts.len() > 0
            invariant
                total == wanted.len(),
                firsts@.len() <= total,
                self.data@ == old(self).data@,
                entry_views(firsts@).reverse() == wanted.skip(total - firsts@.len()),
                dir_views(self.directories@) == placed_all(
                    cleared,
                    wanted.take(total - firsts@.len()),
                ),
            decreases firsts@.len(),
        {
            let ghost left = entry_views(firsts@);
            let ghost k = total - firsts@.len();
            let entry = firsts.pop().unwrap();
            proof {
                assert(left.last() == entry@);
                assert(left.reverse()[0] == entry@);
                assert(wanted.skip(k)[0] == wanted[k]);
                assert(entry_views(firsts@) =~= left.drop_last());
                assert(left.drop_last().reverse() =~= left.reverse().skip(1));
                assert(wanted.skip(k).skip(1) =~= wanted.skip(k + 1));
                assert(wanted.take(k + 1).drop_last() =~= wanted.take(k));
                assert(wanted.take(k + 1).last() == entry@);
            }
            place(&mut self.directories, entry);
        }
        proof {
            assert(wanted.take(total as int) =~= wanted);
        }
    }

    /// Adds files to the archive. They are stored as they are, whatever
    /// effort is asked for: this layout takes no newly packed entries.
    ///
    /// Fails with `ArchiveError::TooLarge`, and changes nothing, exactly
    /// where one of the files is longer than a 32-bit length can say.
    pub fn add_file(&mut self, sources: Vec<SourceFile>, _compression: CompressionLevel) -> (r:
        Result<(), ArchiveError>)
        ensures
            final(self)@.data == old(self)@.data,
            match r {
                Ok(()) => all_fit(source_views(sources@)) && final(self)@.directories == after_add(
                    old(self)@.directories,
                    prepared_all(source_views(sources@), 0),
                ),
                Err(e) => e == ArchiveError::TooLarge && !all_fit(source_views(sources@))
                    && final(self)@.directories == old(self)@.directories,
            },
    {
        let stored = match CompressionLevel::new(0) {
            Ok(level) => level,
            Err(_) => { return Err(ArchiveError::TooLarge); },
        };
        match prepare_all(sources, stored) {
            Ok(batch) => {
                self.add_entries(batch);
                Ok(())
            },
            Err(_) => Err(ArchiveError::TooLarge),
        }
    }

    /// Takes the file of the given name out of the first directory that
    /// holds one. The name may be written with either separator.
    ///
    /// Fails with `ArchiveError::NotFound`, and changes nothing, exactly
    /// where no directory holds a file of that name. The directory stays,
    /// also where it is left without files.
    pub fn delete_file(&mut self, file_name: &str) -> (r: Result<(), ArchiveError>)
        ensures
            final(self)@.data == old(self)@.data,
            ({
                let name = replace_char(file_name@, '/', '\\');
                let dirs = old(self)@.directories;
                let at = holder(dirs, name);
                match r {
                    Ok(()) => at < dirs.len() && final(self)@.directories == dirs.update(
                        at,
                        DirView {
                            name: dirs[at].name,
                            files: dirs[at].files.remove(index_of_name(dirs[at].files, name)),
                        },
                    ),
                    Err(e) => e == ArchiveError::NotFound && at == dirs.len()
                        && final(self)@.directories == dirs,
                }
            }),
    {
        let ghost dirs = dir_views(self.directories@);
        let name = normalize_path_for_archive(file_name);
        let n = self.directories.len();
        let mut i: usize = 0;
        while i < n
            invariant
                i <= n,
                n == self.directories@.len(),
                dirs == dir_views(self.directories@),
                name@ == replace_char(file_name@, '/', '\\'),
                self.directories@ == old(self).directories@,
                self.data@ == old(self).data@,
                forall|k: int| 0 <= k < i ==> !has_name((#[trigger] dirs[k]).files, name@),
            decreases n - i,
        {
            let at = find_name(&self.directories[i].files, &name);
            if at < self.directories[i].files.len() {
                proof {
                    assert(dirs[i as int] == self.directories@[i as int]@);
                    lemma_holder(dirs, name@, i as int);
                }
                let mut dir = self.directories.remove(i);
                let ghost was = dir@;
                let ghost files = dir.files@;
                dir.files.remove(at);
                let ghost now = dir@;
                proof {
                    assert(was == dirs[i as int]);
                    assert(entry_views(files.remove(at as int)) =~= entry_views(files).remove(
                        at as int,
                    ));
                    assert(now == (DirView {
                        name: was.name,
                        files: was.files.remove(at as int),
                    }));
                    assert(at == index_of_name(dirs[i as int].files, name@));
                }
                self.directories.insert(i, dir);
                proof {
                    assert(dir_views(self.directories@)[i as int] == now);
                    assert(dir_views(self.directories@) =~= dirs.update(
                        i as int,
                        DirView {
                            name: dirs[i as int].name,
                            files: dirs[i as int].files.remove(at as int),
                        },
                    ));
                }
                return Ok(());
            }
            proof {
                assert(dirs[i as int] == self.directories@[i as int]@);
            }
            i = i + 1;
        }
        proof {
            lemma_holder(dirs, name@, n as int);
        }
        Err(ArchiveError::NotFound)
    }

    /// References to the files of all directories, in the order in which
    /// they are written.
    pub fn entries(&self) -> (r: Vec<&FileEntry>)
        ensures
            ref_views(r@) == all_files(self@.directories),
    {
        let ghost dirs = dir_views(self.directories@);
        let mut out: Vec<&FileEntry> = Vec::new();
        let n = self.directories.len();
        let mut i: usize = 0;
        proof {
            assert(dirs.take(0) =~= Seq::<DirView>::empty());
            assert(ref_views(out@) =~= Seq::<EntryView>::empty());
        }
        while i < n
            invariant
                i <= n,
                n == self.directories@.len(),
                dirs == dir_views(self.directories@),
                ref_views(out@) == all_files(dirs.take(i as int)),
            decreases n - i,
        {
            let dir = &self.directories[i];
            let ghost base = ref_views(out@);
            let ghost files = entry_views(dir.files@);
            let m = dir.files.len();
            let mut j: usize = 0;
            proof {
                assert(base + files.take(0) =~= base);
            }
            while j < m
                invariant
                    j <= m,
                    m == dir.files@.len(),
                    files == entry_views(dir.files@),
                    ref_views(out@) == base + files.take(j as int),
                decreases m - j,
            {
                let ghost so_far = ref_views(out@);
                out.push(&dir.files[j]);
                proof {
                    assert(ref_views(out@) =~= so_far.push(dir.files@[j as int]@));
                    assert(base + files.take(j + 1) =~= (base + files.take(j as int)).push(
                        files[j as int],
                    ));
                }
                j = j + 1;
            }
            proof {
                assert(files.take(m as int) =~= files);
                assert(dirs.take(i + 1).drop_last() =~= dirs.take(i as int));
                assert(dirs.take(i + 1).last() == dir@);
            }
            i = i + 1;
        }
        proof {
            assert(dirs.take(n as int) =~= dirs);
        }
        out
    }

    /// The files that the patterns pick, one line each, and the patterns
    /// that pick nothing.
    pub fn list(&self, patterns: &[String]) -> (r: (Vec<ListRow>, Vec<String>))
        ensures
            row_views(r.0@) == selection(
                all_files(self@.directories),
                archive_forms(texts(patterns@)),
            ).map_values(|e: EntryView| row_of(e)),
            texts(r.1@) == unused_patterns(
                all_files(self@.directories),
                archive_forms(texts(patterns@)),
                patterns@.len() as int,
            ),
    {
        let all = self.entries();
        let (picked, missing) = select(all.as_slice(), patterns);
        (rows_of(picked.as_slice()), missing)
    }

    /// Name and content of the files that the patterns pick, and the
    /// patterns that pick nothing. Packed files are unpacked by the
    /// dictionary coder.
    ///
    /// The first file whose content cannot be had ends the work: with
    /// `ArchiveError::Bounds` where it names bytes outside the buffer, with
    /// `ArchiveError::Compression` where its packed stream is damaged.
    pub fn extract(&self, patterns: &[String]) -> (r: Result<
        (Vec<ExtractedFile>, Vec<String>),
        ArchiveError,
    >)
        ensures
            match r {
                Ok((files, missing)) => contents_from(
                    selection(all_files(self@.directories), archive_forms(texts(patterns@))),
                    self@.data,
                    Coder::Dictionary,
                    0,
                ) == Ok::<Seq<(Seq<char>, Seq<u8>)>, ArchiveError>(extracted_views(files@))
                    && texts(missing@) == unused_patterns(
                    all_files(self@.directories),
                    archive_forms(texts(patterns@)),
                    patterns@.len() as int,
                ),
                Err(e) => contents_from(
                    selection(all_files(self@.directories), archive_forms(texts(patterns@))),
                    self@.data,
                    Coder::Dictionary,
                    0,
                ) == Err::<Seq<(Seq<char>, Seq<u8>)>, ArchiveError>(e),
            },
    {
        let all = self.entries();
        let (picked, missing) = select(all.as_slice(), patterns);
        match extract_files(picked.as_slice(), self.data.as_slice(), Coder::Dictionary) {
            Ok(files) => Ok((files, missing)),
            Err(e) => Err(e),
        }
    }

    /// The content of `file`, unpacked by the dictionary coder where the
    /// entry is flagged as packed.
    pub fn extract_entry(&self, file: &FileEntry) -> (r: Result<Vec<u8>, ArchiveError>)
        ensures
            match r {
                Ok(bytes) => content(file@, self@.data, Coder::Dictionary) == Ok::<
                    Seq<u8>,
                    ArchiveError,
                >(bytes@),
                Err(e) => content(file@, self@.data, Coder::Dictionary) == Err::<
                    Seq<u8>,
                    ArchiveError,
                >(e),
            },
    {
        extract_entry(file, self.data.as_slice(), Coder::Dictionary)
    }

    /// The buffer that the archive was read from.
    pub fn raw(&self) -> (r: &Vec<u8>)
        ensures
            r@ == self@.data,
    {
        &self.data
    }

    /// The stored bytes of `file` in this archive.
    ///
    /// Fails with `ArchiveError::Bounds` exactly where the entry holds no
    /// bytes of its own and the range it names does not lie inside the
    /// archive's buffer.
    pub fn read_file_data(&self, file: &FileEntry) -> (r: Result<Vec<u8>, ArchiveError>)
        ensures
            match r {
                Ok(bytes) => file@.stored(self@.data) == Some(bytes@),
                Err(e) => e == ArchiveError::Bounds && file@.stored(self@.data) is None,
            },
    {
        file.read_stored(self.data.as_slice())
    }
}

} // verus!
