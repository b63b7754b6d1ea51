//! The directory layout in terms of plain values: what a file of the layout
//! lists, what file a row of directories makes, and what adding and deleting
//! make of the directories.
use crate::endian::{be_u32_at, be_u32_bytes};
use crate::entries::{first_of_each_name, has_name, without_names};
use crate::entry::EntryView;
use crate::error::ArchiveError;
use crate::flat::{all_stored, data_region};
use crate::names::{decoded_name, NamePolicy};
use vstd::prelude::*;
use vstd::utf8::encode_utf8;

verus! {

/// Length of the header of the file, and of the header of a directory.
pub const HEADER_LEN: usize = 16;

/// Length of a file record without its name: the length of the name and
/// four numbers.
pub const FILE_FIXED_LEN: usize = 17;

/// Bit of the attributes that flags packed bytes.
pub const ATTR_PACKED: u32 = 0x40;

/// Bit of the attributes that flags bytes stored as they are.
pub const ATTR_STORED: u32 = 0x20;

/// A `Directory` as plain values.
pub struct DirView {
    /// The path of the directory, `"."` for the root.
    pub name: Seq<char>,
    /// The files of the directory, in the order in which they are written.
    pub files: Seq<EntryView>,
}

/// The name of the root directory.
pub open spec fn root_name() -> Seq<char> {
    seq!['.']
}

/// The name of a file of directory `dir` whose record names it `file`: the
/// two joined by a backslash, but `file` alone in the root directory.
pub open spec fn full_name(dir: Seq<char>, file: Seq<char>) -> Seq<char> {
    if dir == root_name() {
        file
    } else {
        dir + seq!['\\'] + file
    }
}

/// Whether the attributes of a record flag its bytes as packed.
pub open spec fn flags_packed(attributes: int) -> bool {
    (attributes / 0x40) % 2 == 1
}

/// `names` followed by the names that `rest` holds, where it holds any.
pub open spec fn then_names(
    names: Seq<Seq<char>>,
    rest: Result<(Seq<Seq<char>>, int), ArchiveError>,
) -> Result<(Seq<Seq<char>>, int), ArchiveError> {
    match rest {
        Ok((more, end)) => Ok((names + more, end)),
        Err(e) => Err(e),
    }
}

/// `files` followed by the entries that `rest` holds, where it holds any.
pub open spec fn then_files(
    files: Seq<EntryView>,
    rest: Result<(Seq<EntryView>, int), ArchiveError>,
) -> Result<(Seq<EntryView>, int), ArchiveError> {
    match rest {
        Ok((more, end)) => Ok((files + more, end)),
        Err(e) => Err(e),
    }
}

/// `dirs` followed by the directories that `rest` holds, where it holds
/// any.
pub open spec fn then_dirs(dirs: Seq<DirView>, rest: Result<Seq<DirView>, ArchiveError>)
    -> Result<Seq<DirView>, ArchiveError> {
    match rest {
        Ok(more) => Ok(dirs + more),
        Err(e) => Err(e),
    }
}

/// The name that starts at `pos` with its length byte, and where it ends.
pub open spec fn parse_name(data: Seq<u8>, pos: int, policy: NamePolicy) -> Result<
    (Seq<char>, int),
    ArchiveError,
> {
    if pos < 0 || pos + 1 > data.len() || pos + 1 + data[pos] > data.len() {
        Err(ArchiveError::Format)
    } else {
        match decoded_name(data.subrange(pos + 1, pos + 1 + data[pos]), policy) {
            None => Err(ArchiveError::Encoding),
            Some(name) => Ok((name, pos + 1 + data[pos])),
        }
    }
}

/// The `count` names from `pos` on, and where they end.
pub open spec fn parse_names(data: Seq<u8>, pos: int, count: nat, policy: NamePolicy) -> Result<
    (Seq<Seq<char>>, int),
    ArchiveError,
>
    decreases count,
{
    if count == 0 {
        Ok((Seq::empty(), pos))
    } else {
        match parse_name(data, pos, policy) {
            Err(e) => Err(e),
            Ok((name, next)) => then_names(
                seq![name],
                parse_names(data, next, (count - 1) as nat, policy),
            ),
        }
    }
}

/// The file record that starts at `pos` in the record of directory `dir`,
/// and where it ends. A packed length of zero stands for the unpacked
/// length.
pub open spec fn parse_file(data: Seq<u8>, pos: int, dir: Seq<char>, policy: NamePolicy)
    -> Result<(EntryView, int), ArchiveError> {
    match parse_name(data, pos, policy) {
        Err(e) => Err(e),
        Ok((name, at)) => if at + 16 > data.len() {
            Err(ArchiveError::Format)
        } else {
            Ok(
                (
                    EntryView {
                        name: full_name(dir, name),
                        offset: be_u32_at(data, at + 4) as u64,
                        size: be_u32_at(data, at + 8) as u32,
                        packed_size: if be_u32_at(data, at + 12) == 0 {
                            be_u32_at(data, at + 8) as u32
                        } else {
                            be_u32_at(data, at + 12) as u32
                        },
                        compressed: flags_packed(be_u32_at(data, at)),
                        data: None,
                    },
                    at + 16,
                ),
            )
        },
    }
}

/// The `count` file records from `pos` on, and where they end.
pub open spec fn parse_files(
    data: Seq<u8>,
    pos: int,
    count: nat,
    dir: Seq<char>,
    policy: NamePolicy,
) -> Result<(Seq<EntryView>, int), ArchiveError>
    decreases count,
{
    if count == 0 {
        Ok((Seq::empty(), pos))
    } else {
        match parse_file(data, pos, dir, policy) {
            Err(e) => Err(e),
            Ok((entry, next)) => then_files(
                seq![entry],
                parse_files(data, next, (count - 1) as nat, dir, policy),
            ),
        }
    }
}

/// The record of the directory `name` that starts at `pos`, and where it
/// ends.
pub open spec fn parse_dir(data: Seq<u8>, pos: int, name: Seq<char>, policy: NamePolicy)
    -> Result<(DirView, int), ArchiveError> {
    if pos < 0 || pos + 16 > data.len() {
        Err(ArchiveError::Format)
    } else {
        match parse_files(data, pos + 16, be_u32_at(data, pos) as nat, name, policy) {
            Err(e) => Err(e),
            Ok((files, end)) => Ok((DirView { name, files }, end)),
        }
    }
}

/// The records of the directories named `names[from..]`, from `pos` on.
pub open spec fn parse_dirs(
    data: Seq<u8>,
    pos: int,
    names: Seq<Seq<char>>,
    from: int,
    policy: NamePolicy,
) -> Result<Seq<DirView>, ArchiveError>
    decreases names.len() - from,
{
    if from < 0 || from >= names.len() {
        Ok(Seq::empty())
    } else {
        match parse_dir(data, pos, names[from], policy) {
            Err(e) => Err(e),
            Ok((dir, next)) => then_dirs(seq![dir], parse_dirs(data, next, names, from + 1, policy)),
        }
    }
}

/// The directories that a file of the directory layout lists.
pub open spec fn parsed_tree(data: Seq<u8>, policy: NamePolicy) -> Result<
    Seq<DirView>,
    ArchiveError,
> {
    if data.len() < HEADER_LEN {
        Err(ArchiveError::Format)
    } else {
        match parse_names(data, 16, be_u32_at(data, 0) as nat, policy) {
            Err(e) => Err(e),
            Ok((names, pos)) => parse_dirs(data, pos, names, 0, policy),
        }
    }
}

/// `name` lies in the directory `dir`: it is the path of the directory, a
/// backslash, and something more.
pub open spec fn in_directory(name: Seq<char>, dir: Seq<char>) -> bool {
    name.len() > dir.len() && name.take(dir.len() as int) == dir && name[dir.len() as int] == '\\'
}

/// The name that the record of a file gives it: its name without the path
/// of the directory where it lies in that directory and the directory is
/// not the root, else all of its name.
pub open spec fn stored_name(name: Seq<char>, dir: Seq<char>) -> Seq<char> {
    if dir != root_name() && in_directory(name, dir) {
        name.skip(dir.len() as int + 1)
    } else {
        name
    }
}

/// A name as it is written: one byte for its length, then its bytes.
pub open spec fn name_field(name: Seq<char>) -> Seq<u8> {
    seq![encode_utf8(name).len() as u8] + encode_utf8(name)
}

/// The header of the file: the number of directories and three numbers
/// that are always the same.
pub open spec fn file_header(count: u32) -> Seq<u8> {
    be_u32_bytes(count) + be_u32_bytes(0x0A) + be_u32_bytes(0) + be_u32_bytes(0)
}

/// The header of a directory: the number of its files and three numbers
/// that are always the same.
pub open spec fn dir_header(count: u32) -> Seq<u8> {
    be_u32_bytes(count) + be_u32_bytes(0x0A) + be_u32_bytes(0x10) + be_u32_bytes(0)
}

/// The record of one file of directory `dir` whose stored bytes start at
/// `offset`. A stored entry gets zero for its packed length.
pub open spec fn file_record(e: EntryView, dir: Seq<char>, offset: u32) -> Seq<u8> {
    name_field(stored_name(e.name, dir)) + be_u32_bytes(
        if e.compressed {
            ATTR_PACKED
        } else {
            ATTR_STORED
        },
    ) + be_u32_bytes(offset) + be_u32_bytes(e.size) + be_u32_bytes(
        if e.compressed {
            e.packed_size
        } else {
            0
        },
    )
}

/// The records of the files of one directory, where the stored bytes of
/// the first start at `base`.
pub open spec fn file_records(files: Seq<EntryView>, dir: Seq<char>, source: Seq<u8>, base: int)
    -> Seq<u8>
    decreases files.len(),
{
    if files.len() == 0 {
        Seq::empty()
    } else {
        file_records(files.drop_last(), dir, source, base) + file_record(
            files.last(),
            dir,
            (base + data_region(files.drop_last(), source).len()) as u32,
        )
    }
}

/// Length of the records of the files of one directory.
pub open spec fn file_records_len(files: Seq<EntryView>, dir: Seq<char>) -> int
    decreases files.len(),
{
    if files.len() == 0 {
        0
    } else {
        file_records_len(files.drop_last(), dir) + FILE_FIXED_LEN + encode_utf8(
            stored_name(files.last().name, dir),
        ).len()
    }
}

/// The record of one directory, where the stored bytes of its first file
/// start at `base`.
pub open spec fn dir_record(d: DirView, source: Seq<u8>, base: int) -> Seq<u8> {
    dir_header(d.files.len() as u32) + file_records(d.files, d.name, source, base)
}

/// The names of all directories as they are written.
pub open spec fn dir_names(dirs: Seq<DirView>) -> Seq<u8>
    decreases dirs.len(),
{
    if dirs.len() == 0 {
        Seq::empty()
    } else {
        dir_names(dirs.drop_last()) + name_field(dirs.last().name)
    }
}

/// The stored bytes of the files of all directories, one after another.
pub open spec fn tree_data(dirs: Seq<DirView>, source: Seq<u8>) -> Seq<u8>
    decreases dirs.len(),
{
    if dirs.len() == 0 {
        Seq::empty()
    } else {
        tree_data(dirs.drop_last(), source) + data_region(dirs.last().files, source)
    }
}

/// The records of all directories, where the stored bytes of the first
/// file of the first directory start at `base`.
pub open spec fn dir_records(dirs: Seq<DirView>, source: Seq<u8>, base: int) -> Seq<u8>
    decreases dirs.len(),
{
    if dirs.len() == 0 {
        Seq::empty()
    } else {
        dir_records(dirs.drop_last(), source, base) + dir_record(
            dirs.last(),
            source,
            base + tree_data(dirs.drop_last(), source).len(),
        )
    }
}

/// Length of the records of all directories.
pub open spec fn dir_records_len(dirs: Seq<DirView>) -> int
    decreases dirs.len(),
{
    if dirs.len() == 0 {
        0
    } else {
        dir_records_len(dirs.drop_last()) + HEADER_LEN + file_records_len(
            dirs.last().files,
            dirs.last().name,
        )
    }
}

/// Length of all that stands in front of the stored bytes: the header, the
/// names and the records.
pub open spec fn meta_len(dirs: Seq<DirView>) -> int {
    HEADER_LEN + dir_names(dirs).len() + dir_records_len(dirs)
}

/// The name of the directory and the names that the records give its files
/// take at most 255 bytes each.
pub open spec fn dir_names_fit(d: DirView) -> bool {
    &&& encode_utf8(d.name).len() <= 255
    &&& forall|j: int|
        0 <= j < d.files.len() ==> encode_utf8(stored_name((#[trigger] d.files[j]).name, d.name)).len()
            <= 255
}

/// Every name fits the byte that gives its length, and every offset fits
/// its 32 bits.
pub open spec fn tree_fits(dirs: Seq<DirView>, source: Seq<u8>) -> bool {
    &&& forall|i: int| 0 <= i < dirs.len() ==> dir_names_fit(#[trigger] dirs[i])
    &&& meta_len(dirs) + tree_data(dirs, source).len() <= u32::MAX
}

/// Every file of every directory has stored bytes to write.
pub open spec fn tree_stored(dirs: Seq<DirView>, source: Seq<u8>) -> bool {
    forall|i: int| 0 <= i < dirs.len() ==> all_stored((#[trigger] dirs[i]).files, source)
}

/// The file that the directories make: header, names, records, data.
pub open spec fn tree_image(dirs: Seq<DirView>, source: Seq<u8>) -> Seq<u8> {
    file_header(dirs.len() as u32) + dir_names(dirs) + dir_records(dirs, source, meta_len(dirs))
        + tree_data(dirs, source)
}

/// What saving gives: the file, unless an entry names bytes outside the
/// buffer, or a name or the file is longer than the layout can say.
pub open spec fn saved_tree(dirs: Seq<DirView>, source: Seq<u8>) -> Result<
    Seq<u8>,
    ArchiveError,
> {
    if !tree_stored(dirs, source) {
        Err(ArchiveError::Bounds)
    } else if !tree_fits(dirs, source) {
        Err(ArchiveError::TooLarge)
    } else {
        Ok(tree_image(dirs, source))
    }
}

/// One more file adds its record to the records of a directory.
pub proof fn lemma_file_step(
    files: Seq<EntryView>,
    dir: Seq<char>,
    source: Seq<u8>,
    base: int,
    i: int,
)
    requires
        0 <= i < files.len(),
    ensures
        file_records(files.take(i + 1), dir, source, base) == file_records(
            files.take(i),
            dir,
            source,
            base,
        ) + file_record(files[i], dir, (base + data_region(files.take(i), source).len()) as u32),
        file_records_len(files.take(i + 1), dir) == file_records_len(files.take(i), dir)
            + FILE_FIXED_LEN + encode_utf8(stored_name(files[i].name, dir)).len(),
        data_region(files.take(i + 1), source) == data_region(files.take(i), source)
            + files[i].stored(source).unwrap(),
{
    assert(files.take(i + 1).drop_last() == files.take(i));
    assert(files.take(i + 1).last() == files[i]);
}

/// One more directory adds its name, its record and its data.
pub proof fn lemma_dir_step(dirs: Seq<DirView>, source: Seq<u8>, base: int, i: int)
    requires
        0 <= i < dirs.len(),
    ensures
        dir_names(dirs.take(i + 1)) == dir_names(dirs.take(i)) + name_field(dirs[i].name),
        tree_data(dirs.take(i + 1), source) == tree_data(dirs.take(i), source) + data_region(
            dirs[i].files,
            source,
        ),
        dir_records(dirs.take(i + 1), source, base) == dir_records(dirs.take(i), source, base)
            + dir_record(dirs[i], source, base + tree_data(dirs.take(i), source).len()),
        dir_records_len(dirs.take(i + 1)) == dir_records_len(dirs.take(i)) + HEADER_LEN
            + file_records_len(dirs[i].files, dirs[i].name),
{
    assert(dirs.take(i + 1).drop_last() == dirs.take(i));
    assert(dirs.take(i + 1).last() == dirs[i]);
}

/// The first `k` directories take no more room than all of them.
pub proof fn lemma_dirs_prefix_len(dirs: Seq<DirView>, source: Seq<u8>, k: int)
    requires
        0 <= k <= dirs.len(),
    ensures
        dir_names(dirs.take(k)).len() <= dir_names(dirs).len(),
        dir_records_len(dirs.take(k)) <= dir_records_len(dirs),
        tree_data(dirs.take(k), source).len() <= tree_data(dirs, source).len(),
    decreases dirs.len() - k,
{
    if k < dirs.len() {
        lemma_dir_step(dirs, source, 0, k);
        lemma_file_records_len_bounds(dirs[k].files, dirs[k].name);
        lemma_dirs_prefix_len(dirs, source, k + 1);
    } else {
        assert(dirs.take(k) == dirs);
    }
}

/// The records of the files of a directory take at least seventeen bytes
/// each.
pub proof fn lemma_file_records_len_bounds(files: Seq<EntryView>, dir: Seq<char>)
    ensures
        file_records_len(files, dir) >= 17 * files.len(),
    decreases files.len(),
{
    if files.len() > 0 {
        lemma_file_records_len_bounds(files.drop_last(), dir);
    }
}

/// The records of the directories take at least sixteen bytes each.
pub proof fn lemma_dir_records_len_bounds(dirs: Seq<DirView>)
    ensures
        dir_records_len(dirs) >= 16 * dirs.len(),
    decreases dirs.len(),
{
    if dirs.len() > 0 {
        lemma_dir_records_len_bounds(dirs.drop_last());
        lemma_file_records_len_bounds(dirs.last().files, dirs.last().name);
    }
}

/// The records of the files of a directory, with names that fit, are as
/// long as `file_records_len` says.
pub proof fn lemma_file_records_len(
    files: Seq<EntryView>,
    dir: Seq<char>,
    source: Seq<u8>,
    base: int,
)
    ensures
        file_records(files, dir, source, base).len() == file_records_len(files, dir),
    decreases files.len(),
{
    if files.len() > 0 {
        lemma_file_records_len(files.drop_last(), dir, source, base);
    }
}

/// The records of the directories are as long as `dir_records_len` says.
pub proof fn lemma_dir_records_len(dirs: Seq<DirView>, source: Seq<u8>, base: int)
    ensures
        dir_records(dirs, source, base).len() == dir_records_len(dirs),
    decreases dirs.len(),
{
    if dirs.len() > 0 {
        lemma_dir_records_len(dirs.drop_last(), source, base);
        lemma_file_records_len(
            dirs.last().files,
            dirs.last().name,
            source,
            base + tree_data(dirs.drop_last(), source).len(),
        );
    }
}

/// The files of directory `i` can be counted in 32 bits, and their offsets
/// stay within 32 bits, where the whole file does.
pub proof fn lemma_record_pass(dirs: Seq<DirView>, source: Seq<u8>, i: int)
    requires
        0 <= i < dirs.len(),
        meta_len(dirs) + tree_data(dirs, source).len() <= u32::MAX,
    ensures
        dirs[i].files.len() <= u32::MAX,
        meta_len(dirs) + tree_data(dirs.take(i), source).len() + data_region(
            dirs[i].files,
            source,
        ).len() <= u32::MAX,
{
    let d = dirs[i];
    assert(tree_data(dirs.take(i + 1), source).len() == tree_data(dirs.take(i), source).len()
        + data_region(d.files, source).len() && dir_records_len(dirs.take(i + 1)) >= 17
        * d.files.len()) by {
        lemma_dir_step(dirs, source, 0, i);
        lemma_file_records_len_bounds(d.files, d.name);
        lemma_dir_records_len_bounds(dirs.take(i));
    }
    assert(tree_data(dirs.take(i + 1), source).len() <= tree_data(dirs, source).len()
        && dir_records_len(dirs.take(i + 1)) <= dir_records_len(dirs)) by {
        lemma_dirs_prefix_len(dirs, source, i + 1);
    }
}

/// The files of all directories, in the order in which they are written.
pub open spec fn all_files(dirs: Seq<DirView>) -> Seq<EntryView>
    decreases dirs.len(),
{
    if dirs.len() == 0 {
        Seq::empty()
    } else {
        all_files(dirs.drop_last()) + dirs.last().files
    }
}

/// Index of the last backslash of `name` in front of `end`, or -1 where
/// there is none.
pub open spec fn last_backslash(name: Seq<char>, end: int) -> int
    decreases end,
{
    if end <= 0 {
        -1
    } else if name[end - 1] == '\\' {
        end - 1
    } else {
        last_backslash(name, end - 1)
    }
}

/// The directory that a file of the given name belongs to: what stands in
/// front of the last backslash of the name, or the root where it has none.
pub open spec fn directory_of(name: Seq<char>) -> Seq<char> {
    let at = last_backslash(name, name.len() as int);
    if at < 0 {
        root_name()
    } else {
        name.take(at)
    }
}

/// Index of the first directory called `name`, or the number of
/// directories where none is.
pub open spec fn dir_index(dirs: Seq<DirView>, name: Seq<char>) -> int
    decreases dirs.len(),
{
    if dirs.len() == 0 || dirs[0].name == name {
        0
    } else {
        1 + dir_index(dirs.drop_first(), name)
    }
}

/// Index of the first directory that holds a file called `name`, or the
/// number of directories where none does.
pub open spec fn holder(dirs: Seq<DirView>, name: Seq<char>) -> int
    decreases dirs.len(),
{
    if dirs.len() == 0 || has_name(dirs[0].files, name) {
        0
    } else {
        1 + holder(dirs.drop_first(), name)
    }
}

/// Directory `d` with `e` as its last file.
pub open spec fn with_file(d: DirView, e: EntryView) -> DirView {
    DirView { name: d.name, files: d.files.push(e) }
}

/// The directories once `e` has joined them: as the last file of the first
/// directory that carries the name of its directory, or, where there is
/// none, as the only file of a new last directory of that name.
pub open spec fn placed(dirs: Seq<DirView>, e: EntryView) -> Seq<DirView> {
    let at = dir_index(dirs, directory_of(e.name));
    if at < dirs.len() {
        dirs.update(at, with_file(dirs[at], e))
    } else {
        dirs.push(DirView { name: directory_of(e.name), files: seq![e] })
    }
}

/// The directories once the entries of `batch` have joined them one after
/// another.
pub open spec fn placed_all(dirs: Seq<DirView>, batch: Seq<EntryView>) -> Seq<DirView>
    decreases batch.len(),
{
    if batch.len() == 0 {
        dirs
    } else {
        placed(placed_all(dirs, batch.drop_last()), batch.last())
    }
}

/// The directories without the files whose name some entry of `batch`
/// carries.
pub open spec fn dirs_without(dirs: Seq<DirView>, batch: Seq<EntryView>) -> Seq<DirView> {
    dirs.map_values(|d: DirView| DirView { name: d.name, files: without_names(d.files, batch) })
}

/// What an archive holds once `batch` has been added: an entry of the
/// batch replaces the file of that name, and of two entries of the batch
/// with one name the first is kept.
pub open spec fn after_add(dirs: Seq<DirView>, batch: Seq<EntryView>) -> Seq<DirView> {
    placed_all(dirs_without(dirs, batch), first_of_each_name(batch))
}

/// Where the first directory called `name` is found, `dir_index` is found.
pub proof fn lemma_dir_index(dirs: Seq<DirView>, name: Seq<char>, k: int)
    requires
        0 <= k <= dirs.len(),
        forall|i: int| 0 <= i < k ==> (#[trigger] dirs[i]).name != name,
        k == dirs.len() || dirs[k].name == name,
    ensures
        dir_index(dirs, name) == k,
    decreases dirs.len(),
{
    if k > 0 {
        assert(dirs[0].name != name);
        lemma_dir_index(dirs.drop_first(), name, k - 1);
    }
}

/// Where the first directory that holds a file called `name` is found,
/// `holder` is found.
pub proof fn lemma_holder(dirs: Seq<DirView>, name: Seq<char>, k: int)
    requires
        0 <= k <= dirs.len(),
        forall|i: int| 0 <= i < k ==> !has_name((#[trigger] dirs[i]).files, name),
        k == dirs.len() || has_name(dirs[k].files, name),
    ensures
        holder(dirs, name) == k,
    decreases dirs.len(),
{
    if k > 0 {
        assert(!has_name(dirs[0].files, name));
        lemma_holder(dirs.drop_first(), name, k - 1);
    }
}

} // verus!
