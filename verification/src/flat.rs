//! The flat layout: the stored bytes of all entries one after another from
//! offset zero, then the tree (a count and one record per entry), then a
//! footer of two numbers, the length of the tree and the length of the whole
//! file. Every number is 32 bits wide, least significant byte first.
use crate::endian::{le_u32_at, le_u32_bytes, push_le_u32, read_le_u32};
use crate::entries::{
    entry_views, find_name, has_name, index_of_name, merge_batch, merged, NameOrder, sort_entries,
    sorted_by_name,
};
use crate::entry::{
    all_fit, CompressionLevel, EntryView, FileEntry, prepare_all, prepared_all, source_views,
    SourceFile,
};
use crate::error::ArchiveError;
use crate::extract::{
    Coder, content, contents_from, extract_entry, extract_files, extracted_views, ExtractedFile,
};
use crate::filter::texts;
use crate::names::{
    decode_filename_with, decoded_name, NamePolicy, normalize_path_for_archive, replace_char,
};
use crate::select::{
    archive_forms, ListRow, refs_of, row_of, row_views, rows_of, select, selection, unused_patterns,
};
use vstd::prelude::*;
use vstd::slice::slice_subrange;
use vstd::utf8::encode_utf8;

verus! {

/// Length of the footer.
pub const FOOTER_LEN: usize = 8;

/// Length of a record without its name: the length of the name, the flag,
/// and three numbers.
pub const RECORD_FIXED_LEN: usize = 17;

/// An archive of the flat layout.
#[derive(Debug)]
pub struct Dat2Archive {
    files: Vec<FileEntry>,
    data: Vec<u8>,
}

/// A `Dat2Archive` as plain values.
pub struct FlatView {
    /// The entries, in the order in which they will be written.
    pub files: Seq<EntryView>,
    /// The buffer that the archive was read from, empty for a new one.
    pub data: Seq<u8>,
}

impl View for Dat2Archive {
    type V = FlatView;

    closed spec fn view(&self) -> FlatView {
        FlatView { files: entry_views(self.files@), data: self.data@ }
    }
}

/// The record of one entry whose stored bytes start at `offset`.
pub open spec fn flat_record(e: EntryView, offset: u32) -> Seq<u8> {
    le_u32_bytes(encode_utf8(e.name).len() as u32) + encode_utf8(e.name) + seq![
        if e.compressed {
            1u8
        } else {
            0u8
        },
    ] + le_u32_bytes(e.size) + le_u32_bytes(e.packed_size) + le_u32_bytes(offset)
}

/// Every entry has stored bytes to write.
pub open spec fn all_stored(files: Seq<EntryView>, source: Seq<u8>) -> bool {
    forall|i: int| 0 <= i < files.len() ==> (#[trigger] files[i]).stored(source) is Some
}

/// The stored bytes of all entries, one after another.
pub open spec fn data_region(files: Seq<EntryView>, source: Seq<u8>) -> Seq<u8>
    decreases files.len(),
{
    if files.len() == 0 {
        Seq::empty()
    } else {
        data_region(files.drop_last(), source) + files.last().stored(source).unwrap()
    }
}

/// The records of all entries, one after another, each with the offset at
/// which its stored bytes start in `data_region`.
pub open spec fn flat_records(files: Seq<EntryView>, source: Seq<u8>) -> Seq<u8>
    decreases files.len(),
{
    if files.len() == 0 {
        Seq::empty()
    } else {
        flat_records(files.drop_last(), source) + flat_record(
            files.last(),
            data_region(files.drop_last(), source).len() as u32,
        )
    }
}

/// Length of the file that the entries make.
pub open spec fn flat_image_len(files: Seq<EntryView>, source: Seq<u8>) -> int {
    data_region(files, source).len() + 4 + flat_records(files, source).len() + FOOTER_LEN
}

/// The file that the entries make: data, count, records, footer.
pub open spec fn flat_image(files: Seq<EntryView>, source: Seq<u8>) -> Seq<u8> {
    data_region(files, source) + le_u32_bytes(files.len() as u32) + flat_records(files, source)
        + le_u32_bytes((4 + flat_records(files, source).len()) as u32) + le_u32_bytes(
        flat_image_len(files, source) as u32,
    )
}

/// What saving gives: the file, unless an entry names bytes outside the
/// buffer, or the file would be longer than a 32-bit length can say.
pub open spec fn saved_flat(files: Seq<EntryView>, source: Seq<u8>) -> Result<
    Seq<u8>,
    ArchiveError,
> {
    if !all_stored(files, source) {
        Err(ArchiveError::Bounds)
    } else if flat_image_len(files, source) > u32::MAX {
        Err(ArchiveError::TooLarge)
    } else {
        Ok(flat_image(files, source))
    }
}

/// The record that starts at `pos`, and where the next one starts. The
/// record must end at or before `limit`.
pub open spec fn parse_flat_record(data: Seq<u8>, pos: int, limit: int, policy: NamePolicy)
    -> Result<(EntryView, int), ArchiveError> {
    if pos + 4 > limit {
        Err(ArchiveError::Format)
    } else {
        let name_end = pos + 4 + le_u32_at(data, pos);
        if name_end + 13 > limit {
            Err(ArchiveError::Format)
        } else {
            match decoded_name(data.subrange(pos + 4, name_end), policy) {
                None => Err(ArchiveError::Encoding),
                Some(name) => Ok(
                    (
                        EntryView {
                            name,
                            offset: le_u32_at(data, name_end + 9) as u64,
                            size: le_u32_at(data, name_end + 1) as u32,
                            packed_size: le_u32_at(data, name_end + 5) as u32,
                            compressed: data[name_end] == 1,
                            data: None,
                        },
                        name_end + 13,
                    ),
                ),
            }
        }
    }
}

/// `head` in front of the entries that `tail` holds, where it holds any.
pub open spec fn prepend_entries(
    head: Seq<EntryView>,
    tail: Result<Seq<EntryView>, ArchiveError>,
) -> Result<Seq<EntryView>, ArchiveError> {
    match tail {
        Ok(t) => Ok(head + t),
        Err(e) => Err(e),
    }
}

/// The `count` records from `pos` on.
pub open spec fn parse_flat_records(
    data: Seq<u8>,
    pos: int,
    limit: int,
    count: nat,
    policy: NamePolicy,
) -> Result<Seq<EntryView>, ArchiveError>
    decreases count,
{
    if count == 0 {
        Ok(Seq::empty())
    } else {
        match parse_flat_record(data, pos, limit, policy) {
            Err(e) => Err(e),
            Ok((entry, next)) => prepend_entries(
                seq![entry],
                parse_flat_records(data, next, limit, (count - 1) as nat, policy),
            ),
        }
    }
}

/// Where the tree of a file starts according to its footer, or nothing
/// where the footer does not fit the file: the file is shorter than a
/// footer, the length it gives is not the length of the file, the tree
/// would start before offset 4, or the tree has no room for its count.
pub open spec fn tree_start(data: Seq<u8>) -> Option<int> {
    if data.len() < FOOTER_LEN {
        None
    } else {
        let tree_size = le_u32_at(data, data.len() - 8);
        let dat_size = le_u32_at(data, data.len() - 4);
        let start = dat_size - tree_size - 8;
        if dat_size != data.len() || start < 4 || tree_size < 4 {
            None
        } else {
            Some(start)
        }
    }
}

/// The entries that a file of the flat layout lists.
pub open spec fn parsed_flat(data: Seq<u8>, policy: NamePolicy) -> Result<
    Seq<EntryView>,
    ArchiveError,
> {
    match tree_start(data) {
        None => Err(ArchiveError::Format),
        Some(start) => parse_flat_records(
            data,
            start + 4,
            data.len() - 8,
            le_u32_at(data, start) as nat,
            policy,
        ),
    }
}

/// Reads the record at `pos`.
fn read_record(data: &[u8], pos: usize, limit: usize, policy: NamePolicy) -> (r: Result<
    (FileEntry, usize),
    ArchiveError,
>)
    requires
        pos <= limit <= data@.len(),
    ensures
        match r {
            Ok((entry, next)) => parse_flat_record(data@, pos as int, limit as int, policy) == Ok::<
                (EntryView, int),
                ArchiveError,
            >((entry@, next as int)) && pos < next <= limit,
            Err(e) => parse_flat_record(data@, pos as int, limit as int, policy) == Err::<
                (EntryView, int),
                ArchiveError,
            >(e),
        },
{
    if limit - pos < 4 {
        return Err(ArchiveError::Format);
    }
    let name_len = match read_le_u32(data, pos) {
        Some(n) => n as usize,
        None => { return Err(ArchiveError::Format); },
    };
    let name_start = pos + 4;
    if limit - name_start < name_len || limit - name_start - name_len < 13 {
        return Err(ArchiveError::Format);
    }
    let name_end = name_start + name_len;
    let name = match decode_filename_with(slice_subrange(data, name_start, name_end), policy) {
        Ok(name) => name,
        Err(_) => { return Err(ArchiveError::Encoding); },
    };
    let flag = data[name_end];
    let size = read_le_u32(data, name_end + 1).unwrap();
    let packed_size = read_le_u32(data, name_end + 5).unwrap();
    let offset = read_le_u32(data, name_end + 9).unwrap();
    let entry = FileEntry {
        name,
        offset: offset as u64,
        size,
        packed_size,
        compressed: flag == 1,
        data: None,
    };
    Ok((entry, name_end + 13))
}

/// One more entry adds its stored bytes to the data and its record to the
/// records.
pub proof fn lemma_flat_step(files: Seq<EntryView>, source: Seq<u8>, i: int)
    requires
        0 <= i < files.len(),
    ensures
        data_region(files.take(i + 1), source) == data_region(files.take(i), source)
            + files[i].stored(source).unwrap(),
        flat_records(files.take(i + 1), source) == flat_records(files.take(i), source)
            + flat_record(files[i], data_region(files.take(i), source).len() as u32),
{
    assert(files.take(i + 1).drop_last() == files.take(i));
    assert(files.take(i + 1).last() == files[i]);
}

/// A record is its name and seventeen bytes more.
pub proof fn lemma_flat_record_len(e: EntryView, offset: u32)
    ensures
        flat_record(e, offset).len() == RECORD_FIXED_LEN + encode_utf8(e.name).len(),
{
}

/// The records of `n` entries take at least seventeen bytes each.
pub proof fn lemma_flat_records_len(files: Seq<EntryView>, source: Seq<u8>)
    ensures
        flat_records(files, source).len() >= 17 * files.len(),
    decreases files.len(),
{
    if files.len() > 0 {
        lemma_flat_records_len(files.drop_last(), source);
        lemma_flat_record_len(
            files.last(),
            data_region(files.drop_last(), source).len() as u32,
        );
    }
}

/// The first `k` entries take no more room than all of them.
pub proof fn lemma_flat_prefix_len(files: Seq<EntryView>, source: Seq<u8>, k: int)
    requires
        0 <= k <= files.len(),
    ensures
        data_region(files.take(k), source).len() <= data_region(files, source).len(),
        flat_records(files.take(k), source).len() <= flat_records(files, source).len(),
    decreases files.len() - k,
{
    if k < files.len() {
        lemma_flat_step(files, source, k);
        lemma_flat_prefix_len(files, source, k + 1);
    } else {
        assert(files.take(k) == files);
    }
}

/// Number of stored bytes of `file`, or nothing where they would lie
/// outside the buffer.
pub(crate) fn stored_len(file: &FileEntry, source_len: usize) -> (r: Option<usize>)
    ensures
        match r {
            Some(n) => forall|source: Seq<u8>|
                source.len() == source_len ==> (#[trigger] file@.stored(source)) is Some
                    && file@.stored(source).unwrap().len() == n,
            None => forall|source: Seq<u8>|
                source.len() == source_len ==> (#[trigger] file@.stored(source)) is None,
        },
{
    match &file.data {
        Some(bytes) => Some(bytes.len()),
        None => {
            if file.offset > source_len as u64 || file.packed_size as u64 > source_len as u64
                - file.offset {
                None
            } else {
                Some(file.packed_size as usize)
            }
        },
    }
}

/// Appends the stored bytes of `file` to `out`.
pub(crate) fn append_stored(out: &mut Vec<u8>, file: &FileEntry, source: &[u8])
    requires
        file@.stored(source@) is Some,
    ensures
        final(out)@ == old(out)@ + file@.stored(source@).unwrap(),
{
    match &file.data {
        Some(bytes) => {
            out.extend_from_slice(bytes.as_slice());
        },
        None => {
            let total = source.len();
            assert(file.offset + file.packed_size <= total);
            let start = file.offset as usize;
            let end = start + file.packed_size as usize;
            out.extend_from_slice(slice_subrange(source, start, end));
        },
    }
}

/// Appends the record of `file` to `out`.
fn append_record(out: &mut Vec<u8>, file: &FileEntry, offset: u32)
    requires
        encode_utf8(file@.name).len() <= u32::MAX,
    ensures
        final(out)@ == old(out)@ + flat_record(file@, offset),
{
    let ghost before = out@;
    let name = file.name.as_str().as_bytes();
    push_le_u32(out, name.len() as u32);
    out.extend_from_slice(name);
    out.push(if file.compressed { 1u8 } else { 0u8 });
    push_le_u32(out, file.size);
    push_le_u32(out, file.packed_size);
    push_le_u32(out, offset);
    proof {
        assert(out@ == before + flat_record(file@, offset));
    }
}

impl Dat2Archive {
    /// An archive without entries and without a buffer.
    pub fn new() -> (r: Self)
        ensures
            r@.files.len() == 0,
            r@.data.len() == 0,
    {
        Self { files: Vec::new(), data: Vec::new() }
    }

    /// Reads an archive under the permissive naming policy.
    pub fn from_bytes(data: Vec<u8>) -> (r: Result<Self, ArchiveError>)
        ensures
            match r {
                Ok(archive) => archive@.data == data@ && parsed_flat(data@, NamePolicy::Permissive)
                    == Ok::<Seq<EntryView>, ArchiveError>(archive@.files),
                Err(e) => parsed_flat(data@, NamePolicy::Permissive) == Err::<
                    Seq<EntryView>,
                    ArchiveError,
                >(e),
            },
    {
        Self::from_bytes_with(data, NamePolicy::Permissive)
    }

    /// Reads an archive: the entries are those that the tree lists, each
    /// pointing into `data`, which the archive keeps.
    ///
    /// Fails with `ArchiveError::Format` where the footer does not fit the
    /// file or a record runs over the end of the tree, and with
    /// `ArchiveError::Encoding` where `policy` refuses a name; of several
    /// faults the one in the earliest record is reported.
    pub fn from_bytes_with(data: Vec<u8>, policy: NamePolicy) -> (r: Result<Self, ArchiveError>)
        ensures
            match r {
                Ok(archive) => archive@.data == data@ && parsed_flat(data@, policy) == Ok::<
                    Seq<EntryView>,
                    ArchiveError,
                >(archive@.files),
                Err(e) => parsed_flat(data@, policy) == Err::<Seq<EntryView>, ArchiveError>(e),
            },
    {
        match Self::parse_directory_tree(data.as_slice(), policy) {
            Ok(files) => Ok(Self { files, data }),
            Err(e) => Err(e),
        }
    }

    /// The entries that the tree of `data` lists.
    pub fn parse_directory_tree(data: &[u8], policy: NamePolicy) -> (r: Result<
        Vec<FileEntry>,
        ArchiveError,
    >)
        ensures
            match r {
                Ok(files) => parsed_flat(data@, policy) == Ok::<Seq<EntryView>, ArchiveError>(
                    entry_views(files@),
                ),
                Err(e) => parsed_flat(data@, policy) == Err::<Seq<EntryView>, ArchiveError>(e),
            },
    {
        let len = data.len();
        if len < FOOTER_LEN {
            return Err(ArchiveError::Format);
        }
        let tree_size = read_le_u32(data, len - 8).unwrap() as usize;
        let dat_size = read_le_u32(data, len - 4).unwrap() as usize;
        if dat_size != len || tree_size < 4 || len - 8 < tree_size || len - 8 - tree_size < 4 {
            return Err(ArchiveError::Format);
        }
        let start = len - 8 - tree_size;
        let limit = len - 8;
        let count = read_le_u32(data, start).unwrap();
        let mut files: Vec<FileEntry> = Vec::new();
        let mut pos = start + 4;
        let mut done: u32 = 0;
        proof {
            assert(entry_views(files@) + Seq::<EntryView>::empty() == entry_views(files@));
            assert(entry_views(files@) == Seq::<EntryView>::empty());
        }
        while done < count
            invariant
                done <= count,
                pos <= limit <= data@.len(),
                parsed_flat(data@, policy) == prepend_entries(
                    entry_views(files@),
                    parse_flat_records(
                        data@,
                        pos as int,
                        limit as int,
                        (count - done) as nat,
                        policy,
                    ),
                ),
            decreases count - done,
        {
            let ghost before = entry_views(files@);
            let ghost rest = parse_flat_records(
                data@,
                pos as int,
                limit as int,
                (count - done) as nat,
                policy,
            );
            match read_record(data, pos, limit, policy) {
                Err(e) => { return Err(e); },
                Ok((entry, next)) => {
                    proof {
                        let after = parse_flat_records(
                            data@,
                            next as int,
                            limit as int,
                            (count - done - 1) as nat,
                            policy,
                        );
                        assert(entry_views(files@.push(entry)) == before.push(entry@));
                        if after is Ok {
                            assert(before + (seq![entry@] + after.unwrap()) == before.push(entry@)
                                + after.unwrap());
                        }
                    }
                    files.push(entry);
                    pos = next;
                    done = done + 1;
                },
            }
        }
        proof {
            assert(entry_views(files@) + Seq::<EntryView>::empty() == entry_views(files@));
        }
        Ok(files)
    }

    /// The stored bytes of `file` in this archive.
    ///
    /// Fails with `ArchiveError::Bounds` exactly where the entry holds no
    /// bytes of its own and the range it names does not lie inside the
    /// archive's buffer.
    pub fn read_file_data(&self, file: &FileEntry) -> (r: Result<Vec<u8>, ArchiveError>)
        ensures
            match r {
                Ok(bytes) => file@.stored(self@.data) == Some(bytes@),
                Err(e) => e == ArchiveError::Bounds && file@.stored(self@.data) is None,
            },
    {
        file.read_stored(self.data.as_slice())
    }

    /// The file that holds this archive: the stored bytes of every entry in
    /// the current order, the tree that locates them, and the footer.
    ///
    /// Fails with `ArchiveError::Bounds` where an entry names bytes outside
    /// the archive's buffer; else with `ArchiveError::TooLarge` where the
    /// file would be longer than a 32-bit length can say.
    pub fn save(&self) -> (r: Result<Vec<u8>, ArchiveError>)
        ensures
            match r {
                Ok(bytes) => saved_flat(self@.files, self@.data) == Ok::<Seq<u8>, ArchiveError>(
                    bytes@,
                ),
                Err(e) => saved_flat(self@.files, self@.data) == Err::<Seq<u8>, ArchiveError>(e),
            },
    {
        let ghost files = self@.files;
        let ghost source = self@.data;
        let n = self.files.len();
        let limit: u64 = u32::MAX as u64;
        // First pass: every entry has its bytes, and the lengths add up.
        let mut data_len: u64 = 0;
        let mut tree_len: u64 = 0;
        let mut fits = true;
        let mut i: usize = 0;
        while i < n
            invariant
                i <= n,
                n == self.files@.len(),
                files == entry_views(self.files@),
                source == self.data@,
                limit == u32::MAX,
                all_stored(files.take(i as int), source),
                fits ==> data_len == data_region(files.take(i as int), source).len(),
                fits ==> tree_len == flat_records(files.take(i as int), source).len(),
                fits ==> data_len + tree_len <= limit,
                !fits ==> data_region(files.take(i as int), source).len() + flat_records(
                    files.take(i as int),
                    source,
                ).len() > limit,
            decreases n - i,
        {
            let file = &self.files[i];
            proof {
                lemma_flat_step(files, source, i as int);
                lemma_flat_record_len(
                    files[i as int],
                    data_region(files.take(i as int), source).len() as u32,
                );
            }
            let stored = match stored_len(file, self.data.len()) {
                Some(len) => len,
                None => {
                    proof {
                        assert(files[i as int].stored(source) is None);
                    }
                    return Err(ArchiveError::Bounds);
                },
            };
            let name_len = file.name.as_str().as_bytes().len();
            proof {
                assert(files[i as int].stored(source) is Some);
                assert forall|j: int| 0 <= j < i + 1 implies (#[trigger] files.take(i + 1)[j]).stored(
                    source,
                ) is Some by {
                    if j < i {
                        assert(files.take(i as int)[j] == files.take(i + 1)[j]);
                    }
                }
            }
            if fits {
                let room = limit - data_len - tree_len;
                if stored as u64 > room || name_len as u64 > room - stored as u64 || room
                    - stored as u64 - (name_len as u64) < RECORD_FIXED_LEN as u64 {
                    fits = false;
                } else {
                    data_len = data_len + stored as u64;
                    tree_len = tree_len + name_len as u64 + RECORD_FIXED_LEN as u64;
                }
            }
            i = i + 1;
        }
        proof {
            assert(files.take(n as int) == files);
        }
        if !fits || limit - data_len - tree_len < 12 {
            return Err(ArchiveError::TooLarge);
        }
        proof {
            lemma_flat_records_len(files, source);
        }
        // Second pass: the data.
        let mut out: Vec<u8> = Vec::new();
        let mut i: usize = 0;
        while i < n
            invariant
                i <= n,
                n == self.files@.len(),
                files == entry_views(self.files@),
                source == self.data@,
                all_stored(files, source),
                out@ == data_region(files.take(i as int), source),
            decreases n - i,
        {
            proof {
                lemma_flat_step(files, source, i as int);
            }
            append_stored(&mut out, &self.files[i], self.data.as_slice());
            i = i + 1;
        }
        // Third pass: the tree.
        push_le_u32(&mut out, n as u32);
        let mut offset: u64 = 0;
        let mut i: usize = 0;
        while i < n
            invariant
                i <= n,
                n == self.files@.len(),
                files == entry_views(self.files@),
                source == self.data@,
                all_stored(files, source),
                files.take(n as int) == files,
                data_region(files, source).len() + flat_records(files, source).len() + 12
                    <= u32::MAX,
                offset == data_region(files.take(i as int), source).len(),
                offset <= data_region(files, source).len(),
                flat_records(files.take(i as int), source).len() <= flat_records(
                    files,
                    source,
                ).len(),
                out@ == data_region(files, source) + le_u32_bytes(n as u32) + flat_records(
                    files.take(i as int),
                    source,
                ),
            decreases n - i,
        {
            let file = &self.files[i];
            proof {
                lemma_flat_step(files, source, i as int);
                lemma_flat_record_len(files[i as int], offset as u32);
                lemma_flat_prefix_len(files, source, i + 1);
                assert(out@ + flat_record(files[i as int], offset as u32) == data_region(
                    files,
                    source,
                ) + le_u32_bytes(n as u32) + flat_records(files.take(i + 1), source));
            }
            append_record(&mut out, file, offset as u32);
            offset = offset + stored_len(file, self.data.len()).unwrap() as u64;
            i = i + 1;
        }
        push_le_u32(&mut out, (tree_len + 4) as u32);
        push_le_u32(&mut out, (data_len + tree_len + 12) as u32);
        Ok(out)
    }

    /// Takes a batch of entries into the archive and puts all entries in
    /// order by name, ignoring case.
    pub fn add_entries(&mut self, batch: Vec<FileEntry>)
        ensures
            final(self)@.data == old(self)@.data,
            final(self)@.files == sorted_by_name(
                merged(old(self)@.files, entry_views(batch@)),
                NameOrder::IgnoreCase,
            ),
    {
        self.add_entries_with(batch, NameOrder::IgnoreCase)
    }

    /// Takes a batch of entries into the archive and puts all entries in
    /// the given order.
    ///
    /// An entry of the batch replaces the entry of the same name; of two
    /// entries of the batch with one name the first is kept.
    pub fn add_entries_with(&mut self, batch: Vec<FileEntry>, order: NameOrder)
        ensures
            final(self)@.data == old(self)@.data,
            final(self)@.files == sorted_by_name(
                merged(old(self)@.files, entry_views(batch@)),
                order,
            ),
    {
        merge_batch(&mut self.files, batch);
        sort_entries(&mut self.files, order);
    }

    /// Adds files to the archive: each is prepared as
    /// `prepare_all` says, and the batch is taken in as `add_entries` says.
    ///
    /// Where a file cannot be prepared the archive stays as it was, and the
    /// error is that of `prepare_all`.
    pub fn add_file(&mut self, sources: Vec<SourceFile>, compression: CompressionLevel) -> (r:
        Result<(), ArchiveError>)
        ensures
            final(self)@.data == old(self)@.data,
            match r {
                Ok(()) => all_fit(source_views(sources@)) && final(self)@.files == sorted_by_name(
                    merged(
                        old(self)@.files,
                        prepared_all(source_views(sources@), compression.value()),
                    ),
                    NameOrder::IgnoreCase,
                ),
                Err(e) => final(self)@.files == old(self)@.files && if e
                    == ArchiveError::TooLarge {
                    !all_fit(source_views(sources@))
                } else {
                    e == ArchiveError::Compression && compression.value() != 0
                },
            },
    {
        match prepare_all(sources, compression) {
            Ok(batch) => {
                self.add_entries(batch);
                Ok(())
            },
            Err(e) => Err(e),
        }
    }

    /// Takes the first entry of the given name out of the archive. The name
    /// may be written with either separator.
    ///
    /// Fails with `ArchiveError::NotFound`, and changes nothing, exactly
    /// where no entry carries the name.
    pub fn delete_file(&mut self, file_name: &str) -> (r: Result<(), ArchiveError>)
        ensures
            final(self)@.data == old(self)@.data,
            match r {
                Ok(()) => has_name(old(self)@.files, replace_char(file_name@, '/', '\\'))
                    && final(self)@.files == old(self)@.files.remove(
                    index_of_name(old(self)@.files, replace_char(file_name@, '/', '\\')),
                ),
                Err(e) => e == ArchiveError::NotFound && !has_name(
                    old(self)@.files,
                    replace_char(file_name@, '/', '\\'),
                ) && final(self)@.files == old(self)@.files,
            },
    {
        let name = normalize_path_for_archive(file_name);
        let at = find_name(&self.files, &name);
        if at < self.files.len() {
            let ghost before = self.files@;
            self.files.remove(at);
            proof {
                assert(entry_views(before.remove(at as int)) =~= entry_views(before).remove(
                    at as int,
                ));
            }
            Ok(())
        } else {
            Err(ArchiveError::NotFound)
        }
    }

    /// The entries that the patterns pick, one line each, and the patterns
    /// that pick nothing.
    pub fn list(&self, patterns: &[String]) -> (r: (Vec<ListRow>, Vec<String>))
        ensures
            row_views(r.0@) == selection(
                self@.files,
                archive_forms(texts(patterns@)),
            ).map_values(|e: EntryView| row_of(e)),
            texts(r.1@) == unused_patterns(
                self@.files,
                archive_forms(texts(patterns@)),
                patterns@.len() as int,
            ),
    {
        let all = refs_of(&self.files);
        let (picked, missing) = select(all.as_slice(), patterns);
        (rows_of(picked.as_slice()), missing)
    }

    /// Name and content of the entries that the patterns pick, and the
    /// patterns that pick nothing. Packed entries are unpacked by the
    /// deflate coder.
    ///
    /// The first entry whose content cannot be had ends the work: with
    /// `ArchiveError::Bounds` where it names bytes outside the buffer, with
    /// `ArchiveError::Compression` where the coder refuses its bytes.
    pub fn extract(&self, patterns: &[String]) -> (r: Result<
        (Vec<ExtractedFile>, Vec<String>),
        ArchiveError,
    >)
        ensures
            match r {
                Ok((files, missing)) => contents_from(
                    selection(self@.files, archive_forms(texts(patterns@))),
                    self@.data,
                    Coder::Deflate,
                    0,
                ) == Ok::<Seq<(Seq<char>, Seq<u8>)>, ArchiveError>(extracted_views(files@))
                    && texts(missing@) == unused_patterns(
                    self@.files,
                    archive_forms(texts(patterns@)),
                    patterns@.len() as int,
                ),
                Err(e) => contents_from(
                    selection(self@.files, archive_forms(texts(patterns@))),
                    self@.data,
                    Coder::Deflate,
                    0,
                ) == Err::<Seq<(Seq<char>, Seq<u8>)>, ArchiveError>(e),
            },
    {
        let all = refs_of(&self.files);
        let (picked, missing) = select(all.as_slice(), patterns);
        match extract_files(picked.as_slice(), self.data.as_slice(), Coder::Deflate) {
            Ok(files) => Ok((files, missing)),
            Err(e) => Err(e),
        }
    }

    /// The content of `file`, unpacked by the deflate coder where the entry
    /// is flagged as packed.
    pub fn extract_entry(&self, file: &FileEntry) -> (r: Result<Vec<u8>, ArchiveError>)
        ensures
            match r {
                Ok(bytes) => content(file@, self@.data, Coder::Deflate) == Ok::<
                    Seq<u8>,
                    ArchiveError,
                >(bytes@),
                Err(e) => content(file@, self@.data, Coder::Deflate) == Err::<
                    Seq<u8>,
                    ArchiveError,
                >(e),
            },
    {
        extract_entry(file, self.data.as_slice(), Coder::Deflate)
    }

    /// The buffer that the archive was read from.
    pub fn raw(&self) -> (r: &Vec<u8>)
        ensures
            r@ == self@.data,
    {
        &self.data
    }

    /// The entries, in the order in which they will be written.
    pub fn entries(&self) -> (r: &Vec<FileEntry>)
        ensures
            entry_views(r@) == self@.files,
    {
        &self.files
    }
}

} // verus!
