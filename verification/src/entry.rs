//! One archived file as it is held in memory, whichever layout it came from.
use crate::deflate::{zlib_pack, zlib_packed};
use crate::error::ArchiveError;
use crate::names::{archive_name, archive_name_of};
use vstd::prelude::*;
use vstd::slice::slice_subrange;
use vstd::slice::slice_to_vec;

verus! {

/// How hard the deflate coder should try, from 0 (store) to 9.
#[derive(Debug, Clone, Copy)]
pub struct CompressionLevel(u8);

impl CompressionLevel {
    #[verifier::type_invariant]
    spec fn in_range(self) -> bool {
        self.0 <= 9
    }

    /// The number that the level was made from.
    pub closed spec fn value(self) -> u8 {
        self.0
    }

    /// Accepts the levels 0 to 9 and refuses every other number with
    /// `ArchiveError::Validation`.
    pub fn new(level: u8) -> (r: Result<Self, ArchiveError>)
        ensures
            match r {
                Ok(made) => level <= 9 && made.value() == level,
                Err(e) => level > 9 && e == ArchiveError::Validation,
            },
    {
        if level <= 9 {
            Ok(Self(level))
        } else {
            Err(ArchiveError::Validation)
        }
    }

    /// The level as a number, which is at most 9.
    pub fn level(&self) -> (r: u8)
        ensures
            r == self.value(),
            r <= 9,
    {
        proof {
            use_type_invariant(self);
        }
        self.0
    }
}

/// One archived file: where its stored bytes lie, or the bytes themselves
/// for an entry that was added since the archive was read.
#[derive(Debug, Clone)]
pub struct FileEntry {
    /// Path inside the archive, separated by backslashes.
    pub name: String,
    /// Where the stored bytes start in the archive's buffer. Without
    /// meaning while `data` is present.
    pub offset: u64,
    /// Length of the file once unpacked.
    pub size: u32,
    /// Length of the stored bytes.
    pub packed_size: u32,
    /// Whether the stored bytes are packed.
    pub compressed: bool,
    /// The stored bytes of an entry that is not backed by the archive's
    /// buffer.
    pub data: Option<Vec<u8>>,
}

/// A `FileEntry` as plain values.
pub struct EntryView {
    pub name: Seq<char>,
    pub offset: u64,
    pub size: u32,
    pub packed_size: u32,
    pub compressed: bool,
    pub data: Option<Seq<u8>>,
}

impl View for FileEntry {
    type V = EntryView;

    open spec fn view(&self) -> EntryView {
        EntryView {
            name: self.name@,
            offset: self.offset,
            size: self.size,
            packed_size: self.packed_size,
            compressed: self.compressed,
            data: match self.data {
                Some(bytes) => Some(bytes@),
                None => None,
            },
        }
    }
}

impl EntryView {
    /// The sizes agree with the flag and with the bytes held: a stored entry
    /// is as long packed as unpacked, a packed one is no longer than
    /// unpacked, and bytes held in memory are as many as `packed_size` says.
    pub open spec fn consistent(self) -> bool {
        &&& self.compressed ==> self.packed_size <= self.size
        &&& !self.compressed ==> self.packed_size == self.size
        &&& self.data matches Some(bytes) ==> bytes.len() == self.packed_size
    }

    /// The stored bytes of the entry in an archive whose buffer is `source`:
    /// its own bytes where it holds any, else the range of the buffer that
    /// it names, which must lie inside the buffer.
    pub open spec fn stored(self, source: Seq<u8>) -> Option<Seq<u8>> {
        match self.data {
            Some(bytes) => Some(bytes),
            None => if self.offset + self.packed_size <= source.len() {
                Some(source.subrange(self.offset as int, self.offset + self.packed_size))
            } else {
                None
            },
        }
    }

    /// An entry that holds `bytes` unpacked.
    pub open spec fn plain(name: Seq<char>, bytes: Seq<u8>) -> EntryView {
        EntryView {
            name,
            offset: 0,
            size: bytes.len() as u32,
            packed_size: bytes.len() as u32,
            compressed: false,
            data: Some(bytes),
        }
    }

    /// An entry that holds `packed`, which unpacks to `unpacked_len` bytes.
    pub open spec fn packed(name: Seq<char>, unpacked_len: nat, packed: Seq<u8>) -> EntryView {
        EntryView {
            name,
            offset: 0,
            size: unpacked_len as u32,
            packed_size: packed.len() as u32,
            compressed: true,
            data: Some(packed),
        }
    }

    /// The entry that is kept for `bytes` once the coder has answered with
    /// `packed`: the packed form where it is strictly shorter, else the
    /// bytes as they are.
    pub open spec fn smaller_of(name: Seq<char>, bytes: Seq<u8>, packed: Seq<u8>) -> EntryView {
        if packed.len() < bytes.len() {
            EntryView::packed(name, bytes.len(), packed)
        } else {
            EntryView::plain(name, bytes)
        }
    }
}

impl FileEntry {
    /// A new entry around bytes that are to be stored as they are given.
    /// With `compressed` set the bytes count as already packed; the length
    /// that they unpack to is then not known here and `size` is left at the
    /// stored length for the caller to correct.
    pub fn with_data(name: String, data: Vec<u8>, compressed: bool) -> (r: Self)
        requires
            data@.len() <= u32::MAX,
        ensures
            r@ == (EntryView { compressed, ..EntryView::plain(name@, data@) }),
            r@.consistent(),
    {
        let packed_size = data.len() as u32;
        Self { name, offset: 0, size: packed_size, packed_size, compressed, data: Some(data) }
    }

    /// A new packed entry, which records the length of the unpacked bytes
    /// beside the packed bytes that it stores.
    pub fn with_compression_data(
        name: String,
        unpacked_data: Vec<u8>,
        compressed_data: Vec<u8>,
    ) -> (r: Self)
        requires
            unpacked_data@.len() <= u32::MAX,
            compressed_data@.len() <= u32::MAX,
        ensures
            r@ == EntryView::packed(name@, unpacked_data@.len(), compressed_data@),
            compressed_data@.len() <= unpacked_data@.len() ==> r@.consistent(),
    {
        Self {
            name,
            offset: 0,
            size: unpacked_data.len() as u32,
            packed_size: compressed_data.len() as u32,
            compressed: true,
            data: Some(compressed_data),
        }
    }

    /// The entry for `data` once the deflate coder has been asked, or not:
    /// `packed` is its answer, and nothing where it was not asked.
    ///
    /// Fails with `ArchiveError::TooLarge` exactly where `data` is longer
    /// than a 32-bit length can say.
    pub fn from_packing(name: String, data: Vec<u8>, packed: Option<Vec<u8>>) -> (r: Result<
        Self,
        ArchiveError,
    >)
        ensures
            match r {
                Ok(entry) => data@.len() <= u32::MAX && entry@ == (match packed {
                    Some(p) => EntryView::smaller_of(name@, data@, p@),
                    None => EntryView::plain(name@, data@),
                }) && entry@.consistent(),
                Err(e) => e == ArchiveError::TooLarge && data@.len() > u32::MAX,
            },
    {
        if data.len() > u32::MAX as usize {
            return Err(ArchiveError::TooLarge);
        }
        match packed {
            Some(p) => {
                if p.len() < data.len() {
                    Ok(Self::with_compression_data(name, data, p))
                } else {
                    Ok(Self::with_data(name, data, false))
                }
            },
            None => Ok(Self::with_data(name, data, false)),
        }
    }

    /// The entry under which `data` joins a flat archive.
    ///
    /// At level 0 the bytes are stored as they are. At any other level the
    /// deflate coder is asked, and its answer is kept only where it is
    /// strictly shorter than the bytes. Fails with `ArchiveError::TooLarge`
    /// where `data` is longer than a 32-bit length can say, and with
    /// `ArchiveError::Compression` where the coder gives up.
    pub fn prepare(name: String, data: Vec<u8>, compression: CompressionLevel) -> (r: Result<
        Self,
        ArchiveError,
    >)
        ensures
            match r {
                Ok(entry) => data@.len() <= u32::MAX && entry@.consistent() && entry@ == (
                if compression.value() == 0 {
                    EntryView::plain(name@, data@)
                } else {
                    EntryView::smaller_of(name@, data@, zlib_packed(data@, compression.value()))
                }),
                Err(e) => if data@.len() > u32::MAX {
                    e == ArchiveError::TooLarge
                } else {
                    e == ArchiveError::Compression && compression.value() != 0
                },
            },
    {
        if data.len() > u32::MAX as usize {
            return Err(ArchiveError::TooLarge);
        }
        let level = compression.level();
        if level == 0 {
            return Self::from_packing(name, data, None);
        }
        match zlib_pack(data.as_slice(), level) {
            Some(p) => Self::from_packing(name, data, Some(p)),
            None => Err(ArchiveError::Compression),
        }
    }

    /// The stored bytes of the entry in an archive whose buffer is
    /// `source`.
    ///
    /// Fails with `ArchiveError::Bounds` exactly where the entry holds no
    /// bytes of its own and the range it names does not lie inside the
    /// buffer.
    pub fn read_stored(&self, source: &[u8]) -> (r: Result<Vec<u8>, ArchiveError>)
        ensures
            match r {
                Ok(bytes) => self@.stored(source@) == Some(bytes@),
                Err(e) => e == ArchiveError::Bounds && self@.stored(source@) is None,
            },
    {
        match &self.data {
            Some(bytes) => Ok(slice_to_vec(bytes.as_slice())),
            None => {
                if self.offset > source.len() as u64 || self.packed_size as u64 > source.len() as u64
                    - self.offset {
                    Err(ArchiveError::Bounds)
                } else {
                    let start = self.offset as usize;
                    let end = start + self.packed_size as usize;
                    Ok(slice_to_vec(slice_subrange(source, start, end)))
                }
            },
        }
    }
}

/// A file that is to join an archive, as the caller read it.
#[derive(Debug)]
pub struct SourceFile {
    /// The bytes of the file.
    pub data: Vec<u8>,
    /// The path that the file is to have in the archive, with either
    /// separator.
    pub target: String,
    /// Whether the first component of `target` is left out of the name.
    pub strip_leading_directory: bool,
}

/// A `SourceFile` as plain values.
pub struct SourceView {
    pub data: Seq<u8>,
    pub target: Seq<char>,
    pub strip_leading_directory: bool,
}

impl View for SourceFile {
    type V = SourceView;

    open spec fn view(&self) -> SourceView {
        SourceView {
            data: self.data@,
            target: self.target@,
            strip_leading_directory: self.strip_leading_directory,
        }
    }
}

/// The files as plain values.
pub open spec fn source_views(sources: Seq<SourceFile>) -> Seq<SourceView> {
    sources.map_values(|s: SourceFile| s@)
}

/// The entry that `source` becomes at effort `level`: under its archive
/// name, packed where the level is not zero and packing makes it strictly
/// shorter.
pub open spec fn prepared(source: SourceView, level: u8) -> EntryView {
    let name = archive_name_of(source.target, source.strip_leading_directory);
    if level == 0 {
        EntryView::plain(name, source.data)
    } else {
        EntryView::smaller_of(name, source.data, zlib_packed(source.data, level))
    }
}

/// The entries that `sources` become at effort `level`.
pub open spec fn prepared_all(sources: Seq<SourceView>, level: u8) -> Seq<EntryView> {
    sources.map_values(|s: SourceView| prepared(s, level))
}

/// None of the files is longer than a 32-bit length can say.
pub open spec fn all_fit(sources: Seq<SourceView>) -> bool {
    forall|i: int| 0 <= i < sources.len() ==> (#[trigger] sources[i]).data.len() <= u32::MAX
}

/// The elements of `v` in reverse order.
pub fn reversed<T>(v: Vec<T>) -> (r: Vec<T>)
    ensures
        r@ == v@.reverse(),
{
    let ghost start = v@;
    let mut v = v;
    let mut out: Vec<T> = Vec::new();
    while v.len() > 0
        invariant
            v@.len() <= start.len(),
            v@ == start.take(v@.len() as int),
            out@ == start.reverse().take(start.len() - v@.len()),
        decreases v@.len(),
    {
        let ghost k = start.len() - v@.len();
        let ghost before = out@;
        let item = v.pop().unwrap();
        out.push(item);
        proof {
            assert(item == start[start.len() - 1 - k]);
            assert(out@ =~= start.reverse().take(k + 1));
            assert(v@ =~= start.take(v@.len() as int));
        }
    }
    proof {
        assert(start.reverse().take(start.len() as int) =~= start.reverse());
    }
    out
}

/// The entries under which `sources` join a flat archive, in their order.
///
/// Each file gets its archive name and is packed as `FileEntry::prepare`
/// says. The first file that cannot be prepared ends the work: with
/// `ArchiveError::TooLarge` where it is longer than a 32-bit length can
/// say, with `ArchiveError::Compression` where the coder gives up on it. At
/// level 0, files that all fit are always prepared.
pub fn prepare_all(sources: Vec<SourceFile>, compression: CompressionLevel) -> (r: Result<
    Vec<FileEntry>,
    ArchiveError,
>)
    ensures
        match r {
            Ok(batch) => all_fit(source_views(sources@)) && batch@.map_values(|e: FileEntry| e@)
                == prepared_all(source_views(sources@), compression.value()),
            Err(e) => if e == ArchiveError::TooLarge {
                !all_fit(source_views(sources@))
            } else {
                e == ArchiveError::Compression && compression.value() != 0
            },
        },
{
    let ghost wanted = source_views(sources@);
    let ghost level = compression.value();
    let mut rest = reversed(sources);
    let mut batch: Vec<FileEntry> = Vec::new();
    let ghost total = rest@.len();
    proof {
        assert(source_views(rest@).reverse() =~= wanted);
        assert(wanted.take(0) =~= Seq::<SourceView>::empty());
        assert(batch@.map_values(|e: FileEntry| e@) =~= prepared_all(wanted.take(0), level));
    }
    while rest.len() > 0
        invariant
            wanted == source_views(sources@),
            total == wanted.len(),
            rest@.len() <= total,
            level == compression.value(),
            source_views(rest@).reverse() == wanted.skip(total - rest@.len()),
            all_fit(wanted.take(total - rest@.len())),
            batch@.map_values(|e: FileEntry| e@) == prepared_all(
                wanted.take(total - rest@.len()),
                level,
            ),
        decreases rest@.len(),
    {
        let ghost k = total - rest@.len();
        let ghost left = source_views(rest@);
        let ghost so_far = batch@.map_values(|e: FileEntry| e@);
        let source = rest.pop().unwrap();
        proof {
            assert(left.last() == source@);
            assert(left.reverse()[0] == source@);
            assert(wanted.skip(k)[0] == wanted[k]);
            assert(source_views(rest@) =~= left.drop_last());
            assert(left.drop_last().reverse() =~= left.reverse().skip(1));
            assert(wanted.skip(k).skip(1) =~= wanted.skip(k + 1));
        }
        let ghost one = source@;
        let SourceFile { data, target, strip_leading_directory } = source;
        let name = archive_name(target.as_str(), strip_leading_directory);
        let ghost bytes = data@;
        let entry = match FileEntry::prepare(name, data, compression) {
            Ok(entry) => entry,
            Err(e) => {
                proof {
                    assert(one == wanted[k]);
                    assert(bytes == wanted[k].data);
                    if e == ArchiveError::TooLarge {
                        assert(wanted[k].data.len() > u32::MAX);
                        assert(!all_fit(wanted));
                    }
                }
                return Err(e);
            },
        };
        proof {
            assert(entry@ == prepared(wanted[k], level));
            assert(wanted.take(k + 1) =~= wanted.take(k).push(wanted[k]));
            assert(prepared_all(wanted.take(k + 1), level) =~= prepared_all(wanted.take(k), level).push(
                prepared(wanted[k], level),
            ));
            assert(batch@.push(entry).map_values(|e: FileEntry| e@) =~= so_far.push(entry@));
            assert forall|i: int| 0 <= i < k + 1 implies (#[trigger] wanted.take(k + 1)[i]).data.len()
                <= u32::MAX by {
                if i < k {
                    assert(wanted.take(k)[i] == wanted.take(k + 1)[i]);
                }
            }
        }
        batch.push(entry);
    }
    proof {
        assert(wanted.take(total as int) =~= wanted);
    }
    Ok(batch)
}

} // verus!
