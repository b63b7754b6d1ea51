//! One surface over both layouts: the layout of a buffer is told from its
//! first bytes, and every operation goes to the archive of that layout.
use crate::endian::{be_u32_at, read_be_u32};
use crate::entries::{has_name, index_of_name, merged, NameOrder, sorted_by_name};
use crate::entry::{all_fit, CompressionLevel, EntryView, prepared_all, source_views, SourceFile};
use crate::error::ArchiveError;
use crate::extract::{Coder, contents_from, extracted_views, ExtractedFile};
use crate::filter::texts;
use crate::flat::{Dat2Archive, parsed_flat, saved_flat};
use crate::names::{NamePolicy, replace_char};
use crate::select::{archive_forms, ListRow, row_of, row_views, selection, unused_patterns};
use crate::tree::Dat1Archive;
use crate::tree_layout::{after_add, all_files, DirView, holder, parsed_tree, root_name, saved_tree};
use vstd::prelude::*;

verus! {

/// An archive of either layout.
#[derive(Debug)]
pub enum DatArchive {
    /// An archive of the directory layout.
    Dat1(Dat1Archive),
    /// An archive of the flat layout.
    Dat2(Dat2Archive),
}

/// The first eight bytes look like the header of the directory layout: a
/// number of directories between 1 and 999, and one of the two numbers that
/// are known to follow it. Everything else is taken for the flat layout.
pub open spec fn looks_like_tree(data: Seq<u8>) -> bool {
    &&& data.len() >= 8
    &&& 0 < be_u32_at(data, 0) < 1000
    &&& (be_u32_at(data, 4) == 0x0A || be_u32_at(data, 4) == 0x5E)
}

/// The entries that an archive lists, whichever its layout.
pub open spec fn listed(archive: DatArchive) -> Seq<EntryView> {
    match archive {
        DatArchive::Dat1(tree) => all_files(tree@.directories),
        DatArchive::Dat2(flat) => flat@.files,
    }
}

/// The buffer that an archive was read from.
pub open spec fn buffer(archive: DatArchive) -> Seq<u8> {
    match archive {
        DatArchive::Dat1(tree) => tree@.data,
        DatArchive::Dat2(flat) => flat@.data,
    }
}

/// The coder that packed the entries of an archive.
pub open spec fn coder_of(archive: DatArchive) -> Coder {
    match archive {
        DatArchive::Dat1(_) => Coder::Dictionary,
        DatArchive::Dat2(_) => Coder::Deflate,
    }
}

impl DatArchive {
    /// Whether `data` is taken for an archive of the directory layout.
    pub fn is_dat1_format(data: &[u8]) -> (r: bool)
        ensures
            r == looks_like_tree(data@),
    {
        if data.len() < 8 {
            return false;
        }
        let count = read_be_u32(data, 0).unwrap();
        let mark = read_be_u32(data, 4).unwrap();
        count > 0 && count < 1000 && (mark == 0x0A || mark == 0x5E)
    }

    /// Reads an archive, in the layout that its first bytes suggest.
    ///
    /// A buffer that looks like the directory layout is read as that and as
    /// nothing else; every other buffer is read as the flat layout. The
    /// error is that of the layout's reader.
    pub fn open(data: Vec<u8>) -> (r: Result<Self, ArchiveError>)
        ensures
            match r {
                Ok(DatArchive::Dat1(tree)) => looks_like_tree(data@) && tree@.data == data@
                    && parsed_tree(data@, NamePolicy::Permissive) == Ok::<
                    Seq<DirView>,
                    ArchiveError,
                >(tree@.directories),
                Ok(DatArchive::Dat2(flat)) => !looks_like_tree(data@) && flat@.data == data@
                    && parsed_flat(data@, NamePolicy::Permissive) == Ok::<
                    Seq<EntryView>,
                    ArchiveError,
                >(flat@.files),
                Err(e) => if looks_like_tree(data@) {
                    parsed_tree(data@, NamePolicy::Permissive) == Err::<
                        Seq<DirView>,
                        ArchiveError,
                    >(e)
                } else {
                    parsed_flat(data@, NamePolicy::Permissive) == Err::<
                        Seq<EntryView>,
                        ArchiveError,
                    >(e)
                },
            },
    {
        if Self::is_dat1_format(data.as_slice()) {
            match Dat1Archive::from_bytes(data) {
                Ok(tree) => Ok(DatArchive::Dat1(tree)),
                Err(e) => Err(e),
            }
        } else {
            match Dat2Archive::from_bytes(data) {
                Ok(flat) => Ok(DatArchive::Dat2(flat)),
                Err(e) => Err(e),
            }
        }
    }

    /// A new archive of the directory layout: the root directory, no file.
    pub fn new_dat1() -> (r: Self)
        ensures
            r matches DatArchive::Dat1(tree) && tree@.directories == seq![
                DirView { name: root_name(), files: Seq::empty() },
            ],
            listed(r).len() == 0,
            buffer(r).len() == 0,
    {
        let tree = Dat1Archive::new();
        proof {
            let dirs = tree@.directories;
            assert(dirs.len() == 1);
            assert(dirs.drop_last() =~= Seq::<DirView>::empty());
            assert(all_files(dirs.drop_last()) =~= Seq::<EntryView>::empty());
            assert(dirs.last().files =~= Seq::<EntryView>::empty());
            assert(all_files(dirs) =~= Seq::<EntryView>::empty());
        }
        DatArchive::Dat1(tree)
    }

    /// A new archive of the flat layout, without entries.
    pub fn new_dat2() -> (r: Self)
        ensures
            r is Dat2,
            listed(r).len() == 0,
            buffer(r).len() == 0,
    {
        DatArchive::Dat2(Dat2Archive::new())
    }

    /// The entries that the patterns pick, one line each, and the patterns
    /// that pick nothing.
    pub fn list(&self, patterns: &[String]) -> (r: (Vec<ListRow>, Vec<String>))
        ensures
            row_views(r.0@) == selection(
                listed(*self),
                archive_forms(texts(patterns@)),
            ).map_values(|e: EntryView| row_of(e)),
            texts(r.1@) == unused_patterns(
                listed(*self),
                archive_forms(texts(patterns@)),
                patterns@.len() as int,
            ),
    {
        match self {
            DatArchive::Dat1(tree) => tree.list(patterns),
            DatArchive::Dat2(flat) => flat.list(patterns),
        }
    }

    /// Name and content of the entries that the patterns pick, and the
    /// patterns that pick nothing. The first entry whose content cannot be
    /// had ends the work with its error.
    pub fn extract(&self, patterns: &[String]) -> (r: Result<
        (Vec<ExtractedFile>, Vec<String>),
        ArchiveError,
    >)
        ensures
            match r {
                Ok((files, missing)) => contents_from(
                    selection(listed(*self), archive_forms(texts(patterns@))),
                    buffer(*self),
                    coder_of(*self),
                    0,
                ) == Ok::<Seq<(Seq<char>, Seq<u8>)>, ArchiveError>(extracted_views(files@))
                    && texts(missing@) == unused_patterns(
                    listed(*self),
                    archive_forms(texts(patterns@)),
                    patterns@.len() as int,
                ),
                Err(e) => contents_from(
                    selection(listed(*self), archive_forms(texts(patterns@))),
                    buffer(*self),
                    coder_of(*self),
                    0,
                ) == Err::<Seq<(Seq<char>, Seq<u8>)>, ArchiveError>(e),
            },
    {
        match self {
            DatArchive::Dat1(tree) => tree.extract(patterns),
            DatArchive::Dat2(flat) => flat.extract(patterns),
        }
    }

    /// Adds files to the archive, as the archive of its layout does: the
    /// directory layout stores them as they are, the flat layout packs them
    /// at the given effort where that makes them shorter.
    pub fn add_file(&mut self, sources: Vec<SourceFile>, compression: CompressionLevel) -> (r:
        Result<(), ArchiveError>)
        ensures
            buffer(*final(self)) == buffer(*old(self)),
            match (*old(self), *final(self)) {
                (DatArchive::Dat1(before), DatArchive::Dat1(after)) => match r {
                    Ok(()) => all_fit(source_views(sources@)) && after@.directories == after_add(
                        before@.directories,
                        prepared_all(source_views(sources@), 0),
                    ),
                    Err(e) => e == ArchiveError::TooLarge && !all_fit(source_views(sources@))
                        && after@.directories == before@.directories,
                },
                (DatArchive::Dat2(before), DatArchive::Dat2(after)) => match r {
                    Ok(()) => all_fit(source_views(sources@)) && after@.files == sorted_by_name(
                        merged(
                            before@.files,
                            prepared_all(source_views(sources@), compression.value()),
                        ),
                        NameOrder::IgnoreCase,
                    ),
                    Err(e) => after@.files == before@.files && if e == ArchiveError::TooLarge {
                        !all_fit(source_views(sources@))
                    } else {
                        e == ArchiveError::Compression && compression.value() != 0
                    },
                },
                _ => false,
            },
    {
        match self {
            DatArchive::Dat1(tree) => tree.add_file(sources, compression),
            DatArchive::Dat2(flat) => flat.add_file(sources, compression),
        }
    }

    /// Takes the entry of the given name out of the archive. Fails with
    /// `ArchiveError::NotFound`, and changes nothing, exactly where the
    /// archive lists no entry of that name.
    pub fn delete_file(&mut self, file_name: &str) -> (r: Result<(), ArchiveError>)
        ensures
            buffer(*final(self)) == buffer(*old(self)),
            match (*old(self), *final(self)) {
                (DatArchive::Dat1(before), DatArchive::Dat1(after)) => {
                    let name = replace_char(file_name@, '/', '\\');
                    let dirs = before@.directories;
                    let at = holder(dirs, name);
                    match r {
                        Ok(()) => at < dirs.len() && after@.directories == dirs.update(
                            at,
                            DirView {
                                name: dirs[at].name,
                                files: dirs[at].files.remove(index_of_name(dirs[at].files, name)),
                            },
                        ),
                        Err(e) => e == ArchiveError::NotFound && at == dirs.len()
                            && after@.directories == dirs,
                    }
                },
                (DatArchive::Dat2(before), DatArchive::Dat2(after)) => {
                    let name = replace_char(file_name@, '/', '\\');
                    match r {
                        Ok(()) => has_name(before@.files, name) && after@.files
                            == before@.files.remove(index_of_name(before@.files, name)),
                        Err(e) => e == ArchiveError::NotFound && !has_name(before@.files, name)
                            && after@.files == before@.files,
                    }
                },
                _ => false,
            },
    {
        match self {
            DatArchive::Dat1(tree) => tree.delete_file(file_name),
            DatArchive::Dat2(flat) => flat.delete_file(file_name),
        }
    }

    /// The file that holds this archive, in its layout.
    pub fn save(&self) -> (r: Result<Vec<u8>, ArchiveError>)
        ensures
            match *self {
                DatArchive::Dat1(tree) => match r {
                    Ok(bytes) => saved_tree(tree@.directories, tree@.data) == Ok::<
                        Seq<u8>,
                        ArchiveError,
                    >(bytes@),
                    Err(e) => saved_tree(tree@.directories, tree@.data) == Err::<
                        Seq<u8>,
                        ArchiveError,
                    >(e),
                },
                DatArchive::Dat2(flat) => match r {
                    Ok(bytes) => saved_flat(flat@.files, flat@.data) == Ok::<
                        Seq<u8>,
                        ArchiveError,
                    >(bytes@),
                    Err(e) => saved_flat(flat@.files, flat@.data) == Err::<Seq<u8>, ArchiveError>(
                        e,
                    ),
                },
            },
    {
        match self {
            DatArchive::Dat1(tree) => tree.save(),
            DatArchive::Dat2(flat) => flat.save(),
        }
    }
}

} // verus!
