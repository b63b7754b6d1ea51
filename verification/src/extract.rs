//! Getting the content of entries: the stored bytes, unpacked where the
//! entry is flagged as packed.
use crate::deflate::{zlib_unpack, zlib_unpacked};
use crate::entry::{EntryView, FileEntry};
use crate::error::ArchiveError;
use crate::lzss::{decompress, unpack};
use crate::select::ref_views;
use vstd::prelude::*;

verus! {

/// The coder that packed the entries of an archive.
#[derive(Debug, Clone, Copy, PartialEq, Eq, Structural)]
pub enum Coder {
    /// The deflate coder of the flat layout.
    Deflate,
    /// The dictionary coder of the directory layout.
    Dictionary,
}

/// One entry as it leaves an archive.
#[derive(Debug)]
pub struct ExtractedFile {
    /// The name of the entry in the archive.
    pub name: String,
    /// The content of the entry, unpacked.
    pub data: Vec<u8>,
}

impl View for ExtractedFile {
    type V = (Seq<char>, Seq<u8>);

    open spec fn view(&self) -> (Seq<char>, Seq<u8>) {
        (self.name@, self.data@)
    }
}

/// The extracted files as plain values.
pub open spec fn extracted_views(files: Seq<ExtractedFile>) -> Seq<(Seq<char>, Seq<u8>)> {
    files.map_values(|f: ExtractedFile| f@)
}

/// What `coder` unpacks `bytes` to, or nothing where it refuses them.
pub open spec fn unpacked(bytes: Seq<u8>, coder: Coder) -> Option<Seq<u8>> {
    match coder {
        Coder::Deflate => zlib_unpacked(bytes),
        Coder::Dictionary => unpack(bytes),
    }
}

/// The content of an entry in an archive whose buffer is `source`.
pub open spec fn content(e: EntryView, source: Seq<u8>, coder: Coder) -> Result<
    Seq<u8>,
    ArchiveError,
> {
    match e.stored(source) {
        None => Err(ArchiveError::Bounds),
        Some(bytes) => if e.compressed {
            match unpacked(bytes, coder) {
                Some(plain) => Ok(plain),
                None => Err(ArchiveError::Compression),
            }
        } else {
            Ok(bytes)
        },
    }
}

/// `head` in front of what `tail` holds, where it holds anything.
pub open spec fn prepend_files(
    head: Seq<(Seq<char>, Seq<u8>)>,
    tail: Result<Seq<(Seq<char>, Seq<u8>)>, ArchiveError>,
) -> Result<Seq<(Seq<char>, Seq<u8>)>, ArchiveError> {
    match tail {
        Ok(t) => Ok(head + t),
        Err(e) => Err(e),
    }
}

/// Name and content of every entry from index `from` on, or the error of
/// the first entry whose content cannot be had.
pub open spec fn contents_from(files: Seq<EntryView>, source: Seq<u8>, coder: Coder, from: int)
    -> Result<Seq<(Seq<char>, Seq<u8>)>, ArchiveError>
    decreases files.len() - from,
{
    if from < 0 || from >= files.len() {
        Ok(Seq::empty())
    } else {
        match content(files[from], source, coder) {
            Err(e) => Err(e),
            Ok(bytes) => prepend_files(
                seq![(files[from].name, bytes)],
                contents_from(files, source, coder, from + 1),
            ),
        }
    }
}

/// The content of `file`.
///
/// Fails with `ArchiveError::Bounds` where the entry names bytes outside
/// `source`, and with `ArchiveError::Compression` where it is flagged as
/// packed and the coder refuses its stored bytes.
pub fn extract_entry(file: &FileEntry, source: &[u8], coder: Coder) -> (r: Result<
    Vec<u8>,
    ArchiveError,
>)
    ensures
        match r {
            Ok(bytes) => content(file@, source@, coder) == Ok::<Seq<u8>, ArchiveError>(bytes@),
            Err(e) => content(file@, source@, coder) == Err::<Seq<u8>, ArchiveError>(e),
        },
{
    let stored = match file.read_stored(source) {
        Ok(bytes) => bytes,
        Err(e) => { return Err(e); },
    };
    if !file.compressed {
        return Ok(stored);
    }
    match coder {
        Coder::Deflate => match zlib_unpack(stored.as_slice()) {
            Some(plain) => Ok(plain),
            None => Err(ArchiveError::Compression),
        },
        Coder::Dictionary => match decompress(stored.as_slice()) {
            Ok(plain) => Ok(plain),
            Err(_) => Err(ArchiveError::Compression),
        },
    }
}

/// Name and content of every entry of `files`, in their order. The first
/// entry whose content cannot be had ends the work with its error.
pub fn extract_files(files: &[&FileEntry], source: &[u8], coder: Coder) -> (r: Result<
    Vec<ExtractedFile>,
    ArchiveError,
>)
    ensures
        match r {
            Ok(out) => contents_from(ref_views(files@), source@, coder, 0) == Ok::<
                Seq<(Seq<char>, Seq<u8>)>,
                ArchiveError,
            >(extracted_views(out@)),
            Err(e) => contents_from(ref_views(files@), source@, coder, 0) == Err::<
                Seq<(Seq<char>, Seq<u8>)>,
                ArchiveError,
            >(e),
        },
{
    let mut out: Vec<ExtractedFile> = Vec::new();
    let mut i: usize = 0;
    proof {
        assert(extracted_views(out@) =~= Seq::empty());
        let all = contents_from(ref_views(files@), source@, coder, 0);
        if all is Ok {
            assert(Seq::<(Seq<char>, Seq<u8>)>::empty() + all.unwrap() =~= all.unwrap());
        }
    }
    while i < files.len()
        invariant
            i <= files@.len(),
            contents_from(ref_views(files@), source@, coder, 0) == prepend_files(
                extracted_views(out@),
                contents_from(ref_views(files@), source@, coder, i as int),
            ),
        decreases files@.len() - i,
    {
        let ghost before = extracted_views(out@);
        let ghost rest = contents_from(ref_views(files@), source@, coder, i + 1);
        let file = files[i];
        assert(ref_views(files@)[i as int] == file@);
        let data = match extract_entry(file, source, coder) {
            Ok(data) => data,
            Err(e) => { return Err(e); },
        };
        let one = ExtractedFile { name: file.name.clone(), data };
        proof {
            assert(extracted_views(out@.push(one)) =~= before.push(one@));
            if rest is Ok {
                assert(before + (seq![one@] + rest.unwrap()) =~= before.push(one@)
                    + rest.unwrap());
            }
        }
        out.push(one);
        i = i + 1;
    }
    proof {
        assert(extracted_views(out@) + Seq::<(Seq<char>, Seq<u8>)>::empty() =~= extracted_views(
            out@,
        ));
    }
    Ok(out)
}

} // verus!
