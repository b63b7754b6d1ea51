//! The deflate coder that packs single entries of the flat layout.
use flate2::Compression;
use flate2::read::ZlibDecoder;
use flate2::write::ZlibEncoder;
use std::io::Read;
use std::io::Write;
use vstd::prelude::*;

verus! {

/// The zlib stream that the encoder makes of `data` at effort `level`.
pub uninterp spec fn zlib_packed(data: Seq<u8>, level: u8) -> Seq<u8>;

/// The bytes that the zlib stream `data` unpacks to, or nothing where the
/// decoder refuses it.
pub uninterp spec fn zlib_unpacked(data: Seq<u8>) -> Option<Seq<u8>>;

/// `flate2::write::ZlibEncoder` over a vector: `new` at the given level,
/// `write_all` of the whole input, then `finish`. What comes out is a
/// function of input and level and is named `zlib_packed`; an error of the
/// writer gives nothing. The backend asserts that the level is at most 10.
#[verifier::external_body]
pub(crate) fn zlib_pack(data: &[u8], level: u8) -> (r: Option<Vec<u8>>)
    requires
        level <= 9,
    ensures
        r is Some ==> r.unwrap()@ == zlib_packed(data@, level),
{
    let mut encoder = ZlibEncoder::new(Vec::new(), Compression::new(u32::from(level)));
    match encoder.write_all(data) {
        Ok(()) => encoder.finish().ok(),
        Err(_) => None,
    }
}

/// `flate2::read::ZlibDecoder` over a slice, read to its end. Whether the
/// stream is accepted and what it unpacks to is a function of the input and
/// is named `zlib_unpacked`.
#[verifier::external_body]
pub(crate) fn zlib_unpack(data: &[u8]) -> (r: Option<Vec<u8>>)
    ensures
        match r {
            Some(bytes) => zlib_unpacked(data@) == Some(bytes@),
            None => zlib_unpacked(data@) is None,
        },
{
    let mut decoder = ZlibDecoder::new(data);
    let mut bytes = Vec::new();
    match decoder.read_to_end(&mut bytes) {
        Ok(_) => Some(bytes),
        Err(_) => None,
    }
}

} // verus!
