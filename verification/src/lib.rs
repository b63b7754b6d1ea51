//! Reading, changing and writing game archives in two container layouts:
//! a big-endian layout organised by directory, whose entries may be packed
//! with a sliding-window dictionary coder, and a little-endian flat layout
//! that is located through a trailing footer.
//!
//! Every function here works on bytes in memory; nothing touches a file.
pub mod archive;
pub mod deflate;
pub mod endian;
pub mod entries;
pub mod entry;
pub mod error;
pub mod extract;
pub mod filter;
pub mod flat;
pub mod flat_laws;
pub mod lzss;
pub mod names;
pub mod response;
pub mod select;
pub mod tree;
pub mod tree_layout;
pub mod tree_laws;

pub use archive::DatArchive;
pub use entry::{CompressionLevel, FileEntry};
pub use error::ArchiveError;
pub use filter::filter_and_track_patterns;
pub use flat::Dat2Archive;
pub use tree::Dat1Archive;
