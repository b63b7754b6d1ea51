//! The ways in which an archive operation can fail.
use vstd::prelude::*;

verus! {

/// Why an operation on an archive was refused.
#[derive(Debug, Clone, Copy, PartialEq, Eq, Structural)]
pub enum ArchiveError {
    /// A header, footer or record does not agree with the length of the
    /// buffer, or the buffer ends inside a field whose length was declared.
    Format,
    /// The stored bytes of an entry would lie outside the archive's buffer.
    Bounds,
    /// The bytes of a name are not acceptable under the naming policy.
    Encoding,
    /// A packed stream is damaged or ends too early.
    Compression,
    /// No entry carries the name that was asked for.
    NotFound,
    /// A setting is outside its range.
    Validation,
    /// A length or an offset does not fit the field that the layout gives it.
    TooLarge,
    /// The operation is not offered for this layout.
    Unsupported,
}

} // verus!
