//! Why an image cannot be read.

use vstd::prelude::*;

verus! {

/// A reason to give up on an image.
#[derive(Debug, Clone, Copy)]
pub enum ImageError {
    /// The image ends inside something that has to be read.
    UnexpectedEof,
    /// A partition size asks for a position before the image's start or beyond the largest one.
    InvalidSeek,
    /// The image does not start with `AZ01` but with these four bytes.
    InvalidHeader([u8; 4]),
    /// The partition record does not start with `PARTL`.
    PartitionTagNotFound,
}

/// What an [`ImageError`] says, with the bytes that it holds as a sequence.
pub enum Failure {
    UnexpectedEof,
    InvalidSeek,
    InvalidHeader(Seq<u8>),
    PartitionTagNotFound,
}

impl View for ImageError {
    type V = Failure;

    open spec fn view(&self) -> Failure {
        match *self {
            ImageError::UnexpectedEof => Failure::UnexpectedEof,
            ImageError::InvalidSeek => Failure::InvalidSeek,
            ImageError::InvalidHeader(found) => Failure::InvalidHeader(found@),
            ImageError::PartitionTagNotFound => Failure::PartitionTagNotFound,
        }
    }
}

/// An error is the failure of the same kind, with the same bytes.
pub proof fn law_error_is_failure(e: ImageError, found: Seq<u8>)
    ensures
        e@ is UnexpectedEof <==> e is UnexpectedEof,
        e@ is InvalidSeek <==> e is InvalidSeek,
        e@ is PartitionTagNotFound <==> e is PartitionTagNotFound,
        e@ == Failure::InvalidHeader(found) <==> (e matches ImageError::InvalidHeader(h) && h@
            == found),
{
}

} // verus!
