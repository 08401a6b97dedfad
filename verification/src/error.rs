//! The ways in which reading a container can fail.

use crate::riff::RiffError;
use vstd::prelude::*;

verus! {

/// The ways in which an AVI file can be broken.
#[derive(Clone, Copy, Debug, PartialEq, Eq, Structural)]
pub enum AviError {
    DuplicateHdrlList,
    DuplicateMoviList,
    DuplicateIdx1Chunk,
    HdrlNotFound,
    MoviNotFound,
    InvalidRiffFileType,
    InvalidHdrlList,
    InvalidMoviList,
    InvalidMainHeader,
    InvalidStreamList,
    InvalidStreamHeader,
    InvalidStreamFormatHeader,
    InvalidStreamAdditionalData,
    InvalidAviMoviHeader,
    InvalidIndexHeader,
    InvalidRecordList,
    InvalidBufferReadSize,
    ChunkInRecordList,
    UnsupportedStreamType,
}

/// Why a read of a container failed.
#[derive(Clone, Copy, Debug, PartialEq, Eq, Structural)]
pub enum ReadError {
    /// The RIFF structure is broken.
    Riff(RiffError),
    /// The RIFF structure is sound, but it is no sound AVI file.
    Avi(AviError),
    /// The source ends before the bytes that the structure calls for.
    UnexpectedEof,
}

} // verus!
