//! A reader for AVI media containers and the RIFF structure beneath them.
//!
//! The crate does no I/O. It says which bytes of a file it needs and turns
//! the bytes it is given into a description of the file: the RIFF tree
//! ([`riff`], [`walk`]), the AVI header ([`format`], [`header`]) and the
//! catalog of media chunks ([`index`], [`reader`]).

pub mod bytes;
pub mod error;
pub mod format;
pub mod fourcc;
pub mod header;
pub mod index;
pub mod mmreg;
pub mod reader;
pub mod riff;
pub mod source;
pub mod walk;

pub use crate::error::{AviError, ReadError};
pub use crate::format::{
    AviBitmapInfo, AviFrame, AviMainHeader, AviStreamFormat, AviStreamHeader, AviWaveExtraInfo,
    AviWaveInfo, AviWaveInfoExt, Guid, Rect,
};
pub use crate::header::{AviHeader, AviStreamListItem};
pub use crate::index::{AviStream, AviStreamChunk, AviUtil};
pub use crate::reader::AviAsyncReader;
