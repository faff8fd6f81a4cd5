//! Error kinds reported by the image engine.

use vstd::prelude::*;

verus! {

/// Why an operation on the backing file failed.
#[derive(Debug, Clone, Copy, PartialEq, Eq, Structural)]
pub enum IoError {
    /// An argument was outside the range the operation accepts.
    InvalidInput,
    /// Fewer bytes were available than the operation had to read.
    UnexpectedEof,
    /// The operating system reported the given error number.
    Os(i32),
    /// Any other failure.
    Other,
}

/// Why an image could not be opened, created or inspected.
#[derive(Debug, Clone, Copy, PartialEq, Eq, Structural)]
pub enum Error {
    BackingFilesNotSupported,
    CompressedBlocksNotSupported,
    GettingFileSize(IoError),
    GettingRefcount(IoError),
    InvalidClusterSize,
    InvalidL1TableOffset,
    BadMagic,
    InvalidOffset(u64),
    InvalidRefcountTableOffset,
    NoRefcountClusters,
    ReadingHeader(IoError),
    SeekingFile(IoError),
    SettingRefcountRefcount(IoError),
    WritingHeader(IoError),
    UnsupportedRefcountOrder,
    UnsupportedVersion(u32),
}

pub type Result<T> = core::result::Result<T, Error>;

pub type IoResult<T> = core::result::Result<T, IoError>;

} // verus!
