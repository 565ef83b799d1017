use vstd::prelude::*;

verus! {

/// Every way in which decoding a notebook can fail.
#[derive(Debug, PartialEq, Eq)]
pub enum Error {
    /// An RLE bitmap decoded to the wrong number of pixels.
    PixelCount { got: usize, expected: usize },
    /// Fewer than four bytes remain for the length prefix of a block.
    BlockTruncated { offset: usize },
    /// The length prefix of a block runs past the end of the data.
    BlockTooLong { offset: usize, length: usize },
    /// A metadata block is not valid UTF-8.
    InvalidUtf8 { offset: usize },
    /// A required metadata key is absent.
    MissingKey,
    /// A metadata value that should be a decimal number is not one.
    InvalidNumber,
    /// The file signature is not valid UTF-8.
    SignatureEncoding,
    /// The data starts with no known Supernote signature.
    UnrecognizedFormat,
    /// The data is too short to hold the footer address.
    FileTooSmall,
    /// The footer lists no pages.
    NoPageAddresses,
    /// A stroke record ends before one of its fields.
    UnexpectedEnd { offset: usize },
    /// A stroke record claims more bytes than remain.
    StrokeTooLong { index: u32, size: u32 },
    /// A page index beyond the last page.
    PageOutOfRange { page: usize, count: usize },
}

} // verus!
