use vstd::prelude::*;

verus! {

/// Every failure the library reports.
#[derive(Debug, Clone, PartialEq, Eq)]
pub enum DmiError {
    /// The underlying source or sink failed.
    Io,
    /// A sink accepted fewer bytes than it was given.
    ShortWrite,
    /// A byte sequence ended before the structure it holds did.
    Truncated,
    /// The first eight bytes are not the PNG signature.
    InvalidSignature,
    /// A chunk type holds a byte outside `A-Za-z`.
    InvalidChunkType { chunk_type: [u8; 4] },
    /// The CRC stated in a chunk differs from the one computed over its type and data.
    CrcMismatch { stated: u32, calculated: u32 },
    /// A chunk of the wrong type or shape where a specific one was expected.
    UnexpectedChunk,
    MissingIhdr,
    MissingIdat,
    MissingIend,
    MissingZtxt,
    /// A `zTXt` chunk names a compression method other than zlib.
    UnsupportedCompression { method: u8 },
    /// The decoded image is neither RGBA nor convertible to it.
    UnsupportedColorType,
    /// The manifest's geometry does not fit the image.
    GeometryMismatch,
    /// The manifest is not laid out as a DMI manifest.
    ManifestSyntax,
    /// A manifest line breaks the key/value quoting rules.
    BlockEntry,
    /// A manifest value is not a valid integer.
    ParseInt,
    /// A manifest value is not a valid delay.
    ParseFloat,
    /// Text is not valid UTF-8.
    Utf8,
    /// The compressed manifest could not be inflated.
    Inflate,
    /// A tile lookup asked for a direction or frame the state does not have.
    IconState,
    /// The raster codec failed to encode or decode the atlas.
    Encoding,
    /// A value could not be converted to the shape a caller asked for.
    Conversion,
    /// Any other failure: an icon that cannot be saved as it stands.
    Generic,
}

} // verus!
