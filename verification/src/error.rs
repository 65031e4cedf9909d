use vstd::prelude::*;

verus! {

/// Everything that can go wrong while locating, reading or parsing the EXIF
/// date-time values of a JPEG buffer.
#[derive(Clone, Copy, Debug, PartialEq, Eq, Structural)]
pub enum ExifError {
    /// The date-time value area is not valid UTF-8 text.
    DateTimeNotText,
    /// The date-time text does not parse as `YYYY:MM:DD HH:MM:SS`.
    DateTimeUnparsable,
    /// The buffer does not start with the JPEG SOI marker.
    NotJpeg,
    /// A segment does not start with 0xFF at the given offset.
    InvalidSegmentStructure { offset: usize },
    /// The 4-byte header of a segment runs past the end of the buffer.
    SegmentHeaderTruncated,
    /// A segment's length field is below 2 or runs past the end of the buffer.
    SegmentLengthExceedsFile,
    /// No APP1 segment carrying `Exif\0\0` was found before the scan data.
    ExifSegmentNotFound,
    /// The TIFF header does not fit in the APP1 segment.
    TiffHeaderTooShort,
    /// The TIFF byte order mark is neither `II` nor `MM`.
    InvalidByteOrder,
    /// The TIFF magic number is not 42.
    InvalidTiffMagic,
    /// A TIFF offset points outside the APP1 segment.
    OutsideSegment,
    /// IFD0 has no Exif IFD pointer (tag 0x8769).
    MissingExifIfd,
    /// The Exif IFD has no DateTimeOriginal entry (tag 0x9003).
    MissingDateTimeOriginal,
    /// A date-time tag is not of ASCII type.
    TagNotAscii { tag: u16 },
    /// A date-time tag holds fewer than 19 characters.
    TagInvalidLength { tag: u16 },
    /// A date-time tag's value points outside the APP1 segment.
    TagValueOutsideSegment { tag: u16 },
}

} // verus!
