//! Minimal EXIF walker that locates the ASCII values of the date-time tags
//! inside a JPEG's APP1 (Exif) segment, so that they can be overwritten in
//! place without changing the length of anything.

use crate::error::ExifError;
use crate::exif_datetime::{parse_bytes, reads_as, result_view, DateTimeFields, ExifDateTime};
use vstd::prelude::*;

verus! {

/// Length of an EXIF date-time "YYYY:MM:DD HH:MM:SS" (excluding the NUL terminator)
pub const DATETIME_LEN: usize = 19;

/// The six bytes `Exif\0\0` that open the payload of an Exif APP1 segment.
pub open spec fn exif_signature() -> Seq<u8> {
    seq![0x45u8, 0x78u8, 0x69u8, 0x66u8, 0x00u8, 0x00u8]
}

/// Big-endian value of two bytes.
pub open spec fn be_u16(hi: u8, lo: u8) -> int {
    hi * 256 + lo
}

/// Walks the JPEG segments starting at `pos` and yields the absolute offset of
/// the TIFF header inside the first Exif APP1 segment together with the end of
/// that segment.
pub open spec fn scan_segments(buf: Seq<u8>, pos: int) -> Result<(int, int), ExifError>
    decreases buf.len() - pos,
{
    if pos < 0 || pos + 2 > buf.len() {
        Err(ExifError::ExifSegmentNotFound)
    } else if buf[pos] != 0xFF {
        Err(ExifError::InvalidSegmentStructure { offset: pos as usize })
    } else {
        let marker = buf[pos + 1];
        if marker == 0xFF {
            // fill byte
            scan_segments(buf, pos + 1)
        } else if marker == 0xDA || marker == 0xD9 {
            // start of scan / end of image: no EXIF after this point
            Err(ExifError::ExifSegmentNotFound)
        } else if marker == 0x01 || (0xD0 <= marker <= 0xD7) {
            // standalone markers without a length field
            scan_segments(buf, pos + 2)
        } else if pos + 4 > buf.len() {
            Err(ExifError::SegmentHeaderTruncated)
        } else {
            let len = be_u16(buf[pos + 2], buf[pos + 3]);
            if len < 2 || pos + 2 + len > buf.len() {
                Err(ExifError::SegmentLengthExceedsFile)
            } else if marker == 0xE1 && len >= 16 && buf.subrange(pos + 4, pos + 10)
                == exif_signature() {
                Ok((pos + 10, pos + 2 + len))
            } else {
                scan_segments(buf, pos + 2 + len)
            }
        }
    }
}

/// Location of the Exif APP1 segment of a JPEG buffer: the absolute offset of
/// its TIFF header and the absolute offset of the segment's end.
pub open spec fn exif_app1(buf: Seq<u8>) -> Result<(int, int), ExifError> {
    if !(buf.len() >= 2 && buf[0] == 0xFF && buf[1] == 0xD8) {
        Err(ExifError::NotJpeg)
    } else {
        scan_segments(buf, 2)
    }
}

/// A located Exif segment lies inside the buffer, after its 10-byte
/// header, and leaves room for an 8-byte TIFF header.
proof fn lemma_scan_bounds(buf: Seq<u8>, pos: int)
    ensures
        scan_segments(buf, pos) matches Ok((base, end)) ==> 0 <= base && base + 8 <= end
            <= buf.len() && pos + 10 <= base,
    decreases buf.len() - pos,
{
    if pos < 0 || pos + 2 > buf.len() {
    } else if buf[pos] != 0xFF {
    } else {
        let marker = buf[pos + 1];
        if marker == 0xFF {
            lemma_scan_bounds(buf, pos + 1);
        } else if marker == 0xDA || marker == 0xD9 {
        } else if marker == 0x01 || (0xD0 <= marker <= 0xD7) {
            lemma_scan_bounds(buf, pos + 2);
        } else if pos + 4 > buf.len() {
        } else {
            let len = be_u16(buf[pos + 2], buf[pos + 3]);
            if len >= 2 && pos + 2 + len <= buf.len() {
                lemma_scan_bounds(buf, pos + 2 + len);
            }
        }
    }
}

/// Walks the JPEG segments and returns the APP1 (Exif) segment's
/// (absolute offset of the TIFF header, absolute offset of the segment end).
fn find_exif_tiff(buf: &[u8]) -> (r: Result<(usize, usize), ExifError>)
    ensures
        r matches Ok((base, end)) ==> base + 8 <= end <= buf@.len(),
        match r {
            Ok((base, end)) => exif_app1(buf@) == Ok::<(int, int), ExifError>((base as int, end as int)),
            Err(e) => exif_app1(buf@) == Err::<(int, int), ExifError>(e),
        },
{
    if !(buf.len() >= 2 && buf[0] == 0xFF && buf[1] == 0xD8) {
        return Err(ExifError::NotJpeg);
    }
    proof {
        lemma_scan_bounds(buf@, 2);
    }
    let mut pos: usize = 2;
    while buf.len() - pos >= 2
        invariant
            2 <= pos <= buf@.len(),
            exif_app1(buf@) == scan_segments(buf@, pos as int),
        decreases buf@.len() - pos,
    {
        if buf[pos] != 0xFF {
            return Err(ExifError::InvalidSegmentStructure { offset: pos });
        }
        let marker = buf[pos + 1];
        if marker == 0xFF {
            pos = pos + 1;
        } else if marker == 0xDA || marker == 0xD9 {
            return Err(ExifError::ExifSegmentNotFound);
        } else if marker == 0x01 || (0xD0 <= marker && marker <= 0xD7) {
            pos = pos + 2;
        } else {
            if buf.len() - pos < 4 {
                return Err(ExifError::SegmentHeaderTruncated);
            }
            let len: usize = (buf[pos + 2] as usize) * 256 + (buf[pos + 3] as usize);
            if len < 2 || buf.len() - pos - 2 < len {
                return Err(ExifError::SegmentLengthExceedsFile);
            }
            if marker == 0xE1 && len >= 16 && buf[pos + 4] == 0x45 && buf[pos + 5] == 0x78
                && buf[pos + 6] == 0x69 && buf[pos + 7] == 0x66 && buf[pos + 8] == 0
                && buf[pos + 9] == 0 {
                assert(buf@.subrange(pos + 4, pos + 10) =~= exif_signature());
                return Ok((pos + 10, pos + 2 + len));
            }
            assert(marker == 0xE1 && len >= 16 ==> buf@.subrange(pos + 4, pos + 10)
                != exif_signature()) by {
                if marker == 0xE1 && len >= 16 && buf@.subrange(pos + 4, pos + 10)
                    == exif_signature() {
                    assert(buf@.subrange(pos + 4, pos + 10)[0] == buf@[pos + 4]);
                    assert(buf@.subrange(pos + 4, pos + 10)[1] == buf@[pos + 5]);
                    assert(buf@.subrange(pos + 4, pos + 10)[2] == buf@[pos + 6]);
                    assert(buf@.subrange(pos + 4, pos + 10)[3] == buf@[pos + 7]);
                    assert(buf@.subrange(pos + 4, pos + 10)[4] == buf@[pos + 8]);
                    assert(buf@.subrange(pos + 4, pos + 10)[5] == buf@[pos + 9]);
                }
            }
            pos = pos + 2 + len;
        }
    }
    Err(ExifError::ExifSegmentNotFound)
}


/// Where the TIFF structure lives inside the buffer: the absolute offset of
/// its header, the absolute end of the enclosing segment, and its byte order.
pub struct TiffLayout {
    pub base: int,
    pub end: int,
    pub little_endian: bool,
}

/// Value of two bytes in the given byte order.
pub open spec fn u16_value(b0: u8, b1: u8, little_endian: bool) -> int {
    if little_endian {
        b0 + 256 * b1
    } else {
        256 * b0 + b1
    }
}

/// Value of four bytes in the given byte order.
pub open spec fn u32_value(b0: u8, b1: u8, b2: u8, b3: u8, little_endian: bool) -> int {
    if little_endian {
        b0 + 256 * b1 + 65536 * b2 + 16777216 * b3
    } else {
        16777216 * b0 + 65536 * b1 + 256 * b2 + b3
    }
}

/// True when `n` bytes at header-relative offset `rel` lie inside the segment.
pub open spec fn in_segment(t: TiffLayout, rel: int, n: int) -> bool {
    0 <= rel && t.base + rel + n <= t.end
}

/// The 16-bit value at header-relative offset `rel` (no bounds check).
pub open spec fn field_u16(buf: Seq<u8>, t: TiffLayout, rel: int) -> int {
    u16_value(buf[t.base + rel], buf[t.base + rel + 1], t.little_endian)
}

/// The 32-bit value at header-relative offset `rel` (no bounds check).
pub open spec fn field_u32(buf: Seq<u8>, t: TiffLayout, rel: int) -> int {
    u32_value(
        buf[t.base + rel],
        buf[t.base + rel + 1],
        buf[t.base + rel + 2],
        buf[t.base + rel + 3],
        t.little_endian,
    )
}

/// The 16-bit value at header-relative offset `rel`, if it lies in the segment.
pub open spec fn read_u16(buf: Seq<u8>, t: TiffLayout, rel: int) -> Option<int> {
    if in_segment(t, rel, 2) {
        Some(field_u16(buf, t, rel))
    } else {
        None
    }
}

/// The 32-bit value at header-relative offset `rel`, if it lies in the segment.
pub open spec fn read_u32(buf: Seq<u8>, t: TiffLayout, rel: int) -> Option<int> {
    if in_segment(t, rel, 4) {
        Some(field_u32(buf, t, rel))
    } else {
        None
    }
}

/// The TIFF header found at `base` in a segment ending at `end`: its byte
/// order mark must be `II` or `MM` and its magic number 42.
pub open spec fn tiff_header(buf: Seq<u8>, base: int, end: int) -> Result<TiffLayout, ExifError> {
    if !(end <= buf.len() && end - base >= 8) {
        Err(ExifError::TiffHeaderTooShort)
    } else if !((buf[base] == 0x49 && buf[base + 1] == 0x49) || (buf[base] == 0x4D && buf[base
        + 1] == 0x4D)) {
        Err(ExifError::InvalidByteOrder)
    } else {
        let t = TiffLayout { base, end, little_endian: buf[base] == 0x49 };
        if field_u16(buf, t, 2) == 42 {
            Ok(t)
        } else {
            Err(ExifError::InvalidTiffMagic)
        }
    }
}


/// An IFD entry as the specification sees it. `value_field` is the
/// header-relative offset of the entry's 4-byte value/offset field.
pub struct IfdEntry {
    pub tag: int,
    pub typ: int,
    pub count: int,
    pub value_field: int,
}

/// The IFD entry whose 12 bytes start at header-relative offset `e`.
pub open spec fn entry_at(buf: Seq<u8>, t: TiffLayout, e: int) -> IfdEntry {
    IfdEntry {
        tag: field_u16(buf, t, e),
        typ: field_u16(buf, t, e + 2),
        count: field_u32(buf, t, e + 4),
        value_field: e + 8,
    }
}

/// The entries of the IFD at header-relative offset `ifd`: a 16-bit count
/// followed by that many 12-byte entries. `None` when the count, or the tag,
/// type and count of some entry, lie outside the segment.
pub open spec fn ifd_entries(buf: Seq<u8>, t: TiffLayout, ifd: int) -> Option<Seq<IfdEntry>> {
    match read_u16(buf, t, ifd) {
        None => None,
        Some(n) => if n == 0 || in_segment(t, ifd + 2 + 12 * (n - 1), 8) {
            Some(Seq::new(n as nat, |i: int| entry_at(buf, t, ifd + 2 + 12 * i)))
        } else {
            None
        },
    }
}

/// Absolute offset of the value area of an ASCII date-time entry.
pub open spec fn ascii_value(buf: Seq<u8>, t: TiffLayout, e: IfdEntry) -> Result<int, ExifError> {
    if e.typ != 2 {
        Err(ExifError::TagNotAscii { tag: e.tag as u16 })
    } else if e.count < DATETIME_LEN {
        Err(ExifError::TagInvalidLength { tag: e.tag as u16 })
    } else {
        match read_u32(buf, t, e.value_field) {
            None => Err(ExifError::OutsideSegment),
            Some(off) => if t.base + off + DATETIME_LEN <= t.end {
                Ok(t.base + off)
            } else {
                Err(ExifError::TagValueOutsideSegment { tag: e.tag as u16 })
            },
        }
    }
}

/// The value of a successful result, if any.
pub open spec fn ok_value(r: Result<int, ExifError>) -> Option<int> {
    match r {
        Ok(v) => Some(v),
        Err(_) => None,
    }
}

/// Index of the last entry carrying `tag`.
pub open spec fn last_with_tag(es: Seq<IfdEntry>, tag: int) -> Option<int>
    decreases es.len(),
{
    if es.len() == 0 {
        None
    } else if es.last().tag == tag {
        Some(es.len() - 1)
    } else {
        last_with_tag(es.drop_last(), tag)
    }
}

/// The index found by `last_with_tag` is in range and carries the tag.
proof fn lemma_last_with_tag_bounds(es: Seq<IfdEntry>, tag: int)
    ensures
        last_with_tag(es, tag) matches Some(k) ==> 0 <= k < es.len() && es[k].tag == tag,
    decreases es.len(),
{
    if es.len() > 0 && es.last().tag != tag {
        lemma_last_with_tag_bounds(es.drop_last(), tag);
    }
}

/// Extending a prefix of the entries by one entry.
proof fn lemma_last_with_tag_step(es: Seq<IfdEntry>, i: int, tag: int)
    requires
        0 <= i < es.len(),
    ensures
        last_with_tag(es.take(i + 1), tag) == (if es[i].tag == tag {
            Some(i)
        } else {
            last_with_tag(es.take(i), tag)
        }),
        last_with_tag(es.take(i + 1), tag) matches Some(k) ==> 0 <= k <= i && es.take(i + 1)[k]
            == es[k] && es[k].tag == tag,
{
    assert(es.take(i + 1).drop_last() =~= es.take(i));
    lemma_last_with_tag_bounds(es.take(i + 1), tag);
}

/// The value offset of the last entry with `tag`, or `None` if there is no
/// such entry or its value is unusable.
pub open spec fn last_ascii_value(buf: Seq<u8>, t: TiffLayout, es: Seq<IfdEntry>, tag: int) -> Option<int> {
    match last_with_tag(es, tag) {
        None => None,
        Some(i) => ok_value(ascii_value(buf, t, es[i])),
    }
}

/// Some Exif IFD pointer (tag 0x8769) has its value field outside the segment.
pub open spec fn exif_pointer_unreadable(buf: Seq<u8>, t: TiffLayout, es: Seq<IfdEntry>) -> bool {
    exists|i: int|
        0 <= i < es.len() && #[trigger] es[i].tag == 0x8769 && read_u32(buf, t, es[i].value_field) is None
}

/// The Exif IFD offset given by the last pointer entry (tag 0x8769).
pub open spec fn exif_pointer(buf: Seq<u8>, t: TiffLayout, es: Seq<IfdEntry>) -> Option<int> {
    match last_with_tag(es, 0x8769) {
        None => None,
        Some(i) => read_u32(buf, t, es[i].value_field),
    }
}

/// The error of the first DateTimeOriginal entry (tag 0x9003) whose value is unusable.
pub open spec fn first_original_error(buf: Seq<u8>, t: TiffLayout, es: Seq<IfdEntry>) -> Option<ExifError>
    decreases es.len(),
{
    if es.len() == 0 {
        None
    } else {
        match first_original_error(buf, t, es.drop_last()) {
            Some(e) => Some(e),
            None => if es.last().tag == 0x9003 {
                match ascii_value(buf, t, es.last()) {
                    Err(e) => Some(e),
                    Ok(_) => None,
                }
            } else {
                None
            },
        }
    }
}

/// `Some(v as usize)` for `Some(v)`.
pub open spec fn to_usize_opt(o: Option<int>) -> Option<usize> {
    match o {
        Some(v) => Some(v as usize),
        None => None,
    }
}

/// Offsets of the date-time values of a JPEG buffer, or the error met on the way:
/// DateTimeOriginal from the Exif IFD is required; DateTimeDigitized (Exif IFD)
/// and DateTime (IFD0) are reported when present and usable. When a tag occurs
/// more than once, its last occurrence counts.
pub open spec fn datetime_offsets(buf: Seq<u8>) -> Result<DateTimeOffsets, ExifError> {
    match exif_app1(buf) {
        Err(e) => Err(e),
        Ok((base, end)) => match tiff_header(buf, base, end) {
            Err(e) => Err(e),
            Ok(t) => tiff_offsets(buf, t),
        },
    }
}

/// The date-time offsets found through the IFDs of the TIFF structure `t`.
pub open spec fn tiff_offsets(buf: Seq<u8>, t: TiffLayout) -> Result<DateTimeOffsets, ExifError> {
    match read_u32(buf, t, 4) {
        None => Err(ExifError::OutsideSegment),
        Some(ifd0) => match ifd_entries(buf, t, ifd0) {
            None => Err(ExifError::OutsideSegment),
            Some(es0) => if exif_pointer_unreadable(buf, t, es0) {
                Err(ExifError::OutsideSegment)
            } else {
                match exif_pointer(buf, t, es0) {
                    None => Err(ExifError::MissingExifIfd),
                    Some(exif) => match ifd_entries(buf, t, exif) {
                        None => Err(ExifError::OutsideSegment),
                        Some(es1) => match first_original_error(buf, t, es1) {
                            Some(e) => Err(e),
                            None => match last_ascii_value(buf, t, es1, 0x9003) {
                                None => Err(ExifError::MissingDateTimeOriginal),
                                Some(o) => Ok(
                                    DateTimeOffsets {
                                        datetime_original: o as usize,
                                        datetime_digitized: to_usize_opt(
                                            last_ascii_value(buf, t, es1, 0x9004),
                                        ),
                                        datetime: to_usize_opt(
                                            last_ascii_value(buf, t, es0, 0x0132),
                                        ),
                                    },
                                ),
                            },
                        },
                    },
                }
            },
        },
    }
}

/// Absolute byte offsets (from the start of the file) of the date-time tag
/// values to be rewritten.
#[derive(Debug)]
pub struct DateTimeOffsets {
    /// DateTimeOriginal (0x9003, Exif IFD). Required.
    pub datetime_original: usize,
    /// DateTimeDigitized / CreateDate (0x9004, Exif IFD). Synced when present.
    pub datetime_digitized: Option<usize>,
    /// DateTime / ModifyDate (0x0132, IFD0). Synced when present.
    pub datetime: Option<usize>,
}

/// The elements of an optional offset, as a sequence of zero or one element.
pub open spec fn opt_seq(o: Option<usize>) -> Seq<usize> {
    match o {
        Some(v) => seq![v],
        None => Seq::empty(),
    }
}

impl DateTimeOffsets {
    /// The offsets to be rewritten, DateTimeOriginal first, then
    /// DateTimeDigitized and DateTime when present.
    pub open spec fn spec_all(&self) -> Seq<usize> {
        seq![self.datetime_original] + opt_seq(self.datetime_digitized) + opt_seq(self.datetime)
    }

    /// Every offset leaves room for a date-time value in a buffer of `len` bytes.
    pub open spec fn within(&self, len: nat) -> bool {
        forall|k: int|
            0 <= k < self.spec_all().len() ==> #[trigger] self.spec_all()[k] + DATETIME_LEN <= len
    }

    /// All offsets to be rewritten
    pub fn all(&self) -> (v: Vec<usize>)
        ensures
            v@ == self.spec_all(),
    {
        let mut v = Vec::new();
        v.push(self.datetime_original);
        if let Some(o) = self.datetime_digitized {
            v.push(o);
        }
        if let Some(o) = self.datetime {
            v.push(o);
        }
        v
    }
}

/// An IFD entry. `value_field` is the base-relative offset of the 4-byte
/// value/offset field.
struct Entry {
    tag: u16,
    typ: u16,
    count: u32,
    value_field: usize,
}

impl Entry {
    spec fn view(&self) -> IfdEntry {
        IfdEntry {
            tag: self.tag as int,
            typ: self.typ as int,
            count: self.count as int,
            value_field: self.value_field as int,
        }
    }
}

/// Helper for reading the TIFF structure. All offsets are relative to the
/// TIFF header (base).
struct Tiff<'a> {
    buf: &'a [u8],
    base: usize,
    end: usize,
    little_endian: bool,
}

impl<'a> Tiff<'a> {
    spec fn layout(&self) -> TiffLayout {
        TiffLayout { base: self.base as int, end: self.end as int, little_endian: self.little_endian }
    }

    spec fn wf(&self) -> bool {
        self.base <= self.end <= self.buf@.len() && self.end - self.base >= 8
    }

    fn new(buf: &'a [u8], base: usize, end: usize) -> (r: Result<Tiff<'a>, ExifError>)
        requires
            base <= end,
        ensures
            match r {
                Ok(t) => t.wf() && t.buf@ == buf@ && tiff_header(buf@, base as int, end as int)
                    == Ok::<TiffLayout, ExifError>(t.layout()),
                Err(e) => tiff_header(buf@, base as int, end as int) == Err::<TiffLayout, ExifError>(e),
            },
    {
        if !(end <= buf.len() && end - base >= 8) {
            return Err(ExifError::TiffHeaderTooShort);
        }
        let little_endian = if buf[base] == 0x49 && buf[base + 1] == 0x49 {
            true
        } else if buf[base] == 0x4D && buf[base + 1] == 0x4D {
            false
        } else {
            return Err(ExifError::InvalidByteOrder);
        };
        let tiff = Tiff { buf, base, end, little_endian };
        let magic = tiff.u16(2)?;
        if magic != 42 {
            return Err(ExifError::InvalidTiffMagic);
        }
        Ok(tiff)
    }

    fn bytes(&self, rel: usize, n: usize) -> (r: Result<&'a [u8], ExifError>)
        requires
            self.wf(),
        ensures
            match r {
                Ok(s) => in_segment(self.layout(), rel as int, n as int) && s@ == self.buf@.subrange(
                    self.base + rel,
                    self.base + rel + n,
                ),
                Err(e) => !in_segment(self.layout(), rel as int, n as int) && e
                    == ExifError::OutsideSegment,
            },
    {
        if rel > self.end - self.base || n > self.end - self.base - rel {
            return Err(ExifError::OutsideSegment);
        }
        let abs = self.base + rel;
        Ok(&self.buf[abs..abs + n])
    }

    fn u16(&self, rel: usize) -> (r: Result<u16, ExifError>)
        requires
            self.wf(),
        ensures
            match r {
                Ok(v) => read_u16(self.buf@, self.layout(), rel as int) == Some(v as int),
                Err(e) => read_u16(self.buf@, self.layout(), rel as int) is None && e
                    == ExifError::OutsideSegment,
            },
    {
        let b = self.bytes(rel, 2)?;
        let v: u16 = if self.little_endian {
            (b[1] as u16) * 256 + (b[0] as u16)
        } else {
            (b[0] as u16) * 256 + (b[1] as u16)
        };
        Ok(v)
    }

    fn u32(&self, rel: usize) -> (r: Result<u32, ExifError>)
        requires
            self.wf(),
        ensures
            match r {
                Ok(v) => read_u32(self.buf@, self.layout(), rel as int) == Some(v as int),
                Err(e) => read_u32(self.buf@, self.layout(), rel as int) is None && e
                    == ExifError::OutsideSegment,
            },
    {
        let b = self.bytes(rel, 4)?;
        let v: u32 = if self.little_endian {
            (b[3] as u32) * 16777216 + (b[2] as u32) * 65536 + (b[1] as u32) * 256 + (b[0] as u32)
        } else {
            (b[0] as u32) * 16777216 + (b[1] as u32) * 65536 + (b[2] as u32) * 256 + (b[3] as u32)
        };
        Ok(v)
    }
    fn ifd_entries(&self, ifd: usize) -> (r: Result<Vec<Entry>, ExifError>)
        requires
            self.wf(),
        ensures
            match r {
                Ok(v) => ifd_entries(self.buf@, self.layout(), ifd as int) == Some(
                    v@.map_values(|e: Entry| e.view()),
                ),
                Err(e) => ifd_entries(self.buf@, self.layout(), ifd as int) is None && e
                    == ExifError::OutsideSegment,
            },
    {
        let ghost t = self.layout();
        let n = self.u16(ifd)? as usize;
        let mut entries: Vec<Entry> = Vec::new();
        let mut i: usize = 0;
        while i < n
            invariant
                self.wf(),
                t == self.layout(),
                read_u16(self.buf@, t, ifd as int) == Some(n as int),
                in_segment(t, ifd as int, 2),
                0 <= i <= n,
                entries@.len() == i,
                forall|j: int|
                    0 <= j < i ==> #[trigger] entries@[j].view() == entry_at(
                        self.buf@,
                        t,
                        ifd + 2 + 12 * j,
                    ),
                i > 0 ==> in_segment(t, ifd + 2 + 12 * (i - 1), 8),
            decreases n - i,
        {
            if i > (usize::MAX - ifd - 2) / 12 {
                return Err(ExifError::OutsideSegment);
            }
            let e = ifd + 2 + i * 12;
            let r_tag = self.u16(e);
            if r_tag.is_err() {
                assert(!in_segment(t, ifd + 2 + 12 * (n - 1), 8));
                return Err(ExifError::OutsideSegment);
            }
            let tag = r_tag.unwrap();
            let r_typ = self.u16(e + 2);
            if r_typ.is_err() {
                assert(!in_segment(t, ifd + 2 + 12 * (n - 1), 8));
                return Err(ExifError::OutsideSegment);
            }
            let typ = r_typ.unwrap();
            let r_count = self.u32(e + 4);
            if r_count.is_err() {
                assert(!in_segment(t, ifd + 2 + 12 * (n - 1), 8));
                return Err(ExifError::OutsideSegment);
            }
            let count = r_count.unwrap();
            entries.push(Entry { tag, typ, count, value_field: e + 8 });
            i = i + 1;
        }
        assert(entries@.map_values(|e: Entry| e.view()) =~= Seq::new(
            n as nat,
            |j: int| entry_at(self.buf@, t, ifd + 2 + 12 * j),
        ));
        Ok(entries)
    }

    /// Returns the absolute offset of an ASCII date-time tag's value area.
    /// A date-time is 19 chars + NUL = 20 bytes, which exceeds 4 bytes, so the
    /// value is always an offset reference.
    fn ascii_value_abs(&self, e: &Entry) -> (r: Result<usize, ExifError>)
        requires
            self.wf(),
        ensures
            match r {
                Ok(a) => ascii_value(self.buf@, self.layout(), e.view()) == Ok::<int, ExifError>(a as int),
                Err(err) => ascii_value(self.buf@, self.layout(), e.view()) == Err::<int, ExifError>(err),
            },
    {
        if e.typ != 2 {
            return Err(ExifError::TagNotAscii { tag: e.tag });
        }
        if (e.count as usize) < DATETIME_LEN {
            return Err(ExifError::TagInvalidLength { tag: e.tag });
        }
        let off = self.u32(e.value_field)? as usize;
        if off > self.end - self.base || DATETIME_LEN > self.end - self.base - off {
            return Err(ExifError::TagValueOutsideSegment { tag: e.tag });
        }
        Ok(self.base + off)
    }
}


/// Finds the value offsets of the date-time tags in a JPEG buffer.
/// Missing DateTimeOriginal is an error. 0x9004 / 0x0132 are None when absent
/// (the in-place approach never creates tags that do not exist).
pub fn find_datetime_offsets(buf: &[u8]) -> (r: Result<DateTimeOffsets, ExifError>)
    ensures
        r == datetime_offsets(buf@),
        r matches Ok(o) ==> o.within(buf@.len()),
{
    let (tiff_base, seg_end) = find_exif_tiff(buf)?;
    let tiff = Tiff::new(buf, tiff_base, seg_end)?;
    let ghost t = tiff.layout();
    assert(t.end <= buf@.len());

    let ifd0 = tiff.u32(4)? as usize;
    let entries0 = tiff.ifd_entries(ifd0)?;
    let ghost es0 = entries0@.map_values(|e: Entry| e.view());
    let mut datetime: Option<usize> = None;
    let mut exif_ifd_off: Option<usize> = None;
    let mut i: usize = 0;
    while i < entries0.len()
        invariant
            tiff.wf(),
            t == tiff.layout(),
            tiff.buf@ == buf@,
            t.end <= buf@.len(),
            datetime matches Some(a) ==> a + DATETIME_LEN <= buf@.len(),
            es0 == entries0@.map_values(|e: Entry| e.view()),
            exif_app1(buf@) == Ok::<(int, int), ExifError>((tiff_base as int, seg_end as int)),
            tiff_header(buf@, tiff_base as int, seg_end as int) == Ok::<TiffLayout, ExifError>(t),
            read_u32(buf@, t, 4) == Some(ifd0 as int),
            ifd_entries(buf@, t, ifd0 as int) == Some(es0),
            0 <= i <= entries0@.len(),
            datetime == to_usize_opt(last_ascii_value(buf@, t, es0.take(i as int), 0x0132)),
            last_ascii_value(buf@, t, es0.take(i as int), 0x0132) matches Some(v) ==> v
                <= usize::MAX,
            !exif_pointer_unreadable(buf@, t, es0.take(i as int)),
            exif_ifd_off == to_usize_opt(exif_pointer(buf@, t, es0.take(i as int))),
            exif_pointer(buf@, t, es0.take(i as int)) matches Some(v) ==> v <= usize::MAX,
        decreases entries0@.len() - i,
    {
        let e = &entries0[i];
        let ghost prefix = es0.take(i as int);
        let ghost next = es0.take(i + 1);
        assert(next.drop_last() =~= prefix);
        assert(next.last() == e.view());
        assert(es0[i as int] == e.view());
        proof {
            lemma_last_with_tag_step(es0, i as int, 0x0132);
            lemma_last_with_tag_step(es0, i as int, 0x8769);
            lemma_last_with_tag_bounds(prefix, 0x0132);
            lemma_last_with_tag_bounds(prefix, 0x8769);
        }
        if e.tag == 0x0132 {
            datetime = match tiff.ascii_value_abs(e) {
                Ok(a) => Some(a),
                Err(_) => None,
            };
        } else if e.tag == 0x8769 {
            let r = tiff.u32(e.value_field);
            match r {
                Ok(v) => {
                    exif_ifd_off = Some(v as usize);
                },
                Err(err) => {
                    assert(es0.take(i + 1)[i as int].tag == 0x8769);
                    assert(exif_pointer_unreadable(buf@, t, es0)) by {
                        assert(es0[i as int] == e.view());
                    }
                    return Err(err);
                },
            }
        }
        assert(!exif_pointer_unreadable(buf@, t, next)) by {
            if exif_pointer_unreadable(buf@, t, next) {
                let k = choose|k: int|
                    0 <= k < next.len() && #[trigger] next[k].tag == 0x8769 && read_u32(
                        buf@,
                        t,
                        next[k].value_field,
                    ) is None;
                if k < i {
                    assert(prefix[k] == next[k]);
                }
            }
        }
        i = i + 1;
    }
    assert(es0.take(entries0@.len() as int) =~= es0);
    let exif_ifd_off = match exif_ifd_off {
        Some(o) => o,
        None => {
            return Err(ExifError::MissingExifIfd);
        },
    };

    let entries1 = tiff.ifd_entries(exif_ifd_off)?;
    let ghost es1 = entries1@.map_values(|e: Entry| e.view());
    let mut datetime_original: Option<usize> = None;
    let mut datetime_digitized: Option<usize> = None;
    let mut i: usize = 0;
    while i < entries1.len()
        invariant
            tiff.wf(),
            t == tiff.layout(),
            tiff.buf@ == buf@,
            t.end <= buf@.len(),
            datetime matches Some(a) ==> a + DATETIME_LEN <= buf@.len(),
            datetime_original matches Some(a) ==> a + DATETIME_LEN <= buf@.len(),
            datetime_digitized matches Some(a) ==> a + DATETIME_LEN <= buf@.len(),
            es1 == entries1@.map_values(|e: Entry| e.view()),
            exif_app1(buf@) == Ok::<(int, int), ExifError>((tiff_base as int, seg_end as int)),
            tiff_header(buf@, tiff_base as int, seg_end as int) == Ok::<TiffLayout, ExifError>(t),
            read_u32(buf@, t, 4) == Some(ifd0 as int),
            ifd_entries(buf@, t, ifd0 as int) == Some(es0),
            !exif_pointer_unreadable(buf@, t, es0),
            exif_pointer(buf@, t, es0) == Some(exif_ifd_off as int),
            ifd_entries(buf@, t, exif_ifd_off as int) == Some(es1),
            datetime == to_usize_opt(last_ascii_value(buf@, t, es0, 0x0132)),
            0 <= i <= entries1@.len(),
            first_original_error(buf@, t, es1.take(i as int)) is None,
            datetime_original == to_usize_opt(last_ascii_value(buf@, t, es1.take(i as int), 0x9003)),
            last_ascii_value(buf@, t, es1.take(i as int), 0x9003) matches Some(v) ==> v
                <= usize::MAX,
            datetime_digitized == to_usize_opt(
                last_ascii_value(buf@, t, es1.take(i as int), 0x9004),
            ),
            last_ascii_value(buf@, t, es1.take(i as int), 0x9004) matches Some(v) ==> v
                <= usize::MAX,
        decreases entries1@.len() - i,
    {
        let e = &entries1[i];
        let ghost prefix = es1.take(i as int);
        let ghost next = es1.take(i + 1);
        assert(next.drop_last() =~= prefix);
        assert(next.last() == e.view());
        assert(es1[i as int] == e.view());
        proof {
            lemma_last_with_tag_step(es1, i as int, 0x9003);
            lemma_last_with_tag_step(es1, i as int, 0x9004);
            lemma_last_with_tag_bounds(prefix, 0x9003);
            lemma_last_with_tag_bounds(prefix, 0x9004);
        }
        if e.tag == 0x9003 {
            match tiff.ascii_value_abs(e) {
                Ok(a) => {
                    datetime_original = Some(a);
                },
                Err(err) => {
                    proof {
                        lemma_first_error_extends(buf@, t, es1, i as int);
                    }
                    return Err(err);
                },
            }
        } else if e.tag == 0x9004 {
            datetime_digitized = match tiff.ascii_value_abs(e) {
                Ok(a) => Some(a),
                Err(_) => None,
            };
        }
        i = i + 1;
    }
    assert(es1.take(entries1@.len() as int) =~= es1);

    let datetime_original = match datetime_original {
        Some(o) => o,
        None => {
            return Err(ExifError::MissingDateTimeOriginal);
        },
    };
    Ok(DateTimeOffsets { datetime_original, datetime_digitized, datetime })
}

/// Once some prefix of the entries meets a DateTimeOriginal error, that error
/// is the first one of the whole sequence.
proof fn lemma_first_error_extends(buf: Seq<u8>, t: TiffLayout, es: Seq<IfdEntry>, i: int)
    requires
        0 <= i < es.len(),
        first_original_error(buf, t, es.take(i + 1)) is Some,
    ensures
        first_original_error(buf, t, es) == first_original_error(buf, t, es.take(i + 1)),
    decreases es.len() - i,
{
    if i + 1 == es.len() {
        assert(es.take(i + 1) =~= es);
    } else {
        assert(es.take(i + 2).drop_last() =~= es.take(i + 1));
        lemma_first_error_extends(buf, t, es, i + 1);
    }
}


/// The date-time that DateTimeOriginal holds in a JPEG buffer.
pub open spec fn original_time(buf: Seq<u8>) -> Result<DateTimeFields, ExifError> {
    match datetime_offsets(buf) {
        Err(e) => Err(e),
        Ok(o) => parse_bytes(
            buf.subrange(o.datetime_original as int, o.datetime_original + DATETIME_LEN),
        ),
    }
}

/// Reads the current value of DateTimeOriginal.
pub fn read_datetime_original(buf: &[u8]) -> (r: Result<ExifDateTime, ExifError>)
    ensures
        result_view(r) == original_time(buf@),
        datetime_offsets(buf@) matches Ok(o) ==> reads_as(
            buf@.subrange(o.datetime_original as int, o.datetime_original + DATETIME_LEN),
            r,
        ),
{
    let offsets = find_datetime_offsets(buf)?;
    assert(offsets.spec_all()[0] == offsets.datetime_original);
    read_datetime_at(buf, offsets.datetime_original)
}

/// Reads the 19-byte date-time at the given offset.
pub fn read_datetime_at(buf: &[u8], offset: usize) -> (r: Result<ExifDateTime, ExifError>)
    requires
        offset + DATETIME_LEN <= buf@.len(),
    ensures
        reads_as(buf@.subrange(offset as int, offset + DATETIME_LEN), r),
{
    let _len = buf.len();
    ExifDateTime::from_exif_bytes(&buf[offset..offset + DATETIME_LEN])
}

/// `buf` with `bytes` written over it at `off`.
pub open spec fn splice(buf: Seq<u8>, off: int, bytes: Seq<u8>) -> Seq<u8> {
    buf.take(off) + bytes + buf.skip(off + bytes.len())
}

/// `buf` with `bytes` written at each offset of `offs` in turn.
pub open spec fn write_all(buf: Seq<u8>, offs: Seq<usize>, bytes: Seq<u8>) -> Seq<u8>
    decreases offs.len(),
{
    if offs.len() == 0 {
        buf
    } else {
        splice(write_all(buf, offs.drop_last(), bytes), offs.last() as int, bytes)
    }
}

/// Overwrites the value areas (19 bytes each) of the found date-time tags
/// with the new date-time. The buffer length never changes.
pub fn patch_datetimes(buf: &mut [u8], offsets: &DateTimeOffsets, new: ExifDateTime)
    requires
        new@.fits_exif(),
        offsets.within(old(buf)@.len()),
    ensures
        final(buf)@ == write_all(old(buf)@, offsets.spec_all(), new@.exif_bytes()),
{
    let bytes = new.to_exif_bytes();
    let all = offsets.all();
    let ghost start = buf@;
    let len = buf.len();
    let mut k: usize = 0;
    while k < all.len()
        invariant
            all@ == offsets.spec_all(),
            offsets.within(start.len()),
            bytes@ == new@.exif_bytes(),
            bytes@.len() == DATETIME_LEN,
            0 <= k <= all@.len(),
            buf@.len() == start.len(),
            len == start.len(),
            buf@ == write_all(start, all@.take(k as int), bytes@),
        decreases all@.len() - k,
    {
        let off = all[k];
        assert(off + DATETIME_LEN <= start.len());
        let ghost before = buf@;
        let mut j: usize = 0;
        while j < DATETIME_LEN
            invariant
                0 <= j <= DATETIME_LEN,
                off + DATETIME_LEN <= buf@.len(),
                buf@.len() == len,
                bytes@.len() == DATETIME_LEN,
                buf@.len() == before.len(),
                forall|p: int| 0 <= p < before.len() && !(off <= p < off + j) ==> buf@[p] == before[p],
                forall|p: int| off <= p < off + j ==> buf@[p] == bytes@[p - off],
            decreases DATETIME_LEN - j,
        {
            buf[off + j] = bytes[j];
            j = j + 1;
        }
        assert(all@.take(k + 1).drop_last() =~= all@.take(k as int));
        assert(buf@ =~= splice(before, off as int, bytes@));
        k = k + 1;
    }
    assert(all@.take(all@.len() as int) =~= all@);
}


/// Position `p` lies in the value area written at one of the offsets.
pub open spec fn covered(offs: Seq<usize>, n: int, p: int) -> bool {
    exists|k: int| 0 <= k < offs.len() && #[trigger] offs[k] <= p < offs[k] + n
}

/// Each offset leaves room for `n` bytes in a buffer of length `len`.
pub open spec fn all_within(offs: Seq<usize>, n: int, len: int) -> bool {
    forall|k: int| 0 <= k < offs.len() ==> #[trigger] offs[k] + n <= len
}

/// Any two value areas are either the same area or do not overlap.
pub open spec fn same_or_disjoint(offs: Seq<usize>, n: int) -> bool {
    forall|i: int, j: int|
        0 <= i < offs.len() && 0 <= j < offs.len() ==> (#[trigger] offs[i] == #[trigger] offs[j]
            || offs[i] + n <= offs[j] || offs[j] + n <= offs[i])
}

/// Writing the date-time values never changes the length of the buffer, and
/// leaves every byte outside the written value areas as it was.
pub proof fn lemma_patch_is_lossless(buf: Seq<u8>, offs: Seq<usize>, bytes: Seq<u8>)
    requires
        all_within(offs, bytes.len() as int, buf.len() as int),
    ensures
        write_all(buf, offs, bytes).len() == buf.len(),
        forall|p: int|
            0 <= p < buf.len() && !covered(offs, bytes.len() as int, p) ==> #[trigger] write_all(
                buf,
                offs,
                bytes,
            )[p] == buf[p],
    decreases offs.len(),
{
    if offs.len() > 0 {
        let rest = offs.drop_last();
        assert(all_within(rest, bytes.len() as int, buf.len() as int)) by {
            assert forall|k: int| 0 <= k < rest.len() implies #[trigger] rest[k] + bytes.len()
                <= buf.len() by {
                assert(rest[k] == offs[k]);
            }
        }
        lemma_patch_is_lossless(buf, rest, bytes);
        let last = offs.last() as int;
        assert(offs[offs.len() - 1] + bytes.len() <= buf.len());
        assert forall|p: int|
            0 <= p < buf.len() && !covered(offs, bytes.len() as int, p) implies #[trigger] write_all(
            buf,
            offs,
            bytes,
        )[p] == buf[p] by {
            assert(!covered(rest, bytes.len() as int, p)) by {
                if covered(rest, bytes.len() as int, p) {
                    let k = choose|k: int|
                        0 <= k < rest.len() && #[trigger] rest[k] <= p < rest[k] + bytes.len();
                    assert(offs[k] == rest[k]);
                }
            }
            assert(!(offs[offs.len() - 1] <= p < offs[offs.len() - 1] + bytes.len()));
        }
    }
}

/// When the value areas are pairwise the same or disjoint, each of them
/// holds exactly the written bytes afterwards.
pub proof fn lemma_patch_writes_every_area(buf: Seq<u8>, offs: Seq<usize>, bytes: Seq<u8>)
    requires
        all_within(offs, bytes.len() as int, buf.len() as int),
        same_or_disjoint(offs, bytes.len() as int),
    ensures
        forall|k: int|
            0 <= k < offs.len() ==> #[trigger] write_all(buf, offs, bytes).subrange(
                offs[k] as int,
                offs[k] + bytes.len(),
            ) == bytes,
    decreases offs.len(),
{
    if offs.len() > 0 {
        let n = bytes.len() as int;
        let rest = offs.drop_last();
        assert(all_within(rest, n, buf.len() as int)) by {
            assert forall|k: int| 0 <= k < rest.len() implies #[trigger] rest[k] + n
                <= buf.len() by {
                assert(rest[k] == offs[k]);
            }
        }
        assert(same_or_disjoint(rest, n)) by {
            assert forall|i: int, j: int|
                0 <= i < rest.len() && 0 <= j < rest.len() implies (#[trigger] rest[i]
                == #[trigger] rest[j] || rest[i] + n <= rest[j] || rest[j] + n <= rest[i]) by {
                assert(rest[i] == offs[i]);
                assert(rest[j] == offs[j]);
            }
        }
        lemma_patch_writes_every_area(buf, rest, bytes);
        lemma_patch_is_lossless(buf, rest, bytes);
        let prev = write_all(buf, rest, bytes);
        let last = offs.last() as int;
        let cur = write_all(buf, offs, bytes);
        assert(offs[offs.len() - 1] + n <= buf.len());
        assert(cur == splice(prev, last, bytes));
        assert forall|k: int| 0 <= k < offs.len() implies #[trigger] cur.subrange(
            offs[k] as int,
            offs[k] + n,
        ) == bytes by {
            if k == offs.len() - 1 {
                assert(cur.subrange(last, last + n) =~= bytes);
            } else {
                assert(rest[k] == offs[k]);
                assert(offs[k] + n <= buf.len());
                let lo = offs[k] as int;
                assert(prev.subrange(lo, lo + n) == bytes);
                assert(offs[k] == offs[offs.len() - 1] || offs[k] + n <= last || last + n
                    <= offs[k]);
                assert forall|i: int| 0 <= i < n implies cur.subrange(lo, lo + n)[i] == bytes[i] by {
                    assert(prev.subrange(lo, lo + n)[i] == prev[lo + i]);
                    if last <= lo + i < last + n {
                        assert(lo == last);
                    }
                }
                assert(cur.subrange(lo, lo + n) =~= bytes);
            }
        }
    }
}

/// What a read gives back of a write: after the date-time values have been
/// written at offsets whose areas are the same or disjoint, reading any of
/// those areas yields the date-time that was written.
pub proof fn lemma_read_after_patch(
    buf: Seq<u8>,
    offs: Seq<usize>,
    new: DateTimeFields,
    k: int,
    r: Result<ExifDateTime, ExifError>,
)
    requires
        new.valid(),
        new.fits_exif(),
        all_within(offs, DATETIME_LEN as int, buf.len() as int),
        same_or_disjoint(offs, DATETIME_LEN as int),
        0 <= k < offs.len(),
        reads_as(
            write_all(buf, offs, new.exif_bytes()).subrange(
                offs[k] as int,
                offs[k] + DATETIME_LEN,
            ),
            r,
        ),
    ensures
        r matches Ok(d) && d@ == new,
{
    crate::exif_datetime::lemma_exif_bytes_len(new);
    lemma_patch_writes_every_area(buf, offs, new.exif_bytes());
    assert(write_all(buf, offs, new.exif_bytes()).subrange(offs[k] as int, offs[k] + DATETIME_LEN)
        == new.exif_bytes());
}


/// The offsets found in a buffer leave room for a date-time value each.
pub proof fn lemma_offsets_within(buf: Seq<u8>)
    ensures
        datetime_offsets(buf) matches Ok(o) ==> o.within(buf.len()),
{
    lemma_scan_bounds(buf, 2);
    if let Ok(o) = datetime_offsets(buf) {
        let (base, end) = exif_app1(buf)->Ok_0;
        let t = tiff_header(buf, base, end)->Ok_0;
        let ifd0 = read_u32(buf, t, 4)->0;
        let es0 = ifd_entries(buf, t, ifd0)->0;
        let exif = exif_pointer(buf, t, es0)->0;
        let es1 = ifd_entries(buf, t, exif)->0;
        lemma_last_ascii_value_inside(buf, t, es0, 0x0132);
        lemma_last_ascii_value_inside(buf, t, es1, 0x9003);
        lemma_last_ascii_value_inside(buf, t, es1, 0x9004);
        assert forall|k: int| 0 <= k < o.spec_all().len() implies #[trigger] o.spec_all()[k]
            + DATETIME_LEN <= buf.len() by {
            if o.datetime_digitized is Some && o.datetime is Some {
                assert(o.spec_all() =~= seq![o.datetime_original, o.datetime_digitized->0, o.datetime->0]);
            } else if o.datetime_digitized is Some {
                assert(o.spec_all() =~= seq![o.datetime_original, o.datetime_digitized->0]);
            } else if o.datetime is Some {
                assert(o.spec_all() =~= seq![o.datetime_original, o.datetime->0]);
            } else {
                assert(o.spec_all() =~= seq![o.datetime_original]);
            }
        }
    }
}

/// A usable date-time value lies inside the segment.
proof fn lemma_last_ascii_value_inside(buf: Seq<u8>, t: TiffLayout, es: Seq<IfdEntry>, tag: int)
    requires
        0 <= t.base,
    ensures
        last_ascii_value(buf, t, es, tag) matches Some(v) ==> 0 <= v && v + DATETIME_LEN <= t.end,
{
    if let Some(i) = last_with_tag(es, tag) {
        if let Ok(v) = ascii_value(buf, t, es[i]) {
            assert(ok_value(ascii_value(buf, t, es[i])) == Some(v));
        }
    }
}


/// Index of the last offset whose value area of `n` bytes covers `p`.
pub open spec fn last_cover(offs: Seq<usize>, n: int, p: int) -> Option<int>
    decreases offs.len(),
{
    if offs.len() == 0 {
        None
    } else if offs.last() <= p < offs.last() + n {
        Some(offs.len() - 1)
    } else {
        last_cover(offs.drop_last(), n, p)
    }
}

/// Each byte after the writes comes from the last value area covering it,
/// or from the buffer when no area covers it.
proof fn lemma_write_all_at(buf: Seq<u8>, offs: Seq<usize>, bytes: Seq<u8>)
    requires
        all_within(offs, bytes.len() as int, buf.len() as int),
    ensures
        write_all(buf, offs, bytes).len() == buf.len(),
        forall|p: int|
            0 <= p < buf.len() ==> #[trigger] write_all(buf, offs, bytes)[p] == match last_cover(
                offs,
                bytes.len() as int,
                p,
            ) {
                Some(k) => bytes[p - offs[k]],
                None => buf[p],
            },
        forall|p: int|
            #![trigger last_cover(offs, bytes.len() as int, p)]
            last_cover(offs, bytes.len() as int, p) matches Some(k) ==> 0 <= k < offs.len() && offs[k]
                <= p < offs[k] + bytes.len(),
    decreases offs.len(),
{
    if offs.len() > 0 {
        let n = bytes.len() as int;
        let rest = offs.drop_last();
        assert(all_within(rest, n, buf.len() as int)) by {
            assert forall|k: int| 0 <= k < rest.len() implies #[trigger] rest[k] + n <= buf.len() by {
                assert(rest[k] == offs[k]);
            }
        }
        lemma_write_all_at(buf, rest, bytes);
        assert(offs[offs.len() - 1] + n <= buf.len());
        assert forall|p: int|
            #![trigger last_cover(offs, n, p)]
            last_cover(offs, n, p) is Some implies 0 <= last_cover(offs, n, p)->0 < offs.len()
                && offs[last_cover(offs, n, p)->0] <= p < offs[last_cover(offs, n, p)->0] + n by {
            if let Some(k) = last_cover(rest, n, p) {
                assert(rest[k] == offs[k]);
            }
        }
        assert forall|p: int| 0 <= p < buf.len() implies #[trigger] write_all(buf, offs, bytes)[p]
            == match last_cover(offs, n, p) {
            Some(k) => bytes[p - offs[k]],
            None => buf[p],
        } by {
            if let Some(k) = last_cover(rest, n, p) {
                assert(rest[k] == offs[k]);
            }
        }
    }
}

/// Writing the same date-time twice gives the same bytes as writing it
/// once, whether or not the value areas overlap.
pub proof fn lemma_patch_twice_is_patch_once(buf: Seq<u8>, offs: Seq<usize>, bytes: Seq<u8>)
    requires
        all_within(offs, bytes.len() as int, buf.len() as int),
    ensures
        write_all(write_all(buf, offs, bytes), offs, bytes) == write_all(buf, offs, bytes),
{
    let once = write_all(buf, offs, bytes);
    lemma_write_all_at(buf, offs, bytes);
    lemma_write_all_at(once, offs, bytes);
    assert(write_all(once, offs, bytes) =~= once);
}

/// `b2` holds the bytes of `b1` from index 2 on, `k` positions later.
pub open spec fn shifted_copy(b1: Seq<u8>, b2: Seq<u8>, k: int) -> bool {
    &&& 0 <= k
    &&& b2.len() == b1.len() + k
    &&& forall|q: int| 2 <= q < b1.len() ==> b2[q + k] == #[trigger] b1[q]
}

/// The segment walk over the shifted bytes finds the same segment, `k`
/// positions later.
proof fn lemma_scan_shift(b1: Seq<u8>, b2: Seq<u8>, k: int, p: int)
    requires
        shifted_copy(b1, b2, k),
        p >= 2,
    ensures
        (scan_segments(b2, p + k) is Ok) == (scan_segments(b1, p) is Ok),
        scan_segments(b1, p) matches Ok((base, end)) ==> scan_segments(b2, p + k) == Ok::<
            (int, int),
            ExifError,
        >((base + k, end + k)),
    decreases b1.len() - p,
{
    if p + 2 > b1.len() {
    } else {
        assert(b2[p + k] == b1[p]);
        assert(b2[p + k + 1] == b1[p + 1]);
        if b1[p] != 0xFF {
        } else {
            let marker = b1[p + 1];
            if marker == 0xFF {
                lemma_scan_shift(b1, b2, k, p + 1);
            } else if marker == 0xDA || marker == 0xD9 {
            } else if marker == 0x01 || (0xD0 <= marker <= 0xD7) {
                lemma_scan_shift(b1, b2, k, p + 2);
            } else if p + 4 > b1.len() {
            } else {
                assert(b2[p + k + 2] == b1[p + 2]);
                assert(b2[p + k + 3] == b1[p + 3]);
                let len = be_u16(b1[p + 2], b1[p + 3]);
                if len < 2 || p + 2 + len > b1.len() {
                } else {
                    if marker == 0xE1 && len >= 16 {
                    assert(b2.subrange(p + k + 4, p + k + 10) =~= b1.subrange(p + 4, p + 10)) by {
                        assert forall|i: int| 0 <= i < 6 implies #[trigger] b2.subrange(
                            p + k + 4,
                            p + k + 10,
                        )[i] == b1.subrange(p + 4, p + 10)[i] by {
                            assert(b2[p + 4 + i + k] == b1[p + 4 + i]);
                        }
                    }
                    }
                    lemma_scan_shift(b1, b2, k, p + 2 + len);
                }
            }
        }
    }
}

/// The TIFF layout `t1` moved `k` bytes later.
pub open spec fn shifted_layout(t1: TiffLayout, k: int) -> TiffLayout {
    TiffLayout { base: t1.base + k, end: t1.end + k, little_endian: t1.little_endian }
}

/// Reads relative to the TIFF header see the same values in the shifted bytes.
proof fn lemma_reads_shift(b1: Seq<u8>, b2: Seq<u8>, k: int, t1: TiffLayout)
    requires
        shifted_copy(b1, b2, k),
        2 <= t1.base,
        t1.end <= b1.len(),
    ensures
        forall|rel: int| #[trigger] read_u16(b2, shifted_layout(t1, k), rel) == read_u16(b1, t1, rel),
        forall|rel: int| #[trigger] read_u32(b2, shifted_layout(t1, k), rel) == read_u32(b1, t1, rel),
        forall|rel: int|
            in_segment(t1, rel, 8) ==> #[trigger] entry_at(b2, shifted_layout(t1, k), rel) == entry_at(
                b1,
                t1,
                rel,
            ),
{
    let t2 = shifted_layout(t1, k);
    assert forall|rel: int| #[trigger] read_u16(b2, t2, rel) == read_u16(b1, t1, rel) by {
        if in_segment(t1, rel, 2) {
            assert(b2[t1.base + rel + k] == b1[t1.base + rel]);
            assert(b2[t1.base + rel + 1 + k] == b1[t1.base + rel + 1]);
        }
    }
    assert forall|rel: int| #[trigger] read_u32(b2, t2, rel) == read_u32(b1, t1, rel) by {
        if in_segment(t1, rel, 4) {
            assert(b2[t1.base + rel + k] == b1[t1.base + rel]);
            assert(b2[t1.base + rel + 1 + k] == b1[t1.base + rel + 1]);
            assert(b2[t1.base + rel + 2 + k] == b1[t1.base + rel + 2]);
            assert(b2[t1.base + rel + 3 + k] == b1[t1.base + rel + 3]);
        }
    }
    assert forall|rel: int| in_segment(t1, rel, 8) implies #[trigger] entry_at(b2, t2, rel)
        == entry_at(b1, t1, rel) by {
        assert(b2[t1.base + rel + k] == b1[t1.base + rel]);
        assert(b2[t1.base + rel + 1 + k] == b1[t1.base + rel + 1]);
        assert(b2[t1.base + rel + 2 + k] == b1[t1.base + rel + 2]);
        assert(b2[t1.base + rel + 3 + k] == b1[t1.base + rel + 3]);
        assert(b2[t1.base + rel + 4 + k] == b1[t1.base + rel + 4]);
        assert(b2[t1.base + rel + 5 + k] == b1[t1.base + rel + 5]);
        assert(b2[t1.base + rel + 6 + k] == b1[t1.base + rel + 6]);
        assert(b2[t1.base + rel + 7 + k] == b1[t1.base + rel + 7]);
    }
}

/// The IFDs read the same from the shifted bytes.
proof fn lemma_ifd_entries_shift(b1: Seq<u8>, b2: Seq<u8>, k: int, t1: TiffLayout, ifd: int)
    requires
        shifted_copy(b1, b2, k),
        2 <= t1.base,
        t1.end <= b1.len(),
    ensures
        ifd_entries(b2, shifted_layout(t1, k), ifd) == ifd_entries(b1, t1, ifd),
{
    let t2 = shifted_layout(t1, k);
    lemma_reads_shift(b1, b2, k, t1);
    assert(read_u16(b2, t2, ifd) == read_u16(b1, t1, ifd));
    if let Some(es) = ifd_entries(b1, t1, ifd) {
        let n = read_u16(b1, t1, ifd)->0;
        assert(ifd_entries(b2, t2, ifd)->0 =~= es) by {
            assert forall|i: int| 0 <= i < n implies #[trigger] es[i] == ifd_entries(
                b2,
                t2,
                ifd,
            )->0[i] by {
                assert(in_segment(t1, ifd + 2 + 12 * i, 8));
                assert(entry_at(b2, t2, ifd + 2 + 12 * i) == entry_at(b1, t1, ifd + 2 + 12 * i));
            }
        }
    }
}

/// Date-time values are found `k` bytes later, with the same errors.
proof fn lemma_ascii_value_shift(b1: Seq<u8>, b2: Seq<u8>, k: int, t1: TiffLayout, e: IfdEntry)
    requires
        shifted_copy(b1, b2, k),
        2 <= t1.base,
        t1.end <= b1.len(),
    ensures
        ascii_value(b2, shifted_layout(t1, k), e) == match ascii_value(b1, t1, e) {
            Ok(v) => Ok::<int, ExifError>(v + k),
            Err(err) => Err(err),
        },
{
    lemma_reads_shift(b1, b2, k, t1);
    assert(read_u32(b2, shifted_layout(t1, k), e.value_field) == read_u32(b1, t1, e.value_field));
}

/// The first unusable DateTimeOriginal is the same in the shifted bytes.
proof fn lemma_first_error_shift(b1: Seq<u8>, b2: Seq<u8>, k: int, t1: TiffLayout, es: Seq<IfdEntry>)
    requires
        shifted_copy(b1, b2, k),
        2 <= t1.base,
        t1.end <= b1.len(),
    ensures
        first_original_error(b2, shifted_layout(t1, k), es) == first_original_error(b1, t1, es),
    decreases es.len(),
{
    if es.len() > 0 {
        lemma_first_error_shift(b1, b2, k, t1, es.drop_last());
        lemma_ascii_value_shift(b1, b2, k, t1, es.last());
    }
}

/// The last usable value of a tag is found `k` bytes later.
proof fn lemma_last_value_shift(b1: Seq<u8>, b2: Seq<u8>, k: int, t1: TiffLayout, es: Seq<IfdEntry>, tag: int)
    requires
        shifted_copy(b1, b2, k),
        2 <= t1.base,
        t1.end <= b1.len(),
    ensures
        last_ascii_value(b2, shifted_layout(t1, k), es, tag) == match last_ascii_value(b1, t1, es, tag) {
            Some(v) => Some(v + k),
            None => None,
        },
{
    if let Some(i) = last_with_tag(es, tag) {
        lemma_ascii_value_shift(b1, b2, k, t1, es[i]);
    }
}

/// The offsets found through a shifted TIFF structure are the same, moved
/// `k` bytes later.
proof fn lemma_tiff_offsets_shift(b1: Seq<u8>, b2: Seq<u8>, k: int, t1: TiffLayout)
    requires
        shifted_copy(b1, b2, k),
        2 <= t1.base,
        t1.end <= b1.len(),
        b2.len() <= usize::MAX,
    ensures
        tiff_offsets(b2, shifted_layout(t1, k)) == match tiff_offsets(b1, t1) {
            Ok(o) => Ok::<DateTimeOffsets, ExifError>(shifted_offsets(o, k)),
            Err(e) => Err(e),
        },
{
    let buf = b1;
    let t2 = shifted_layout(t1, k);
    lemma_reads_shift(buf, b2, k, t1);
    assert(read_u32(b2, t2, 4) == read_u32(buf, t1, 4));
    if let Some(ifd0) = read_u32(buf, t1, 4) {
        lemma_ifd_entries_shift(buf, b2, k, t1, ifd0);
        if let Some(es0) = ifd_entries(buf, t1, ifd0) {
            assert(exif_pointer_unreadable(b2, t2, es0) == exif_pointer_unreadable(buf, t1, es0)) by {
                if exif_pointer_unreadable(buf, t1, es0) {
                    let i = choose|i: int|
                        0 <= i < es0.len() && #[trigger] es0[i].tag == 0x8769 && read_u32(
                            buf,
                            t1,
                            es0[i].value_field,
                        ) is None;
                    assert(read_u32(b2, t2, es0[i].value_field) is None);
                }
                if exif_pointer_unreadable(b2, t2, es0) {
                    let i = choose|i: int|
                        0 <= i < es0.len() && #[trigger] es0[i].tag == 0x8769 && read_u32(
                            b2,
                            t2,
                            es0[i].value_field,
                        ) is None;
                    assert(read_u32(buf, t1, es0[i].value_field) is None);
                }
            }
            if let Some(i) = last_with_tag(es0, 0x8769) {
                assert(read_u32(b2, t2, es0[i].value_field) == read_u32(buf, t1, es0[i].value_field));
            }
            assert(exif_pointer(b2, t2, es0) == exif_pointer(buf, t1, es0));
            lemma_last_value_shift(buf, b2, k, t1, es0, 0x0132);
            lemma_last_ascii_value_inside(buf, t1, es0, 0x0132);
            if let Some(exif) = exif_pointer(buf, t1, es0) {
                lemma_ifd_entries_shift(buf, b2, k, t1, exif);
                if let Some(es1) = ifd_entries(buf, t1, exif) {
                    lemma_first_error_shift(buf, b2, k, t1, es1);
                    lemma_last_value_shift(buf, b2, k, t1, es1, 0x9003);
                    lemma_last_value_shift(buf, b2, k, t1, es1, 0x9004);
                    lemma_last_ascii_value_inside(buf, t1, es1, 0x9003);
                    lemma_last_ascii_value_inside(buf, t1, es1, 0x9004);
                }
            }
        }
    }
}

/// The offsets moved `k` bytes later.
pub open spec fn shifted_offsets(o: DateTimeOffsets, k: int) -> DateTimeOffsets {
    DateTimeOffsets {
        datetime_original: (o.datetime_original + k) as usize,
        datetime_digitized: match o.datetime_digitized {
            Some(v) => Some((v + k) as usize),
            None => None,
        },
        datetime: match o.datetime {
            Some(v) => Some((v + k) as usize),
            None => None,
        },
    }
}

/// Inserting a segment of another kind (not APP1, not a standalone marker,
/// not the start of scan) right after the SOI marker moves every date-time
/// value by the length of that segment, and changes nothing else: the
/// buffer yields offsets exactly when it did before.
pub proof fn lemma_foreign_segment_shifts_offsets(buf: Seq<u8>, seg: Seq<u8>)
    requires
        buf.len() >= 2,
        buf[0] == 0xFF,
        buf[1] == 0xD8,
        seg.len() >= 4,
        seg[0] == 0xFF,
        seg[1] != 0x01 && !(0xD0 <= seg[1] <= 0xDA) && seg[1] != 0xE1 && seg[1] != 0xFF,
        be_u16(seg[2], seg[3]) == seg.len() - 2,
        buf.len() + seg.len() <= usize::MAX,
    ensures
        (datetime_offsets(buf.take(2) + seg + buf.skip(2)) is Ok) == (datetime_offsets(buf) is Ok),
        datetime_offsets(buf) matches Ok(o) ==> datetime_offsets(buf.take(2) + seg + buf.skip(2))
            == Ok::<DateTimeOffsets, ExifError>(shifted_offsets(o, seg.len() as int)),
{
    let b2 = buf.take(2) + seg + buf.skip(2);
    let k = seg.len() as int;
    assert(shifted_copy(buf, b2, k)) by {
        assert forall|q: int| 2 <= q < buf.len() implies b2[q + k] == #[trigger] buf[q] by {
            assert(b2[q + k] == buf.skip(2)[q - 2]);
        }
    }
    assert(b2[0] == 0xFF && b2[1] == 0xD8);
    assert(b2[2] == seg[0] && b2[3] == seg[1] && b2[4] == seg[2] && b2[5] == seg[3]);
    assert(scan_segments(b2, 2) == scan_segments(b2, 2 + k));
    lemma_walk_shift_after_soi(buf, b2, k);
}

/// Inserting, right after the SOI marker, an APP1 segment that does not carry
/// `Exif\0\0` (an XMP packet, say) moves every date-time value by the length
/// of that segment: the walk passes it by and finds the Exif segment after
/// it, and the buffer yields offsets exactly when it did before.
pub proof fn lemma_other_app1_shifts_offsets(buf: Seq<u8>, seg: Seq<u8>)
    requires
        buf.len() >= 2,
        buf[0] == 0xFF,
        buf[1] == 0xD8,
        seg.len() >= 4,
        seg[0] == 0xFF,
        seg[1] == 0xE1,
        be_u16(seg[2], seg[3]) == seg.len() - 2,
        seg.len() < 18 || seg.subrange(4, 10) != exif_signature(),
        buf.len() + seg.len() <= usize::MAX,
    ensures
        (datetime_offsets(buf.take(2) + seg + buf.skip(2)) is Ok) == (datetime_offsets(buf) is Ok),
        datetime_offsets(buf) matches Ok(o) ==> datetime_offsets(buf.take(2) + seg + buf.skip(2))
            == Ok::<DateTimeOffsets, ExifError>(shifted_offsets(o, seg.len() as int)),
{
    let b2 = buf.take(2) + seg + buf.skip(2);
    let k = seg.len() as int;
    assert(shifted_copy(buf, b2, k)) by {
        assert forall|q: int| 2 <= q < buf.len() implies b2[q + k] == #[trigger] buf[q] by {
            assert(b2[q + k] == buf.skip(2)[q - 2]);
        }
    }
    assert(b2[0] == 0xFF && b2[1] == 0xD8);
    assert(b2[2] == seg[0] && b2[3] == seg[1] && b2[4] == seg[2] && b2[5] == seg[3]);
    if seg.len() >= 18 {
        assert(b2.subrange(6, 12) =~= seg.subrange(4, 10)) by {
            assert forall|i: int| 0 <= i < 6 implies #[trigger] b2.subrange(6, 12)[i] == seg.subrange(
                4,
                10,
            )[i] by {
                assert(b2[6 + i] == seg[4 + i]);
            }
        }
    }
    assert(scan_segments(b2, 2) == scan_segments(b2, 2 + k));
    lemma_walk_shift_after_soi(buf, b2, k);
}

/// Inserting, right after the SOI marker, a standalone marker without a
/// length field (TEM 0x01 or RST0..RST7) moves every date-time value by its
/// two bytes; so does one fill byte 0xFF before a marker. Nothing else
/// changes: the buffer yields offsets exactly when it did before.
pub proof fn lemma_filler_shifts_offsets(buf: Seq<u8>, filler: Seq<u8>)
    requires
        buf.len() >= 3,
        buf[0] == 0xFF,
        buf[1] == 0xD8,
        (filler.len() == 2 && filler[0] == 0xFF && (filler[1] == 0x01 || 0xD0 <= filler[1] <= 0xD7))
            || (filler == seq![0xFFu8] && buf[2] == 0xFF),
        buf.len() + filler.len() <= usize::MAX,
    ensures
        (datetime_offsets(buf.take(2) + filler + buf.skip(2)) is Ok) == (datetime_offsets(buf) is Ok),
        datetime_offsets(buf) matches Ok(o) ==> datetime_offsets(buf.take(2) + filler + buf.skip(2))
            == Ok::<DateTimeOffsets, ExifError>(shifted_offsets(o, filler.len() as int)),
{
    let b2 = buf.take(2) + filler + buf.skip(2);
    let k = filler.len() as int;
    assert(shifted_copy(buf, b2, k)) by {
        assert forall|q: int| 2 <= q < buf.len() implies b2[q + k] == #[trigger] buf[q] by {
            assert(b2[q + k] == buf.skip(2)[q - 2]);
        }
    }
    assert(b2[0] == 0xFF && b2[1] == 0xD8);
    assert(b2[2] == filler[0]);
    if k == 2 {
        assert(b2[3] == filler[1]);
    } else {
        assert(b2[3] == buf[2]);
    }
    assert(scan_segments(b2, 2) == scan_segments(b2, 2 + k));
    lemma_walk_shift_after_soi(buf, b2, k);
}

/// When the walk over `b2` from just after its SOI marker reaches, `k` bytes
/// later, the bytes of `buf` that follow its SOI marker, the date-time offsets
/// of `b2` are those of `buf` moved by `k`.
proof fn lemma_walk_shift_after_soi(buf: Seq<u8>, b2: Seq<u8>, k: int)
    requires
        buf.len() >= 2,
        buf[0] == 0xFF,
        buf[1] == 0xD8,
        shifted_copy(buf, b2, k),
        b2[0] == 0xFF && b2[1] == 0xD8,
        scan_segments(b2, 2) == scan_segments(b2, 2 + k),
        b2.len() <= usize::MAX,
    ensures
        (datetime_offsets(b2) is Ok) == (datetime_offsets(buf) is Ok),
        datetime_offsets(buf) matches Ok(o) ==> datetime_offsets(b2) == Ok::<
            DateTimeOffsets,
            ExifError,
        >(shifted_offsets(o, k)),
{
    lemma_scan_shift(buf, b2, k, 2);
    lemma_scan_bounds(buf, 2);
    if let Ok((base, end)) = exif_app1(buf) {
        assert(exif_app1(b2) == Ok::<(int, int), ExifError>((base + k, end + k)));
        assert(b2[base + k] == buf[base] && b2[base + 1 + k] == buf[base + 1]);
        assert(b2[base + 2 + k] == buf[base + 2] && b2[base + 3 + k] == buf[base + 3]);
        if let Ok(t1) = tiff_header(buf, base, end) {
            assert(tiff_header(b2, base + k, end + k) == Ok::<TiffLayout, ExifError>(
                shifted_layout(t1, k),
            ));
            lemma_tiff_offsets_shift(buf, b2, k, t1);
        } else {
            assert(tiff_header(b2, base + k, end + k) is Err);
        }
    }
}


/// A 16-bit TIFF field whose two bytes are those of `v` in the structure's
/// byte order (least significant first in "II" order, most significant first
/// in "MM" order) reads as `v`.
pub proof fn lemma_u16_field_reads_its_value(buf: Seq<u8>, t: TiffLayout, rel: int, v: u16)
    requires
        0 <= rel,
        t.base + rel + 2 <= t.end,
        t.little_endian ==> buf[t.base + rel] == v % 256 && buf[t.base + rel + 1] == v / 256,
        !t.little_endian ==> buf[t.base + rel] == v / 256 && buf[t.base + rel + 1] == v % 256,
    ensures
        read_u16(buf, t, rel) == Some(v as int),
{
    assert(v == v % 256 + 256 * (v / 256)) by (bit_vector);
}

/// A 32-bit TIFF field whose four bytes are those of `v` in the structure's
/// byte order reads as `v`: in "II" order the least significant byte comes
/// first (bytes 30 02 00 00 read as 560), in "MM" order the most significant
/// (bytes 00 00 01 2C read as 300).
pub proof fn lemma_u32_field_reads_its_value(buf: Seq<u8>, t: TiffLayout, rel: int, v: u32)
    requires
        0 <= rel,
        t.base + rel + 4 <= t.end,
        t.little_endian ==> buf[t.base + rel] == v % 256 && buf[t.base + rel + 1] == (v / 256) % 256
            && buf[t.base + rel + 2] == (v / 65536) % 256 && buf[t.base + rel + 3] == v / 16777216,
        !t.little_endian ==> buf[t.base + rel] == v / 16777216 && buf[t.base + rel + 1] == (v / 65536)
            % 256 && buf[t.base + rel + 2] == (v / 256) % 256 && buf[t.base + rel + 3] == v % 256,
    ensures
        read_u32(buf, t, rel) == Some(v as int),
{
    assert(v == v % 256 + 256 * ((v / 256) % 256) + 65536 * ((v / 65536) % 256) + 16777216 * (v
        / 16777216)) by (bit_vector);
}

/// An IFD lists exactly the entries its 16-bit count announces, however many
/// there are, as soon as the tag, type and count of the last one lie in the
/// segment: entry `k` has the tag, type and count read from the 12 bytes at
/// `ifd + 2 + 12 k`, and its 4-byte value field follows them. Otherwise the
/// IFD is refused.
pub proof fn lemma_ifd_lists_every_entry(buf: Seq<u8>, t: TiffLayout, ifd: int, n: int)
    requires
        read_u16(buf, t, ifd) == Some(n),
    ensures
        (n == 0 || t.base + ifd + 12 * n - 2 <= t.end) ==> {
            &&& ifd_entries(buf, t, ifd) is Some
            &&& ifd_entries(buf, t, ifd)->0.len() == n
            &&& forall|k: int|
                0 <= k < n ==> {
                    &&& read_u16(buf, t, ifd + 2 + 12 * k) == Some(
                        #[trigger] ifd_entries(buf, t, ifd)->0[k].tag,
                    )
                    &&& read_u16(buf, t, ifd + 2 + 12 * k + 2) == Some(
                        ifd_entries(buf, t, ifd)->0[k].typ,
                    )
                    &&& read_u32(buf, t, ifd + 2 + 12 * k + 4) == Some(
                        ifd_entries(buf, t, ifd)->0[k].count,
                    )
                    &&& ifd_entries(buf, t, ifd)->0[k].value_field == ifd + 2 + 12 * k + 8
                }
        },
        !(n == 0 || t.base + ifd + 12 * n - 2 <= t.end) ==> ifd_entries(buf, t, ifd) is None,
{
    assert(n >= 0);
}

/// An ASCII date-time entry of at least 19 characters has its value at the
/// TIFF header plus the 32-bit offset held in its value field, wherever in
/// the segment that lands; an offset whose 19 bytes would pass the segment's
/// end is refused naming the tag, as is an entry of another type or a shorter
/// one, and a value field outside the segment is refused.
pub proof fn lemma_ascii_value_at_its_offset(buf: Seq<u8>, t: TiffLayout, e: IfdEntry)
    ensures
        e.typ != 2 ==> ascii_value(buf, t, e) == Err::<int, ExifError>(
            ExifError::TagNotAscii { tag: e.tag as u16 },
        ),
        e.typ == 2 && e.count < DATETIME_LEN ==> ascii_value(buf, t, e) == Err::<int, ExifError>(
            ExifError::TagInvalidLength { tag: e.tag as u16 },
        ),
        e.typ == 2 && e.count >= DATETIME_LEN && read_u32(buf, t, e.value_field) is None
            ==> ascii_value(buf, t, e) == Err::<int, ExifError>(ExifError::OutsideSegment),
        e.typ == 2 && e.count >= DATETIME_LEN ==> (read_u32(buf, t, e.value_field) matches Some(off)
            ==> ascii_value(buf, t, e) == if t.base + off + DATETIME_LEN <= t.end {
            Ok::<int, ExifError>(t.base + off)
        } else {
            Err::<int, ExifError>(ExifError::TagValueOutsideSegment { tag: e.tag as u16 })
        }),
{
}

/// `last_with_tag` finds the entry with the tag that no later entry carries.
proof fn lemma_last_with_tag_is_last(es: Seq<IfdEntry>, tag: int, k: int)
    requires
        0 <= k < es.len(),
        es[k].tag == tag,
        forall|j: int| k < j < es.len() ==> #[trigger] es[j].tag != tag,
    ensures
        last_with_tag(es, tag) == Some(k),
    decreases es.len(),
{
    if k < es.len() - 1 {
        let b = es.drop_last();
        assert(es[es.len() - 1].tag != tag);
        assert forall|j: int| k < j < b.len() implies #[trigger] b[j].tag != tag by {
            assert(b[j] == es[j]);
        }
        lemma_last_with_tag_is_last(b, tag, k);
    }
}

/// With no entry carrying the tag, `last_with_tag` finds none.
proof fn lemma_last_with_tag_absent(es: Seq<IfdEntry>, tag: int)
    requires
        forall|j: int| 0 <= j < es.len() ==> #[trigger] es[j].tag != tag,
    ensures
        last_with_tag(es, tag) is None,
    decreases es.len(),
{
    if es.len() > 0 {
        let b = es.drop_last();
        assert(es[es.len() - 1].tag != tag);
        assert forall|j: int| 0 <= j < b.len() implies #[trigger] b[j].tag != tag by {
            assert(b[j] == es[j]);
        }
        lemma_last_with_tag_absent(b, tag);
    }
}

/// The Exif IFD offset is the 32-bit value of IFD0's last pointer entry (tag
/// 0x8769), whatever that entry's position among the entries.
pub proof fn lemma_exif_pointer_is_last_pointer(buf: Seq<u8>, t: TiffLayout, es: Seq<IfdEntry>, k: int)
    requires
        0 <= k < es.len(),
        es[k].tag == 0x8769,
        forall|j: int| k < j < es.len() ==> #[trigger] es[j].tag != 0x8769,
    ensures
        exif_pointer(buf, t, es) == read_u32(buf, t, es[k].value_field),
{
    lemma_last_with_tag_is_last(es, 0x8769, k);
}

/// Without a pointer entry (tag 0x8769) in IFD0 there is no Exif IFD.
pub proof fn lemma_no_pointer_no_exif_ifd(buf: Seq<u8>, t: TiffLayout, es: Seq<IfdEntry>)
    requires
        forall|j: int| 0 <= j < es.len() ==> #[trigger] es[j].tag != 0x8769,
    ensures
        exif_pointer(buf, t, es) is None,
{
    lemma_last_with_tag_absent(es, 0x8769);
}

/// A TIFF header is recognised when the segment leaves it 8 bytes, it opens
/// with "II" (little-endian) or "MM" (big-endian) and the magic number 42
/// follows in that byte order; other byte order marks, and a segment too
/// short for a header, are refused.
pub proof fn lemma_tiff_header_recognised(buf: Seq<u8>, base: int, end: int)
    requires
        0 <= base,
    ensures
        !(end <= buf.len() && end - base >= 8) ==> tiff_header(buf, base, end) == Err::<
            TiffLayout,
            ExifError,
        >(ExifError::TiffHeaderTooShort),
        end <= buf.len() && end - base >= 8 ==> {
            &&& buf[base] == 0x49 && buf[base + 1] == 0x49 && buf[base + 2] == 42 && buf[base + 3]
                == 0 ==> tiff_header(buf, base, end) == Ok::<TiffLayout, ExifError>(
                TiffLayout { base, end, little_endian: true },
            )
            &&& buf[base] == 0x4D && buf[base + 1] == 0x4D && buf[base + 2] == 0 && buf[base + 3]
                == 42 ==> tiff_header(buf, base, end) == Ok::<TiffLayout, ExifError>(
                TiffLayout { base, end, little_endian: false },
            )
            &&& !(buf[base] == 0x49 && buf[base + 1] == 0x49) && !(buf[base] == 0x4D && buf[base
                + 1] == 0x4D) ==> tiff_header(buf, base, end) == Err::<TiffLayout, ExifError>(
                ExifError::InvalidByteOrder,
            )
        },
{
}

/// In a JPEG whose start-of-image marker is directly followed by an Exif APP1
/// segment (FF E1, a big-endian length `len` of at least 16 that the buffer
/// holds, then `Exif\0\0`), the TIFF header starts right after the
/// signature, at offset 10 of the segment, and the segment ends `2 + len`
/// bytes after its marker.
pub proof fn lemma_leading_exif_segment_found(buf: Seq<u8>)
    requires
        buf.len() >= 6,
        buf[0] == 0xFF && buf[1] == 0xD8 && buf[2] == 0xFF && buf[3] == 0xE1,
        16 <= 256 * buf[4] + buf[5],
        4 + 256 * buf[4] + buf[5] <= buf.len(),
        buf.subrange(6, 12) == exif_signature(),
    ensures
        exif_app1(buf) == Ok::<(int, int), ExifError>((12, 4 + 256 * buf[4] + buf[5])),
{
}

/// The last entry carrying `tag` gives the usable value of that tag: its
/// value area when it has one, none otherwise; without such an entry there
/// is none.
pub proof fn lemma_last_value_is_last_entry(buf: Seq<u8>, t: TiffLayout, es: Seq<IfdEntry>, tag: int)
    ensures
        forall|k: int|
            0 <= k < es.len() && #[trigger] es[k].tag == tag && (forall|j: int|
                k < j < es.len() ==> #[trigger] es[j].tag != tag) ==> last_ascii_value(buf, t, es, tag)
                == match ascii_value(buf, t, es[k]) {
                Ok(v) => Some(v),
                Err(_) => None,
            },
        (forall|j: int| 0 <= j < es.len() ==> #[trigger] es[j].tag != tag) ==> last_ascii_value(
            buf,
            t,
            es,
            tag,
        ) is None,
{
    assert forall|k: int|
        0 <= k < es.len() && #[trigger] es[k].tag == tag && (forall|j: int|
            k < j < es.len() ==> #[trigger] es[j].tag != tag) implies last_ascii_value(buf, t, es, tag)
            == match ascii_value(buf, t, es[k]) {
            Ok(v) => Some(v),
            Err(_) => None,
        } by {
        lemma_last_with_tag_is_last(es, tag, k);
    }
    if forall|j: int| 0 <= j < es.len() ==> #[trigger] es[j].tag != tag {
        lemma_last_with_tag_absent(es, tag);
    }
}

/// The first DateTimeOriginal entry (tag 0x9003) whose value is unusable
/// decides the error: none is reported when every such entry is usable.
proof fn lemma_first_original_error_is_first(buf: Seq<u8>, t: TiffLayout, es: Seq<IfdEntry>)
    ensures
        (forall|j: int|
            0 <= j < es.len() && #[trigger] es[j].tag == 0x9003 ==> ascii_value(buf, t, es[j]) is Ok)
            ==> first_original_error(buf, t, es) is None,
        forall|k: int|
            0 <= k < es.len() && #[trigger] es[k].tag == 0x9003 && ascii_value(buf, t, es[k]) is Err
                && (forall|j: int|
                0 <= j < k && #[trigger] es[j].tag == 0x9003 ==> ascii_value(buf, t, es[j]) is Ok)
                ==> first_original_error(buf, t, es) == Some(ascii_value(buf, t, es[k])->Err_0),
    decreases es.len(),
{
    if es.len() > 0 {
        let b = es.drop_last();
        lemma_first_original_error_is_first(buf, t, b);
        if forall|j: int|
            0 <= j < es.len() && #[trigger] es[j].tag == 0x9003 ==> ascii_value(buf, t, es[j]) is Ok {
            assert forall|j: int|
                0 <= j < b.len() && #[trigger] b[j].tag == 0x9003 implies ascii_value(buf, t, b[j]) is Ok by {
                assert(b[j] == es[j]);
            }
            assert(es[es.len() - 1] == es.last());
        }
        assert forall|k: int|
            0 <= k < es.len() && #[trigger] es[k].tag == 0x9003 && ascii_value(buf, t, es[k]) is Err
                && (forall|j: int|
                0 <= j < k && #[trigger] es[j].tag == 0x9003 ==> ascii_value(buf, t, es[j]) is Ok)
                implies first_original_error(buf, t, es) == Some(ascii_value(buf, t, es[k])->Err_0) by {
            if k < b.len() {
                assert(b[k] == es[k]);
                assert forall|j: int|
                    0 <= j < k && #[trigger] b[j].tag == 0x9003 implies ascii_value(buf, t, b[j]) is Ok by {
                    assert(b[j] == es[j]);
                }
            } else {
                assert forall|j: int|
                    0 <= j < b.len() && #[trigger] b[j].tag == 0x9003 implies ascii_value(buf, t, b[j]) is Ok by {
                    assert(b[j] == es[j]);
                }
                assert(es[k] == es.last());
            }
        }
    }
}

/// How the date-time offsets follow from the two IFDs: IFD0 sits at the
/// offset held in header bytes 4..8 and the Exif IFD at the offset held by
/// IFD0's last pointer entry (tag 0x8769). When every DateTimeOriginal entry
/// of the Exif IFD is usable, DateTimeOriginal is the value of the last one;
/// DateTimeDigitized (0x9004, Exif IFD) and DateTime (0x0132, IFD0) are the
/// usable values of their last entries. The first unusable DateTimeOriginal
/// entry stops the search with its error; without a DateTimeOriginal entry,
/// or without a pointer entry, the structure is refused.
pub proof fn lemma_offsets_follow_the_ifds(
    buf: Seq<u8>,
    t: TiffLayout,
    ifd0: int,
    es0: Seq<IfdEntry>,
    k0: int,
    exif: int,
    es1: Seq<IfdEntry>,
)
    requires
        read_u32(buf, t, 4) == Some(ifd0),
        ifd_entries(buf, t, ifd0) == Some(es0),
        forall|j: int|
            0 <= j < es0.len() && #[trigger] es0[j].tag == 0x8769 ==> read_u32(buf, t, es0[j].value_field)
                is Some,
        0 <= k0 < es0.len(),
        es0[k0].tag == 0x8769,
        forall|j: int| k0 < j < es0.len() ==> #[trigger] es0[j].tag != 0x8769,
        read_u32(buf, t, es0[k0].value_field) == Some(exif),
        ifd_entries(buf, t, exif) == Some(es1),
    ensures
        forall|k1: int|
            0 <= k1 < es1.len() && #[trigger] es1[k1].tag == 0x9003 && (forall|j: int|
                k1 < j < es1.len() ==> #[trigger] es1[j].tag != 0x9003) && (forall|j: int|
                0 <= j < es1.len() && #[trigger] es1[j].tag == 0x9003 ==> ascii_value(buf, t, es1[j]) is Ok)
                ==> tiff_offsets(buf, t) == Ok::<DateTimeOffsets, ExifError>(
                DateTimeOffsets {
                    datetime_original: ascii_value(buf, t, es1[k1])->Ok_0 as usize,
                    datetime_digitized: to_usize_opt(last_ascii_value(buf, t, es1, 0x9004)),
                    datetime: to_usize_opt(last_ascii_value(buf, t, es0, 0x0132)),
                },
            ),
        forall|k: int|
            0 <= k < es1.len() && #[trigger] es1[k].tag == 0x9003 && ascii_value(buf, t, es1[k]) is Err
                && (forall|j: int|
                0 <= j < k && #[trigger] es1[j].tag == 0x9003 ==> ascii_value(buf, t, es1[j]) is Ok)
                ==> tiff_offsets(buf, t) == Err::<DateTimeOffsets, ExifError>(
                ascii_value(buf, t, es1[k])->Err_0,
            ),
        (forall|j: int| 0 <= j < es1.len() ==> #[trigger] es1[j].tag != 0x9003) ==> tiff_offsets(
            buf,
            t,
        ) == Err::<DateTimeOffsets, ExifError>(ExifError::MissingDateTimeOriginal),
{
    assert(!exif_pointer_unreadable(buf, t, es0));
    lemma_exif_pointer_is_last_pointer(buf, t, es0, k0);
    lemma_first_original_error_is_first(buf, t, es1);
    lemma_last_value_is_last_entry(buf, t, es1, 0x9003);
}

/// An IFD0 with an unreadable pointer entry (tag 0x8769) is refused, and one
/// without any pointer entry has no Exif IFD.
pub proof fn lemma_offsets_need_a_pointer(buf: Seq<u8>, t: TiffLayout, ifd0: int, es0: Seq<IfdEntry>)
    requires
        read_u32(buf, t, 4) == Some(ifd0),
        ifd_entries(buf, t, ifd0) == Some(es0),
    ensures
        (exists|j: int|
            0 <= j < es0.len() && #[trigger] es0[j].tag == 0x8769 && read_u32(buf, t, es0[j].value_field)
                is None) ==> tiff_offsets(buf, t) == Err::<DateTimeOffsets, ExifError>(
            ExifError::OutsideSegment,
        ),
        (forall|j: int| 0 <= j < es0.len() ==> #[trigger] es0[j].tag != 0x8769) ==> tiff_offsets(
            buf,
            t,
        ) == Err::<DateTimeOffsets, ExifError>(ExifError::MissingExifIfd),
{
    if forall|j: int| 0 <= j < es0.len() ==> #[trigger] es0[j].tag != 0x8769 {
        lemma_no_pointer_no_exif_ifd(buf, t, es0);
    }
}
} // verus!
