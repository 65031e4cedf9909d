use lapse::exif_patch::{
    find_datetime_offsets, patch_datetimes, read_datetime_at, read_datetime_original,
    DateTimeOffsets, DATETIME_LEN,
};
use lapse::{
    is_jpeg_name, must_write, process_all, process_buffer, select_jpegs, ExifDateTime, ExifError,
    FileOutcome, Options, RunAbort,
};
use std::collections::BTreeMap;
use std::io::Cursor;

const BASE_DATETIME: &str = "2024:01:02 03:04:59";
const MAKE: &str = "TestMake";
const MODEL: &str = "TestModel";
const WIDTH: u32 = 16;
const HEIGHT: u32 = 16;

const IFD0: u32 = 8;
const EXIF_IFD: u32 = IFD0 + 66;
const GPS_IFD: u32 = EXIF_IFD + 66;
const DATA_START: u32 = GPS_IFD + 42;

/// A JPEG without EXIF.
fn plain_jpeg() -> Vec<u8> {
    let img = image::RgbImage::from_fn(WIDTH, HEIGHT, |x, y| {
        image::Rgb([(x * 16) as u8, (y * 16) as u8, 128])
    });
    let mut buf = Cursor::new(Vec::new());
    img.write_to(&mut buf, image::ImageFormat::Jpeg).unwrap();
    let bytes = buf.into_inner();
    assert_eq!(&bytes[..2], &[0xFF, 0xD8]);
    bytes
}

/// A JPEG with an EXIF segment whose three date-time tags hold `dt`.
fn sample_jpeg_with(dt: &str) -> Vec<u8> {
    let base = plain_jpeg();
    let app1 = build_exif_app1(dt);
    let mut out = Vec::with_capacity(base.len() + app1.len());
    out.extend_from_slice(&base[..2]);
    out.extend_from_slice(&app1);
    out.extend_from_slice(&base[2..]);
    out
}

fn sample_jpeg() -> Vec<u8> {
    sample_jpeg_with(BASE_DATETIME)
}

fn put(data: &mut Vec<u8>, bytes: &[u8]) -> u32 {
    if data.len() % 2 == 1 {
        data.push(0);
    }
    let off = DATA_START + data.len() as u32;
    data.extend_from_slice(bytes);
    off
}

fn entry(out: &mut Vec<u8>, tag: u16, typ: u16, count: u32, value: [u8; 4]) {
    out.extend_from_slice(&tag.to_le_bytes());
    out.extend_from_slice(&typ.to_le_bytes());
    out.extend_from_slice(&count.to_le_bytes());
    out.extend_from_slice(&value);
}

fn build_exif_app1(dt: &str) -> Vec<u8> {
    assert_eq!(dt.len(), 19);
    let mut dt20 = dt.as_bytes().to_vec();
    dt20.push(0);

    let mut data: Vec<u8> = Vec::new();
    let make = format!("{MAKE}\0");
    let model = format!("{MODEL}\0");
    let make_off = put(&mut data, make.as_bytes());
    let model_off = put(&mut data, model.as_bytes());
    let dt_off = put(&mut data, &dt20);
    let dto_off = put(&mut data, &dt20);
    let dtd_off = put(&mut data, &dt20);
    let maker_note = b"MKNOTE\x01\x02";
    let maker_off = put(&mut data, maker_note);
    let mut gps_lat = Vec::new();
    for (num, den) in [(35u32, 1u32), (41, 1), (1234, 100)] {
        gps_lat.extend_from_slice(&num.to_le_bytes());
        gps_lat.extend_from_slice(&den.to_le_bytes());
    }
    let gps_lat_off = put(&mut data, &gps_lat);

    let mut tiff = Vec::new();
    tiff.extend_from_slice(b"II");
    tiff.extend_from_slice(&42u16.to_le_bytes());
    tiff.extend_from_slice(&IFD0.to_le_bytes());

    tiff.extend_from_slice(&5u16.to_le_bytes());
    entry(&mut tiff, 0x010F, 2, make.len() as u32, make_off.to_le_bytes());
    entry(&mut tiff, 0x0110, 2, model.len() as u32, model_off.to_le_bytes());
    entry(&mut tiff, 0x0132, 2, 20, dt_off.to_le_bytes());
    entry(&mut tiff, 0x8769, 4, 1, EXIF_IFD.to_le_bytes());
    entry(&mut tiff, 0x8825, 4, 1, GPS_IFD.to_le_bytes());
    tiff.extend_from_slice(&0u32.to_le_bytes());

    tiff.extend_from_slice(&5u16.to_le_bytes());
    entry(&mut tiff, 0x9003, 2, 20, dto_off.to_le_bytes());
    entry(&mut tiff, 0x9004, 2, 20, dtd_off.to_le_bytes());
    entry(&mut tiff, 0x927C, 7, maker_note.len() as u32, maker_off.to_le_bytes());
    entry(&mut tiff, 0xA002, 4, 1, WIDTH.to_le_bytes());
    entry(&mut tiff, 0xA003, 4, 1, HEIGHT.to_le_bytes());
    tiff.extend_from_slice(&0u32.to_le_bytes());

    tiff.extend_from_slice(&3u16.to_le_bytes());
    entry(&mut tiff, 0x0000, 1, 4, [2, 3, 0, 0]);
    entry(&mut tiff, 0x0001, 2, 2, *b"N\0\0\0");
    entry(&mut tiff, 0x0002, 5, 3, gps_lat_off.to_le_bytes());
    tiff.extend_from_slice(&0u32.to_le_bytes());

    assert_eq!(tiff.len() as u32, DATA_START);
    tiff.extend_from_slice(&data);

    let mut payload = b"Exif\0\0".to_vec();
    payload.extend_from_slice(&tiff);
    let mut app1 = vec![0xFF, 0xE1];
    app1.extend_from_slice(&((payload.len() + 2) as u16).to_be_bytes());
    app1.extend_from_slice(&payload);
    app1
}

fn exif_fields(buf: &[u8]) -> BTreeMap<String, String> {
    let exif = exif::Reader::new()
        .read_from_container(&mut Cursor::new(buf))
        .unwrap();
    exif.fields()
        .map(|f| {
            (
                format!("{:?}/{}", f.ifd_num, f.tag),
                f.display_value().to_string(),
            )
        })
        .collect()
}

fn read_ascii_tag(buf: &[u8], tag: exif::Tag) -> String {
    let exif = exif::Reader::new()
        .read_from_container(&mut Cursor::new(buf))
        .unwrap();
    let field = exif
        .get_field(tag, exif::In::PRIMARY)
        .unwrap_or_else(|| panic!("{tag} is missing"));
    match &field.value {
        exif::Value::Ascii(v) => String::from_utf8(v[0].clone()).unwrap(),
        other => panic!("{tag} is not ASCII: {other:?}"),
    }
}

fn scan_data(buf: &[u8]) -> &[u8] {
    let pos = buf
        .windows(2)
        .position(|w| w == [0xFF, 0xDA])
        .expect("SOS marker not found");
    &buf[pos..]
}

fn assert_exif_datetime_format(s: &str) {
    assert_eq!(s.len(), 19, "date-time is not 19 bytes long: {s:?}");
    for (i, c) in s.char_indices() {
        match i {
            4 | 7 | 13 | 16 => assert_eq!(c, ':', "position {i} is not a colon: {s:?}"),
            10 => assert_eq!(c, ' ', "position 10 is not a space: {s:?}"),
            _ => assert!(c.is_ascii_digit(), "position {i} is not a digit: {s:?}"),
        }
    }
}

/// An in-memory directory: file names with their contents.
struct Dir {
    files: Vec<(String, Vec<u8>)>,
}

impl Dir {
    fn new() -> Dir {
        Dir { files: Vec::new() }
    }

    fn with(names: &[&str]) -> Dir {
        let mut d = Dir::new();
        for name in names {
            d.write(name, sample_jpeg());
        }
        d
    }

    fn write(&mut self, name: &str, data: Vec<u8>) {
        self.files.push((name.to_string(), data));
    }

    fn read(&self, name: &str) -> Vec<u8> {
        self.files.iter().find(|(n, _)| n == name).unwrap().1.clone()
    }

    /// Processes the directory as a run does, saving the changed buffers
    /// unless `dry_run`. Returns the names in processing order with each
    /// file's result.
    fn run(&mut self, dry_run: bool) -> Vec<(String, Result<(FileOutcome, bool), ExifError>)> {
        let names: Vec<String> = self.files.iter().map(|(n, _)| n.clone()).collect();
        let order = select_jpegs(&names);
        let mut buffers: Vec<Vec<u8>> = order.iter().map(|&i| self.files[i].1.clone()).collect();
        let results = process_all(&mut buffers).unwrap();
        let mut out = Vec::new();
        for (k, (&i, r)) in order.iter().zip(results.into_iter()).enumerate() {
            if let Ok((_, changed)) = &r {
                if must_write(*changed, &Options { dry_run }) {
                    self.files[i].1 = buffers[k].clone();
                }
            }
            out.push((names[i].clone(), r));
        }
        out
    }

    fn run_all(&mut self) {
        for (name, result) in self.run(false) {
            assert!(result.is_ok(), "failed to process {name}: {:?}", result.err());
        }
    }
}

fn dt(s: &str) -> ExifDateTime {
    ExifDateTime::parse_str(s).unwrap()
}

/// Test 1: lossless guarantee. The file length must not change and the
/// differing bytes must be confined to the value areas of the target
/// date-time tags; the scan data and the decoded pixels are unchanged.
#[test]
fn test_lossless_bytes_and_pixels() {
    let mut dir = Dir::with(&["a.jpg", "b.jpg"]);
    let before = dir.read("b.jpg");

    dir.run_all();
    let after = dir.read("b.jpg");

    assert_ne!(before, after, "no rewrite happened");
    assert_eq!(before.len(), after.len(), "file length changed");

    let offsets = find_datetime_offsets(&before).unwrap();
    let allowed: Vec<std::ops::Range<usize>> = offsets
        .all()
        .into_iter()
        .map(|o| o..o + DATETIME_LEN)
        .collect();
    for (i, (b, a)) in before.iter().zip(after.iter()).enumerate() {
        if b != a {
            assert!(
                allowed.iter().any(|r| r.contains(&i)),
                "diff outside the date-time tags at position {i} (0x{b:02X} -> 0x{a:02X})"
            );
        }
    }

    assert_eq!(
        scan_data(&before),
        scan_data(&after),
        "scan data changed (suspected re-encode)"
    );

    let pixels_before = image::load_from_memory(&before).unwrap().to_rgb8();
    let pixels_after = image::load_from_memory(&after).unwrap().to_rgb8();
    assert_eq!(
        pixels_before.as_raw(),
        pixels_after.as_raw(),
        "decoded pixels changed"
    );
}

/// Test 2: EXIF tags other than the date-times must not change.
#[test]
fn test_other_exif_tags_preserved() {
    let mut dir = Dir::with(&["a.jpg", "b.jpg"]);
    let before_fields = exif_fields(&dir.read("b.jpg"));

    dir.run_all();
    let after_fields = exif_fields(&dir.read("b.jpg"));

    let before_keys: Vec<_> = before_fields.keys().collect();
    let after_keys: Vec<_> = after_fields.keys().collect();
    assert_eq!(before_keys, after_keys, "tag set changed");

    for (key, before_value) in &before_fields {
        if key.contains("DateTime") {
            continue;
        }
        assert_eq!(
            before_value, &after_fields[key],
            "non-date-time tag {key} changed"
        );
    }

    let has = |name: &str| before_fields.keys().any(|k| k.contains(name));
    let value_of = |name: &str| {
        after_fields
            .iter()
            .find(|(k, _)| k.contains(name))
            .map(|(_, v)| v.clone())
            .unwrap_or_else(|| panic!("{name} is missing"))
    };
    assert!(value_of("Make").contains(MAKE));
    assert!(value_of("Model").contains(MODEL));
    assert_eq!(value_of("PixelXDimension"), WIDTH.to_string());
    assert_eq!(value_of("PixelYDimension"), HEIGHT.to_string());
    assert!(has("GPSLatitude"), "GPSLatitude disappeared");
    assert!(has("MakerNote"), "MakerNote disappeared");
}

/// Test 3: burst shots in the same second are pushed +0, +1, +2 seconds in
/// natural filename order, with minute carry-over, and all three tags synced.
#[test]
fn test_datetime_updated_in_natural_order() {
    let mut dir = Dir::with(&["img_2.jpg", "img_10.jpg", "img_1.jpg"]);
    dir.run_all();

    let expected = [
        ("img_1.jpg", "2024:01:02 03:04:59"),
        ("img_2.jpg", "2024:01:02 03:05:00"),
        ("img_10.jpg", "2024:01:02 03:05:01"),
    ];
    for (name, want) in expected {
        let buf = dir.read(name);
        let dto = read_ascii_tag(&buf, exif::Tag::DateTimeOriginal);
        assert_eq!(dto, want, "unexpected DateTimeOriginal for {name}");
        assert_exif_datetime_format(&dto);
        assert_eq!(read_ascii_tag(&buf, exif::Tag::DateTimeDigitized), want);
        assert_eq!(read_ascii_tag(&buf, exif::Tag::DateTime), want);
    }
}

/// Test 4: processed files still decode as valid JPEGs.
#[test]
fn test_file_still_valid_jpeg() {
    let mut dir = Dir::with(&["a.jpg", "b.jpg", "c.jpg"]);
    dir.run_all();

    for name in ["a.jpg", "b.jpg", "c.jpg"] {
        let buf = dir.read(name);
        let img =
            image::load_from_memory(&buf).unwrap_or_else(|e| panic!("cannot decode {name}: {e}"));
        assert_eq!(img.width(), WIDTH);
        assert_eq!(img.height(), HEIGHT);
    }
}

/// A dry run computes the new times without changing any file.
#[test]
fn test_dry_run_does_not_modify_files() {
    let mut dir = Dir::with(&["a.jpg", "b.jpg"]);
    let before_a = dir.read("a.jpg");
    let before_b = dir.read("b.jpg");

    let results = dir.run(true);
    assert!(results.iter().all(|(_, r)| r.is_ok()));
    let outcome = &results[1].1.as_ref().unwrap().0;
    assert_eq!(outcome.new.to_string(), "2024:01:02 03:05:00");

    assert_eq!(before_a, dir.read("a.jpg"));
    assert_eq!(before_b, dir.read("b.jpg"));
}

/// No target files selects nothing; a file without DateTimeOriginal is a
/// per-file error saying the Exif segment was not found.
#[test]
fn test_error_cases() {
    let empty: Vec<String> = Vec::new();
    assert!(select_jpegs(&empty).is_empty());
    let mut no_files: Vec<Vec<u8>> = Vec::new();
    assert_eq!(process_all(&mut no_files).err(), Some(RunAbort::NoTargetFiles));

    let mut no_exif = Dir::new();
    no_exif.write("a.jpg", plain_jpeg());
    let results = no_exif.run(false);
    assert_eq!(results.len(), 1);
    let err = results[0].1.as_ref().unwrap_err();
    assert_eq!(*err, ExifError::ExifSegmentNotFound);
}

/// One file's failure does not stop the others; it is left out of the assignment.
#[test]
fn test_single_file_failure_does_not_stop_others() {
    let mut dir = Dir::with(&["a.jpg", "c.jpg"]);
    dir.write("b.jpg", plain_jpeg());

    let results = dir.run(false);
    assert_eq!(results.len(), 3);
    assert!(results[0].1.is_ok());
    assert!(results[1].1.is_err());
    assert!(results[2].1.is_ok());

    let buf = dir.read("c.jpg");
    assert_eq!(
        read_ascii_tag(&buf, exif::Tag::DateTimeOriginal),
        "2024:01:02 03:05:00"
    );
}

/// Scenes separated by a gap keep their times; a scene is pushed only when
/// the burst catches up with it.
#[test]
fn test_scene_times_preserved_and_pushed_only_when_caught_up() {
    let mut dir = Dir::new();
    dir.write("img_1.jpg", sample_jpeg_with("2024:01:02 03:04:59"));
    dir.write("img_2.jpg", sample_jpeg_with("2024:01:02 03:04:59"));
    dir.write("img_3.jpg", sample_jpeg_with("2024:01:02 03:04:59"));
    dir.write("img_4.jpg", sample_jpeg_with("2024:01:02 03:05:00"));
    dir.write("img_5.jpg", sample_jpeg_with("2024:01:02 04:00:00"));
    dir.write("img_6.jpg", sample_jpeg_with("2024:01:02 04:00:00"));
    dir.run_all();

    let expected = [
        ("img_1.jpg", "2024:01:02 03:04:59"),
        ("img_2.jpg", "2024:01:02 03:05:00"),
        ("img_3.jpg", "2024:01:02 03:05:01"),
        ("img_4.jpg", "2024:01:02 03:05:02"),
        ("img_5.jpg", "2024:01:02 04:00:00"),
        ("img_6.jpg", "2024:01:02 04:00:01"),
    ];
    for (name, want) in expected {
        let buf = dir.read(name);
        assert_eq!(
            read_ascii_tag(&buf, exif::Tag::DateTimeOriginal),
            want,
            "unexpected DateTimeOriginal for {name}"
        );
    }
}

/// Nothing changes when the times are already unique.
#[test]
fn test_idempotent_when_already_unique() {
    let mut dir = Dir::new();
    dir.write("a.jpg", sample_jpeg_with("2024:01:02 03:04:59"));
    dir.write("b.jpg", sample_jpeg_with("2024:01:02 03:05:10"));
    let before_a = dir.read("a.jpg");
    let before_b = dir.read("b.jpg");

    let results = dir.run(false);
    assert!(results.iter().all(|(_, r)| matches!(r, Ok((_, false)))));

    assert_eq!(before_a, dir.read("a.jpg"));
    assert_eq!(before_b, dir.read("b.jpg"));
}

/// Only .jpg / .jpeg (case-insensitive) are targeted.
#[test]
fn test_collect_jpegs_filters_and_sorts() {
    let names: Vec<String> = ["b.JPG", "a.jpeg", "notes.txt", "raw.CR2", "img.png"]
        .iter()
        .map(|s| s.to_string())
        .collect();
    let order = select_jpegs(&names);
    let picked: Vec<&str> = order.iter().map(|&i| names[i].as_str()).collect();
    assert_eq!(picked, vec!["a.jpeg", "b.JPG"]);
}

#[test]
fn jpeg_name_rules() {
    assert!(is_jpeg_name("a.jpg"));
    assert!(is_jpeg_name("a.JPEG"));
    assert!(is_jpeg_name("a.b.JpG"));
    assert!(!is_jpeg_name(".jpg"));
    assert!(!is_jpeg_name("jpg"));
    assert!(!is_jpeg_name("a.jpg.txt"));
    assert!(!is_jpeg_name("a.jpgx"));
    assert!(!is_jpeg_name("a."));
    assert!(!is_jpeg_name(".."));
    assert!(is_jpeg_name("\u{fffd}.jpg"));
}

#[test]
fn natural_order_of_names() {
    let names: Vec<String> = ["img_10.jpg", "img_2.jpg", "img_1.jpg", "IMG_3.JPG", "rfc822.jpg", "rfc1.jpg"]
        .iter()
        .map(|s| s.to_string())
        .collect();
    let order = select_jpegs(&names);
    let picked: Vec<&str> = order.iter().map(|&i| names[i].as_str()).collect();
    assert_eq!(
        picked,
        vec!["IMG_3.JPG", "img_1.jpg", "img_2.jpg", "img_10.jpg", "rfc1.jpg", "rfc822.jpg"]
    );
}

#[test]
fn equal_names_keep_their_order() {
    // natural order skips white space, so these compare equal
    let names: Vec<String> = ["a 1.jpg", "a1.jpg", "a 1 .jpg"].iter().map(|s| s.to_string()).collect();
    assert_eq!(select_jpegs(&names), vec![0, 1, 2]);
}

#[test]
fn offsets_of_sample() {
    let buf = sample_jpeg();
    let offsets = find_datetime_offsets(&buf).unwrap();
    assert!(offsets.datetime_digitized.is_some());
    assert!(offsets.datetime.is_some());
    let all = offsets.all();
    assert_eq!(all.len(), 3);
    assert_eq!(all[0], offsets.datetime_original);
    for o in all {
        assert_eq!(&buf[o..o + DATETIME_LEN], BASE_DATETIME.as_bytes());
    }
    assert_eq!(read_datetime_original(&buf), Ok(dt(BASE_DATETIME)));
}

#[test]
fn all_lists_present_offsets() {
    let o = DateTimeOffsets { datetime_original: 5, datetime_digitized: None, datetime: Some(9) };
    assert_eq!(o.all(), vec![5, 9]);
    let o = DateTimeOffsets { datetime_original: 5, datetime_digitized: Some(7), datetime: None };
    assert_eq!(o.all(), vec![5, 7]);
}

#[test]
fn patch_then_read_back() {
    let mut buf = sample_jpeg();
    let before = buf.clone();
    let offsets = find_datetime_offsets(&buf).unwrap();
    let new = dt("2030:06:07 08:09:10");
    patch_datetimes(&mut buf, &offsets, new);
    assert_eq!(buf.len(), before.len());
    for o in offsets.all() {
        assert_eq!(read_datetime_at(&buf, o), Ok(new));
    }
    assert_eq!(read_ascii_tag(&buf, exif::Tag::DateTimeOriginal), "2030:06:07 08:09:10");
}

#[test]
fn process_buffer_reports_change_once() {
    let mut buf = sample_jpeg();
    let new = dt("2024:01:02 03:05:00");
    let (outcome, changed) = process_buffer(&mut buf, new).unwrap();
    assert!(changed);
    assert_eq!(outcome.old, dt(BASE_DATETIME));
    assert_eq!(outcome.new, new);
    let again = buf.clone();
    let (outcome, changed) = process_buffer(&mut buf, new).unwrap();
    assert!(!changed);
    assert_eq!(outcome.old, new);
    assert_eq!(buf, again);
}

#[test]
fn exif_errors() {
    assert_eq!(find_datetime_offsets(b"GIF89a").unwrap_err(), ExifError::NotJpeg);
    assert_eq!(find_datetime_offsets(&[]).unwrap_err(), ExifError::NotJpeg);
    assert_eq!(
        find_datetime_offsets(&[0xFF, 0xD8, 0x00, 0x00]).unwrap_err(),
        ExifError::InvalidSegmentStructure { offset: 2 }
    );
    assert_eq!(
        find_datetime_offsets(&[0xFF, 0xD8, 0xFF, 0xE0, 0x00]).unwrap_err(),
        ExifError::SegmentHeaderTruncated
    );
    assert_eq!(
        find_datetime_offsets(&[0xFF, 0xD8, 0xFF, 0xE0, 0x00, 0x10]).unwrap_err(),
        ExifError::SegmentLengthExceedsFile
    );
    assert_eq!(
        find_datetime_offsets(&[0xFF, 0xD8, 0xFF, 0xFF, 0xD0, 0xFF, 0xD9]).unwrap_err(),
        ExifError::ExifSegmentNotFound
    );
    assert_eq!(find_datetime_offsets(&plain_jpeg()).unwrap_err(), ExifError::ExifSegmentNotFound);
}

/// Position of the TIFF header in a sample built by `sample_jpeg_with`.
const TIFF_BASE: usize = 2 + 4 + 6;

fn set_u16(buf: &mut [u8], at: usize, v: u16) {
    buf[at..at + 2].copy_from_slice(&v.to_le_bytes());
}

#[test]
fn tiff_errors() {
    let mut bad_order = sample_jpeg();
    bad_order[TIFF_BASE] = b'X';
    assert_eq!(find_datetime_offsets(&bad_order).unwrap_err(), ExifError::InvalidByteOrder);

    let mut bad_magic = sample_jpeg();
    set_u16(&mut bad_magic, TIFF_BASE + 2, 43);
    assert_eq!(find_datetime_offsets(&bad_magic).unwrap_err(), ExifError::InvalidTiffMagic);

    // DateTimeOriginal (first Exif IFD entry) becomes another tag
    let mut no_original = sample_jpeg();
    set_u16(&mut no_original, TIFF_BASE + EXIF_IFD as usize + 2, 0x9010);
    assert_eq!(
        find_datetime_offsets(&no_original).unwrap_err(),
        ExifError::MissingDateTimeOriginal
    );

    // DateTimeOriginal of type SHORT instead of ASCII
    let mut not_ascii = sample_jpeg();
    set_u16(&mut not_ascii, TIFF_BASE + EXIF_IFD as usize + 4, 3);
    assert_eq!(
        find_datetime_offsets(&not_ascii).unwrap_err(),
        ExifError::TagNotAscii { tag: 0x9003 }
    );

    // DateTimeOriginal with too few characters
    let mut short = sample_jpeg();
    set_u16(&mut short, TIFF_BASE + EXIF_IFD as usize + 6, 10);
    assert_eq!(
        find_datetime_offsets(&short).unwrap_err(),
        ExifError::TagInvalidLength { tag: 0x9003 }
    );

    // DateTimeOriginal pointing past the segment
    let mut outside = sample_jpeg();
    set_u16(&mut outside, TIFF_BASE + EXIF_IFD as usize + 10, 0x7000);
    assert_eq!(
        find_datetime_offsets(&outside).unwrap_err(),
        ExifError::TagValueOutsideSegment { tag: 0x9003 }
    );

    // Exif IFD pointer (fourth IFD0 entry) becomes another tag
    let mut no_exif_ifd = sample_jpeg();
    set_u16(&mut no_exif_ifd, TIFF_BASE + IFD0 as usize + 2 + 3 * 12, 0x8000);
    assert_eq!(find_datetime_offsets(&no_exif_ifd).unwrap_err(), ExifError::MissingExifIfd);

    // IFD0 count too large for the segment
    let mut huge_ifd = sample_jpeg();
    set_u16(&mut huge_ifd, TIFF_BASE + IFD0 as usize, 0x4000);
    assert_eq!(find_datetime_offsets(&huge_ifd).unwrap_err(), ExifError::OutsideSegment);
}

#[test]
fn optional_tags_dropped_when_unusable() {
    // DateTime (third IFD0 entry) of the wrong type is simply not synced
    let mut buf = sample_jpeg();
    set_u16(&mut buf, TIFF_BASE + IFD0 as usize + 2 + 2 * 12 + 2, 3);
    let offsets = find_datetime_offsets(&buf).unwrap();
    assert!(offsets.datetime.is_none());
    assert!(offsets.datetime_digitized.is_some());
    assert_eq!(offsets.all().len(), 2);
}

#[test]
fn big_endian_tiff_is_read() {
    // A hand-made big-endian segment: IFD0 with the Exif pointer, Exif IFD
    // with DateTimeOriginal only.
    let mut tiff: Vec<u8> = Vec::new();
    tiff.extend_from_slice(b"MM");
    tiff.extend_from_slice(&42u16.to_be_bytes());
    tiff.extend_from_slice(&8u32.to_be_bytes());
    // IFD0 at 8: one entry
    tiff.extend_from_slice(&1u16.to_be_bytes());
    tiff.extend_from_slice(&0x8769u16.to_be_bytes());
    tiff.extend_from_slice(&4u16.to_be_bytes());
    tiff.extend_from_slice(&1u32.to_be_bytes());
    tiff.extend_from_slice(&26u32.to_be_bytes());
    tiff.extend_from_slice(&0u32.to_be_bytes());
    // Exif IFD at 26: one entry
    tiff.extend_from_slice(&1u16.to_be_bytes());
    tiff.extend_from_slice(&0x9003u16.to_be_bytes());
    tiff.extend_from_slice(&2u16.to_be_bytes());
    tiff.extend_from_slice(&20u32.to_be_bytes());
    tiff.extend_from_slice(&44u32.to_be_bytes());
    tiff.extend_from_slice(&0u32.to_be_bytes());
    assert_eq!(tiff.len(), 44);
    tiff.extend_from_slice(b"2021:07:08 09:10:11\0");
    let mut buf = vec![0xFF, 0xD8, 0xFF, 0xE1];
    buf.extend_from_slice(&((tiff.len() + 8) as u16).to_be_bytes());
    buf.extend_from_slice(b"Exif\0\0");
    buf.extend_from_slice(&tiff);
    buf.extend_from_slice(&[0xFF, 0xD9]);
    let offsets = find_datetime_offsets(&buf).unwrap();
    assert_eq!(offsets.datetime_original, 12 + 44);
    assert_eq!(offsets.datetime, None);
    assert_eq!(offsets.datetime_digitized, None);
    assert_eq!(read_datetime_original(&buf), Ok(dt("2021:07:08 09:10:11")));
}

#[test]
fn run_stops_before_overflowing_exif_years() {
    let mut buffers = vec![
        sample_jpeg_with("9999:12:31 23:59:59"),
        sample_jpeg_with("9999:12:31 23:59:59"),
    ];
    let before = buffers.clone();
    assert_eq!(process_all(&mut buffers).err(), Some(RunAbort::YearNotRepresentable));
    assert_eq!(buffers, before);
}

#[test]
fn burst_assignment_counts_seconds() {
    let mut buffers: Vec<Vec<u8>> = (0..4).map(|_| sample_jpeg()).collect();
    let results = process_all(&mut buffers).unwrap();
    let news: Vec<String> = results
        .iter()
        .map(|r| r.as_ref().unwrap().0.new.to_string())
        .collect();
    assert_eq!(
        news,
        vec![
            "2024:01:02 03:04:59",
            "2024:01:02 03:05:00",
            "2024:01:02 03:05:01",
            "2024:01:02 03:05:02"
        ]
    );
    // a second run changes nothing
    let again = buffers.clone();
    let results = process_all(&mut buffers).unwrap();
    assert!(results.iter().all(|r| matches!(r, Ok((_, false)))));
    assert_eq!(buffers, again);
}

/// A file is written back only when it changed and the run is not a dry run.
#[test]
fn write_only_when_changed_outside_dry_run() {
    assert!(must_write(true, &Options { dry_run: false }));
    assert!(!must_write(true, &Options { dry_run: true }));
    assert!(!must_write(false, &Options { dry_run: false }));
    assert!(!must_write(false, &Options { dry_run: true }));
}

/// Patching twice with the same time leaves what patching once left.
#[test]
fn patching_twice_is_patching_once() {
    let mut buf = sample_jpeg();
    let offsets = find_datetime_offsets(&buf).unwrap();
    let new = dt("2031:02:03 04:05:06");
    patch_datetimes(&mut buf, &offsets, new);
    let once = buf.clone();
    patch_datetimes(&mut buf, &offsets, new);
    assert_eq!(buf, once);
    assert_ne!(once, sample_jpeg());
}

/// A segment placed before APP1 moves every found offset by its length.
#[test]
fn leading_segment_shifts_offsets() {
    let buf = sample_jpeg();
    let mut seg = vec![0xFF, 0xE0, 0x00, 0x10];
    seg.extend_from_slice(b"JFIF\0\x01\x01\0\0\x01\0\x01\0\0");
    assert_eq!(seg.len(), 18);
    let mut shifted = buf[..2].to_vec();
    shifted.extend_from_slice(&seg);
    shifted.extend_from_slice(&buf[2..]);
    let a = find_datetime_offsets(&buf).unwrap();
    let b = find_datetime_offsets(&shifted).unwrap();
    assert_eq!(b.datetime_original, a.datetime_original + 18);
    assert_eq!(b.datetime_digitized, a.datetime_digitized.map(|o| o + 18));
    assert_eq!(b.datetime, a.datetime.map(|o| o + 18));
    assert_eq!(read_datetime_original(&shifted), Ok(dt(BASE_DATETIME)));

    let plain = plain_jpeg();
    let mut plain_shifted = plain[..2].to_vec();
    plain_shifted.extend_from_slice(&seg);
    plain_shifted.extend_from_slice(&plain[2..]);
    assert_eq!(find_datetime_offsets(&plain).err(), find_datetime_offsets(&plain_shifted).err());
}

/// A file that cannot be processed is refused before the new time is used,
/// even when that time does not fit the EXIF format.
#[test]
fn unreadable_file_refused_whatever_the_time() {
    let far = dt("9999:12:31 23:59:59").succ();
    assert!(!far.fits_exif());
    let mut buf = plain_jpeg();
    let before = buf.clone();
    assert_eq!(process_buffer(&mut buf, far).err(), Some(ExifError::ExifSegmentNotFound));
    assert_eq!(buf, before);
}

/// Running again over what a run produced reads back every new time, keeps
/// it, repeats each error and writes nothing.
#[test]
fn rerun_changes_nothing() {
    let mut buffers = vec![
        sample_jpeg_with("2024:01:02 03:04:59"),
        sample_jpeg_with("2024:01:02 03:04:59"),
        plain_jpeg(),
        sample_jpeg_with("2024:01:02 03:05:00"),
        sample_jpeg_with("2024:01:02 04:00:00"),
    ];
    let first = process_all(&mut buffers).unwrap();
    let after_first = buffers.clone();
    let second = process_all(&mut buffers).unwrap();
    assert_eq!(buffers, after_first);
    assert_eq!(first.len(), second.len());
    for (a, b) in first.iter().zip(second.iter()) {
        match (a, b) {
            (Ok((x, _)), Ok((y, changed))) => {
                assert!(!changed);
                assert_eq!(y.old, x.new);
                assert_eq!(y.new, x.new);
            }
            (Err(e1), Err(e2)) => assert_eq!(e1, e2),
            _ => panic!("results differ: {a:?} / {b:?}"),
        }
    }
    let news: Vec<String> = first
        .iter()
        .filter_map(|r| r.as_ref().ok().map(|(o, _)| o.new.to_string()))
        .collect();
    assert_eq!(
        news,
        ["2024:01:02 03:04:59", "2024:01:02 03:05:00", "2024:01:02 03:05:01", "2024:01:02 04:00:00"]
    );
}
