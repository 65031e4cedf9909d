use lapse::{assign_times, ExifDateTime, ExifError};

#[test]
fn parse_and_display_roundtrip() {
    let dt: ExifDateTime = "2024:01:02 03:04:59".parse().unwrap();
    assert_eq!(dt.to_string(), "2024:01:02 03:04:59");
    assert_eq!(&dt.to_exif_bytes(), b"2024:01:02 03:04:59");
}

#[test]
fn parse_rejects_invalid_format() {
    assert!("2024-01-02 03:04:59".parse::<ExifDateTime>().is_err());
    assert!("not a datetime".parse::<ExifDateTime>().is_err());
    assert!("".parse::<ExifDateTime>().is_err());
}

#[test]
fn succ_rolls_over_minute() {
    let dt: ExifDateTime = "2024:12:31 23:59:59".parse().unwrap();
    assert_eq!(dt.succ().to_string(), "2025:01:01 00:00:00");
}

#[test]
fn ord_and_max() {
    let a: ExifDateTime = "2024:01:02 03:04:59".parse().unwrap();
    let b: ExifDateTime = "2024:01:02 03:05:10".parse().unwrap();
    assert_eq!(a.max(b), b);
    assert_eq!(b.max(a.succ()), b);
}

fn dt(s: &str) -> ExifDateTime {
    ExifDateTime::parse_str(s).unwrap()
}

#[test]
fn succ_within_minute() {
    assert_eq!(dt("2024:01:02 03:04:58").succ().to_string(), "2024:01:02 03:04:59");
    assert_eq!(dt("2024:01:02 03:04:59").succ().to_string(), "2024:01:02 03:05:00");
    assert_eq!(dt("2024:01:02 03:59:59").succ().to_string(), "2024:01:02 04:00:00");
}

#[test]
fn succ_carries_over_month_ends() {
    assert_eq!(dt("2024:02:28 23:59:59").succ().to_string(), "2024:02:29 00:00:00");
    assert_eq!(dt("2024:02:29 23:59:59").succ().to_string(), "2024:03:01 00:00:00");
    assert_eq!(dt("2023:02:28 23:59:59").succ().to_string(), "2023:03:01 00:00:00");
    assert_eq!(dt("1900:02:28 23:59:59").succ().to_string(), "1900:03:01 00:00:00");
    assert_eq!(dt("2000:02:28 23:59:59").succ().to_string(), "2000:02:29 00:00:00");
    assert_eq!(dt("2024:04:30 23:59:59").succ().to_string(), "2024:05:01 00:00:00");
}

#[test]
fn leap_second_is_kept_and_stepped_over() {
    let leap = dt("2016:12:31 23:59:60");
    assert_eq!(leap.to_string(), "2016:12:31 23:59:60");
    assert_eq!(&leap.to_exif_bytes(), b"2016:12:31 23:59:60");
    assert_eq!(leap.succ().to_string(), "2017:01:01 00:00:00");
    let before = dt("2016:12:31 23:59:59");
    assert!(before.is_before(&leap));
    assert!(leap.is_before(&leap.succ()));
}

#[test]
fn parse_trims_surrounding_white_space() {
    assert_eq!(dt("  2024:01:02 03:04:59\n").to_string(), "2024:01:02 03:04:59");
    assert_eq!(
        ExifDateTime::parse_str("2024:01:02 03:04:59\0"),
        Err(ExifError::DateTimeUnparsable)
    );
}

#[test]
fn parse_rejects_impossible_dates() {
    assert!(ExifDateTime::parse_str("2023:02:29 00:00:00").is_err());
    assert!(ExifDateTime::parse_str("2024:13:01 00:00:00").is_err());
    assert!(ExifDateTime::parse_str("2024:01:01 24:00:00").is_err());
    assert!(ExifDateTime::parse_str("2024:01:01 00:60:00").is_err());
}

#[test]
fn from_exif_bytes_reads_text() {
    let d = ExifDateTime::from_exif_bytes(b"2024:01:02 03:04:59").unwrap();
    assert_eq!(d, dt("2024:01:02 03:04:59"));
    assert_eq!(
        ExifDateTime::from_exif_bytes(b"2024:01:02 03:04:\xff9"),
        Err(ExifError::DateTimeNotText)
    );
    assert_eq!(
        ExifDateTime::from_exif_bytes(b"2024:01:02 03:04:5x"),
        Err(ExifError::DateTimeUnparsable)
    );
}

#[test]
fn exif_bytes_read_back() {
    for s in ["0000:01:01 00:00:00", "0999:12:31 23:59:59", "9999:12:31 23:59:59", "2016:06:30 23:59:60"] {
        let d = dt(s);
        assert_eq!(ExifDateTime::from_exif_bytes(&d.to_exif_bytes()), Ok(d));
    }
}

#[test]
fn years_outside_four_digits() {
    // parsed values always fit the 19-byte EXIF format
    assert_eq!(
        ExifDateTime::parse_str("-001:01:02 03:04:59"),
        Err(ExifError::DateTimeUnparsable)
    );
    assert_eq!(
        ExifDateTime::parse_str("+10000:01:02 03:04:59"),
        Err(ExifError::DateTimeUnparsable)
    );
    assert_eq!(
        ExifDateTime::parse_str("+262142:12:31 23:59:59"),
        Err(ExifError::DateTimeUnparsable)
    );
    // stepping past the last four-digit year leaves the format
    let last_exif = dt("9999:12:31 23:59:59");
    assert!(last_exif.fits_exif());
    assert!(!last_exif.is_last());
    let beyond = last_exif.succ();
    assert!(!beyond.fits_exif());
    assert_eq!(beyond.to_string(), "+10000:01:01 00:00:00");
}

#[test]
fn ordering_is_chronological() {
    let a = dt("2024:01:02 03:04:59");
    let b = dt("2024:01:02 03:05:00");
    let c = dt("2023:12:31 23:59:59");
    assert!(a.is_before(&b));
    assert!(!b.is_before(&a));
    assert!(!a.is_before(&a));
    assert!(c.is_before(&a));
    assert!(c < a && a < b);
}

#[test]
fn assignment_pushes_bursts_and_keeps_gaps() {
    let originals = vec![
        Ok(dt("2024:01:02 03:04:59")),
        Ok(dt("2024:01:02 03:04:59")),
        Err(ExifError::ExifSegmentNotFound),
        Ok(dt("2024:01:02 03:04:58")),
        Ok(dt("2024:01:02 05:00:00")),
    ];
    let assigned = assign_times(&originals).unwrap();
    assert_eq!(assigned[0], Ok(dt("2024:01:02 03:04:59")));
    assert_eq!(assigned[1], Ok(dt("2024:01:02 03:05:00")));
    assert_eq!(assigned[2], Err(ExifError::ExifSegmentNotFound));
    assert_eq!(assigned[3], Ok(dt("2024:01:02 03:05:01")));
    assert_eq!(assigned[4], Ok(dt("2024:01:02 05:00:00")));
    // running the assignment on its own output changes nothing
    assert_eq!(assign_times(&assigned).unwrap(), assigned);
}

#[test]
fn canonical_text_round_trip() {
    for s in ["2024:01:02 03:04:59", "0000:01:01 00:00:00", "2000:02:29 12:00:00"] {
        let d: ExifDateTime = s.parse().unwrap();
        assert_eq!(d.to_string(), s);
        assert_eq!(&d.to_exif_bytes(), s.as_bytes());
        let padded = format!(" {s}\n");
        assert_eq!(padded.parse::<ExifDateTime>(), Ok(d));
    }
}

/// For four-digit years the EXIF bytes sort exactly as the times do.
#[test]
fn exif_bytes_sort_as_times() {
    let texts = [
        "0999:12:31 23:59:59",
        "2023:12:31 23:59:59",
        "2024:01:02 03:04:59",
        "2024:01:02 03:05:00",
        "2024:01:02 04:00:00",
        "2024:10:01 00:00:00",
        "9999:12:31 23:59:59",
    ];
    for a in texts {
        for b in texts {
            let (x, y) = (dt(a), dt(b));
            assert_eq!(x.is_before(&y), x.to_exif_bytes() < y.to_exif_bytes(), "{a} / {b}");
            assert_eq!(x == y, x.to_exif_bytes() == y.to_exif_bytes(), "{a} / {b}");
        }
    }
}
