use fs2iso::timeutil::{iso_record_date, iso_volume_date_digits, unix_to_utc};

#[test]
fn epoch() {
    assert_eq!(unix_to_utc(0), (1970, 1, 1, 0, 0, 0));
}

#[test]
fn known_date() {
    // 2024-02-29 12:34:56 UTC  (leap day)
    let t = 1_709_210_096;
    assert_eq!(unix_to_utc(t), (2024, 2, 29, 12, 34, 56));
}

#[test]
fn iso9660_year_window() {
    let (y, mo, d, _, _, _) = unix_to_utc(4_102_444_800); // 2100-01-01
    assert_eq!((y, mo, d), (2100, 1, 1));
    // year byte = year-1900 must fit u8
    assert_eq!(iso_record_date(4_102_444_800)[0], 200);
}

#[test]
fn digits16() {
    let d = iso_volume_date_digits(1_709_210_096);
    assert_eq!(&d, b"2024022912345600");
}

#[test]
fn century_years_are_no_leap_years() {
    // 2100-02-28 23:59:59 and the second after
    assert_eq!(unix_to_utc(4_107_542_399), (2100, 2, 28, 23, 59, 59));
    assert_eq!(unix_to_utc(4_107_542_400), (2100, 3, 1, 0, 0, 0));
    // 2000-02-29
    assert_eq!(unix_to_utc(951_782_400), (2000, 2, 29, 0, 0, 0));
}

#[test]
fn record_dates_hold_seven_bytes() {
    assert_eq!(iso_record_date(1_709_210_096), [124, 2, 29, 12, 34, 56, 0]);
}

#[test]
fn last_second_of_a_year() {
    assert_eq!(unix_to_utc(946_684_799), (1999, 12, 31, 23, 59, 59));
    assert_eq!(unix_to_utc(946_684_800), (2000, 1, 1, 0, 0, 0));
}

#[test]
fn volume_dates_sort_like_timestamps() {
    let times = [0, 59, 60, 3600, 86_399, 86_400, 951_782_400, 1_709_210_096, 253_402_300_799];
    for pair in times.windows(2) {
        let (a, b) = (iso_volume_date_digits(pair[0]), iso_volume_date_digits(pair[1]));
        assert!(a < b);
        assert!(a.iter().chain(b.iter()).all(|d| d.is_ascii_digit()));
        assert_eq!(&a[14..], b"00");
    }
    assert_eq!(&iso_volume_date_digits(253_402_300_799), b"9999123123595900");
}
