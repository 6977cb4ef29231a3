use goz::output::{
    filetime_to_unix_ms, format_filetime_utc, unix_ms_to_filetime, FILETIME_UNIX_EPOCH,
};

#[test]
fn epoch_constant_is_1970() {
    assert_eq!(
        format_filetime_utc(FILETIME_UNIX_EPOCH),
        "1970-01-01T00:00:00"
    );
    assert_eq!(filetime_to_unix_ms(FILETIME_UNIX_EPOCH), 0);
    assert_eq!(unix_ms_to_filetime(0), FILETIME_UNIX_EPOCH);
}

#[test]
fn filetime_zero_is_1601() {
    assert_eq!(format_filetime_utc(0), "1601-01-01T00:00:00");
}

#[test]
fn known_unix_instants_format_correctly() {
    // (unix seconds, expected civil UTC)
    let cases: &[(i64, &str)] = &[
        (951_782_400, "2000-02-29T00:00:00"),   // century leap day
        (1_709_078_400, "2024-02-28T00:00:00"), // day before leap day
        (1_709_251_199, "2024-02-29T23:59:59"), // leap day, end of day
        (2_678_399, "1970-01-31T23:59:59"),     // end of month
        (946_684_799, "1999-12-31T23:59:59"),   // end of year
    ];
    for &(unix_s, expected) in cases {
        let ft = unix_ms_to_filetime(unix_s * 1_000);
        assert_eq!(format_filetime_utc(ft), expected, "unix {unix_s}");
    }
}

#[test]
fn pre_1970_dates_are_correct_earlier_dates() {
    let ft = unix_ms_to_filetime(-86_400_000); // one day before Unix epoch
    assert_eq!(format_filetime_utc(ft), "1969-12-31T00:00:00");
    assert_eq!(filetime_to_unix_ms(ft), -86_400_000);
}

#[test]
fn pre_1601_negative_ticks_do_not_panic() {
    // One second before the FILETIME epoch: 1600 is a leap year.
    assert_eq!(format_filetime_utc(-10_000_000), "1600-12-31T23:59:59");
}

#[test]
fn sub_millisecond_ticks_floor() {
    // 9_999 ticks < 1 ms after the epoch → still ms 0.
    assert_eq!(filetime_to_unix_ms(FILETIME_UNIX_EPOCH + 9_999), 0);
    // 1 tick BEFORE the epoch floors to ms -1, not 0.
    assert_eq!(filetime_to_unix_ms(FILETIME_UNIX_EPOCH - 1), -1);
}

#[test]
fn extremes_do_not_panic_and_max_matches_known_date() {
    // The well-known maximum FILETIME civil date.
    assert_eq!(format_filetime_utc(i64::MAX), "30828-09-14T02:48:05");
    let _ = format_filetime_utc(i64::MIN);
    let _ = filetime_to_unix_ms(i64::MIN);
    let _ = filetime_to_unix_ms(i64::MAX);
    // Saturating corners: high clamps to i64::MAX; low saturates the
    // multiply then adds the epoch offset.
    assert_eq!(unix_ms_to_filetime(i64::MAX), i64::MAX);
    assert_eq!(
        unix_ms_to_filetime(i64::MIN),
        i64::MIN + FILETIME_UNIX_EPOCH
    );
}

#[test]
fn every_tick_count_that_fits_is_exact() {
    assert_eq!(
        unix_ms_to_filetime(-922_337_203_685_478),
        -9_106_927_300_854_780_000
    );
    assert_eq!(
        filetime_to_unix_ms(unix_ms_to_filetime(-922_337_203_685_478)),
        -922_337_203_685_478
    );
    // The first and the last millisecond whose ticks fit.
    assert_eq!(
        unix_ms_to_filetime(-933_981_677_285_477),
        -9_223_372_036_854_770_000
    );
    assert_eq!(
        unix_ms_to_filetime(-933_981_677_285_478),
        i64::MIN + FILETIME_UNIX_EPOCH
    );
    assert_eq!(
        unix_ms_to_filetime(910_692_730_085_477),
        9_223_372_036_854_770_000
    );
    assert_eq!(unix_ms_to_filetime(910_692_730_085_478), i64::MAX);
}

#[test]
fn years_before_0_have_a_sign_and_four_digits() {
    assert_eq!(format_filetime_utc(-505_227_456_000_000_001), "-0001-12-31T23:59:59");
    assert_eq!(format_filetime_utc(-505_227_456_000_000_000), "0000-01-01T00:00:00");
}

/// A small generator of test data: the same values in every run.
struct Rng(u64);

impl Rng {
    fn next(&mut self) -> u64 {
        self.0 ^= self.0 << 13;
        self.0 ^= self.0 >> 7;
        self.0 ^= self.0 << 17;
        self.0
    }

    fn below(&mut self, n: u64) -> u64 {
        self.next() % n
    }
}

#[test]
fn ms_round_trips_exactly() {
    let mut rng = Rng(0x1111_2222_3333_4444);
    for _ in 0..2000 {
        let ms = rng.below(1_800_000_000_000_001) as i64 - 900_000_000_000_000;
        assert_eq!(filetime_to_unix_ms(unix_ms_to_filetime(ms)), ms);
    }
}

#[test]
fn filetime_round_trip_floors() {
    let mut rng = Rng(0x4444_3333_2222_1111);
    for _ in 0..2000 {
        let ft = (rng.next() as i64).max(i64::MIN + FILETIME_UNIX_EPOCH + 10_000);
        let back = unix_ms_to_filetime(filetime_to_unix_ms(ft));
        assert!(back <= ft);
        assert!(ft - back < 10_000);
    }
}

#[test]
fn format_never_panics() {
    let mut rng = Rng(0x9999_8888_7777_6666);
    for _ in 0..2000 {
        let s = format_filetime_utc(rng.next() as i64);
        assert!(s.contains('T'));
    }
}
