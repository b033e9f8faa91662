use cf_do_locator::calendar::{civil_from_days, today_yyyy_mm_dd};

fn leap(y: i64) -> bool {
    (y % 4 == 0 && y % 100 != 0) || y % 400 == 0
}

#[test]
fn known_days() {
    assert_eq!(civil_from_days(0), (1970, 1, 1));
    assert_eq!(civil_from_days(-1), (1969, 12, 31));
    assert_eq!(civil_from_days(58), (1970, 2, 28));
    assert_eq!(civil_from_days(59), (1970, 3, 1));
    assert_eq!(civil_from_days(11016), (2000, 2, 29));
    assert_eq!(civil_from_days(11017), (2000, 3, 1));
    assert_eq!(civil_from_days(20454), (2026, 1, 1));
    assert_eq!(civil_from_days(-25567), (1900, 1, 1));
    assert_eq!(civil_from_days(-719468), (0, 3, 1));
    assert_eq!(civil_from_days(-719469), (0, 2, 29));
    assert_eq!(civil_from_days(-719529), (-1, 12, 31));
}

#[test]
fn days_follow_one_another() {
    let (mut y, mut m, mut d) = (-900i64, 1u32, 1u32);
    // 1 January of the year -900, counted back from 1970
    let mut z: i64 = 0;
    for year in -900..1970 {
        z -= if leap(year) { 366 } else { 365 };
    }
    while y < 3100 {
        assert_eq!(civil_from_days(z), (y as i32, m, d));
        let last = match m {
            2 => if leap(y) { 29 } else { 28 },
            4 | 6 | 9 | 11 => 30,
            _ => 31,
        };
        if d < last {
            d += 1;
        } else if m < 12 {
            m += 1;
            d = 1;
        } else {
            y += 1;
            m = 1;
            d = 1;
        }
        z += 1;
    }
}

#[test]
fn far_years_are_cut_down() {
    // 1 January of the year 2^31, which is one past what fits
    let z: i64 = 784351576777;
    assert_eq!(civil_from_days(z - 1), (i32::MAX, 12, 31));
    assert_eq!(civil_from_days(z), (i32::MIN, 1, 1));
    civil_from_days(i64::MIN);
    civil_from_days(i64::MAX - 719_468);
}

#[test]
fn stamps() {
    assert_eq!(today_yyyy_mm_dd(0), "1970-01-01");
    assert_eq!(today_yyyy_mm_dd(86_399_999), "1970-01-01");
    assert_eq!(today_yyyy_mm_dd(86_400_000), "1970-01-02");
    assert_eq!(today_yyyy_mm_dd(951_782_400_000), "2000-02-29");
    assert_eq!(today_yyyy_mm_dd(1_780_099_200_000), "2026-05-30");
    assert_eq!(today_yyyy_mm_dd(253_402_300_799_999), "9999-12-31");
    assert_eq!(today_yyyy_mm_dd(253_402_300_800_000), "10000-01-01");
    assert_eq!(today_yyyy_mm_dd(u64::MAX), "584556019-04-03");
}

#[test]
fn stamps_tell_days_apart() {
    let mut last = String::new();
    for day in 0..4000u64 {
        let stamp = today_yyyy_mm_dd(day * 86_400_000 + 12_345);
        assert_eq!(stamp, today_yyyy_mm_dd(day * 86_400_000));
        assert!(stamp > last);
        assert_eq!(stamp.len(), 10);
        last = stamp;
    }
}
