//! Sizes as people type them, and filters.
use spacesniffer1000::clock::Timestamp;
use spacesniffer1000::filters::{FilterEntry, Filters};
use spacesniffer1000::rounding::to_single_precision;
use spacesniffer1000::size_input::parse_size_input_bytes;
use spacesniffer1000::text::is_white_space;

fn days(count: i64) -> Timestamp {
    Timestamp::from_secs(count * 86_400)
}

#[test]
fn combines_name_size_and_age_filters() {
    let now = days(10);
    let recent = days(9);
    let old = days(2);
    let filters = Filters {
        name_substring: "cache".into(),
        min_size_bytes: 100,
        max_age_days: 7,
    };

    assert!(filters.matches(
        &FilterEntry { name: "build-cache", size: 150, modified: recent },
        now,
    ));
    assert!(!filters.matches(&FilterEntry { name: "target", size: 150, modified: recent }, now));
    assert!(!filters.matches(
        &FilterEntry { name: "build-cache", size: 1, modified: recent },
        now,
    ));
    assert!(!filters.matches(
        &FilterEntry { name: "build-cache", size: 150, modified: old },
        now,
    ));
}

#[test]
fn names_match_whatever_their_case() {
    let filters = Filters { name_substring: "  CaChÉ\t".into(), ..Filters::default() };
    let now = days(1);
    let named = |name: &'static str| FilterEntry { name, size: 0, modified: now };
    assert!(filters.matches(&named("my-cacHé.d"), now));
    assert!(!filters.matches(&named("cache"), now));
    assert!(filters.matches_lowercase("caché", "my-caché.d", 0, now, now));
    assert!(!filters.matches_lowercase("caché", "MY-CACHÉ", 0, now, now));
}

#[test]
fn no_filter_passes_everything() {
    let filters = Filters::default();
    let entry = FilterEntry { name: "", size: 0, modified: days(500) };
    assert!(filters.matches(&entry, days(1)));
}

#[test]
fn age_filters_leave_out_the_future_and_the_distant_past() {
    let filters = Filters { max_age_days: 1, ..Filters::default() };
    let now = days(10);
    let at = |secs: i64| FilterEntry { name: "x", size: 0, modified: Timestamp::from_secs(secs) };
    assert!(filters.matches(&at(9 * 86_400), now));
    assert!(!filters.matches(&at(9 * 86_400 - 1), now));
    assert!(filters.matches(&at(10 * 86_400), now));
    assert!(!filters.matches(&at(10 * 86_400 + 1), now));
    let endless = Filters { max_age_days: u64::MAX, ..Filters::default() };
    assert!(endless.matches(&at(0), now));
}

#[test]
fn parses_size_input_suffixes_as_binary_units() {
    assert_eq!(parse_size_input_bytes("512"), Some(512));
    assert_eq!(parse_size_input_bytes("1K"), Some(1024));
    assert_eq!(parse_size_input_bytes("2M"), Some(2 * 1024 * 1024));
    assert_eq!(parse_size_input_bytes("3G"), Some(3 * 1024 * 1024 * 1024));
    assert_eq!(parse_size_input_bytes("1.5G"), Some(1_610_612_736));
    assert_eq!(parse_size_input_bytes("2 tib"), Some(2 * 1024_u128.pow(4)));
}

#[test]
fn rejects_invalid_size_input() {
    assert_eq!(parse_size_input_bytes(""), Some(0));
    assert_eq!(parse_size_input_bytes("abc"), None);
    assert_eq!(parse_size_input_bytes("12XB"), None);
    assert_eq!(parse_size_input_bytes("-4G"), None);
    assert_eq!(parse_size_input_bytes("1.2.3G"), None);
}

/// The same reading, by way of the numbers of double precision of the machine.
fn by_double_precision(number: &str, factor: f64) -> Option<u128> {
    let value = number.parse::<f64>().ok()?;
    if !value.is_finite() {
        return None;
    }
    Some((value * factor).round().clamp(0.0, u128::MAX as f64) as u128)
}

fn check_number(number: &str) {
    let units = [
        ("", 1.0),
        ("b", 1.0),
        ("K", 1024.0),
        ("kB", 1024.0),
        ("KiB", 1024.0),
        ("mib", 1_048_576.0),
        ("G", 1_073_741_824.0),
        (" TB ", 1_099_511_627_776.0),
    ];
    for (unit, factor) in units {
        let text = format!("{number}{unit}");
        assert_eq!(parse_size_input_bytes(&text), by_double_precision(number, factor), "{text}");
    }
}

#[test]
fn sizes_agree_with_double_precision() {
    let numbers = [
        "0", "00", "0.0", ".5", "5.", "0.5", "1.5", "2.5", "0.49999999999999994", "0.1", "0.3",
        "9007199254740991", "9007199254740992", "9007199254740993", "9007199254740995",
        "9007199254740994.9999", "123456789.987654321", "0.000976562499999999999",
        "0.0009765625", "340282366920938463463374607431768211455",
        "340282366920938463463374607431768211456", "170141183460469231731687303715884105727.5",
        "99999999999999999999999999999999999999999999999999", "4.9406564584124654", ".",
        "179769313486231570000000000000000000000",
        "0.00000000000000000000000000000000000000000000000000000000000000000000001",
        "18446744073709551615.5", "4503599627370495.5", "4503599627370496.5",
        "4503599627370497.5", "2251799813685247.75", "1.0000000000000002220446049250313",
        "1.00000000000000011102230246251565", "1.00000000000000011102230246251566",
    ];
    for number in numbers {
        check_number(number);
    }
    let mut seed: u64 = 7;
    for _ in 0..120 {
        seed = seed.wrapping_mul(6_364_136_223_846_793_005).wrapping_add(1_442_695_040_888_963_407);
        let whole = seed >> (seed % 50);
        let part = seed.rotate_left(23) % 1_000_000_007;
        check_number(&format!("{whole}.{part}"));
        check_number(&format!("{whole}{part}{whole}"));
        check_number(&format!("0.{part:030}"));
    }
}

#[test]
fn sizes_near_the_ends_of_double_precision() {
    let zeros = "0".repeat(292);
    for head in [
        "17976931348623157", "17976931348623158", "17976931348623159", "17976931348623160",
        "17976931348623157081", "99999999999999999",
    ] {
        check_number(&format!("{head}{zeros}"));
    }
    // Half way between the largest number and the next power of two.
    let middle = "179769313486231580793728971405303415079934132710037826936173778980444968292764\
        7509466490179775872070963302864166928879109465555478519404026306574886715058206819089020007\
        0838367627385484581771153176447573027006985557136695962284291481986083493647529271907416844\
        4365510704342711559699508093042880177904174497792";
    check_number(middle);
    check_number(&format!("{middle}.0"));
    check_number(&middle.replace("97792", "97791"));
    check_number(&format!("0.{}49406564584124654", "0".repeat(323)));
    check_number(&format!("0.{}24703282292062327208", "0".repeat(323)));
    check_number(&format!("0.{}24703282292062328", "0".repeat(323)));
    check_number(&"9".repeat(700));
}

#[test]
fn white_space_is_what_unicode_says() {
    for code in 0..=0x10ffff_u32 {
        if let Some(ch) = char::from_u32(code) {
            assert_eq!(is_white_space(ch), ch.is_whitespace(), "{code:x}");
        }
    }
}

#[test]
fn single_precision_agrees_with_the_machine() {
    let check = |size: u128| assert_eq!(to_single_precision(size), (size as f32) as u128, "{size}");
    for size in [
        0,
        1,
        16_777_215,
        16_777_216,
        16_777_217,
        16_777_218,
        16_777_219,
        33_554_431,
        33_554_433,
        33_554_434,
        33_554_435,
        u64::MAX as u128,
        u128::MAX,
        u128::MAX - 1,
        u128::MAX << 103,
        (u128::MAX << 103) - 1,
        u128::MAX << 104,
    ] {
        check(size);
    }
    let mut seed: u128 = 3;
    for _ in 0..2_000 {
        seed = seed.wrapping_mul(6_364_136_223_846_793_005_123_457).wrapping_add(1);
        check(seed >> (seed % 120));
    }
}
