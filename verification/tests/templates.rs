use repo_recall::commits::GhHealth;
use repo_recall::templates::{
    absolute_time, compact_count, date_and_age, display_repo_label, format_duration_ms,
    gh_health_banner, plural_ending, relative_time, relative_time_at, time_ago,
};

fn by_float(n: i64) -> String {
    let n = n.max(0);
    if n < 1_000 {
        n.to_string()
    } else if n < 1_000_000 {
        format!("{:.1}k", n as f64 / 1_000.0)
    } else {
        format!("{:.1}M", n as f64 / 1_000_000.0)
    }
}

#[test]
fn small_counts_are_exact() {
    assert_eq!(compact_count(0), "0");
    assert_eq!(compact_count(999), "999");
    assert_eq!(compact_count(-5), "0");
    assert_eq!(compact_count(i64::MIN), "0");
}

#[test]
fn large_counts_are_compact() {
    assert_eq!(compact_count(1_000), "1.0k");
    assert_eq!(compact_count(1_234), "1.2k");
    assert_eq!(compact_count(1_250), "1.2k");
    assert_eq!(compact_count(1_350), "1.4k");
    assert_eq!(compact_count(1_450), "1.4k");
    assert_eq!(compact_count(999_999), "1000.0k");
    assert_eq!(compact_count(3_400_000), "3.4M");
    assert_eq!(compact_count(i64::MAX), "9223372036854.8M");
}

#[test]
fn thousands_have_the_digits_of_doubles() {
    for n in 1_000..200_000 {
        assert_eq!(compact_count(n), by_float(n), "{n}");
    }
}

#[test]
fn ties_have_the_digits_of_doubles() {
    for n in (1_050..1_000_000).step_by(100) {
        assert_eq!(compact_count(n), by_float(n), "{n}");
    }
    for k in 0..20_000i64 {
        let n = 1_050_000 + k * 100_000;
        assert_eq!(compact_count(n), by_float(n), "{n}");
    }
}

#[test]
fn millions_have_the_digits_of_doubles() {
    let mut n: i64 = 1_000_003;
    while n < i64::MAX / 3 {
        for m in [n, n - 1, n / 100_000 * 100_000 + 50_000, n + 49_999] {
            if m >= 1_000_000 {
                assert_eq!(compact_count(m), by_float(m), "{m}");
            }
        }
        n = n / 7 * 8 + 12_345;
    }
    for s in 40..63 {
        for d in [-1i64, 0, 1, 511, 512, 513] {
            let m = (1i64 << s).saturating_add(d);
            assert_eq!(compact_count(m), by_float(m), "{m}");
        }
    }
}

#[test]
fn times_are_told_from_now() {
    let now = 1_700_000_000;
    assert_eq!(relative_time_at(None, now), "—");
    assert_eq!(relative_time_at(Some(now + 500), now), "just now");
    assert_eq!(relative_time_at(Some(now - 59), now), "just now");
    assert_eq!(relative_time_at(Some(now - 60), now), "1m ago");
    assert_eq!(relative_time_at(Some(now - 3_599), now), "59m ago");
    assert_eq!(relative_time_at(Some(now - 3_600), now), "1h ago");
    assert_eq!(relative_time_at(Some(now - 86_399), now), "23h ago");
    assert_eq!(relative_time_at(Some(now - 86_400), now), "1d ago");
    assert_eq!(relative_time_at(Some(now - 86_400 * 30 + 1), now), "29d ago");
    assert_eq!(relative_time_at(Some(now - 86_400 * 30), now), "2023-10-15");
    assert_eq!(relative_time_at(Some(i64::MAX), now), "—");
    assert_eq!(relative_time_at(Some(i64::MIN), now), "—");
    assert_eq!(time_ago(7_300, String::from("x")), "2h ago");
    assert_eq!(time_ago(2_592_000, String::from("x")), "x");
}

#[test]
fn the_clock_moves_on() {
    assert_eq!(relative_time(Some(0)), "1970-01-01");
    assert_eq!(relative_time(Some(100_000_000_000)), "just now");
    assert_eq!(relative_time(None), "—");
}

#[test]
fn times_are_told_by_date() {
    assert_eq!(absolute_time(Some(1_700_000_000)), "2023-11-14 22:13 UTC");
    assert_eq!(absolute_time(Some(-1)), "1969-12-31 23:59 UTC");
    assert_eq!(absolute_time(None), "—");
    assert_eq!(absolute_time(Some(i64::MAX)), "—");
}

#[test]
fn dates_have_their_age() {
    assert_eq!(date_and_age(Some(1_700_000_000), 1_700_000_000 + 164 * 86_400 + 5), "2023-11-14 (164d)");
    assert_eq!(date_and_age(Some(1_700_000_000), 1_600_000_000), "2023-11-14 (0d)");
    assert_eq!(date_and_age(None, 5), "—");
    assert_eq!(date_and_age(Some(i64::MIN), 5), "—");
}

#[test]
fn spans_have_two_units() {
    assert_eq!(format_duration_ms(None), "—");
    assert_eq!(format_duration_ms(Some(999)), "0s");
    assert_eq!(format_duration_ms(Some(59_999)), "59s");
    assert_eq!(format_duration_ms(Some(60_000)), "1m 0s");
    assert_eq!(format_duration_ms(Some(3_599_999)), "59m 59s");
    assert_eq!(format_duration_ms(Some(3_600_000)), "1h 0m");
    assert_eq!(format_duration_ms(Some(93_784_000)), "26h 3m");
    assert_eq!(format_duration_ms(Some(-1_999)), "-1s");
    assert_eq!(format_duration_ms(Some(i64::MIN)), "-9223372036854775s");
}

#[test]
fn labels_are_relative_to_the_scan() {
    assert_eq!(display_repo_label("backend", "/p/coilysiren/backend", "/p"), "coilysiren/backend");
    assert_eq!(display_repo_label("p", "/p", "/p"), "p");
    assert_eq!(display_repo_label("x", "/q/x", "/p"), "x");
    assert_eq!(display_repo_label("x", "/pp/x", "/p"), "x");
    assert_eq!(display_repo_label("x", "/p//a/./x/", "/p/"), "a/./x");
}

#[test]
fn the_banner_tells_what_helps() {
    assert_eq!(gh_health_banner(None), None);
    assert_eq!(gh_health_banner(Some(GhHealth::Ready)), None);
    assert_eq!(
        gh_health_banner(Some(GhHealth::Missing)).unwrap().1,
        "install from cli.github.com and run `gh auth login`.",
    );
    assert_eq!(
        gh_health_banner(Some(GhHealth::NotAuthenticated)).unwrap().0,
        "gh CLI not authenticated — CI/CD status is disabled.",
    );
}

#[test]
fn nouns_have_their_endings() {
    assert_eq!(plural_ending(1), "");
    assert_eq!(plural_ending(0), "s");
    assert_eq!(plural_ending(2), "s");
}

#[test]
fn compact_counts_are_rounded_away_from_ties() {
    for n in 1_000..50_000i64 {
        if n % 100 != 50 {
            let tenths = (n + 50) / 100;
            assert_eq!(compact_count(n), format!("{}.{}k", tenths / 10, tenths % 10));
        }
    }
    for n in (1_000_001..90_000_000i64).step_by(7_919) {
        let tenths = (n + 50_000) / 100_000;
        assert_eq!(compact_count(n), format!("{}.{}M", tenths / 10, tenths % 10));
    }
}
