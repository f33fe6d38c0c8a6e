use spotless::cli::parse_size;
use spotless::ui::{
    bar, bold, bytes, color_allowed, confirmed, count, cyan, dim, display_width, green, is_yes, lpad, red, rpad,
    truncate_path, yellow,
};

#[test]
fn bytes_uses_decimal_units_like_finder() {
    assert_eq!(bytes(0), "0 B");
    assert_eq!(bytes(999), "999 B");
    assert_eq!(bytes(1000), "1.0 KB");
    assert_eq!(bytes(1_500_000), "1.5 MB");
    assert_eq!(bytes(12_000_000_000), "12 GB");
}

#[test]
fn bytes_switches_to_whole_numbers_at_ten() {
    assert_eq!(bytes(9_900_000_000), "9.9 GB");
    assert_eq!(bytes(10_000_000_000), "10 GB");
}

/// The same, worked out by the machine.
fn reference_bytes(n: u64) -> String {
    let units = ["B", "KB", "MB", "GB", "TB", "PB"];
    if n < 1000 {
        return format!("{n} B");
    }
    let mut value = n as f64;
    let mut unit = 0;
    while value >= 1000.0 && unit < 5 {
        value /= 1000.0;
        unit += 1;
    }
    let tenths = format!("{value:.1}");
    if value < 10.0 && tenths != "10.0" {
        format!("{tenths} {}", units[unit])
    } else {
        format!("{value:.0} {}", units[unit])
    }
}

fn next(seed: &mut u64) -> u64 {
    *seed = seed.wrapping_mul(6364136223846793005).wrapping_add(1442695040888963407);
    *seed ^ (*seed >> 31)
}

#[test]
fn bytes_agrees_with_the_machine() {
    // Halves that binary fractions cannot hold are where rounding shows.
    for n in (1000..12_000).step_by(50) {
        assert_eq!(bytes(n), reference_bytes(n));
        assert_eq!(bytes(n * 1000), reference_bytes(n * 1000));
        assert_eq!(bytes(n * 1_000_000 + 1), reference_bytes(n * 1_000_000 + 1));
    }
    assert_eq!(bytes(1150), "1.1 KB");
    assert_eq!(bytes(1250), "1.2 KB");
    assert_eq!(bytes(1350), "1.4 KB");
    let mut seed = 7;
    for shift in 0..64 {
        for _ in 0..40 {
            let n = next(&mut seed) >> shift;
            assert_eq!(bytes(n), reference_bytes(n), "{n}");
        }
    }
    assert_eq!(bytes(u64::MAX), reference_bytes(u64::MAX));
    assert_eq!(bytes(999_999), "1000 KB");
    // The form goes by the number that is shown.
    assert_eq!(bytes(9_999), "10 KB");
    assert_eq!(bytes(9_949), "9.9 KB");
    assert_eq!(bytes(9_960_000), "10 MB");
}

#[test]
fn count_pluralises_both_ways() {
    assert_eq!(count(1, "item", "items"), "1 item");
    assert_eq!(count(0, "item", "items"), "0 items");
    assert_eq!(count(2, "copy", "copies"), "2 copies");
}

#[test]
fn padding_ignores_escape_sequences() {
    let padded = rpad(&green(true, "ok"), 5);
    assert_eq!(display_width(&padded), 5);
    assert_eq!(lpad(&green(true, "ok"), 5), "\x1b[32mok\x1b[0m   ");
    assert_eq!(rpad("longer", 3), "longer");
}

#[test]
fn truncate_keeps_the_tail_of_a_path() {
    assert_eq!(truncate_path("/a/very/long/path/target", 10), "…th/target");
    assert_eq!(truncate_path("short", 10), "short");
    assert_eq!(truncate_path("short", 1), "…");
    assert_eq!(truncate_path("abc", 1), "…");
    assert_eq!(truncate_path("a", 1), "a");
    assert_eq!(truncate_path("short", 0), "");
    // Colours take no columns.
    assert_eq!(truncate_path(&green(true, "abc"), 3), green(true, "abc"));
    assert_eq!(display_width(&truncate_path(&green(true, "abcdef"), 3)), 3);
    assert_eq!(display_width(&truncate_path("/a/very/long/path/target", 10)), 10);
}

#[test]
fn bar_is_always_exactly_the_requested_width() {
    for value in [0u64, 1, 50, 100] {
        assert_eq!(bar(value, 100, 10).chars().count(), 10);
    }
    assert_eq!(bar(5, 0, 4), "    ");
}

#[test]
fn bar_agrees_with_the_machine() {
    let mut seed = 11;
    for round in 0..2000 {
        let total = (next(&mut seed) >> (round % 60)).max(1);
        let value = next(&mut seed) >> (round % 63);
        let width = (next(&mut seed) % 40) as usize + 1;
        let filled = ((value as f64 / total as f64) * width as f64).round() as usize;
        let filled = filled.min(width);
        let shown = bar(value, total, width);
        assert_eq!(shown.chars().filter(|c| *c == '█').count(), filled, "{value}/{total}");
        assert_eq!(shown.chars().count(), width);
    }
    assert_eq!(bar(1, 2, 4), "██··");
    assert_eq!(bar(9, 3, 4), "████");
    assert_eq!(bar(1, 1, 0), "");
}

#[test]
fn colour_is_only_there_when_it_is_on() {
    assert_eq!(bold(true, "x"), "\x1b[1mx\x1b[0m");
    assert_eq!(dim(true, "x"), "\x1b[2mx\x1b[0m");
    assert_eq!(yellow(true, "x"), "\x1b[33mx\x1b[0m");
    assert_eq!(red(true, "x"), "\x1b[31mx\x1b[0m");
    assert_eq!(cyan(true, "x"), "\x1b[36mx\x1b[0m");
    assert_eq!(bold(false, "x"), "x");
    assert!(color_allowed(false, false, true));
    assert!(!color_allowed(true, false, true));
    assert!(!color_allowed(false, true, true));
    assert!(!color_allowed(false, false, false));
}

#[test]
fn only_an_explicit_yes_is_one() {
    for yes in ["y", "Y\n", " yes ", "YES"] {
        assert!(confirmed(true, Some(yes)), "{yes}");
    }
    for no in ["", "n", "yeah", "yes please", "\n"] {
        assert!(!confirmed(true, Some(no)), "{no}");
    }
    assert!(!confirmed(false, Some("y")));
    assert!(!confirmed(true, None));
    assert!(is_yes("y") && is_yes("yes") && !is_yes("Y"));
}

#[test]
fn parses_sizes_with_and_without_units() {
    assert_eq!(parse_size("500").unwrap(), 500);
    assert_eq!(parse_size("20k").unwrap(), 20_000);
    assert_eq!(parse_size("100MB").unwrap(), 100_000_000);
    assert_eq!(parse_size("1.5G").unwrap(), 1_500_000_000);
    assert_eq!(parse_size(" 2 TB ").unwrap(), 2_000_000_000_000);
}

#[test]
fn rejects_nonsense() {
    assert!(parse_size("big").is_err());
    assert!(parse_size("10x").is_err());
    assert_eq!(parse_size("big").unwrap_err(), "`big` is not a size (try 100MB)");
    assert_eq!(parse_size("10X").unwrap_err(), "unknown size unit `x` (try B, KB, MB, GB)");
    for wrong in ["", ".", "1.2.3", "-1", "+1", "1e3", "MB"] {
        assert!(parse_size(wrong).is_err(), "{wrong}");
    }
}

#[test]
fn sizes_agree_with_the_machine() {
    let check = |number: &str| {
        for (unit, scale) in [("", 1.0), ("kb", 1e3), ("M", 1e6), ("gB", 1e9), ("T", 1e12)] {
            let expected = (number.parse::<f64>().unwrap() * scale) as u64;
            assert_eq!(parse_size(&format!("{number}{unit}")).unwrap(), expected, "{number}{unit}");
        }
    };
    for number in [
        "0", "1", "5.", ".5", "0.1", "0.3", "1.1", "2.675", "4.35", "1.005", "0.29", "9007199254740993",
        "18446744073709551615", "18446744073709551616", "123456789012345678901234567890", "0.000000000001",
        "1.0000000000000002220446049250313080847263336181640625", "3.14159265358979323846264338327950288",
        "99999999999999999999.99999999999999999999", "000012.50", "0.0000000000000000000000000000000000000001",
    ] {
        check(number);
    }
    let mut seed = 3;
    for _ in 0..500 {
        let whole = next(&mut seed) >> (next(&mut seed) % 64);
        let fraction = next(&mut seed);
        check(&format!("{whole}.{fraction}"));
    }
    let tiny = format!("0.{}1", "0".repeat(400));
    assert_eq!(parse_size(&tiny).unwrap(), 0);
    let huge = "9".repeat(400);
    assert_eq!(parse_size(&huge).unwrap(), u64::MAX);
}

#[test]
fn whole_sizes_are_exact() {
    for n in [0u64, 1, 7, 999, 123_456_789, 9_007_199_254_740_991] {
        assert_eq!(parse_size(&n.to_string()).unwrap(), n);
    }
    assert_eq!(parse_size("9007T").unwrap(), 9_007_000_000_000_000);
    assert_eq!(parse_size("0g").unwrap(), 0);
}
