use dupfinder::fmt::{column_width, ilog10, ilog2, Size, Time};
use dupfinder::fs::{FileHash, PARTIAL_HASH_SIZE};
use dupfinder::sample::windows;
use dupfinder::term::{
    bar_layout, enable, BarGlyphs, BarLayout, Progress, ProgressBar, BAR_TICK, BAR_WIDTH, TICK,
};

#[test]
fn integer_logarithms() {
    assert_eq!((ilog2(1), ilog2(2), ilog2(1023), ilog2(1024), ilog2(u64::MAX)), (0, 1, 9, 10, 63));
    assert_eq!((ilog10(1), ilog10(9), ilog10(999), ilog10(1000), ilog10(u64::MAX)), (0, 0, 2, 3, 19));
}

fn size(n: u64) -> (usize, &'static str, u64) {
    let s = Size(n);
    (s.unit_index(), s.unit(), s.divisor())
}

fn time(n: u64) -> (usize, &'static str, u64) {
    let t = Time(n);
    (t.unit_index(), t.unit(), t.divisor())
}

#[test]
fn size_units() {
    assert_eq!(size(0), (0, "", 1));
    assert_eq!(size(1023), (0, "", 1));
    assert_eq!(size(1024), (1, "Ki", 1024));
    assert_eq!(size(5 << 20), (2, "Mi", 1 << 20));
    assert_eq!(size(3 << 30), (3, "Gi", 1 << 30));
    assert_eq!(size(1 << 40), (4, "Ti", 1 << 40));
    assert_eq!(size(1 << 50), (5, "Pi", 1 << 50));
    assert_eq!(size(u64::MAX), (6, "Ei", 1 << 60));
}

#[test]
fn sizes_are_shown_between_one_and_1024_of_their_unit() {
    for n in [1u64, 1000, 1024, 5000, 1 << 20, (1 << 30) - 1, 123_456_789_012] {
        let d = Size(n).divisor();
        assert!(d <= n && n < 1024 * d, "{n}");
    }
}

#[test]
fn time_units() {
    assert_eq!(time(0), (0, "n", 1));
    assert_eq!(time(999), (0, "n", 1));
    assert_eq!(time(1000), (1, "\u{b5}", 1000));
    assert_eq!(time(999_999), (1, "\u{b5}", 1000));
    assert_eq!(time(1_000_000), (2, "m", 1_000_000));
    assert_eq!(time(1_000_000_000), (3, "", 1_000_000_000));
    assert_eq!(time(u64::MAX), (3, "", 1_000_000_000));
}

#[test]
fn times_are_shown_between_one_and_1000_of_their_unit() {
    for n in [1u64, 999, 1000, 45_000, 999_999_999] {
        let d = Time(n).divisor();
        assert!(d <= n && n < 1000 * d, "{n}");
    }
}

#[test]
fn column_widths() {
    assert_eq!(column_width(0), 4);
    assert_eq!(column_width(999), 4);
    assert_eq!(column_width(9999), 4);
    assert_eq!(column_width(10000), 5);
    assert_eq!(column_width(u64::MAX), 20);
}

#[test]
fn status_line_redraws_once_a_tick() {
    assert_eq!(TICK, 20_000_000);
    let mut p = Progress::new(TICK);
    assert!(p.update(1_000));
    assert!(!p.update(1_000 + TICK - 1));
    assert_eq!(p.last, Some(1_000));
    assert!(p.update(1_000 + TICK));
    assert!(!p.update(0));
    assert_eq!(p.last, Some(1_000 + TICK));
}

#[test]
fn bar_redraws_once_a_frame() {
    assert_eq!(BAR_TICK, 16_666_666);
    let mut b = ProgressBar::new(100);
    assert!(b.update(25, 0));
    assert!(!b.update(26, BAR_TICK - 1));
    assert_eq!(b.cur, 26);
    assert!(b.update(30, BAR_TICK));
}

#[test]
fn bar_layouts() {
    let mut b = ProgressBar::new(100);
    b.update(25, 0);
    assert_eq!(
        b.render(BarGlyphs::Eighths),
        BarLayout { filled: 12, rem: 4, empty: 38, glyph: 0x8c, done: false, pct: 25, pad: 3 }
    );
    assert_eq!(
        b.render(BarGlyphs::Shades),
        BarLayout { filled: 12, rem: 2, empty: 38, glyph: 0x92, done: false, pct: 25, pad: 3 }
    );
    let full = bar_layout(7, 0, BarGlyphs::Eighths);
    assert_eq!(full, BarLayout { filled: 50, rem: 0, empty: 0, glyph: 0x90, done: true, pct: 100, pad: 1 });
    let none = bar_layout(0, 0, BarGlyphs::Shades);
    assert_eq!((none.filled, none.empty, none.done, none.pct), (0, BAR_WIDTH, false, 0));
    let over = bar_layout(500, 1000, BarGlyphs::Eighths);
    assert_eq!((over.filled, over.rem, over.pct, over.pad), (25, 0, 50, 4));
}

#[test]
fn ansi_console_mode() {
    assert_eq!(enable(0), 4);
    assert_eq!(enable(3), 7);
    assert_eq!(enable(4), 4);
    assert_eq!(enable(0x1f0), 0x1f4);
}

#[test]
fn hash_windows_and_limits() {
    assert_eq!(PARTIAL_HASH_SIZE, 4096);
    let p = FileHash::Prefix(PARTIAL_HASH_SIZE);
    let s = FileHash::Suffix(PARTIAL_HASH_SIZE);
    assert_eq!(FileHash::Full.window(100), (0, u64::MAX));
    assert_eq!(p.window(100), (0, 4096));
    assert_eq!(s.window(10_000), (5904, u64::MAX));
    assert_eq!(s.window(100), (0, u64::MAX));
    assert_eq!(p.limited(1 << 17), 4096);
    assert_eq!(FileHash::Full.limited(1 << 17), 1 << 17);
    assert_eq!(FileHash::Suffix(10).limited(5), 5);
    assert_eq!(FileHash::Full.bytes_read(10_000), 10_000);
    assert_eq!(p.bytes_read(10_000), 4096);
    assert_eq!(s.bytes_read(100), 100);
    assert_eq!((FileHash::Full.label(), p.label(), s.label()), ("full", "prefix", "suffix"));
}

#[test]
fn sample_windows_spread_evenly() {
    assert_eq!(windows(100, 10, 3), vec![0, 45, 90]);
    assert_eq!(windows(1 << 20, 32, 3), vec![0, 524_272, 1_048_544]);
    assert_eq!(windows(6, 3, 2), vec![0, 3]);
}
