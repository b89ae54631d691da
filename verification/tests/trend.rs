use crabaccess::domain::DateGranularity;
use crabaccess::tui::trend::trend_label;

#[test]
fn trend_label_shortens_hour_keys() {
    assert_eq!(trend_label("2026-03-13 09", DateGranularity::Hour), "03-13 09");
}

#[test]
fn trend_label_shortens_day_keys() {
    assert_eq!(trend_label("2026-03-13", DateGranularity::Day), "03-13");
}

#[test]
fn trend_label_shortens_full_hour_keys() {
    assert_eq!(trend_label("2026-03-13 09:00", DateGranularity::Hour), "03-13 09");
}

#[test]
fn trend_label_keeps_month_keys_and_short_keys() {
    assert_eq!(trend_label("2026-03", DateGranularity::Month), "2026-03");
    assert_eq!(trend_label("2026", DateGranularity::Day), "2026");
    assert_eq!(trend_label("2026-03-1", DateGranularity::Day), "2026-03-1");
}

#[test]
fn trend_label_keeps_key_when_cut_falls_inside_a_character() {
    // "é" takes two bytes, so byte 5 falls inside it.
    assert_eq!(trend_label("2026é3-13", DateGranularity::Day), "2026é3-13");
}
