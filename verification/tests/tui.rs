use crabaccess::cli::SortBy;
use crabaccess::counters::{Counter, CounterMap};
use crabaccess::domain::{Aggregates, DateGranularity, Dimension};
use crabaccess::tui::dimension::truncate_label;
use crabaccess::tui::{App, AppTab, KeyInput};

fn app_with_paths(paths: &[(&str, u64, u64)], top: usize) -> App {
    let mut path = CounterMap::new();
    let mut visits = 0;
    let mut bytes = 0;
    for (key, v, b) in paths {
        path.insert((*key).to_owned(), Counter { visits: *v, traffic_bytes: *b });
        visits += v;
        bytes += b;
    }
    let aggregates = Aggregates::from_parts(
        visits,
        bytes,
        0,
        CounterMap::new(),
        path,
        CounterMap::new(),
        CounterMap::new(),
        CounterMap::new(),
        CounterMap::new(),
        CounterMap::new(),
    );
    App {
        aggregates,
        files_count: 1,
        tab: AppTab::Dimension(Dimension::Path),
        sort_by: SortBy::Visits,
        top,
        graph_items: 0,
        scroll: 0,
        trend_granularity: DateGranularity::default(),
    }
}

#[test]
fn tabs_cycle_through_dimensions_and_trend() {
    let mut tab = AppTab::Dimension(Dimension::Ip);
    let mut seen = Vec::new();
    for _ in 0..5 {
        seen.push(tab.selected_index());
        tab = tab.next();
    }
    assert_eq!(seen, vec![0, 1, 2, 3, 4]);
    assert_eq!(tab, AppTab::Dimension(Dimension::Ip));
    assert_eq!(AppTab::Dimension(Dimension::Ip).previous(), AppTab::Trend);
    assert_eq!(AppTab::Trend.next().previous(), AppTab::Trend);
    assert_eq!(AppTab::Dimension(Dimension::StatusCode).next(), AppTab::Trend);
}

#[test]
fn keys_move_tabs_sort_granularity_and_scroll() {
    let mut app = app_with_paths(&[("/a", 1, 1)], 30);
    assert!(!app.handle_key(KeyInput::Down));
    assert!(!app.handle_key(KeyInput::Char('j')));
    assert_eq!(app.scroll, 2);
    assert!(!app.handle_key(KeyInput::Up));
    assert_eq!(app.scroll, 1);
    assert!(!app.handle_key(KeyInput::Tab));
    assert_eq!(app.tab, AppTab::Dimension(Dimension::UserAgent));
    assert_eq!(app.scroll, 0);
    assert!(!app.handle_key(KeyInput::Char('k')));
    assert_eq!(app.scroll, 0);
    assert!(!app.handle_key(KeyInput::Left));
    assert!(!app.handle_key(KeyInput::Left));
    assert_eq!(app.tab, AppTab::Dimension(Dimension::Ip));
    assert!(!app.handle_key(KeyInput::Char('s')));
    assert_eq!(app.sort_by, SortBy::Traffic);
    assert!(!app.handle_key(KeyInput::Char('g')));
    assert_eq!(app.trend_granularity, DateGranularity::Month);
    assert!(!app.handle_key(KeyInput::Char('g')));
    assert_eq!(app.trend_granularity, DateGranularity::Hour);
    app.scroll = 9;
    assert!(!app.handle_key(KeyInput::Home));
    assert_eq!(app.scroll, 0);
    app.scroll = usize::MAX;
    assert!(!app.handle_key(KeyInput::Down));
    assert_eq!(app.scroll, usize::MAX);
    assert!(!app.handle_key(KeyInput::Other));
    assert!(!app.handle_key(KeyInput::Char('x')));
    assert!(app.handle_key(KeyInput::Char('q')));
    assert!(app.handle_key(KeyInput::Esc));
}

#[test]
fn rows_are_sorted_and_cut_to_top() {
    let mut app = app_with_paths(&[("/a", 2, 900), ("/b", 5, 10), ("/c", 5, 20), ("/d", 1, 1)], 3);
    let keys: Vec<String> = app.rows().into_iter().map(|r| r.key).collect();
    assert_eq!(keys, vec!["/b", "/c", "/a"]);
    app.sort_by = SortBy::Traffic;
    let rows = app.rows();
    assert_eq!(rows.len(), 3);
    assert_eq!((rows[0].key.as_str(), rows[0].visits, rows[0].traffic_bytes), ("/a", 2, 900));
    assert_eq!(rows[1].key, "/c");
    app.tab = AppTab::Dimension(Dimension::Ip);
    assert!(app.rows().is_empty());
    app.tab = AppTab::Trend;
    assert!(app.rows().is_empty());
    app.top = 0;
    app.tab = AppTab::Dimension(Dimension::Path);
    assert!(app.rows().is_empty());
}

#[test]
fn scroll_is_clamped_to_the_last_page() {
    let mut app = app_with_paths(&[], 30);
    app.scroll = 50;
    app.clamp_scroll(20, 8);
    assert_eq!(app.scroll, 12);
    app.clamp_scroll(20, 8);
    assert_eq!(app.scroll, 12);
    app.clamp_scroll(5, 8);
    assert_eq!(app.scroll, 0);
    app.scroll = 3;
    app.clamp_scroll(100, 10);
    assert_eq!(app.scroll, 3);
}

#[test]
fn labels_are_cut_with_a_tilde() {
    assert_eq!(truncate_label("short", 14), "short");
    assert_eq!(truncate_label("exactly-14-chr", 14), "exactly-14-chr");
    assert_eq!(truncate_label("/a/rather/long/path", 14), "/a/rather/lon~");
    assert_eq!(truncate_label("héllo wörld", 5), "héll~");
    assert_eq!(truncate_label("abc", 0), "~");
    assert_eq!(truncate_label("", 0), "");
}

#[test]
fn readme_keys_switch_tabs_sort_and_granularity() {
    let mut app = app_with_paths(&[("/a", 1, 1)], 30);
    app.scroll = 4;
    assert!(!app.handle_key(KeyInput::BackTab));
    assert_eq!(app.tab, AppTab::Dimension(Dimension::Ip));
    assert_eq!(app.scroll, 0);
    assert!(!app.handle_key(KeyInput::BackTab));
    assert_eq!(app.tab, AppTab::Trend);
    assert!(!app.handle_key(KeyInput::Char('t')));
    assert_eq!(app.sort_by, SortBy::Traffic);
    assert!(!app.handle_key(KeyInput::Char('t')));
    assert_eq!(app.sort_by, SortBy::Visits);
    assert_eq!(app.trend_granularity, DateGranularity::Day);
    assert!(!app.handle_key(KeyInput::Char('h')));
    assert_eq!(app.trend_granularity, DateGranularity::Hour);
    assert!(!app.handle_key(KeyInput::Char('m')));
    assert_eq!(app.trend_granularity, DateGranularity::Month);
    assert!(!app.handle_key(KeyInput::Char('m')));
    assert_eq!(app.trend_granularity, DateGranularity::Month);
    assert!(!app.handle_key(KeyInput::Char('d')));
    assert_eq!(app.trend_granularity, DateGranularity::Day);
    assert_eq!(app.tab, AppTab::Trend);
}
