use crabaccess::cli::SortBy;
use crabaccess::counters::{merge_map, Counter, CounterMap};
use crabaccess::domain::{
    parse_timestamp, Aggregates, DateGranularity, Dimension, GroupRule, GroupingRules,
    ParsedRecord,
};
use crabaccess::pattern::Pattern;
use crabaccess::ranking::{compare_row_values, compare_rows, top_rows_for_dimension, MetricRow};
use std::cmp::Ordering;

fn counter(visits: u64, traffic_bytes: u64) -> Counter {
    Counter { visits, traffic_bytes }
}

fn aggregates_with_ip(total_visits: u64, total_traffic_bytes: u64, ip: CounterMap) -> Aggregates {
    Aggregates::from_parts(
        total_visits,
        total_traffic_bytes,
        0,
        ip,
        CounterMap::new(),
        CounterMap::new(),
        CounterMap::new(),
        CounterMap::new(),
        CounterMap::new(),
        CounterMap::new(),
    )
}

#[test]
fn regex_grouping_can_extract_first_path_segment() {
    let rule = GroupRule::from_parts(
        Pattern::new(r"^(/[^/?]+).*$").expect("rule regex should compile"),
        "$1".to_owned(),
    );
    let grouped = rule.apply("/products/list?page=2");
    assert_eq!(grouped, "/products");
}

#[test]
fn top_rows_for_dimension_returns_best_rows_without_full_sort() {
    let mut ip = CounterMap::new();
    ip.insert("a".to_owned(), counter(10, 100));
    ip.insert("b".to_owned(), counter(5, 300));
    ip.insert("c".to_owned(), counter(8, 50));
    ip.insert("d".to_owned(), counter(7, 200));
    let aggregates = aggregates_with_ip(30, 600, ip);

    let by_visits = top_rows_for_dimension(&aggregates, Dimension::Ip, SortBy::Visits, 2);
    assert_eq!(by_visits.len(), 2);
    assert_eq!(by_visits[0].key, "a");
    assert_eq!(by_visits[1].key, "c");

    let by_traffic = top_rows_for_dimension(&aggregates, Dimension::Ip, SortBy::Traffic, 2);
    assert_eq!(by_traffic.len(), 2);
    assert_eq!(by_traffic[0].key, "b");
    assert_eq!(by_traffic[1].key, "d");
}

#[test]
fn top_rows_breaks_ties_by_visits_then_key() {
    let mut ip = CounterMap::new();
    ip.insert("z".to_owned(), counter(3, 100));
    ip.insert("y".to_owned(), counter(5, 100));
    ip.insert("x".to_owned(), counter(5, 100));
    ip.insert("w".to_owned(), counter(1, 10));
    let aggregates = aggregates_with_ip(14, 310, ip);
    let rows = top_rows_for_dimension(&aggregates, Dimension::Ip, SortBy::Traffic, 10);
    let keys: Vec<&str> = rows.iter().map(|r| r.key.as_str()).collect();
    assert_eq!(keys, vec!["x", "y", "z", "w"]);
    assert!(top_rows_for_dimension(&aggregates, Dimension::Ip, SortBy::Traffic, 0).is_empty());
    assert!(top_rows_for_dimension(&aggregates, Dimension::Path, SortBy::Traffic, 5).is_empty());
}

#[test]
fn compare_rows_orders_by_sort_key_then_visits_then_key() {
    let a = MetricRow { key: "a".to_owned(), visits: 2, traffic_bytes: 10 };
    let b = MetricRow { key: "b".to_owned(), visits: 3, traffic_bytes: 5 };
    assert_eq!(compare_rows(&a, &b, SortBy::Visits), Ordering::Greater);
    assert_eq!(compare_rows(&a, &b, SortBy::Traffic), Ordering::Less);
    assert_eq!(compare_row_values("a", 1, 1, "b", 1, 1, SortBy::Visits), Ordering::Less);
    assert_eq!(compare_row_values("b", 1, 1, "a", 1, 1, SortBy::Visits), Ordering::Greater);
    assert_eq!(compare_row_values("a", 1, 7, "a", 1, 1, SortBy::Visits), Ordering::Equal);
}

#[test]
fn dimensions_cycle_both_ways() {
    let all = [Dimension::Ip, Dimension::Path, Dimension::UserAgent, Dimension::StatusCode];
    for d in all {
        assert_eq!(d.next().previous(), d);
        assert_eq!(d.next().next().next().next(), d);
    }
    assert_eq!(Dimension::StatusCode.next(), Dimension::Ip);
    assert_eq!(Dimension::Ip.previous(), Dimension::StatusCode);
    assert_eq!(Dimension::UserAgent.title(), "User-Agent");
    assert_eq!(Dimension::StatusCode.title(), "Status");
}

#[test]
fn granularity_cycles_and_defaults_to_day() {
    assert_eq!(DateGranularity::default(), DateGranularity::Day);
    assert_eq!(DateGranularity::Day.next(), DateGranularity::Month);
    assert_eq!(DateGranularity::Month.next(), DateGranularity::Hour);
    assert_eq!(DateGranularity::Hour.label(), "Hour");
}

#[test]
fn timestamp_gives_day_hour_and_month_keys() {
    let (day, hour, month) = parse_timestamp("13/Mar/2026:09:22:11 +0000").expect("time should parse");
    assert_eq!(day, "2026-03-13");
    assert_eq!(hour, "2026-03-13 09:00");
    assert_eq!(month, "2026-03");
    let (day, _, month) = parse_timestamp("01/Dec/1999:23:59:59 -0500").expect("time should parse");
    assert_eq!(day, "1999-12-01");
    assert_eq!(month, "1999-12");
}

#[test]
fn timestamp_rejects_short_texts_and_unknown_months() {
    assert!(parse_timestamp("13/Mar/2026:0").is_none());
    assert!(parse_timestamp("13/Foo/2026:09:22:11 +0000").is_none());
    assert!(parse_timestamp("13/mar/2026:09:22:11 +0000").is_none());
    // a cut inside a two-byte character
    assert!(parse_timestamp("1é/Mar/2026:09:22:11").is_none());
}

fn record(ip: &str, path: &str, status: &str, bytes: u64, time: Option<&str>) -> ParsedRecord {
    ParsedRecord {
        ip: ip.to_owned(),
        path: path.to_owned(),
        user_agent: "curl/8.5".to_owned(),
        status_code: status.to_owned(),
        traffic_bytes: bytes,
        timestamp_str: time.map(|t| t.to_owned()),
    }
}

#[test]
fn record_counts_every_dimension_and_trend() {
    let rules = GroupingRules::passthrough().expect("passthrough rules should compile");
    let mut aggregates = Aggregates::default();
    aggregates.record(record("127.0.0.1", "/api", "200", 1000, Some("13/Mar/2026:09:22:11 +0000")), &rules);
    aggregates.record(record("127.0.0.1", "/api", "200", 234, Some("13/Mar/2026:09:30:00 +0000")), &rules);
    aggregates.record(record("10.0.0.2", "/", "404", 6, Some("not a time")), &rules);
    assert_eq!(aggregates.total_visits, 3);
    assert_eq!(aggregates.total_traffic_bytes, 1240);
    let ip = aggregates.selected_map(Dimension::Ip).get("127.0.0.1").expect("ip row should exist");
    assert_eq!((ip.visits, ip.traffic_bytes), (2, 1234));
    let status = aggregates.selected_map(Dimension::StatusCode).get("404").expect("status row");
    assert_eq!((status.visits, status.traffic_bytes), (1, 6));
    let series = aggregates.date_series(DateGranularity::Day);
    assert_eq!(series.len(), 1);
    assert_eq!(series[0].0, "2026-03-13");
    assert_eq!(series[0].1.visits, 2);
    let hours = aggregates.date_series(DateGranularity::Hour);
    assert_eq!(hours[0].0, "2026-03-13 09:00");
}

#[test]
fn record_groups_keys_with_rules() {
    let mut aggregates = Aggregates::default();
    let ip_rule = GroupRule::from_parts(
        Pattern::new(r"^(\d+\.\d+\.\d+)\.\d+$").expect("ip regex should compile"),
        "$1.0/24".to_owned(),
    );
    let passthrough = GroupingRules::passthrough().expect("passthrough rules should compile");
    let rules = GroupingRules { ip: ip_rule, path: passthrough.path.clone(), user_agent: passthrough.user_agent.clone() };
    aggregates.record(record("192.168.1.7", "/a", "200", 1, None), &rules);
    aggregates.record(record("192.168.1.9", "/b", "200", 2, None), &rules);
    let group = aggregates.selected_map(Dimension::Ip).get("192.168.1.0/24").expect("grouped ip");
    assert_eq!((group.visits, group.traffic_bytes), (2, 3));
    assert_eq!(aggregates.selected_map(Dimension::Path).len(), 2);
    assert!(aggregates.date_series(DateGranularity::Month).is_empty());
}

#[test]
fn grouping_rules_report_the_first_invalid_pattern() {
    let mut args = crabaccess::cli::Args {
        files: Vec::new(),
        load_db: None,
        save_db: None,
        export_csv: None,
        top: 30,
        graph_items: 0,
        sort_by: SortBy::Visits,
        group_ip_regex: "^(.*)$".to_owned(),
        group_ip_replace: "$1".to_owned(),
        group_path_regex: "(".to_owned(),
        group_path_replace: "$1".to_owned(),
        group_ua_regex: "(".to_owned(),
        group_ua_replace: "$1".to_owned(),
    };
    assert_eq!(
        GroupingRules::from_args(&args).err(),
        Some(crabaccess::domain::RulesError::InvalidPathRegex)
    );
    args.group_path_regex = "^(.*)$".to_owned();
    assert_eq!(
        GroupingRules::from_args(&args).err(),
        Some(crabaccess::domain::RulesError::InvalidUserAgentRegex)
    );
    args.group_ua_regex = "^(.*)$".to_owned();
    let rules = GroupingRules::from_args(&args).expect("rules should compile");
    assert_eq!(rules.ip.apply("1.2.3.4"), "1.2.3.4");
}

#[test]
fn merge_adds_totals_and_counters_key_by_key() {
    let rules = GroupingRules::passthrough().expect("passthrough rules should compile");
    let mut a = Aggregates::default();
    a.record(record("1.1.1.1", "/", "200", 10, None), &rules);
    a.parse_errors = 2;
    let mut b = Aggregates::default();
    b.record(record("1.1.1.1", "/x", "500", 5, Some("13/Mar/2026:09:22:11 +0000")), &rules);
    b.record(record("2.2.2.2", "/x", "500", 7, None), &rules);
    b.parse_errors = 1;
    a.merge(b);
    assert_eq!(a.total_visits, 3);
    assert_eq!(a.total_traffic_bytes, 22);
    assert_eq!(a.parse_errors, 3);
    let one = a.selected_map(Dimension::Ip).get("1.1.1.1").expect("merged ip");
    assert_eq!((one.visits, one.traffic_bytes), (2, 15));
    let x = a.selected_map(Dimension::Path).get("/x").expect("merged path");
    assert_eq!((x.visits, x.traffic_bytes), (2, 12));
    assert_eq!(a.date_series(DateGranularity::Day).len(), 1);
}

#[test]
fn merging_maps_sums_shared_keys() {
    let mut target = CounterMap::new();
    target.insert("a".to_owned(), counter(1, 2));
    target.insert("b".to_owned(), counter(3, 4));
    let mut source = CounterMap::new();
    source.insert("b".to_owned(), counter(10, 20));
    source.insert("c".to_owned(), counter(5, 6));
    merge_map(&mut target, source);
    let keys: Vec<&str> = target.entries().iter().map(|e| e.0.as_str()).collect();
    assert_eq!(keys, vec!["a", "b", "c"]);
    let b = target.get("b").expect("b");
    assert_eq!((b.visits, b.traffic_bytes), (13, 24));
}

#[test]
fn counter_hits_and_merges() {
    let mut c = Counter::default();
    c.add_hit(100);
    c.add_hit(5);
    assert_eq!((c.visits, c.traffic_bytes), (2, 105));
    c.merge(counter(3, 1));
    assert_eq!((c.visits, c.traffic_bytes), (5, 106));
}

#[test]
fn counter_map_keeps_keys_in_text_order_and_rebuilds_from_entries() {
    let mut m = CounterMap::new();
    m.add_hit("b".to_owned(), 1);
    m.add_hit("a".to_owned(), 2);
    m.add_hit("b".to_owned(), 3);
    m.merge_counter("ab".to_owned(), counter(2, 2));
    let entries: Vec<(String, Counter)> = m.entries().clone();
    let keys: Vec<&str> = entries.iter().map(|e| e.0.as_str()).collect();
    assert_eq!(keys, vec!["a", "ab", "b"]);
    let rebuilt = CounterMap::from_entries(entries);
    assert_eq!(rebuilt.len(), 3);
    let b = rebuilt.get("b").expect("b");
    assert_eq!((b.visits, b.traffic_bytes), (2, 4));
    let later = CounterMap::from_entries(vec![("k".to_owned(), counter(1, 1)), ("k".to_owned(), counter(9, 9))]);
    assert_eq!(later.get("k").expect("k").visits, 9);
    assert!(later.get("missing").is_none());
}

#[test]
fn top_rows_are_the_first_rows_of_the_full_sort() {
    let mut ip = CounterMap::new();
    for (key, v, t) in [("e", 4, 9), ("a", 4, 9), ("c", 7, 1), ("b", 1, 50), ("d", 7, 3)] {
        ip.insert(key.to_owned(), counter(v, t));
    }
    let aggregates = aggregates_with_ip(23, 72, ip);
    for sort_by in [SortBy::Visits, SortBy::Traffic] {
        let all: Vec<String> = crabaccess::ranking::all_rows_sorted(aggregates.selected_map(Dimension::Ip), sort_by, 5)
            .into_iter()
            .map(|r| r.key)
            .collect();
        for top in 0..=6 {
            let picked: Vec<String> = top_rows_for_dimension(&aggregates, Dimension::Ip, sort_by, top)
                .into_iter()
                .map(|r| r.key)
                .collect();
            assert_eq!(picked, all[..top.min(5)].to_vec());
        }
    }
}
