use crabaccess::counters::{Counter, CounterMap};
use crabaccess::domain::{Aggregates, DateGranularity, Dimension, GroupingRules};
use crabaccess::parser::{
    absorb_lines, build_line_regex, flush_chunk, merge_all, parse_chunk, parse_line,
    parse_log_bytes, parse_mapped_line, record_from_captures, split_log_lines, ChunkError,
    FileError,
};

#[test]
fn parses_standard_nginx_line() {
    let regex = build_line_regex().expect("regex should compile");
    let line = "127.0.0.1 - - [13/Mar/2026:09:22:11 +0000] \"GET /api/v1/users?id=1 HTTP/1.1\" 200 532 \"-\" \"curl/8.5\"";
    let rec = parse_line(line, &regex).expect("line should parse");
    assert_eq!(rec.ip, "127.0.0.1");
    assert_eq!(rec.path, "/api/v1/users?id=1");
    assert_eq!(rec.user_agent, "curl/8.5");
    assert_eq!(rec.traffic_bytes, 532);
}

#[test]
fn parse_line_keeps_status_time_and_rejects_other_formats() {
    let regex = build_line_regex().expect("regex should compile");
    let line = "10.1.2.3 - bob [01/Jan/2025:00:00:01 +0100] \"POST /submit HTTP/2\" 404 - \"https://r\" \"Mozilla/5.0 (X11)\"";
    let rec = parse_line(line, &regex).expect("line should parse");
    assert_eq!(rec.status_code, "404");
    assert_eq!(rec.traffic_bytes, 0);
    assert_eq!(rec.timestamp_str.as_deref(), Some("01/Jan/2025:00:00:01 +0100"));
    assert_eq!(rec.user_agent, "Mozilla/5.0 (X11)");
    assert!(parse_line("garbage", &regex).is_none());
    let short_request = "1.1.1.1 - - [01/Jan/2025:00:00:01 +0100] \"-\" 400 0 \"-\" \"-\"";
    assert_eq!(parse_line(short_request, &regex).expect("line should parse").path, "-");
}

#[test]
fn record_from_groups_defaults_missing_groups() {
    let groups = vec![
        Some("whole".to_owned()),
        Some("1.2.3.4".to_owned()),
        None,
        Some("GET  /x   HTTP/1.0".to_owned()),
        None,
        Some("+77".to_owned()),
    ];
    let rec = record_from_captures(&groups).expect("record");
    assert_eq!(rec.path, "/x");
    assert_eq!(rec.status_code, "-");
    assert_eq!(rec.user_agent, "-");
    assert_eq!(rec.traffic_bytes, 77);
    assert!(rec.timestamp_str.is_none());
    let missing_request = vec![Some("w".to_owned()), Some("ip".to_owned())];
    assert!(record_from_captures(&missing_request).is_none());
    let too_big = vec![
        Some("w".to_owned()),
        Some("ip".to_owned()),
        None,
        Some("GET /".to_owned()),
        None,
        Some("18446744073709551616".to_owned()),
    ];
    assert_eq!(record_from_captures(&too_big).expect("record").traffic_bytes, 0);
}

fn rules() -> GroupingRules {
    GroupingRules::passthrough().expect("passthrough rules should compile")
}

#[test]
fn parse_file_handles_crlf_and_trailing_newline_without_extra_error() {
    let regex = build_line_regex().expect("regex should compile");
    let rules = rules();
    let bytes: &[u8] = b"127.0.0.1 - - [13/Mar/2026:09:22:11 +0000] \"GET /ok HTTP/1.1\" 200 10 \"-\" \"curl/8.5\"\r\n127.0.0.2 - - [13/Mar/2026:09:22:12 +0000] \"GET /next HTTP/1.1\" 404 20 \"-\" \"curl/8.5\"\r\n";
    let aggregates = parse_log_bytes(bytes, &regex, &rules).expect("mapped file should parse");
    assert_eq!(aggregates.total_visits, 2);
    assert_eq!(aggregates.parse_errors, 0);
}

#[test]
fn absorbing_a_chunk_reports_where_the_next_one_starts() {
    let regex = build_line_regex().expect("regex should compile");
    let bytes: &[u8] = b"127.0.0.1 - - [13/Mar/2026:09:22:11 +0000] \"GET /ok HTTP/1.1\" 200 10 \"-\" \"curl/8.5\"\r\n127.0.0.2 - - [13/Mar/2026:09:22:12 +0000] \"GET /next HTTP/1.1\" 404 20 \"-\" \"curl/8.5\"\r\n";
    let lines = split_log_lines(bytes).expect("lines should decode");
    assert_eq!(lines.len(), 2);
    let mut aggregates = Aggregates::default();
    let next = absorb_lines(&lines, 0, &mut aggregates, &regex, &rules()).expect("chunk should parse");
    assert_eq!(next, 2);
    assert_eq!(aggregates.total_visits, 2);
    assert_eq!(aggregates.total_traffic_bytes, 30);
    assert_eq!(absorb_lines(&lines, 2, &mut aggregates, &regex, &rules()).expect("empty chunk"), 2);
    assert_eq!(aggregates.total_visits, 2);
}

#[test]
fn split_lines_keeps_last_unterminated_line_and_strips_one_carriage_return() {
    let lines = split_log_lines(b"a\r\r\nb\n\nc").expect("valid text");
    assert_eq!(lines, vec!["a\r", "b", "", "c"]);
    assert!(split_log_lines(b"").expect("empty").is_empty());
    assert!(split_log_lines(b"ok\n\xff\xfe\n").is_err());
    assert_eq!(parse_mapped_line(b"x\r").expect("valid"), "x");
    assert!(parse_mapped_line(b"\xc3").is_err());
}

#[test]
fn parse_chunk_counts_records_and_errors() {
    let regex = build_line_regex().expect("regex should compile");
    let lines = vec![
        "127.0.0.1 - - [13/Mar/2026:09:22:11 +0000] \"GET /a HTTP/1.1\" 200 10 \"-\" \"curl/8.5\"",
        "not a log line",
        "127.0.0.1 - - [14/Mar/2026:10:00:00 +0000] \"GET /a HTTP/1.1\" 200 5 \"-\" \"curl/8.5\"",
    ];
    let aggregates = parse_chunk(&lines, &regex, &rules()).expect("chunk");
    assert_eq!(aggregates.total_visits, 2);
    assert_eq!(aggregates.parse_errors, 1);
    assert_eq!(aggregates.date_series(DateGranularity::Day).len(), 2);
    let a = aggregates.selected_map(Dimension::Path).get("/a").expect("path");
    assert_eq!((a.visits, a.traffic_bytes), (2, 15));
}

#[test]
fn parse_chunk_reports_traffic_overflow() {
    let regex = build_line_regex().expect("regex should compile");
    let lines = vec![
        "1.1.1.1 - - [13/Mar/2026:09:22:11 +0000] \"GET /a HTTP/1.1\" 200 18446744073709551615 \"-\" \"c\"",
        "1.1.1.1 - - [13/Mar/2026:09:22:11 +0000] \"GET /a HTTP/1.1\" 200 1 \"-\" \"c\"",
    ];
    assert_eq!(parse_chunk(&lines, &regex, &rules()).err(), Some(ChunkError::CounterOverflow));
}

#[test]
fn flush_chunk_merges_and_empties_the_chunk() {
    let regex = build_line_regex().expect("regex should compile");
    let mut chunk = vec!["bad line", "1.1.1.1 - - [13/Mar/2026:09:22:11 +0000] \"GET /a HTTP/1.1\" 200 3 \"-\" \"c\""];
    let mut aggregates = Aggregates::default();
    aggregates.parse_errors = 4;
    let n = flush_chunk(&mut chunk, &mut aggregates, &regex, &rules()).expect("flush");
    assert_eq!(n, 2);
    assert!(chunk.is_empty());
    assert_eq!(aggregates.parse_errors, 5);
    assert_eq!(aggregates.total_visits, 1);
    assert_eq!(flush_chunk(&mut chunk, &mut aggregates, &regex, &rules()).expect("empty flush"), 0);
}

#[test]
fn chunked_parsing_matches_parsing_at_once() {
    let regex = build_line_regex().expect("regex should compile");
    let owned: Vec<String> = (0..45_000u32)
        .map(|i| {
            if i % 7 == 0 {
                format!("broken {i}")
            } else {
                format!("10.0.{}.{} - - [13/Mar/2026:09:22:11 +0000] \"GET /p{} HTTP/1.1\" 200 {} \"-\" \"ua\"", i % 3, i % 5, i % 11, i)
            }
        })
        .collect();
    let lines: Vec<&str> = owned.iter().map(|s| s.as_str()).collect();
    let mut chunked = Aggregates::default();
    let mut start = 0;
    while start < lines.len() {
        start = absorb_lines(&lines, start, &mut chunked, &regex, &rules()).expect("chunk");
    }
    let whole = parse_chunk(&lines, &regex, &rules()).expect("whole");
    assert_eq!(chunked.total_visits, whole.total_visits);
    assert_eq!(chunked.total_traffic_bytes, whole.total_traffic_bytes);
    assert_eq!(chunked.parse_errors, whole.parse_errors);
    let a: Vec<(String, u64, u64)> = chunked.selected_map(Dimension::Path).entries().iter().map(|e| (e.0.clone(), e.1.visits, e.1.traffic_bytes)).collect();
    let b: Vec<(String, u64, u64)> = whole.selected_map(Dimension::Path).entries().iter().map(|e| (e.0.clone(), e.1.visits, e.1.traffic_bytes)).collect();
    assert_eq!(a, b);
}

fn sum_of(aggregates: &Aggregates, dimension: Dimension) -> (u64, u64) {
    aggregates
        .selected_map(dimension)
        .entries()
        .iter()
        .fold((0, 0), |(v, t), e| (v + e.1.visits, t + e.1.traffic_bytes))
}

#[test]
fn parse_log_bytes_counts_every_line_of_a_file() {
    let regex = build_line_regex().expect("regex should compile");
    let bytes: &[u8] = b"127.0.0.1 - - [13/Mar/2026:09:22:11 +0000] \"GET /ok HTTP/1.1\" 200 10 \"-\" \"curl/8.5\"\r\nnoise\n127.0.0.2 - - [13/Mar/2026:10:22:12 +0000] \"GET /ok HTTP/1.1\" 404 20 \"-\" \"curl/8.5\"";
    let aggregates = parse_log_bytes(bytes, &regex, &rules()).expect("file should parse");
    assert_eq!(aggregates.total_visits, 2);
    assert_eq!(aggregates.total_traffic_bytes, 30);
    assert_eq!(aggregates.parse_errors, 1);
    assert_eq!(aggregates.date_series(DateGranularity::Hour).len(), 2);
    for dimension in [Dimension::Ip, Dimension::Path, Dimension::UserAgent, Dimension::StatusCode] {
        assert_eq!(sum_of(&aggregates, dimension), (2, 30));
    }
    let empty = parse_log_bytes(b"", &regex, &rules()).expect("empty file");
    assert_eq!((empty.total_visits, empty.parse_errors), (0, 0));
    assert_eq!(parse_log_bytes(b"ok\n\xff\n", &regex, &rules()).err(), Some(FileError::InvalidUtf8));
    let huge = b"1.1.1.1 - - [13/Mar/2026:09:22:11 +0000] \"GET /a HTTP/1.1\" 200 18446744073709551615 \"-\" \"c\"\n1.1.1.1 - - [13/Mar/2026:09:22:11 +0000] \"GET /a HTTP/1.1\" 200 1 \"-\" \"c\"\n";
    assert_eq!(parse_log_bytes(huge, &regex, &rules()).err(), Some(FileError::CounterOverflow));
}

#[test]
fn merge_all_adds_the_files_in_order() {
    let regex = build_line_regex().expect("regex should compile");
    let a = parse_log_bytes(b"1.1.1.1 - - [13/Mar/2026:09:22:11 +0000] \"GET /a HTTP/1.1\" 200 3 \"-\" \"c\"\n", &regex, &rules()).expect("a");
    let b = parse_log_bytes(b"bad\n1.1.1.1 - - [14/Mar/2026:09:22:11 +0000] \"GET /b HTTP/1.1\" 200 4 \"-\" \"c\"\n", &regex, &rules()).expect("b");
    let merged = merge_all(vec![a, b]).expect("merge");
    assert_eq!((merged.total_visits, merged.total_traffic_bytes, merged.parse_errors), (2, 7, 1));
    let ip = merged.selected_map(Dimension::Ip).get("1.1.1.1").expect("ip");
    assert_eq!((ip.visits, ip.traffic_bytes), (2, 7));
    assert_eq!(merged.date_series(DateGranularity::Day).len(), 2);
    let nothing = merge_all(Vec::new()).expect("empty merge");
    assert_eq!(nothing.total_visits, 0);
    let big = parse_log_bytes(b"1.1.1.1 - - [13/Mar/2026:09:22:11 +0000] \"GET /a HTTP/1.1\" 200 18446744073709551615 \"-\" \"c\"\n", &regex, &rules()).expect("big");
    let one = parse_log_bytes(b"1.1.1.1 - - [13/Mar/2026:09:22:11 +0000] \"GET /a HTTP/1.1\" 200 1 \"-\" \"c\"\n", &regex, &rules()).expect("one");
    assert_eq!(merge_all(vec![big, one]).err(), Some(ChunkError::CounterOverflow));
}

#[test]
fn merging_refuses_a_counter_that_would_overflow_even_when_totals_fit() {
    let with_ip = |visits: u64| {
        let mut ip = CounterMap::new();
        ip.insert("x".to_owned(), Counter { visits, traffic_bytes: 0 });
        Aggregates::from_parts(1, 0, 0, ip, CounterMap::new(), CounterMap::new(), CounterMap::new(), CounterMap::new(), CounterMap::new(), CounterMap::new())
    };
    let big = with_ip(u64::MAX);
    let one = with_ip(1);
    assert!(!big.can_merge(&one));
    assert!(one.can_merge(&with_ip(5)));
    assert_eq!(merge_all(vec![big, one]).err(), Some(ChunkError::CounterOverflow));
    let mut a = with_ip(2);
    a.merge(with_ip(3));
    assert_eq!(a.total_visits, 2);
    assert_eq!(a.selected_map(Dimension::Ip).get("x").expect("x").visits, 5);
}
