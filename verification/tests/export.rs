use crabaccess::domain::{Aggregates, Dimension, GroupingRules, ParsedRecord};
use crabaccess::export::{export_rows, kind_of_dimension, ExportRow};

fn sample_aggregates() -> Aggregates {
    let rules = GroupingRules::passthrough().expect("passthrough rules should compile");
    let mut aggregates = Aggregates::default();
    for (bytes, time) in [(1000, "13/Mar/2026:09:22:11 +0000"), (234, "13/Mar/2026:09:30:00 +0000")] {
        aggregates.record(
            ParsedRecord {
                ip: "127.0.0.1".to_owned(),
                path: "/api".to_owned(),
                user_agent: "curl/8.5".to_owned(),
                status_code: "200".to_owned(),
                traffic_bytes: bytes,
                timestamp_str: Some(time.to_owned()),
            },
            &rules,
        );
    }
    aggregates.parse_errors = 1;
    aggregates
}

fn line(row: &ExportRow) -> String {
    format!("{},{},{},{}", row.kind, row.bucket, row.visits, row.traffic_bytes)
}

#[test]
fn export_writes_header_dimension_and_trend_rows() {
    let rows: Vec<String> = export_rows(&sample_aggregates()).iter().map(line).collect();
    assert_eq!(
        rows,
        vec![
            "kind,bucket,visits,traffic_bytes",
            "dimension:ip,127.0.0.1,2,1234",
            "dimension:path,/api,2,1234",
            "dimension:user-agent,curl/8.5,2,1234",
            "dimension:status,200,2,1234",
            "trend:hour,2026-03-13 09:00,2,1234",
            "trend:day,2026-03-13,2,1234",
            "trend:month,2026-03,2,1234",
        ]
    );
}

#[test]
fn export_of_nothing_is_the_header() {
    let rows = export_rows(&Aggregates::default());
    assert_eq!(rows.len(), 1);
    assert_eq!(line(&rows[0]), "kind,bucket,visits,traffic_bytes");
}

#[test]
fn export_kinds_are_lower_case_titles() {
    assert_eq!(kind_of_dimension(Dimension::Ip), "dimension:ip");
    assert_eq!(kind_of_dimension(Dimension::UserAgent), "dimension:user-agent");
    assert_eq!(kind_of_dimension(Dimension::StatusCode), "dimension:status");
    assert_eq!(Dimension::UserAgent.title(), "User-Agent");
    assert_eq!(Dimension::Ip.next().previous(), Dimension::Ip);
    assert_eq!(Dimension::StatusCode.next(), Dimension::Ip);
}
