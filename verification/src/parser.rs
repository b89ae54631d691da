use vstd::prelude::*;
use vstd::string::StringSliceAdditionalSpecFns;
use vstd::utf8::{decode_utf8, valid_utf8};

use crate::domain::{
    bounded, consistent, empty_model, merge_fits, merge_model, record_model, with_parse_error, Aggregates, AggregatesModel, GroupingRules,
    ParsedRecord, RecordModel, RulesModel,
};
use crate::pattern::{regex_accepts, regex_captures, Pattern, PatternError};
use crate::text::{parse_u64, parse_unsigned, second_word, words};

verus! {

broadcast use {vstd::utf8::encode_utf8_valid_utf8, vstd::utf8::encode_utf8_decode_utf8};

/// The nginx combined log format: address, identity, user, `[time]`, `"request"`, a three digit
/// status, the body size, `"referer"` and `"user agent"`.
pub const LINE_PATTERN: &'static str =
    r#"^(\S+)\s+\S+\s+\S+\s+\[([^\]]+)\]\s+\"([^\"]*)\"\s+(\d{3})\s+(\S+)\s+\"[^\"]*\"\s+\"([^\"]*)\""#;

/// Compiles the access log line pattern.
pub fn build_line_regex() -> (r: Result<Pattern, PatternError>)
    ensures
        r is Ok <==> regex_accepts(LINE_PATTERN@),
        r matches Ok(p) ==> p.source_view() == LINE_PATTERN@,
{
    Pattern::new(LINE_PATTERN)
}

/// Capture group `i`, or nothing when the group is missing or did not take part.
pub open spec fn group(g: Seq<Option<Seq<char>>>, i: int) -> Option<Seq<char>> {
    if 0 <= i < g.len() {
        g[i]
    } else {
        None
    }
}

/// The record that a match's groups give: group 1 is the address and group 3 the request, both
/// needed; group 2 is the time, group 4 the status (`-` when absent), group 5 the body size
/// (zero when absent or not a number) and group 6 the user agent (`-` when absent). The path is
/// the request's second word, `-` when it has none.
pub open spec fn record_from_groups(g: Seq<Option<Seq<char>>>) -> Option<RecordModel> {
    match (group(g, 1), group(g, 3)) {
        (Some(ip), Some(request)) => {
            let w = words(request);
            Some(
                RecordModel {
                    ip,
                    path: if w.len() >= 2 {
                        w[1]
                    } else {
                        "-"@
                    },
                    user_agent: match group(g, 6) {
                        Some(u) => u,
                        None => "-"@,
                    },
                    status_code: match group(g, 4) {
                        Some(s) => s,
                        None => "-"@,
                    },
                    traffic_bytes: match group(g, 5) {
                        Some(b) => match parse_unsigned(b) {
                            Some(n) => n as nat,
                            None => 0,
                        },
                        None => 0,
                    },
                    timestamp: group(g, 2),
                },
            )
        },
        _ => None,
    }
}

/// The record of a log line: nothing when the pattern does not match.
pub open spec fn line_record(pattern: Seq<char>, line: Seq<char>) -> Option<RecordModel> {
    match regex_captures(pattern, line) {
        Some(g) => record_from_groups(g),
        None => None,
    }
}

fn group_text(groups: &Vec<Option<String>>, i: usize) -> (r: Option<String>)
    ensures
        r.deep_view() == group(groups.deep_view(), i as int),
{
    if i < groups.len() {
        match &groups[i] {
            Some(s) => Some(s.clone()),
            None => None,
        }
    } else {
        None
    }
}

/// Builds a record from the capture groups of a match.
pub fn record_from_captures(groups: &Vec<Option<String>>) -> (r: Option<ParsedRecord>)
    ensures
        match r {
            Some(rec) => record_from_groups(groups.deep_view()) == Some(rec@),
            None => record_from_groups(groups.deep_view()) is None,
        },
{
    let ip = match group_text(groups, 1) {
        Some(s) => s,
        None => {
            return None;
        },
    };
    let timestamp_str = group_text(groups, 2);
    let request = match group_text(groups, 3) {
        Some(s) => s,
        None => {
            return None;
        },
    };
    let status_code = match group_text(groups, 4) {
        Some(s) => s,
        None => "-".to_owned(),
    };
    let traffic_bytes = match group_text(groups, 5) {
        Some(s) => match parse_u64(s.as_str()) {
            Some(n) => n,
            None => 0,
        },
        None => 0,
    };
    let user_agent = match group_text(groups, 6) {
        Some(s) => s,
        None => "-".to_owned(),
    };
    let path = match second_word(request.as_str()) {
        Some(w) => w,
        None => "-".to_owned(),
    };
    let rec = ParsedRecord { ip, path, user_agent, status_code, traffic_bytes, timestamp_str };
    proof {
        let g = groups.deep_view();
        assert(rec@.timestamp == group(g, 2));
    }
    Some(rec)
}

/// Parses one access log line with the line pattern.
pub fn parse_line(line: &str, line_regex: &Pattern) -> (r: Option<ParsedRecord>)
    ensures
        match r {
            Some(rec) => line_record(line_regex.source_view(), line@) == Some(rec@),
            None => line_record(line_regex.source_view(), line@) is None,
        },
{
    match line_regex.captures(line) {
        Some(groups) => record_from_captures(&groups),
        None => None,
    }
}


/// Lines are parsed and merged in chunks of this many.
pub const CHUNK_LINES: usize = 20000;

/// The characters of each line.
pub open spec fn texts(lines: Seq<&str>) -> Seq<Seq<char>> {
    lines.map_values(|l: &str| l@)
}

/// The aggregates after one more line: its record is counted, or a parse error when the line
/// does not parse.
pub open spec fn count_line(
    m: AggregatesModel,
    line: Seq<char>,
    pattern: Seq<char>,
    rules: RulesModel,
) -> AggregatesModel {
    match line_record(pattern, line) {
        Some(r) => record_model(m, r, rules),
        None => with_parse_error(m),
    }
}

/// The aggregates after counting the lines in order.
pub open spec fn count_lines(
    m: AggregatesModel,
    lines: Seq<Seq<char>>,
    pattern: Seq<char>,
    rules: RulesModel,
) -> AggregatesModel
    decreases lines.len(),
{
    if lines.len() == 0 {
        m
    } else {
        count_line(count_lines(m, lines.drop_last(), pattern, rules), lines.last(), pattern, rules)
    }
}

/// Whether the totals fit in 64-bit counters.
pub open spec fn fits(m: AggregatesModel) -> bool {
    m.total_visits <= u64::MAX && m.total_traffic_bytes <= u64::MAX && m.parse_errors <= u64::MAX
}

proof fn lemma_count_line_grows(m: AggregatesModel, line: Seq<char>, pattern: Seq<char>, rules: RulesModel)
    ensures
        m.total_visits <= count_line(m, line, pattern, rules).total_visits,
        m.total_traffic_bytes <= count_line(m, line, pattern, rules).total_traffic_bytes,
        m.parse_errors <= count_line(m, line, pattern, rules).parse_errors,
{
}

proof fn lemma_count_lines_grows(
    m: AggregatesModel,
    lines: Seq<Seq<char>>,
    j: int,
    pattern: Seq<char>,
    rules: RulesModel,
)
    requires
        0 <= j <= lines.len(),
    ensures
        count_lines(m, lines.take(j), pattern, rules).total_visits <= count_lines(m, lines, pattern, rules).total_visits,
        count_lines(m, lines.take(j), pattern, rules).total_traffic_bytes <= count_lines(m, lines, pattern, rules).total_traffic_bytes,
        count_lines(m, lines.take(j), pattern, rules).parse_errors <= count_lines(m, lines, pattern, rules).parse_errors,
    decreases lines.len(),
{
    if j == lines.len() {
        assert(lines.take(j) =~= lines);
    } else {
        let p = lines.drop_last();
        assert(p.take(j) =~= lines.take(j));
        lemma_count_lines_grows(m, p, j, pattern, rules);
        lemma_count_line_grows(count_lines(m, p, pattern, rules), lines.last(), pattern, rules);
    }
}

proof fn lemma_count_lines_step(
    m: AggregatesModel,
    lines: Seq<Seq<char>>,
    i: int,
    pattern: Seq<char>,
    rules: RulesModel,
)
    requires
        0 <= i < lines.len(),
    ensures
        count_lines(m, lines.take(i + 1), pattern, rules) == count_line(
            count_lines(m, lines.take(i), pattern, rules),
            lines[i],
            pattern,
            rules,
        ),
{
    let t = lines.take(i + 1);
    assert(t.drop_last() =~= lines.take(i));
}

/// Parses a chunk of lines into fresh aggregates. It fails when a total would overflow a 64-bit
/// counter, exactly when the counts of the whole chunk do not fit.
pub fn parse_chunk(lines: &[&str], line_regex: &Pattern, rules: &GroupingRules) -> (r: Result<
    Aggregates,
    ChunkError,
>)
    ensures
        match r {
            Ok(a) => a.wf() && bounded(a@) && consistent(a@) && fits(
                count_lines(empty_model(), texts(lines@), line_regex.source_view(), rules@),
            ) && a@ == count_lines(empty_model(), texts(lines@), line_regex.source_view(), rules@),
            Err(_) => !fits(
                count_lines(empty_model(), texts(lines@), line_regex.source_view(), rules@),
            ),
        },
{
    let ghost pattern = line_regex.source_view();
    let ghost all = texts(lines@);
    let mut aggregates = Aggregates::default();
    let n = lines.len();
    assert(all.take(0) =~= Seq::<Seq<char>>::empty());
    for i in 0..n
        invariant
            n == lines@.len(),
            all == texts(lines@),
            pattern == line_regex.source_view(),
            aggregates.wf(),
            bounded(aggregates@),
            aggregates@ == count_lines(empty_model(), all.take(i as int), pattern, rules@),
    {
        proof {
            lemma_count_lines_step(empty_model(), all, i as int, pattern, rules@);
            lemma_count_lines_grows(empty_model(), all, i + 1, pattern, rules@);
            assert(all[i as int] == lines@[i as int]@);
        }
        let (visits, traffic, errors) = aggregates.totals();
        match parse_line(lines[i], line_regex) {
            Some(record) => {
                if visits == u64::MAX || traffic > u64::MAX - record.traffic_bytes {
                    return Err(ChunkError::CounterOverflow);
                }
                proof {
                    crate::domain::law_bounded_record_fits(aggregates@, record@, rules@);
                }
                aggregates.record(record, rules);
            },
            None => {
                if errors == u64::MAX {
                    return Err(ChunkError::CounterOverflow);
                }
                aggregates.add_parse_error();
            },
        }
    }
    assert(all.take(n as int) =~= all);
    proof {
        aggregates.lemma_totals_fit();
        crate::domain::law_empty_consistent();
        law_count_lines_consistent(empty_model(), all, pattern, rules@);
    }
    Ok(aggregates)
}

/// Counting lines from scratch and merging the result into `m` is counting them onto `m`.
pub proof fn law_count_then_merge(
    m: AggregatesModel,
    lines: Seq<Seq<char>>,
    pattern: Seq<char>,
    rules: RulesModel,
)
    ensures
        merge_model(m, count_lines(empty_model(), lines, pattern, rules)) == count_lines(
            m,
            lines,
            pattern,
            rules,
        ),
    decreases lines.len(),
{
    if lines.len() == 0 {
        crate::domain::law_merge_empty(m);
    } else {
        let p = lines.drop_last();
        law_count_then_merge(m, p, pattern, rules);
        let c = count_lines(empty_model(), p, pattern, rules);
        match line_record(pattern, lines.last()) {
            Some(r) => crate::domain::law_record_after_merge(m, c, r, rules),
            None => crate::domain::law_parse_error_after_merge(m, c),
        }
    }
}

/// Counting two runs of lines one after the other.
pub proof fn law_count_concat(
    m: AggregatesModel,
    a: Seq<Seq<char>>,
    b: Seq<Seq<char>>,
    pattern: Seq<char>,
    rules: RulesModel,
)
    ensures
        count_lines(m, a + b, pattern, rules) == count_lines(
            count_lines(m, a, pattern, rules),
            b,
            pattern,
            rules,
        ),
    decreases b.len(),
{
    if b.len() == 0 {
        assert(a + b =~= a);
    } else {
        assert((a + b).drop_last() =~= a + b.drop_last());
        assert((a + b).last() == b.last());
        law_count_concat(m, a, b.drop_last(), pattern, rules);
    }
}

/// Parsing lines in two chunks and merging the results is parsing them all in one go: what
/// makes chunked and parallel parsing agree with parsing line by line.
pub proof fn law_chunks_agree(a: Seq<Seq<char>>, b: Seq<Seq<char>>, pattern: Seq<char>, rules: RulesModel)
    ensures
        count_lines(empty_model(), a + b, pattern, rules) == merge_model(
            count_lines(empty_model(), a, pattern, rules),
            count_lines(empty_model(), b, pattern, rules),
        ),
{
    law_count_concat(empty_model(), a, b, pattern, rules);
    law_count_then_merge(count_lines(empty_model(), a, pattern, rules), b, pattern, rules);
}

/// Why parsing could not go on.
#[derive(Debug, Clone, Copy, PartialEq, Eq)]
pub enum ChunkError {
    /// A total would no longer fit in 64 bits.
    CounterOverflow,
}

/// Parses the chunk, adds its counts to `aggregate` and empties the chunk; an empty chunk is
/// left alone. Returns how many lines were parsed.
pub fn flush_chunk(
    chunk: &mut Vec<&str>,
    aggregate: &mut Aggregates,
    line_regex: &Pattern,
    rules: &GroupingRules,
) -> (r: Result<usize, ChunkError>)
    requires
        old(aggregate).wf(),
    ensures
        final(aggregate).wf(),
        bounded(old(aggregate)@) ==> bounded(final(aggregate)@),
        ({
            let counted = count_lines(
                empty_model(),
                texts(old(chunk)@),
                line_regex.source_view(),
                rules@,
            );
            match r {
                Ok(n) => n == old(chunk)@.len() && final(chunk)@.len() == 0 && fits(counted)
                    && merge_fits(old(aggregate)@, counted) && final(aggregate)@ == merge_model(
                    old(aggregate)@,
                    counted,
                ),
                Err(_) => final(chunk)@ == old(chunk)@ && final(aggregate)@ == old(aggregate)@
                    && !(fits(counted) && merge_fits(old(aggregate)@, counted)),
            }
        }),
{
    let n = chunk.len();
    if n == 0 {
        proof {
            assert(texts(chunk@) =~= Seq::<Seq<char>>::empty());
            crate::domain::law_merge_empty(aggregate@);
            aggregate.lemma_totals_fit();
        }
        return Ok(0);
    }
    let chunk_agg = match parse_chunk(chunk.as_slice(), line_regex, rules) {
        Ok(a) => a,
        Err(e) => {
            return Err(e);
        },
    };
    if !aggregate.can_merge(&chunk_agg) {
        return Err(ChunkError::CounterOverflow);
    }
    aggregate.merge(chunk_agg);
    chunk.clear();
    Ok(n)
}


/// Decodes bytes with `std::str::from_utf8`. The contract claims what its documentation says:
/// it succeeds exactly on valid UTF-8, and the text then has these bytes.
#[verifier::external_body]
fn utf8_text(bytes: &[u8]) -> (r: Option<&str>)
    ensures
        r is Some <==> valid_utf8(bytes@),
        r matches Some(s) ==> s.spec_bytes() == bytes@,
{
    std::str::from_utf8(bytes).ok()
}

/// A line without its carriage return, if it ends with one.
pub open spec fn strip_cr(line: Seq<u8>) -> Seq<u8> {
    if line.len() > 0 && line.last() == 13u8 {
        line.drop_last()
    } else {
        line
    }
}

/// The lines ended by a newline among the first `n` bytes, and where the next line starts.
pub open spec fn scan_lines(b: Seq<u8>, n: int) -> (Seq<Seq<u8>>, int)
    decreases n,
{
    if n <= 0 {
        (Seq::empty(), 0)
    } else {
        let (lines, start) = scan_lines(b, n - 1);
        if b[n - 1] == 10u8 {
            (lines.push(b.subrange(start, n - 1)), n)
        } else {
            (lines, start)
        }
    }
}

/// The lines of a file: the pieces between newlines, and the piece after the last newline when
/// it is not empty; each without a final carriage return.
pub open spec fn file_lines(b: Seq<u8>) -> Seq<Seq<u8>> {
    let (lines, start) = scan_lines(b, b.len() as int);
    let all = if start < b.len() {
        lines.push(b.subrange(start, b.len() as int))
    } else {
        lines
    };
    all.map_values(|l: Seq<u8>| strip_cr(l))
}

/// Why a file could not be split into lines.
#[derive(Debug, Clone, Copy, PartialEq, Eq)]
pub enum LineError {
    /// A line is not valid UTF-8.
    InvalidUtf8,
}

/// Decodes one line of a file, dropping a final carriage return.
pub fn parse_mapped_line(line_bytes: &[u8]) -> (r: Result<&str, LineError>)
    ensures
        r is Ok <==> valid_utf8(strip_cr(line_bytes@)),
        r matches Ok(s) ==> s.spec_bytes() == strip_cr(line_bytes@) && s@ == decode_utf8(
            strip_cr(line_bytes@),
        ),
{
    let n = line_bytes.len();
    let bytes = if n > 0 && line_bytes[n - 1] == 13u8 {
        vstd::slice::slice_subrange(line_bytes, 0, n - 1)
    } else {
        line_bytes
    };
    assert(bytes@ =~= strip_cr(line_bytes@));
    match utf8_text(bytes) {
        Some(s) => Ok(s),
        None => Err(LineError::InvalidUtf8),
    }
}

proof fn lemma_scan_prefix(b: Seq<u8>, n: int, m: int)
    requires
        0 <= n <= m,
    ensures
        scan_lines(b, n).0.len() <= scan_lines(b, m).0.len(),
        scan_lines(b, m).0.take(scan_lines(b, n).0.len() as int) == scan_lines(b, n).0,
    decreases m - n,
{
    if n < m {
        lemma_scan_prefix(b, n, m - 1);
        let (l1, _) = scan_lines(b, m - 1);
        let (l2, _) = scan_lines(b, m);
        let k = scan_lines(b, n).0.len() as int;
        assert(l2.take(k) =~= l1.take(k));
    } else {
        assert(scan_lines(b, m).0.take(scan_lines(b, m).0.len() as int) =~= scan_lines(b, m).0);
    }
}

proof fn lemma_scan_bounds(b: Seq<u8>, n: int)
    requires
        0 <= n <= b.len(),
    ensures
        0 <= scan_lines(b, n).1 <= n,
    decreases n,
{
    if n > 0 {
        lemma_scan_bounds(b, n - 1);
    }
}

/// Splits a file's bytes into decoded lines.
pub fn split_log_lines(bytes: &[u8]) -> (r: Result<Vec<&str>, LineError>)
    ensures
        match r {
            Ok(lines) => lines.len() == file_lines(bytes@).len() && forall|i: int|
                0 <= i < lines.len() ==> valid_utf8(file_lines(bytes@)[i]) && #[trigger] lines[i]@
                    == decode_utf8(file_lines(bytes@)[i]),
            Err(_) => exists|i: int|
                0 <= i < file_lines(bytes@).len() && !valid_utf8(#[trigger] file_lines(bytes@)[i]),
        },
{
    let ghost b = bytes@;
    let n = bytes.len();
    let mut out: Vec<&str> = Vec::new();
    let mut line_start: usize = 0;
    let mut index: usize = 0;
    while index < n
        invariant
            n == b.len(),
            b == bytes@,
            index <= n,
            line_start as int == scan_lines(b, index as int).1,
            out.len() == scan_lines(b, index as int).0.len(),
            forall|i: int|
                0 <= i < out.len() ==> #[trigger] valid_utf8(strip_cr(scan_lines(b, index as int).0[i])),
            forall|i: int|
                0 <= i < out.len() ==> #[trigger] out[i]@ == decode_utf8(strip_cr(scan_lines(b, index as int).0[i])),
        decreases n - index,
    {
        proof {
            lemma_scan_bounds(b, index as int);
        }
        let ghost before = scan_lines(b, index as int).0;
        if bytes[index] == 10u8 {
            let piece = vstd::slice::slice_subrange(bytes, line_start, index);
            match parse_mapped_line(piece) {
                Ok(line) => {
                    let ghost old_out = out@;
                    out.push(line);
                    proof {
                        let after = scan_lines(b, index + 1).0;
                        assert(after == before.push(piece@));
                        assert forall|i: int| 0 <= i < out.len() implies valid_utf8(strip_cr(after[i]))
                            && #[trigger] out[i]@ == decode_utf8(strip_cr(after[i])) by {
                            if i < out.len() - 1 {
                                assert(after[i] == before[i]);
                                assert(out@[i] == old_out[i]);
                                assert(old_out[i]@ == decode_utf8(strip_cr(before[i])));
                            } else {
                                assert(out@[i] == line);
                                assert(valid_utf8(strip_cr(piece@)));
                                assert(after[i] == piece@);
                                assert(valid_utf8(strip_cr(after[i])));
                            }
                        }
                    }
                },
                Err(e) => {
                    proof {
                        let (all, start) = scan_lines(b, b.len() as int);
                        let k = scan_lines(b, index + 1).0.len() - 1;
                        lemma_scan_prefix(b, index + 1, b.len() as int);
                        assert(scan_lines(b, index + 1).0[k] == piece@);
                        assert(all[k] == piece@);
                        let full = if start < b.len() {
                            all.push(b.subrange(start, b.len() as int))
                        } else {
                            all
                        };
                        assert(full[k] == piece@);
                        assert(file_lines(b)[k] == strip_cr(piece@));
                    }
                    return Err(e);
                },
            }
            line_start = index + 1;
        } else {
            proof {
                let after = scan_lines(b, index + 1).0;
                assert(after == before);
                assert forall|i: int| 0 <= i < out.len() implies valid_utf8(strip_cr(after[i]))
                    && #[trigger] out[i]@ == decode_utf8(strip_cr(after[i])) by {
                    assert(out@[i]@ == decode_utf8(strip_cr(before[i])));
                }
            }
        }
        index = index + 1;
    }
    proof {
        lemma_scan_bounds(b, n as int);
    }
    let ghost (ended, start) = scan_lines(b, n as int);
    if line_start < n {
        let piece = vstd::slice::slice_subrange(bytes, line_start, n);
        match parse_mapped_line(piece) {
            Ok(line) => {
                let ghost old_out = out@;
                out.push(line);
                proof {
                    let full = ended.push(b.subrange(start, b.len() as int));
                    assert(file_lines(b) == full.map_values(|l: Seq<u8>| strip_cr(l)));
                    assert(file_lines(b).len() == out.len());
                    assert forall|i: int| 0 <= i < out.len() implies valid_utf8(file_lines(b)[i])
                        && #[trigger] out[i]@ == decode_utf8(file_lines(b)[i]) by {
                        assert(file_lines(b)[i] == strip_cr(full[i]));
                        if i < out.len() - 1 {
                            assert(full[i] == ended[i]);
                            assert(out@[i] == old_out[i]);
                            assert(old_out[i]@ == decode_utf8(strip_cr(ended[i])));
                        } else {
                            assert(out@[i] == line);
                        }
                    }
                }
            },
            Err(e) => {
                proof {
                    let full = ended.push(b.subrange(start, b.len() as int));
                    assert(full[ended.len() as int] == piece@);
                    assert(file_lines(b)[ended.len() as int] == strip_cr(piece@));
                }
                return Err(e);
            },
        }
    } else {
        proof {
            assert(file_lines(b) == ended.map_values(|l: Seq<u8>| strip_cr(l)));
            assert(file_lines(b).len() == out.len());
            assert forall|i: int| 0 <= i < out.len() implies valid_utf8(file_lines(b)[i])
                && #[trigger] out[i]@ == decode_utf8(file_lines(b)[i]) by {
                assert(file_lines(b)[i] == strip_cr(ended[i]));
                assert(out@[i]@ == decode_utf8(strip_cr(ended[i])));
            }
        }
    }
    Ok(out)
}

/// Parses the next chunk of lines, from `start` up to `CHUNK_LINES` lines further, into
/// `aggregate`. Returns where the following chunk starts.
pub fn absorb_lines(
    lines: &[&str],
    start: usize,
    aggregate: &mut Aggregates,
    line_regex: &Pattern,
    rules: &GroupingRules,
) -> (r: Result<usize, ChunkError>)
    requires
        start <= lines@.len(),
        old(aggregate).wf(),
    ensures
        final(aggregate).wf(),
        bounded(old(aggregate)@) ==> bounded(final(aggregate)@),
        ({
            let end = if start + CHUNK_LINES <= lines@.len() {
                start + CHUNK_LINES
            } else {
                lines@.len() as int
            };
            let counted = count_lines(
                empty_model(),
                texts(lines@.subrange(start as int, end)),
                line_regex.source_view(),
                rules@,
            );
            match r {
                Ok(next) => next == end && fits(counted) && merge_fits(old(aggregate)@, counted)
                    && final(aggregate)@ == merge_model(old(aggregate)@, counted),
                Err(_) => final(aggregate)@ == old(aggregate)@ && !(fits(counted) && merge_fits(
                    old(aggregate)@,
                    counted,
                )),
            }
        }),
{
    let end = if lines.len() - start >= CHUNK_LINES {
        start + CHUNK_LINES
    } else {
        lines.len()
    };
    let mut chunk: Vec<&str> = Vec::new();
    let mut i = start;
    while i < end
        invariant
            start <= i <= end,
            end <= lines@.len(),
            chunk@ == lines@.subrange(start as int, i as int),
        decreases end - i,
    {
        chunk.push(lines[i]);
        i = i + 1;
        assert(chunk@ =~= lines@.subrange(start as int, i as int));
    }
    match flush_chunk(&mut chunk, aggregate, line_regex, rules) {
        Ok(_) => Ok(end),
        Err(e) => Err(e),
    }
}

/// The decoded lines of a file.
pub open spec fn decoded_lines(b: Seq<u8>) -> Seq<Seq<char>> {
    file_lines(b).map_values(|l: Seq<u8>| decode_utf8(l))
}

/// Whether every line of a file is valid UTF-8.
pub open spec fn lines_valid(b: Seq<u8>) -> bool {
    forall|i: int| 0 <= i < file_lines(b).len() ==> valid_utf8(#[trigger] file_lines(b)[i])
}

/// Why a log file could not be parsed.
#[derive(Debug, Clone, Copy, PartialEq, Eq)]
pub enum FileError {
    /// A line is not valid UTF-8.
    InvalidUtf8,
    /// A total would no longer fit in 64 bits.
    CounterOverflow,
}

proof fn lemma_texts_split(lines: Seq<&str>, a: int, b: int)
    requires
        0 <= a <= b <= lines.len(),
    ensures
        texts(lines).take(b) == texts(lines).take(a) + texts(lines.subrange(a, b)),
{
    assert(texts(lines).take(b) =~= texts(lines).take(a) + texts(lines.subrange(a, b)));
}

/// Parses the bytes of a log file: its lines are split and decoded, then counted chunk by chunk.
/// It fails on the first line that is not UTF-8, and when a total would overflow, exactly when
/// the counts of all the lines do not fit.
pub fn parse_log_bytes(bytes: &[u8], line_regex: &Pattern, rules: &GroupingRules) -> (r: Result<
    Aggregates,
    FileError,
>)
    ensures
        match r {
            Ok(a) => a.wf() && bounded(a@) && consistent(a@) && lines_valid(bytes@) && a@
                == count_lines(empty_model(), decoded_lines(bytes@), line_regex.source_view(), rules@),
            Err(FileError::InvalidUtf8) => !lines_valid(bytes@),
            Err(FileError::CounterOverflow) => lines_valid(bytes@) && !fits(
                count_lines(empty_model(), decoded_lines(bytes@), line_regex.source_view(), rules@),
            ),
        },
{
    let lines = match split_log_lines(bytes) {
        Ok(lines) => lines,
        Err(_) => {
            return Err(FileError::InvalidUtf8);
        },
    };
    let ghost pattern = line_regex.source_view();
    let ghost all = texts(lines@);
    proof {
        assert(all =~= decoded_lines(bytes@));
        assert forall|i: int| 0 <= i < file_lines(bytes@).len() implies valid_utf8(
            #[trigger] file_lines(bytes@)[i],
        ) by {
            assert(lines@[i]@ == decode_utf8(file_lines(bytes@)[i]));
        }
    }
    let n = lines.len();
    let mut aggregate = Aggregates::default();
    let mut start: usize = 0;
    assert(all.take(0) =~= Seq::<Seq<char>>::empty());
    while start < n
        invariant
            n == lines@.len(),
            all == texts(lines@),
            all == decoded_lines(bytes@),
            lines_valid(bytes@),
            pattern == line_regex.source_view(),
            start <= n,
            aggregate.wf(),
            bounded(aggregate@),
            aggregate@ == count_lines(empty_model(), all.take(start as int), pattern, rules@),
        decreases n - start,
    {
        let ghost before = aggregate@;
        match absorb_lines(lines.as_slice(), start, &mut aggregate, line_regex, rules) {
            Ok(next) => {
                proof {
                    lemma_texts_split(lines@, start as int, next as int);
                    law_chunks_agree(
                        all.take(start as int),
                        texts(lines@.subrange(start as int, next as int)),
                        pattern,
                        rules@,
                    );
                }
                start = next;
            },
            Err(_) => {
                proof {
                    let end = if start + CHUNK_LINES <= n {
                        start + CHUNK_LINES
                    } else {
                        n as int
                    };
                    lemma_texts_split(lines@, start as int, end);
                    law_chunks_agree(
                        all.take(start as int),
                        texts(lines@.subrange(start as int, end)),
                        pattern,
                        rules@,
                    );
                    lemma_count_lines_grows(empty_model(), all, end, pattern, rules@);
                    let counted = count_lines(
                        empty_model(),
                        texts(lines@.subrange(start as int, end)),
                        pattern,
                        rules@,
                    );
                    law_count_lines_bounded(empty_model(), texts(lines@.subrange(start as int, end)), pattern, rules@);
                    crate::domain::law_bounded_merge_fits(before, counted);
                }
                return Err(FileError::CounterOverflow);
            },
        }
    }
    assert(all.take(n as int) =~= all);
    proof {
        crate::domain::law_empty_consistent();
        law_count_lines_consistent(empty_model(), all, pattern, rules@);
    }
    Ok(aggregate)
}

/// The sum of aggregates, merged in order.
pub open spec fn merge_models(parts: Seq<AggregatesModel>) -> AggregatesModel
    decreases parts.len(),
{
    if parts.len() == 0 {
        empty_model()
    } else {
        merge_model(merge_models(parts.drop_last()), parts.last())
    }
}

/// The contents of each of the aggregates.
pub open spec fn models(parts: Seq<Aggregates>) -> Seq<AggregatesModel> {
    parts.map_values(|p: Aggregates| p@)
}

/// Whether merging the aggregates one after the other, in order, keeps every counter within
/// 64 bits.
pub open spec fn merges_fit(parts: Seq<AggregatesModel>) -> bool
    decreases parts.len(),
{
    if parts.len() == 0 {
        true
    } else {
        merges_fit(parts.drop_last()) && merge_fits(merge_models(parts.drop_last()), parts.last())
    }
}

/// Merges the aggregates of several files, in order, into one. It fails exactly when a counter
/// would overflow along the way.
pub fn merge_all(parts: Vec<Aggregates>) -> (r: Result<Aggregates, ChunkError>)
    requires
        forall|i: int| #![trigger parts[i]] 0 <= i < parts.len() ==> parts[i].wf(),
    ensures
        match r {
            Ok(a) => a.wf() && merges_fit(models(parts@)) && a@ == merge_models(models(parts@)),
            Err(_) => !merges_fit(models(parts@)),
        },
{
    let ghost all = models(parts@);
    let ghost given = parts@;
    let n = parts.len();
    let mut rest = parts;
    let mut acc = Aggregates::default();
    let mut i: usize = 0;
    assert(all.take(0) =~= Seq::<AggregatesModel>::empty());
    while i < n
        invariant
            n == given.len(),
            given == parts@,
            all == models(given),
            i <= n,
            rest@ == given.subrange(i as int, n as int),
            forall|k: int| #![trigger given[k]] 0 <= k < n ==> given[k].wf(),
            acc.wf(),
            merges_fit(all.take(i as int)),
            acc@ == merge_models(all.take(i as int)),
        decreases n - i,
    {
        let part = rest.remove(0);
        assert(part == given[i as int]);
        let ghost t = all.take(i + 1);
        proof {
            assert(t.drop_last() =~= all.take(i as int));
            assert(t.last() == part@);
        }
        if !acc.can_merge(&part) {
            proof {
                if merges_fit(all) {
                    lemma_merges_fit_prefix(all, i + 1);
                }
            }
            return Err(ChunkError::CounterOverflow);
        }
        acc.merge(part);
        i = i + 1;
        assert(rest@ =~= given.subrange(i as int, n as int));
    }
    assert(all.take(n as int) =~= all);
    Ok(acc)
}

proof fn lemma_merges_fit_prefix(parts: Seq<AggregatesModel>, j: int)
    requires
        0 <= j <= parts.len(),
        merges_fit(parts),
    ensures
        merges_fit(parts.take(j)),
    decreases parts.len(),
{
    if j == parts.len() {
        assert(parts.take(j) =~= parts);
    } else {
        let p = parts.drop_last();
        assert(p.take(j) =~= parts.take(j));
        lemma_merges_fit_prefix(p, j);
    }
}

/// Where every part keeps its counters within its totals, the parts can be merged exactly when
/// the sum of all of them fits, and the sum keeps its counters within its totals too.
pub proof fn law_bounded_merges_fit(parts: Seq<AggregatesModel>)
    requires
        forall|i: int| 0 <= i < parts.len() ==> bounded(#[trigger] parts[i]),
    ensures
        merges_fit(parts) <==> fits(merge_models(parts)),
        bounded(merge_models(parts)),
    decreases parts.len(),
{
    if parts.len() == 0 {
        assert(bounded(empty_model()));
    } else {
        let p = parts.drop_last();
        assert forall|i: int| 0 <= i < p.len() implies bounded(#[trigger] p[i]) by {
            assert(p[i] == parts[i]);
        }
        law_bounded_merges_fit(p);
        assert(bounded(parts[parts.len() - 1]));
        crate::domain::law_bounded_merge_fits(merge_models(p), parts.last());
        crate::domain::law_merge_bounded(merge_models(p), parts.last());
    }
}

/// Counting lines onto aggregates whose counters are within their totals keeps them so.
pub proof fn law_count_lines_bounded(
    m: AggregatesModel,
    lines: Seq<Seq<char>>,
    pattern: Seq<char>,
    rules: RulesModel,
)
    requires
        bounded(m),
    ensures
        bounded(count_lines(m, lines, pattern, rules)),
    decreases lines.len(),
{
    if lines.len() > 0 {
        let p = lines.drop_last();
        law_count_lines_bounded(m, p, pattern, rules);
        let before = count_lines(m, p, pattern, rules);
        match line_record(pattern, lines.last()) {
            Some(r) => crate::domain::law_record_bounded(before, r, rules),
            None => {},
        }
    }
}

proof fn lemma_merge_models_remove(t: Seq<AggregatesModel>, k: int)
    requires
        0 <= k < t.len(),
    ensures
        merge_models(t) == merge_model(merge_models(t.remove(k)), t[k]),
    decreases t.len(),
{
    if k == t.len() - 1 {
        assert(t.remove(k) =~= t.drop_last());
    } else {
        let q = t.drop_last();
        let y = t.last();
        lemma_merge_models_remove(q, k);
        assert(t.remove(k) =~= q.remove(k).push(y));
        assert(t.remove(k).drop_last() =~= q.remove(k));
        let base = merge_models(q.remove(k));
        crate::domain::law_merge_associative(base, t[k], y);
        crate::domain::law_merge_commutative(t[k], y);
        crate::domain::law_merge_associative(base, y, t[k]);
    }
}

/// Merging the same aggregates in any order gives the same sum: the order in which files finish
/// does not change the result.
pub proof fn law_merge_models_any_order(s: Seq<AggregatesModel>, t: Seq<AggregatesModel>)
    requires
        s.to_multiset() == t.to_multiset(),
    ensures
        merge_models(s) == merge_models(t),
    decreases s.len(),
{
    broadcast use vstd::seq_lib::group_to_multiset_ensures;

    if s.len() == 0 {
        assert(s.to_multiset().len() == s.len());
        assert(t.to_multiset().len() == t.len());
        assert(t =~= s);
    } else {
        let p = s.drop_last();
        let x = s.last();
        assert(s =~= p.push(x));
        assert(s.contains(x));
        assert(t.to_multiset().count(x) > 0);
        assert(t.contains(x));
        let k = choose|k: int| 0 <= k < t.len() && t[k] == x;
        assert(t.remove(k).to_multiset() == t.to_multiset().remove(x));
        assert(p.to_multiset() == s.to_multiset().remove(x)) by {
            assert(p.push(x).to_multiset() == p.to_multiset().insert(x));
            assert(p.to_multiset().insert(x).remove(x) =~= p.to_multiset());
        }
        law_merge_models_any_order(p, t.remove(k));
        lemma_merge_models_remove(t, k);
    }
}

/// Counting lines onto consistent aggregates keeps them consistent: in particular, the buckets
/// of each dimension of the lines counted from nothing add up to the totals.
pub proof fn law_count_lines_consistent(
    m: AggregatesModel,
    lines: Seq<Seq<char>>,
    pattern: Seq<char>,
    rules: RulesModel,
)
    requires
        consistent(m),
    ensures
        consistent(count_lines(m, lines, pattern, rules)),
    decreases lines.len(),
{
    if lines.len() > 0 {
        let p = lines.drop_last();
        law_count_lines_consistent(m, p, pattern, rules);
        let before = count_lines(m, p, pattern, rules);
        match line_record(pattern, lines.last()) {
            Some(r) => crate::domain::law_record_consistent(before, r, rules),
            None => crate::domain::law_parse_error_consistent(before),
        }
    }
}

/// The merge of consistent aggregates, in any number, is consistent.
pub proof fn law_merge_models_consistent(parts: Seq<AggregatesModel>)
    requires
        forall|i: int| 0 <= i < parts.len() ==> consistent(#[trigger] parts[i]),
    ensures
        consistent(merge_models(parts)),
    decreases parts.len(),
{
    if parts.len() == 0 {
        crate::domain::law_empty_consistent();
    } else {
        let p = parts.drop_last();
        assert forall|i: int| 0 <= i < p.len() implies consistent(#[trigger] p[i]) by {
            assert(p[i] == parts[i]);
        }
        law_merge_models_consistent(p);
        crate::domain::law_merge_consistent(merge_models(p), parts.last());
    }
}

/// Whether a line parses and its time reads as a date.
pub open spec fn line_is_timed(pattern: Seq<char>, line: Seq<char>) -> bool {
    match line_record(pattern, line) {
        Some(r) => match r.timestamp {
            Some(ts) => crate::domain::timestamp_keys(ts) is Some,
            None => false,
        },
        None => false,
    }
}

/// How many of the lines parse.
pub open spec fn parsed_count(lines: Seq<Seq<char>>, pattern: Seq<char>) -> nat
    decreases lines.len(),
{
    if lines.len() == 0 {
        0
    } else {
        parsed_count(lines.drop_last(), pattern) + if line_record(pattern, lines.last()) is Some {
            1nat
        } else {
            0nat
        }
    }
}

/// How many of the lines parse with a time that reads as a date.
pub open spec fn timed_count(lines: Seq<Seq<char>>, pattern: Seq<char>) -> nat
    decreases lines.len(),
{
    if lines.len() == 0 {
        0
    } else {
        timed_count(lines.drop_last(), pattern) + if line_is_timed(pattern, lines.last()) {
            1nat
        } else {
            0nat
        }
    }
}

proof fn lemma_trend_counts(m: AggregatesModel, lines: Seq<Seq<char>>, pattern: Seq<char>, rules: RulesModel)
    requires
        m.by_day.dom().finite(),
        m.by_hour.dom().finite(),
        m.by_month.dom().finite(),
    ensures
        ({
            let c = count_lines(m, lines, pattern, rules);
            &&& c.by_day.dom().finite() && c.by_hour.dom().finite() && c.by_month.dom().finite()
            &&& c.total_visits == m.total_visits + parsed_count(lines, pattern)
            &&& crate::counters::tally_total(c.by_day).visits == crate::counters::tally_total(
                m.by_day,
            ).visits + timed_count(lines, pattern)
            &&& crate::counters::tally_total(c.by_hour).visits == crate::counters::tally_total(
                m.by_hour,
            ).visits + timed_count(lines, pattern)
            &&& crate::counters::tally_total(c.by_month).visits == crate::counters::tally_total(
                m.by_month,
            ).visits + timed_count(lines, pattern)
        }),
    decreases lines.len(),
{
    if lines.len() > 0 {
        let p = lines.drop_last();
        lemma_trend_counts(m, p, pattern, rules);
        let before = count_lines(m, p, pattern, rules);
        match line_record(pattern, lines.last()) {
            Some(r) => match r.timestamp {
                Some(ts) => match crate::domain::timestamp_keys(ts) {
                    Some((d, h, mo)) => {
                        crate::counters::law_total_after_hit(before.by_day, d, r.traffic_bytes);
                        crate::counters::law_total_after_hit(before.by_hour, h, r.traffic_bytes);
                        crate::counters::law_total_after_hit(before.by_month, mo, r.traffic_bytes);
                    },
                    None => {},
                },
                None => {},
            },
            None => {},
        }
    }
}

/// Every parsed line whose time reads as a date is one visit in the day buckets, one in the
/// hour buckets and one in the month buckets, whatever its byte count: the visits of each trend
/// granularity add up to the number of such lines, and the total visits to the number of parsed
/// lines.
pub proof fn law_trend_counts_every_timed_line(lines: Seq<Seq<char>>, pattern: Seq<char>, rules: RulesModel)
    ensures
        ({
            let c = count_lines(empty_model(), lines, pattern, rules);
            &&& c.total_visits == parsed_count(lines, pattern)
            &&& crate::counters::tally_total(c.by_day).visits == timed_count(lines, pattern)
            &&& crate::counters::tally_total(c.by_hour).visits == timed_count(lines, pattern)
            &&& crate::counters::tally_total(c.by_month).visits == timed_count(lines, pattern)
        }),
{
    crate::counters::law_total_of_empty();
    lemma_trend_counts(empty_model(), lines, pattern, rules);
}

} // verus!
