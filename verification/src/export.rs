use vstd::prelude::*;

use crate::counters::{entries_describe, Tally};
use crate::domain::{dimension_map, trend_map, Aggregates, DateGranularity, Dimension};
use crate::text::{chars_lt, chars_of, decimal, decimal_text, push_chars, string_of_chars};

verus! {

/// One record of the CSV export: kind, bucket, visits, traffic.
#[derive(Debug)]
pub struct ExportRow {
    pub kind: String,
    pub bucket: String,
    pub visits: String,
    pub traffic_bytes: String,
}

/// The texts of an export record.
pub open spec fn export_view(r: ExportRow) -> (Seq<char>, Seq<char>, Seq<char>, Seq<char>) {
    (r.kind@, r.bucket@, r.visits@, r.traffic_bytes@)
}

/// The texts of export records.
pub open spec fn export_views(v: Seq<ExportRow>) -> Seq<(Seq<char>, Seq<char>, Seq<char>, Seq<char>)> {
    v.map_values(|r: ExportRow| export_view(r))
}

/// `char::to_lowercase` on the ASCII titles, with spaces made underscores as the export names
/// them.
pub open spec fn kind_char(c: char) -> char {
    if 'A' <= c && c <= 'Z' {
        ((c as u32) + 32) as char
    } else if c == ' ' {
        '_'
    } else {
        c
    }
}

/// The kind of the records of a dimension: `dimension:` and its title in lower case.
pub open spec fn dimension_kind(title: Seq<char>) -> Seq<char> {
    "dimension:"@ + title.map_values(|c: char| kind_char(c))
}

fn lower_kind_char(c: char) -> (r: char)
    ensures
        r == kind_char(c),
{
    if 'A' <= c && c <= 'Z' {
        let code: u8 = (c as u8) + 32;
        code as char
    } else if c == ' ' {
        '_'
    } else {
        c
    }
}


/// The kind of the records of a dimension.
pub fn kind_of_dimension(dimension: Dimension) -> (r: String)
    ensures
        r@ == dimension_kind(dimension.title()@),
{
    let title = chars_of(dimension.title());
    let mut out = String::new();
    push_chars(&mut out, "dimension:");
    let ghost start = out@;
    for i in 0..title.len()
        invariant
            out@ == start + title@.take(i as int).map_values(|c: char| kind_char(c)),
    {
        out.push(lower_kind_char(title[i]));
        assert(title@.take(i + 1).map_values(|c: char| kind_char(c)) =~= title@.take(i as int).map_values(
            |c: char| kind_char(c),
        ).push(kind_char(title@[i as int])));
    }
    assert(title@.take(title.len() as int) =~= title@);
    out
}

/// The records of one map: one per bucket, in increasing bucket order, with the counts written
/// in decimal.
pub open spec fn block_describes(
    rows: Seq<(Seq<char>, Seq<char>, Seq<char>, Seq<char>)>,
    kind: Seq<char>,
    m: Map<Seq<char>, Tally>,
) -> bool {
    &&& rows.len() == m.dom().len()
    &&& forall|i: int, j: int| 0 <= i < j < rows.len() ==> chars_lt(#[trigger] rows[i].1, #[trigger] rows[j].1)
    &&& forall|i: int|
        0 <= i < rows.len() ==> {
            let r = #[trigger] rows[i];
            &&& r.0 == kind
            &&& m.contains_key(r.1)
            &&& r.2 == decimal(m[r.1].visits)
            &&& r.3 == decimal(m[r.1].traffic)
        }
}

proof fn lemma_prefix_chain(vs: Seq<Seq<(Seq<char>, Seq<char>, Seq<char>, Seq<char>)>>, b: int)
    requires
        vs.len() == 8,
        forall|i: int| 0 <= i < 7 ==> #[trigger] vs[i + 1].take(vs[i].len() as int) == vs[i] && vs[i].len() <= vs[i + 1].len(),
        0 <= b < 8,
    ensures
        vs[7].take(vs[b].len() as int) == vs[b],
        vs[b].len() <= vs[7].len(),
    decreases 7 - b,
{
    if b < 7 {
        lemma_prefix_chain(vs, b + 1);
        assert(vs[b + 1].take(vs[b].len() as int) == vs[b] && vs[b].len() <= vs[b + 1].len());
        assert(vs[7].take(vs[b].len() as int) =~= vs[7].take(vs[b + 1].len() as int).take(vs[b].len() as int));
    }
}

proof fn lemma_block_lens(
    m: crate::domain::AggregatesModel,
    vs: Seq<Seq<(Seq<char>, Seq<char>, Seq<char>, Seq<char>)>>,
    b: int,
)
    requires
        vs.len() == 8,
        vs[0].len() == 1,
        forall|i: int| 0 <= i < 7 ==> #[trigger] vs[i + 1].len() == vs[i].len() + export_maps(m)[i].dom().len(),
        0 <= b < 8,
    ensures
        vs[b].len() == block_start(m, b),
    decreases b,
{
    if b > 0 {
        lemma_block_lens(m, vs, b - 1);
        assert(vs[(b - 1) + 1].len() == vs[b - 1].len() + export_maps(m)[b - 1].dom().len());
    }
}

fn push_block(out: &mut Vec<ExportRow>, kind: &str, map: &crate::counters::CounterMap)
    requires
        map.wf(),
    ensures
        final(out)@.len() == old(out)@.len() + map@.dom().len(),
        export_views(final(out)@).take(old(out)@.len() as int) == export_views(old(out)@),
        block_describes(export_views(final(out)@).skip(old(out)@.len() as int), kind@, map@),
{
    let entries = map.entries();
    let ghost start = export_views(out@);
    let ghost base = out@.len();
    let n = entries.len();
    for i in 0..n
        invariant
            n == entries@.len(),
            entries_describe(entries@, map@),
            out@.len() == base + i,
            export_views(out@).take(base as int) == start,
            forall|j: int|
                0 <= j < i ==> #[trigger] export_views(out@)[base + j] == (
                    kind@,
                    entries@[j].0@,
                    decimal(entries@[j].1.visits as nat),
                    decimal(entries@[j].1.traffic_bytes as nat),
                ),
    {
        let ghost before = export_views(out@);
        let row = ExportRow {
            kind: kind.to_owned(),
            bucket: entries[i].0.clone(),
            visits: decimal_text(entries[i].1.visits),
            traffic_bytes: decimal_text(entries[i].1.traffic_bytes),
        };
        out.push(row);
        proof {
            let after = export_views(out@);
            assert(after =~= before.push(export_view(row)));
            assert(after.take(base as int) =~= before.take(base as int));
            assert forall|j: int| 0 <= j < i + 1 implies #[trigger] after[base + j] == (
                kind@,
                entries@[j].0@,
                decimal(entries@[j].1.visits as nat),
                decimal(entries@[j].1.traffic_bytes as nat),
            ) by {
                if j < i {
                    assert(after[base + j] == before[base + j]);
                }
            }
        }
    }
    proof {
        let fin = export_views(out@).skip(base as int);
        assert forall|i: int| 0 <= i < fin.len() implies #[trigger] fin[i] == (
            kind@,
            entries@[i].0@,
            decimal(entries@[i].1.visits as nat),
            decimal(entries@[i].1.traffic_bytes as nat),
        ) by {
            assert(fin[i] == export_views(out@)[base + i]);
        }
    }
}

/// The header record of the export.
pub open spec fn export_header() -> (Seq<char>, Seq<char>, Seq<char>, Seq<char>) {
    ("kind"@, "bucket"@, "visits"@, "traffic_bytes"@)
}

/// The maps of the export, in the order they are written.
pub open spec fn export_maps(m: crate::domain::AggregatesModel) -> Seq<Map<Seq<char>, Tally>> {
    seq![
        dimension_map(m, Dimension::Ip),
        dimension_map(m, Dimension::Path),
        dimension_map(m, Dimension::UserAgent),
        dimension_map(m, Dimension::StatusCode),
        trend_map(m, DateGranularity::Hour),
        trend_map(m, DateGranularity::Day),
        trend_map(m, DateGranularity::Month),
    ]
}

/// The kinds of the export's blocks, in the order they are written.
pub open spec fn export_kinds() -> Seq<Seq<char>> {
    seq![
        dimension_kind("IP"@),
        dimension_kind("Path"@),
        dimension_kind("User-Agent"@),
        dimension_kind("Status"@),
        "trend:hour"@,
        "trend:day"@,
        "trend:month"@,
    ]
}

/// Where block `b` of the export starts: after the header and the blocks before it.
pub open spec fn block_start(m: crate::domain::AggregatesModel, b: int) -> int
    decreases b,
{
    if b <= 0 {
        1
    } else {
        block_start(m, b - 1) + export_maps(m)[b - 1].dom().len()
    }
}

/// The records of the CSV export: the header, then one block per dimension (IP, path, user
/// agent, status), then one per trend granularity (hour, day, month).
pub open spec fn export_describes(
    rows: Seq<(Seq<char>, Seq<char>, Seq<char>, Seq<char>)>,
    m: crate::domain::AggregatesModel,
) -> bool {
    &&& rows.len() == block_start(m, 7)
    &&& rows[0] == export_header()
    &&& forall|b: int|
        0 <= b < 7 ==> block_describes(
            rows.subrange(block_start(m, b), #[trigger] block_start(m, b + 1)),
            export_kinds()[b],
            export_maps(m)[b],
        )
}

/// The records that the CSV export writes.
pub fn export_rows(aggregates: &Aggregates) -> (r: Vec<ExportRow>)
    requires
        aggregates.wf(),
    ensures
        export_describes(export_views(r@), aggregates@),
{
    let mut out: Vec<ExportRow> = Vec::new();
    out.push(
        ExportRow {
            kind: "kind".to_owned(),
            bucket: "bucket".to_owned(),
            visits: "visits".to_owned(),
            traffic_bytes: "traffic_bytes".to_owned(),
        },
    );
    let ghost m = aggregates@;
    let k0 = kind_of_dimension(Dimension::Ip);
    let k1 = kind_of_dimension(Dimension::Path);
    let k2 = kind_of_dimension(Dimension::UserAgent);
    let k3 = kind_of_dimension(Dimension::StatusCode);
    let ghost v0 = export_views(out@);
    push_block(&mut out, k0.as_str(), aggregates.selected_map(Dimension::Ip));
    let ghost v1 = export_views(out@);
    push_block(&mut out, k1.as_str(), aggregates.selected_map(Dimension::Path));
    let ghost v2 = export_views(out@);
    push_block(&mut out, k2.as_str(), aggregates.selected_map(Dimension::UserAgent));
    let ghost v3 = export_views(out@);
    push_block(&mut out, k3.as_str(), aggregates.selected_map(Dimension::StatusCode));
    let ghost v4 = export_views(out@);
    push_block(&mut out, "trend:hour", aggregates.trend(DateGranularity::Hour));
    let ghost v5 = export_views(out@);
    push_block(&mut out, "trend:day", aggregates.trend(DateGranularity::Day));
    let ghost v6 = export_views(out@);
    push_block(&mut out, "trend:month", aggregates.trend(DateGranularity::Month));
    proof {
        let v7 = export_views(out@);
        let vs = seq![v0, v1, v2, v3, v4, v5, v6, v7];
        let maps = export_maps(m);
        let kinds = export_kinds();
        assert(vs[0] == v0 && vs[1] == v1 && vs[2] == v2 && vs[3] == v3 && vs[4] == v4 && vs[5] == v5
            && vs[6] == v6 && vs[7] == v7);
        assert(k0@ == kinds[0] && k1@ == kinds[1] && k2@ == kinds[2] && k3@ == kinds[3]);
        assert forall|i: int| 0 <= i < 7 implies #[trigger] vs[i + 1].take(vs[i].len() as int) == vs[i]
            && vs[i].len() <= vs[i + 1].len() && vs[i + 1].len() == vs[i].len() + maps[i].dom().len()
            && block_describes(vs[i + 1].skip(vs[i].len() as int), kinds[i], maps[i]) by {
            if i == 0 {
            } else if i == 1 {
            } else if i == 2 {
            } else if i == 3 {
            } else if i == 4 {
            } else if i == 5 {
            } else {
            }
        }
        assert(v0.len() == block_start(m, 0));
        assert forall|b: int| 0 <= b < 7 implies #[trigger] vs[b + 1].len() == block_start(m, b + 1) by {
            lemma_block_lens(m, vs, b + 1);
        }
        assert forall|b: int| 0 <= b < 8 implies v7.take(#[trigger] vs[b].len() as int) == vs[b] by {
            lemma_prefix_chain(vs, b);
        }
        assert forall|b: int| 0 <= b < 7 implies block_describes(
            v7.subrange(block_start(m, b), #[trigger] block_start(m, b + 1)),
            export_kinds()[b],
            export_maps(m)[b],
        ) by {
            let lo = vs[b].len() as int;
            let hi = vs[b + 1].len() as int;
            assert(lo == block_start(m, b)) by {
                if b > 0 {
                    assert(vs[(b - 1) + 1].len() == block_start(m, (b - 1) + 1));
                }
            }
            assert(hi == block_start(m, b + 1));
            assert(v7.take(hi) == vs[b + 1]);
            assert(v7.subrange(lo, hi) =~= vs[b + 1].skip(lo));
        }
        assert(v7.len() == block_start(m, 7)) by {
            assert(vs[6int + 1].len() == block_start(m, 6int + 1));
        }
        assert(v7.take(1) == v0);
        assert(v7[0] == v0[0]);
    }
    out
}

} // verus!
