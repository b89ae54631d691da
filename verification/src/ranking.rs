use std::cmp::Ordering;
use vstd::prelude::*;

use crate::cli::SortBy;
use crate::counters::{entries_describe, has_key, Counter, Tally};
use crate::domain::{dimension_map, Aggregates, Dimension};
use crate::text::{
    chars_lt, compare_text, lemma_chars_lt_asymmetric, lemma_chars_lt_irreflexive,
    lemma_chars_lt_total, lemma_chars_lt_transitive, TextOrder,
};

verus! {

/// One row of a dimension's table.
#[derive(Debug)]
pub struct MetricRow {
    pub key: String,
    pub visits: u64,
    pub traffic_bytes: u64,
}

/// The content of a row.
pub struct RowModel {
    pub key: Seq<char>,
    pub visits: nat,
    pub traffic: nat,
}

impl View for MetricRow {
    type V = RowModel;

    open spec fn view(&self) -> RowModel {
        RowModel { key: self.key@, visits: self.visits as nat, traffic: self.traffic_bytes as nat }
    }
}

/// The row of a key and its tally.
pub open spec fn row_of(key: Seq<char>, t: Tally) -> RowModel {
    RowModel { key, visits: t.visits, traffic: t.traffic }
}

/// Whether row `a` is listed before row `b`: more of the sorted quantity first, then more
/// visits, then the smaller key.
pub open spec fn ranks_before(a: RowModel, b: RowModel, sort_by: SortBy) -> bool {
    let (pa, pb) = match sort_by {
        SortBy::Visits => (a.visits, b.visits),
        SortBy::Traffic => (a.traffic, b.traffic),
    };
    if pa != pb {
        pa > pb
    } else if a.visits != b.visits {
        a.visits > b.visits
    } else {
        chars_lt(a.key, b.key)
    }
}

/// `ranks_before` on the values of two rows.
pub open spec fn values_rank_before(
    a_key: Seq<char>,
    a_visits: u64,
    a_traffic: u64,
    b_key: Seq<char>,
    b_visits: u64,
    b_traffic: u64,
    sort_by: SortBy,
) -> bool {
    ranks_before(
        RowModel { key: a_key, visits: a_visits as nat, traffic: a_traffic as nat },
        RowModel { key: b_key, visits: b_visits as nat, traffic: b_traffic as nat },
        sort_by,
    )
}

/// The comparison result of two rows given which comes first.
pub open spec fn order_of(first: bool, second: bool) -> Ordering {
    if first {
        Ordering::Less
    } else if second {
        Ordering::Greater
    } else {
        Ordering::Equal
    }
}

pub proof fn lemma_ranks_irreflexive(a: RowModel, sort_by: SortBy)
    ensures
        !ranks_before(a, a, sort_by),
{
    lemma_chars_lt_irreflexive(a.key);
}

pub proof fn lemma_ranks_asymmetric(a: RowModel, b: RowModel, sort_by: SortBy)
    ensures
        !(ranks_before(a, b, sort_by) && ranks_before(b, a, sort_by)),
{
    lemma_chars_lt_asymmetric(a.key, b.key);
}

pub proof fn lemma_ranks_transitive(a: RowModel, b: RowModel, c: RowModel, sort_by: SortBy)
    requires
        ranks_before(a, b, sort_by),
        ranks_before(b, c, sort_by),
    ensures
        ranks_before(a, c, sort_by),
{
    if chars_lt(a.key, b.key) && chars_lt(b.key, c.key) {
        lemma_chars_lt_transitive(a.key, b.key, c.key);
    }
}

/// Rows with different keys are always ordered one way or the other.
pub proof fn lemma_ranks_total(a: RowModel, b: RowModel, sort_by: SortBy)
    requires
        a.key != b.key,
    ensures
        ranks_before(a, b, sort_by) || ranks_before(b, a, sort_by),
{
    lemma_chars_lt_total(a.key, b.key);
}

/// The row order is a strict total order on rows with distinct keys.
pub proof fn law_row_order(a: RowModel, b: RowModel, c: RowModel, sort_by: SortBy)
    ensures
        !ranks_before(a, a, sort_by),
        !(ranks_before(a, b, sort_by) && ranks_before(b, a, sort_by)),
        ranks_before(a, b, sort_by) && ranks_before(b, c, sort_by) ==> ranks_before(a, c, sort_by),
        a.key != b.key ==> ranks_before(a, b, sort_by) || ranks_before(b, a, sort_by),
{
    lemma_ranks_irreflexive(a, sort_by);
    lemma_ranks_asymmetric(a, b, sort_by);
    if ranks_before(a, b, sort_by) && ranks_before(b, c, sort_by) {
        lemma_ranks_transitive(a, b, c, sort_by);
    }
    if a.key != b.key {
        lemma_ranks_total(a, b, sort_by);
    }
}

/// Compares two rows given by their values: `Less` when the first is listed first.
pub fn compare_row_values(
    a_key: &str,
    a_visits: u64,
    a_traffic: u64,
    b_key: &str,
    b_visits: u64,
    b_traffic: u64,
    sort_by: SortBy,
) -> (r: Ordering)
    ensures
        r == order_of(
            values_rank_before(a_key@, a_visits, a_traffic, b_key@, b_visits, b_traffic, sort_by),
            values_rank_before(b_key@, b_visits, b_traffic, a_key@, a_visits, a_traffic, sort_by),
        ),
{
    let (pa, pb) = match sort_by {
        SortBy::Visits => (a_visits, b_visits),
        SortBy::Traffic => (a_traffic, b_traffic),
    };
    if pa != pb {
        if pa > pb {
            Ordering::Less
        } else {
            Ordering::Greater
        }
    } else if a_visits != b_visits {
        if a_visits > b_visits {
            Ordering::Less
        } else {
            Ordering::Greater
        }
    } else {
        proof {
            lemma_chars_lt_asymmetric(a_key@, b_key@);
        }
        match compare_text(a_key, b_key) {
            TextOrder::Less => Ordering::Less,
            TextOrder::Greater => {
                proof {
                    lemma_chars_lt_total(a_key@, b_key@);
                }
                Ordering::Greater
            },
            TextOrder::Equal => {
                proof {
                    lemma_chars_lt_irreflexive(a_key@);
                }
                Ordering::Equal
            },
        }
    }
}

/// Compares two rows: `Less` when `a` is listed before `b`.
pub fn compare_rows(a: &MetricRow, b: &MetricRow, sort_by: SortBy) -> (r: Ordering)
    ensures
        r == order_of(ranks_before(a@, b@, sort_by), ranks_before(b@, a@, sort_by)),
{
    compare_row_values(
        a.key.as_str(),
        a.visits,
        a.traffic_bytes,
        b.key.as_str(),
        b.visits,
        b.traffic_bytes,
        sort_by,
    )
}


/// The row of a working entry.
pub open spec fn tuple_row(t: (&str, u64, u64)) -> RowModel {
    RowModel { key: t.0@, visits: t.1 as nat, traffic: t.2 as nat }
}

/// The rows of working entries.
pub open spec fn rows_of(s: Seq<(&str, u64, u64)>) -> Seq<RowModel> {
    s.map_values(|t: (&str, u64, u64)| tuple_row(t))
}

/// Rows listed in order, each strictly before the next.
pub open spec fn rows_sorted(rows: Seq<RowModel>, sort_by: SortBy) -> bool {
    forall|i: int, j: int| 0 <= i < j < rows.len() ==> ranks_before(#[trigger] rows[i], #[trigger] rows[j], sort_by)
}

/// No two rows share a key.
pub open spec fn keys_distinct(rows: Seq<RowModel>) -> bool {
    forall|i: int, j: int| 0 <= i < rows.len() && 0 <= j < rows.len() && i != j ==> #[trigger] rows[i].key != #[trigger] rows[j].key
}

/// The tally of a row.
pub open spec fn tally_of(r: RowModel) -> Tally {
    Tally { visits: r.visits, traffic: r.traffic }
}

/// The smaller of two lengths.
pub open spec fn at_most(top: nat, n: nat) -> nat {
    if top <= n {
        top
    } else {
        n
    }
}

/// `rows` are the first `top` rows of the map `m` in the order of `sort_by` (all of them when
/// there are fewer): listed in order, each a key of `m` with its counts, and every key left out
/// listed after all of them.
pub open spec fn is_top_rows(rows: Seq<RowModel>, m: Map<Seq<char>, Tally>, sort_by: SortBy, top: nat) -> bool {
    &&& rows.len() == at_most(top, m.dom().len())
    &&& rows_sorted(rows, sort_by)
    &&& forall|i: int| 0 <= i < rows.len() ==> m.contains_key(#[trigger] rows[i].key) && m[rows[i].key] == tally_of(rows[i])
    &&& forall|k: Seq<char>|
        #![trigger m[k]]
        m.contains_key(k) && (forall|i: int| 0 <= i < rows.len() ==> rows[i].key != k) ==> forall|i: int|
            0 <= i < rows.len() ==> ranks_before(#[trigger] rows[i], row_of(k, m[k]), sort_by)
}

fn goes_before(a: &(&str, u64, u64), b: &(&str, u64, u64), sort_by: SortBy) -> (r: bool)
    ensures
        r == ranks_before(tuple_row(*a), tuple_row(*b), sort_by),
{
    match compare_row_values(a.0, a.1, a.2, b.0, b.1, b.2, sort_by) {
        Ordering::Less => true,
        _ => false,
    }
}

/// Sorts working rows with distinct keys by insertion.
pub(crate) fn sort_rows<'a>(w: Vec<(&'a str, u64, u64)>, sort_by: SortBy) -> (s: Vec<(&'a str, u64, u64)>)
    requires
        keys_distinct(rows_of(w@)),
    ensures
        s.len() == w.len(),
        rows_of(s@).to_set() == rows_of(w@).to_set(),
        rows_sorted(rows_of(s@), sort_by),
{
    let ghost rw = rows_of(w@);
    let mut s: Vec<(&'a str, u64, u64)> = Vec::new();
    let n = w.len();
    assert(rows_of(s@).to_set() =~= rw.take(0).to_set());
    for i in 0..n
        invariant
            n == w.len(),
            rw == rows_of(w@),
            keys_distinct(rw),
            s.len() == i,
            rows_of(s@).to_set() == rw.take(i as int).to_set(),
            rows_sorted(rows_of(s@), sort_by),
    {
        let x = w[i];
        let ghost rs = rows_of(s@);
        let ghost rx = tuple_row(x);
        assert(rx == rw[i as int]);
        // the new row's key is not among the sorted rows
        assert forall|q: int| 0 <= q < rs.len() implies rs[q].key != rx.key by {
            assert(rs.to_set().contains(rs[q]));
            assert(rw.take(i as int).to_set().contains(rs[q]));
            let t0 = rw.take(i as int);
            let b = choose|b: int| 0 <= b < t0.len() && #[trigger] t0[b] == rs[q];
            assert(rw[b] == rs[q]);
        }
        let mut p: usize = 0;
        while p < s.len() && !goes_before(&x, &s[p], sort_by)
            invariant
                p <= s.len(),
                rs == rows_of(s@),
                rx == tuple_row(x),
                forall|q: int| 0 <= q < p ==> ranks_before(#[trigger] rs[q], rx, sort_by),
                forall|q: int| 0 <= q < rs.len() ==> rs[q].key != rx.key,
            decreases s.len() - p,
        {
            proof {
                lemma_ranks_total(rs[p as int], rx, sort_by);
            }
            p = p + 1;
        }
        s.insert(p, x);
        proof {
            let rs2 = rows_of(s@);
            assert(rs2 =~= rs.insert(p as int, rx));
            assert forall|a: int, b: int| 0 <= a < b < rs2.len() implies ranks_before(#[trigger] rs2[a], #[trigger] rs2[b], sort_by) by {
                if b < p {
                    assert(rs2[a] == rs[a] && rs2[b] == rs[b]);
                } else if b == p {
                    assert(rs2[a] == rs[a]);
                } else if a < p {
                    assert(rs2[a] == rs[a] && rs2[b] == rs[b - 1]);
                    if p < rs.len() {
                        assert(ranks_before(rx, rs[p as int], sort_by));
                        if b - 1 > p {
                            assert(ranks_before(rs[p as int], rs[b - 1], sort_by));
                            lemma_ranks_transitive(rx, rs[p as int], rs[b - 1], sort_by);
                        }
                    }
                    lemma_ranks_transitive(rs[a], rx, rs[b - 1], sort_by);
                } else if a == p {
                    assert(rs2[b] == rs[b - 1]);
                    assert(ranks_before(rx, rs[p as int], sort_by));
                    if b - 1 > p {
                        assert(ranks_before(rs[p as int], rs[b - 1], sort_by));
                        lemma_ranks_transitive(rx, rs[p as int], rs[b - 1], sort_by);
                    }
                } else {
                    assert(rs2[a] == rs[a - 1] && rs2[b] == rs[b - 1]);
                }
            }
            assert(rs2.to_set() =~= rs.to_set().insert(rx)) by {
                assert forall|y: RowModel| rs2.to_set().contains(y) implies rs.to_set().insert(rx).contains(y) by {
                    let j = choose|j: int| 0 <= j < rs2.len() && #[trigger] rs2[j] == y;
                    if j < p {
                        assert(rs[j] == y);
                    } else if j > p {
                        assert(rs[j - 1] == y);
                    }
                }
                assert forall|y: RowModel| rs.to_set().insert(rx).contains(y) implies rs2.to_set().contains(y) by {
                    if y == rx {
                        assert(rs2[p as int] == y);
                    } else {
                        let j = choose|j: int| 0 <= j < rs.len() && #[trigger] rs[j] == y;
                        if j < p {
                            assert(rs2[j] == y);
                        } else {
                            assert(rs2[j + 1] == y);
                        }
                    }
                }
            }
            let t0 = rw.take(i as int);
            let t1 = rw.take(i + 1);
            assert(t1 =~= t0.push(rx));
            assert(t1.to_set() =~= t0.to_set().insert(rx)) by {
                assert forall|y: RowModel| t1.to_set().contains(y) implies t0.to_set().insert(rx).contains(y) by {
                    let j = choose|j: int| 0 <= j < t1.len() && #[trigger] t1[j] == y;
                    if j < i {
                        assert(t0[j] == y);
                    }
                }
                assert forall|y: RowModel| t0.to_set().insert(rx).contains(y) implies t1.to_set().contains(y) by {
                    if y == rx {
                        assert(t1[i as int] == y);
                    } else {
                        let j = choose|j: int| 0 <= j < t0.len() && #[trigger] t0[j] == y;
                        assert(t1[j] == y);
                    }
                }
            }
        }
    }
    assert(rw.take(n as int) =~= rw);
    s
}


/// The row of entry `j`.
pub open spec fn entry_row(es: Seq<(String, Counter)>, j: int) -> RowModel {
    row_of(es[j].0@, es[j].1@)
}

/// The rows of a result.
pub open spec fn metric_rows(v: Seq<MetricRow>) -> Seq<RowModel> {
    v.map_values(|x: MetricRow| x@)
}

/// Entries with increasing keys have distinct keys.
proof fn lemma_entry_keys_distinct(es: Seq<(String, Counter)>, i: int, j: int)
    requires
        crate::counters::keys_increasing(es),
        0 <= i < es.len(),
        0 <= j < es.len(),
        i != j,
    ensures
        es[i].0@ != es[j].0@,
{
    if i < j {
        assert(chars_lt(es[i].0@, es[j].0@));
    } else {
        assert(chars_lt(es[j].0@, es[i].0@));
    }
    lemma_chars_lt_irreflexive(es[i].0@);
}

/// The selection that the working rows end with gives, once sorted, the top rows.
proof fn lemma_top_rows_result(
    out: Seq<RowModel>,
    rw: Seq<RowModel>,
    pos: Seq<int>,
    es: Seq<(String, Counter)>,
    m: Map<Seq<char>, Tally>,
    top: nat,
    sort_by: SortBy,
)
    requires
        entries_describe(es, m),
        rw.len() == at_most(top, es.len()),
        pos.len() == rw.len(),
        forall|a: int| 0 <= a < rw.len() ==> 0 <= #[trigger] pos[a] < es.len() && rw[a] == entry_row(es, pos[a]),
        forall|j: int|
            #![trigger es[j]]
            0 <= j < es.len() && (forall|a: int| 0 <= a < rw.len() ==> (#[trigger] rw[a]).key != es[j].0@) ==> forall|a: int|
                0 <= a < rw.len() ==> ranks_before(#[trigger] rw[a], entry_row(es, j), sort_by),
        out.len() == rw.len(),
        out.to_set() == rw.to_set(),
        rows_sorted(out, sort_by),
    ensures
        is_top_rows(out, m, sort_by, top),
{
    assert forall|i: int| 0 <= i < out.len() implies m.contains_key(#[trigger] out[i].key) && m[out[i].key] == tally_of(out[i]) by {
        assert(out.to_set().contains(out[i]));
        let a = choose|a: int| 0 <= a < rw.len() && #[trigger] rw[a] == out[i];
        let j = pos[a];
        assert(m.contains_key(es[j].0@) && m[es[j].0@] == es[j].1@);
    }
    assert forall|k: Seq<char>|
        #![trigger m[k]]
        m.contains_key(k) && (forall|i: int| 0 <= i < out.len() ==> out[i].key != k) implies forall|i: int|
            0 <= i < out.len() ==> ranks_before(#[trigger] out[i], row_of(k, m[k]), sort_by) by {
        assert(has_key(es, k));
        let j = choose|j: int| 0 <= j < es.len() && #[trigger] es[j].0@ == k;
        assert(m[es[j].0@] == es[j].1@);
        assert(row_of(k, m[k]) == entry_row(es, j));
        assert forall|a: int| 0 <= a < rw.len() implies (#[trigger] rw[a]).key != es[j].0@ by {
            if rw[a].key == k {
                assert(rw.to_set().contains(rw[a]));
                let i = choose|i: int| 0 <= i < out.len() && #[trigger] out[i] == rw[a];
                assert(out[i].key == k);
            }
        }
        assert forall|i: int| 0 <= i < out.len() implies ranks_before(#[trigger] out[i], row_of(k, m[k]), sort_by) by {
            assert(out.to_set().contains(out[i]));
            let a = choose|a: int| 0 <= a < rw.len() && #[trigger] rw[a] == out[i];
            assert(ranks_before(rw[a], entry_row(es, j), sort_by));
        }
    }
}

/// The `top` first rows of a dimension, in order. The rows are selected in one pass that keeps
/// only the best rows seen so far, so the full map is never sorted.
pub fn top_rows_for_dimension(
    aggregates: &Aggregates,
    dimension: Dimension,
    sort_by: SortBy,
    top: usize,
) -> (r: Vec<MetricRow>)
    requires
        aggregates.wf(),
    ensures
        is_top_rows(metric_rows(r@), dimension_map(aggregates@, dimension), sort_by, top as nat),
        forall|all: Seq<RowModel>|
            #[trigger] is_top_rows(
                all,
                dimension_map(aggregates@, dimension),
                sort_by,
                dimension_map(aggregates@, dimension).dom().len(),
            ) ==> metric_rows(r@) == all.take(
                at_most(top as nat, dimension_map(aggregates@, dimension).dom().len()) as int,
            ),
{
    let selected = aggregates.selected_map(dimension);
    let entries = selected.entries();
    let ghost es = entries@;
    let ghost m = selected@;
    proof {
        selected.lemma_wf_finite();
    }
    if top == 0 {
        let r: Vec<MetricRow> = Vec::new();
        assert(metric_rows(r@) =~= Seq::<RowModel>::empty());
        proof {
            assert forall|all: Seq<RowModel>| #[trigger] is_top_rows(all, m, sort_by, m.dom().len())
                implies metric_rows(r@) == all.take(at_most(top as nat, m.dom().len()) as int) by {
                law_top_rows_are_first_of_sorted(metric_rows(r@), all, m, sort_by, top as nat);
            }
        }
        return r;
    }
    let n = entries.len();
    let mut w: Vec<(&str, u64, u64)> = Vec::new();
    let ghost mut pos: Seq<int> = Seq::empty();
    for idx in 0..n
        invariant
            n == es.len(),
            entries@ == es,
            entries_describe(es, m),
            top > 0,
            w.len() == at_most(top as nat, idx as nat),
            pos.len() == w.len(),
            forall|a: int| 0 <= a < w.len() ==> 0 <= #[trigger] pos[a] < idx && rows_of(w@)[a] == entry_row(es, pos[a]),
            keys_distinct(rows_of(w@)),
            idx <= top ==> forall|a: int| 0 <= a < w.len() ==> #[trigger] pos[a] == a,
            forall|j: int|
                #![trigger es[j]]
                0 <= j < idx && (forall|a: int| 0 <= a < w.len() ==> (#[trigger] rows_of(w@)[a]).key != es[j].0@) ==> forall|a: int|
                    0 <= a < w.len() ==> ranks_before(#[trigger] rows_of(w@)[a], entry_row(es, j), sort_by),
    {
        let key = entries[idx].0.as_str();
        let counter = entries[idx].1;
        let cand = (key, counter.visits, counter.traffic_bytes);
        let ghost rw = rows_of(w@);
        let ghost rc = entry_row(es, idx as int);
        assert(tuple_row(cand) == rc);
        proof {
            assert forall|a: int| 0 <= a < rw.len() implies (#[trigger] rw[a]).key != rc.key by {
                lemma_entry_keys_distinct(es, pos[a], idx as int);
            }
        }
        if w.len() < top {
            w.push(cand);
            proof {
                pos = pos.push(idx as int);
                let rw2 = rows_of(w@);
                assert(rw2 =~= rw.push(rc));
                assert forall|j: int|
                    #![trigger es[j]]
                    0 <= j < idx + 1 && (forall|a: int| 0 <= a < w.len() ==> (#[trigger] rw2[a]).key != es[j].0@) implies forall|a: int|
                        0 <= a < w.len() ==> ranks_before(#[trigger] rw2[a], entry_row(es, j), sort_by) by {
                    if j < idx {
                        assert(pos[j] == j);
                        assert(rw2[j].key == es[j].0@);
                    } else {
                        assert(rw2[idx as int].key == es[j].0@);
                    }
                }
            }
        } else {
            let mut wi: usize = 0;
            let mut t: usize = 1;
            while t < w.len()
                invariant
                    rw == rows_of(w@),
                    w.len() == top,
                    top > 0,
                    wi < t <= w.len(),
                    keys_distinct(rw),
                    forall|a: int| 0 <= a < t && a != wi ==> ranks_before(#[trigger] rw[a], rw[wi as int], sort_by),
                decreases w.len() - t,
            {
                if goes_before(&w[wi], &w[t], sort_by) {
                    proof {
                        assert forall|a: int| 0 <= a < t + 1 && a != t implies ranks_before(#[trigger] rw[a], rw[t as int], sort_by) by {
                            if a != wi {
                                lemma_ranks_transitive(rw[a], rw[wi as int], rw[t as int], sort_by);
                            }
                        }
                    }
                    wi = t;
                } else {
                    proof {
                        lemma_ranks_total(rw[wi as int], rw[t as int], sort_by);
                    }
                }
                t = t + 1;
            }
            let worst = w[wi];
            if goes_before(&cand, &worst, sort_by) {
                w.set(wi, cand);
                proof {
                    let old_pos = pos;
                    pos = pos.update(wi as int, idx as int);
                    let rw2 = rows_of(w@);
                    assert(rw2 =~= rw.update(wi as int, rc));
                    assert forall|a: int, b: int| 0 <= a < rw2.len() && 0 <= b < rw2.len() && a != b implies #[trigger] rw2[a].key != #[trigger] rw2[b].key by {
                        if a != wi && b != wi {
                            assert(rw2[a] == rw[a] && rw2[b] == rw[b]);
                        }
                    }
                    assert forall|j: int|
                        #![trigger es[j]]
                        0 <= j < idx + 1 && (forall|a: int| 0 <= a < w.len() ==> (#[trigger] rw2[a]).key != es[j].0@) implies forall|a: int|
                            0 <= a < w.len() ==> ranks_before(#[trigger] rw2[a], entry_row(es, j), sort_by) by {
                        if j == idx {
                            assert(rw2[wi as int].key == es[j].0@);
                        } else if rw[wi as int].key == es[j].0@ {
                            if old_pos[wi as int] != j {
                                lemma_entry_keys_distinct(es, old_pos[wi as int], j);
                            }
                            assert(entry_row(es, j) == rw[wi as int]);
                            assert forall|a: int| 0 <= a < w.len() implies ranks_before(#[trigger] rw2[a], entry_row(es, j), sort_by) by {
                                if a != wi {
                                    assert(rw2[a] == rw[a]);
                                }
                            }
                        } else {
                            assert forall|a: int| 0 <= a < rw.len() implies (#[trigger] rw[a]).key != es[j].0@ by {
                                if a != wi {
                                    assert(rw2[a] == rw[a]);
                                }
                            }
                            assert forall|a: int| 0 <= a < w.len() implies ranks_before(#[trigger] rw2[a], entry_row(es, j), sort_by) by {
                                if a != wi {
                                    assert(rw2[a] == rw[a]);
                                } else {
                                    assert(ranks_before(rw[wi as int], entry_row(es, j), sort_by));
                                    lemma_ranks_transitive(rc, rw[wi as int], entry_row(es, j), sort_by);
                                }
                            }
                        }
                    }
                }
            } else {
                proof {
                    lemma_ranks_total(rc, rw[wi as int], sort_by);
                    assert forall|j: int|
                        #![trigger es[j]]
                        0 <= j < idx + 1 && (forall|a: int| 0 <= a < w.len() ==> (#[trigger] rw[a]).key != es[j].0@) implies forall|a: int|
                            0 <= a < w.len() ==> ranks_before(#[trigger] rw[a], entry_row(es, j), sort_by) by {
                        if j == idx {
                            assert forall|a: int| 0 <= a < w.len() implies ranks_before(#[trigger] rw[a], entry_row(es, j), sort_by) by {
                                if a != wi {
                                    lemma_ranks_transitive(rw[a], rw[wi as int], rc, sort_by);
                                }
                            }
                        }
                    }
                }
            }
        }
    }
    let ghost rw = rows_of(w@);
    let sorted = sort_rows(w, sort_by);
    let mut out: Vec<MetricRow> = Vec::new();
    for i in 0..sorted.len()
        invariant
            out.len() == i,
            forall|j: int| 0 <= j < i ==> (#[trigger] out@[j])@ == rows_of(sorted@)[j],
    {
        let (key, visits, traffic_bytes) = sorted[i];
        out.push(MetricRow { key: key.to_owned(), visits, traffic_bytes });
    }
    proof {
        assert(metric_rows(out@) =~= rows_of(sorted@));
        lemma_top_rows_result(metric_rows(out@), rw, pos, es, m, top as nat, sort_by);
        assert forall|all: Seq<RowModel>| #[trigger] is_top_rows(all, m, sort_by, m.dom().len())
            implies metric_rows(out@) == all.take(at_most(top as nat, m.dom().len()) as int) by {
            law_top_rows_are_first_of_sorted(metric_rows(out@), all, m, sort_by, top as nat);
        }
    }
    out
}


/// All rows of a map, sorted, cut to the first `top`: the rows of entries sorted in full.
proof fn lemma_sorted_prefix_is_top(
    all: Seq<RowModel>,
    es: Seq<(String, Counter)>,
    m: Map<Seq<char>, Tally>,
    top: nat,
    sort_by: SortBy,
)
    requires
        entries_describe(es, m),
        all.len() == es.len(),
        all.to_set() == Seq::new(es.len(), |j: int| entry_row(es, j)).to_set(),
        rows_sorted(all, sort_by),
    ensures
        is_top_rows(all.take(at_most(top, es.len()) as int), m, sort_by, top),
{
    let t = at_most(top, es.len()) as int;
    let out = all.take(t);
    let er = Seq::new(es.len(), |j: int| entry_row(es, j));
    assert forall|i: int| 0 <= i < out.len() implies m.contains_key(#[trigger] out[i].key) && m[out[i].key] == tally_of(out[i]) by {
        assert(out[i] == all[i]);
        assert(all.to_set().contains(all[i]));
        let j = choose|j: int| 0 <= j < er.len() && #[trigger] er[j] == all[i];
        assert(m.contains_key(es[j].0@) && m[es[j].0@] == es[j].1@);
    }
    assert forall|a: int, b: int| 0 <= a < b < out.len() implies ranks_before(#[trigger] out[a], #[trigger] out[b], sort_by) by {
        assert(out[a] == all[a] && out[b] == all[b]);
    }
    assert forall|k: Seq<char>|
        #![trigger m[k]]
        m.contains_key(k) && (forall|i: int| 0 <= i < out.len() ==> out[i].key != k) implies forall|i: int|
            0 <= i < out.len() ==> ranks_before(#[trigger] out[i], row_of(k, m[k]), sort_by) by {
        assert(has_key(es, k));
        let j = choose|j: int| 0 <= j < es.len() && #[trigger] es[j].0@ == k;
        assert(m[es[j].0@] == es[j].1@);
        assert(er[j] == entry_row(es, j));
        assert(er.to_set().contains(er[j]));
        let p = choose|p: int| 0 <= p < all.len() && #[trigger] all[p] == er[j];
        if p < t {
            assert(out[p] == all[p]);
            assert(out[p].key == k);
        }
        assert forall|i: int| 0 <= i < out.len() implies ranks_before(#[trigger] out[i], row_of(k, m[k]), sort_by) by {
            assert(out[i] == all[i]);
            assert(ranks_before(all[i], all[p], sort_by));
        }
    }
}

/// Sorts every row of a map and keeps the first `top`.
pub fn all_rows_sorted(map: &crate::counters::CounterMap, sort_by: SortBy, top: usize) -> (r: Vec<MetricRow>)
    requires
        map.wf(),
    ensures
        is_top_rows(metric_rows(r@), map@, sort_by, top as nat),
{
    let entries = map.entries();
    let ghost es = entries@;
    let n = entries.len();
    let mut w: Vec<(&str, u64, u64)> = Vec::new();
    for i in 0..n
        invariant
            n == es.len(),
            entries@ == es,
            w.len() == i,
            forall|j: int| 0 <= j < i ==> #[trigger] rows_of(w@)[j] == entry_row(es, j),
    {
        let counter = entries[i].1;
        let ghost before = rows_of(w@);
        w.push((entries[i].0.as_str(), counter.visits, counter.traffic_bytes));
        proof {
            assert(rows_of(w@) =~= before.push(entry_row(es, i as int)));
        }
    }
    let ghost er = Seq::new(es.len(), |j: int| entry_row(es, j));
    proof {
        assert(rows_of(w@) =~= er);
        assert forall|a: int, b: int| 0 <= a < er.len() && 0 <= b < er.len() && a != b implies #[trigger] er[a].key != #[trigger] er[b].key by {
            lemma_entry_keys_distinct(es, a, b);
        }
    }
    let mut sorted = sort_rows(w, sort_by);
    let keep = if top <= n {
        top
    } else {
        n
    };
    let ghost all = rows_of(sorted@);
    sorted.truncate(keep);
    let mut out: Vec<MetricRow> = Vec::new();
    for i in 0..sorted.len()
        invariant
            out.len() == i,
            sorted.len() == keep,
            forall|j: int| 0 <= j < i ==> (#[trigger] out@[j])@ == rows_of(sorted@)[j],
    {
        let (key, visits, traffic_bytes) = sorted[i];
        out.push(MetricRow { key: key.to_owned(), visits, traffic_bytes });
    }
    proof {
        assert(metric_rows(out@) =~= all.take(keep as int));
        lemma_sorted_prefix_is_top(all, es, map@, top as nat, sort_by);
    }
    out
}

/// There is only one list of top rows: any two lists that both are the first `top` rows of a
/// map are the same. So the one-pass selection and a full sort cut to `top` agree.
pub proof fn law_top_rows_unique(
    r1: Seq<RowModel>,
    r2: Seq<RowModel>,
    m: Map<Seq<char>, Tally>,
    sort_by: SortBy,
    top: nat,
)
    requires
        is_top_rows(r1, m, sort_by, top),
        is_top_rows(r2, m, sort_by, top),
    ensures
        r1 == r2,
{
    assert forall|i: int| 0 <= i < r1.len() implies r1[i] == r2[i] by {
        lemma_top_rows_agree_at(r1, r2, m, sort_by, top, i);
    }
    assert(r1 =~= r2);
}

proof fn lemma_top_rows_agree_at(
    r1: Seq<RowModel>,
    r2: Seq<RowModel>,
    m: Map<Seq<char>, Tally>,
    sort_by: SortBy,
    top: nat,
    i: int,
)
    requires
        is_top_rows(r1, m, sort_by, top),
        is_top_rows(r2, m, sort_by, top),
        0 <= i < r1.len(),
    ensures
        r1[i] == r2[i],
    decreases i,
{
    assert forall|j: int| 0 <= j < i implies r1[j] == r2[j] by {
        lemma_top_rows_agree_at(r1, r2, m, sort_by, top, j);
    }
    if r1[i] != r2[i] {
        lemma_top_rows_differ(r1, r2, m, sort_by, top, i);
        lemma_top_rows_differ(r2, r1, m, sort_by, top, i);
        lemma_ranks_total(r1[i], r2[i], sort_by);
    }
}

/// Where two lists of top rows agree before `i` and differ at `i`, the row of the first at `i`
/// does not come before the row of the second.
proof fn lemma_top_rows_differ(
    r1: Seq<RowModel>,
    r2: Seq<RowModel>,
    m: Map<Seq<char>, Tally>,
    sort_by: SortBy,
    top: nat,
    i: int,
)
    requires
        is_top_rows(r1, m, sort_by, top),
        is_top_rows(r2, m, sort_by, top),
        0 <= i < r1.len(),
        forall|j: int| 0 <= j < i ==> r1[j] == r2[j],
        r1[i] != r2[i],
    ensures
        r1[i].key != r2[i].key,
        !ranks_before(r1[i], r2[i], sort_by),
{
    let k = r1[i].key;
    assert(m.contains_key(k) && m[k] == tally_of(r1[i]));
    assert(m.contains_key(r2[i].key) && m[r2[i].key] == tally_of(r2[i]));
    assert(r1[i] == row_of(k, m[k]));
    if r2[i].key == k {
        assert(r2[i] == row_of(k, m[k]));
    }
    if ranks_before(r1[i], r2[i], sort_by) {
        if exists|j: int| 0 <= j < r2.len() && r2[j].key == k {
            let j = choose|j: int| 0 <= j < r2.len() && r2[j].key == k;
            assert(r2[j] == row_of(k, m[k]));
            if j < i {
                assert(r1[j] == r2[j]);
                assert(ranks_before(r1[j], r1[i], sort_by));
                lemma_ranks_irreflexive(r1[i], sort_by);
            } else {
                assert(ranks_before(r2[i], r2[j], sort_by));
                lemma_ranks_asymmetric(r1[i], r2[i], sort_by);
            }
        } else {
            assert(ranks_before(r2[i], row_of(k, m[k]), sort_by));
            lemma_ranks_asymmetric(r1[i], r2[i], sort_by);
        }
    }
}

/// Rows in order that list every key of a finite map name each of its keys.
proof fn lemma_all_rows_cover(all: Seq<RowModel>, m: Map<Seq<char>, Tally>, sort_by: SortBy, k: Seq<char>)
    requires
        m.dom().finite(),
        is_top_rows(all, m, sort_by, m.dom().len()),
        m.contains_key(k),
    ensures
        exists|i: int| 0 <= i < all.len() && all[i].key == k,
{
    let keys = all.map_values(|r: RowModel| r.key);
    assert(keys.no_duplicates()) by {
        assert forall|i: int, j: int| 0 <= i < keys.len() && 0 <= j < keys.len() && i != j implies keys[i]
            != keys[j] by {
            if i < j {
                assert(ranks_before(all[i], all[j], sort_by));
            } else {
                assert(ranks_before(all[j], all[i], sort_by));
            }
            if keys[i] == keys[j] {
                assert(m[all[i].key] == tally_of(all[i]) && m[all[j].key] == tally_of(all[j]));
                assert(all[i] == all[j]);
                lemma_ranks_irreflexive(all[i], sort_by);
            }
        }
    }
    keys.unique_seq_to_set();
    if !(exists|i: int| 0 <= i < all.len() && all[i].key == k) {
        assert(keys.to_set().subset_of(m.dom().remove(k))) by {
            assert forall|x: Seq<char>| keys.to_set().contains(x) implies m.dom().remove(k).contains(x) by {
                let i = choose|i: int| 0 <= i < keys.len() && keys[i] == x;
                assert(all[i].key == x);
                assert(m.contains_key(all[i].key));
            }
        }
        vstd::set_lib::lemma_len_subset(keys.to_set(), m.dom().remove(k));
    }
}

/// The first `top` rows of a map are the first `top` rows of the map's fully sorted list of
/// rows: selecting the best rows in one pass gives what sorting every row and cutting the list
/// gives.
pub proof fn law_top_rows_are_first_of_sorted(
    r: Seq<RowModel>,
    all: Seq<RowModel>,
    m: Map<Seq<char>, Tally>,
    sort_by: SortBy,
    top: nat,
)
    requires
        m.dom().finite(),
        is_top_rows(r, m, sort_by, top),
        is_top_rows(all, m, sort_by, m.dom().len()),
    ensures
        r == all.take(at_most(top, m.dom().len()) as int),
{
    let out = all.take(at_most(top, m.dom().len()) as int);
    assert forall|a: int, b: int| 0 <= a < b < out.len() implies ranks_before(#[trigger] out[a], #[trigger] out[b], sort_by) by {
        assert(out[a] == all[a] && out[b] == all[b]);
    }
    assert forall|i: int| 0 <= i < out.len() implies m.contains_key(#[trigger] out[i].key) && m[out[i].key] == tally_of(out[i]) by {
        assert(out[i] == all[i]);
    }
    assert forall|k: Seq<char>|
        #![trigger m[k]]
        m.contains_key(k) && (forall|i: int| 0 <= i < out.len() ==> out[i].key != k) implies forall|i: int|
            0 <= i < out.len() ==> ranks_before(#[trigger] out[i], row_of(k, m[k]), sort_by) by {
        lemma_all_rows_cover(all, m, sort_by, k);
        let p = choose|p: int| 0 <= p < all.len() && all[p].key == k;
        assert(m[all[p].key] == tally_of(all[p]));
        assert(all[p] == row_of(k, m[k]));
        if p < out.len() {
            assert(out[p] == all[p]);
        }
        assert forall|i: int| 0 <= i < out.len() implies ranks_before(#[trigger] out[i], row_of(k, m[k]), sort_by) by {
            assert(out[i] == all[i]);
            assert(ranks_before(all[i], all[p], sort_by));
        }
    }
    assert(is_top_rows(out, m, sort_by, top));
    law_top_rows_unique(r, out, m, sort_by, top);
}

} // verus!
