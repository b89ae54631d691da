use vstd::prelude::*;

use crate::text::{chars_lt, chars_of, compare_text, TextOrder};

verus! {

/// The order of the rows: most visits first, or most traffic first.
#[derive(Debug, Clone, Copy, PartialEq, Eq)]
pub enum SortBy {
    Visits,
    Traffic,
}

impl SortBy {
    /// The other order.
    #[verifier::allow_in_spec]
    pub fn toggled(self) -> Self
        returns
            (match self {
                SortBy::Visits => SortBy::Traffic,
                SortBy::Traffic => SortBy::Visits,
            }),
    {
        match self {
            SortBy::Visits => SortBy::Traffic,
            SortBy::Traffic => SortBy::Visits,
        }
    }
}

/// The command line settings.
pub struct Args {
    pub files: Vec<String>,
    pub load_db: Option<String>,
    pub save_db: Option<String>,
    pub export_csv: Option<String>,
    pub top: usize,
    pub graph_items: usize,
    pub sort_by: SortBy,
    pub group_ip_regex: String,
    pub group_ip_replace: String,
    pub group_path_regex: String,
    pub group_path_replace: String,
    pub group_ua_regex: String,
    pub group_ua_replace: String,
}


/// The text order's sorted insertion: `x` goes before the first element it is smaller than.
pub open spec fn insert_sorted(s: Seq<Seq<char>>, x: Seq<char>) -> Seq<Seq<char>>
    decreases s.len(),
{
    if s.len() == 0 {
        seq![x]
    } else if chars_lt(x, s[0]) {
        seq![x] + s
    } else {
        seq![s[0]] + insert_sorted(s.drop_first(), x)
    }
}

/// The texts in increasing order, equal texts kept in their order.
pub open spec fn sort_texts_spec(s: Seq<Seq<char>>) -> Seq<Seq<char>>
    decreases s.len(),
{
    if s.len() == 0 {
        s
    } else {
        insert_sorted(sort_texts_spec(s.drop_last()), s.last())
    }
}

/// The characters of each text.
pub open spec fn text_views(v: Seq<String>) -> Seq<Seq<char>> {
    v.map_values(|x: String| x@)
}

proof fn lemma_insert_sorted_at(s: Seq<Seq<char>>, x: Seq<char>, p: int)
    requires
        0 <= p <= s.len(),
        forall|q: int| 0 <= q < p ==> !chars_lt(x, #[trigger] s[q]),
        p < s.len() ==> chars_lt(x, s[p]),
    ensures
        insert_sorted(s, x) == s.insert(p, x),
    decreases s.len(),
{
    if s.len() == 0 {
        assert(s.insert(p, x) =~= seq![x]);
    } else if p == 0 {
        assert(s.insert(p, x) =~= seq![x] + s);
    } else {
        let t = s.drop_first();
        assert forall|q: int| 0 <= q < p - 1 implies !chars_lt(x, #[trigger] t[q]) by {
            assert(t[q] == s[q + 1]);
        }
        lemma_insert_sorted_at(t, x, p - 1);
        assert(s.insert(p, x) =~= seq![s[0]] + t.insert(p - 1, x));
    }
}

/// Texts in non-decreasing text order.
pub open spec fn texts_sorted(s: Seq<Seq<char>>) -> bool {
    forall|i: int, j: int| 0 <= i < j < s.len() ==> !chars_lt(#[trigger] s[j], #[trigger] s[i])
}

proof fn lemma_insert_sorted_shape(t: Seq<Seq<char>>, x: Seq<char>)
    ensures
        exists|p: int| 0 <= p <= t.len() && insert_sorted(t, x) == t.insert(p, x),
    decreases t.len(),
{
    if t.len() == 0 {
        assert(insert_sorted(t, x) =~= t.insert(0, x));
    } else if chars_lt(x, t[0]) {
        assert(insert_sorted(t, x) =~= t.insert(0, x));
    } else {
        let rest = t.drop_first();
        lemma_insert_sorted_shape(rest, x);
        let p = choose|p: int| 0 <= p <= rest.len() && insert_sorted(rest, x) == rest.insert(p, x);
        assert(insert_sorted(t, x) =~= t.insert(p + 1, x));
    }
}

proof fn lemma_insert_sorted_sorted(t: Seq<Seq<char>>, x: Seq<char>)
    requires
        texts_sorted(t),
    ensures
        texts_sorted(insert_sorted(t, x)),
    decreases t.len(),
{
    let r = insert_sorted(t, x);
    if t.len() == 0 {
    } else if chars_lt(x, t[0]) {
        assert forall|i: int, j: int| 0 <= i < j < r.len() implies !chars_lt(
            #[trigger] r[j],
            #[trigger] r[i],
        ) by {
            if i == 0 {
                assert(r[j] == t[j - 1]);
                if chars_lt(t[j - 1], x) {
                    crate::text::lemma_chars_lt_transitive(t[j - 1], x, t[0]);
                    if j - 1 > 0 {
                        assert(!chars_lt(t[j - 1], t[0]));
                    } else {
                        crate::text::lemma_chars_lt_irreflexive(t[0]);
                    }
                }
            } else {
                assert(r[i] == t[i - 1] && r[j] == t[j - 1]);
            }
        }
    } else {
        let rest = t.drop_first();
        assert forall|i: int, j: int| 0 <= i < j < rest.len() implies !chars_lt(
            #[trigger] rest[j],
            #[trigger] rest[i],
        ) by {
            assert(rest[i] == t[i + 1] && rest[j] == t[j + 1]);
        }
        lemma_insert_sorted_sorted(rest, x);
        lemma_insert_sorted_shape(rest, x);
        let p = choose|p: int| 0 <= p <= rest.len() && insert_sorted(rest, x) == rest.insert(p, x);
        let tail = insert_sorted(rest, x);
        assert(r == seq![t[0]] + tail);
        assert forall|i: int, j: int| 0 <= i < j < r.len() implies !chars_lt(
            #[trigger] r[j],
            #[trigger] r[i],
        ) by {
            if i == 0 {
                let k = j - 1;
                assert(r[j] == tail[k]);
                if k < p {
                    assert(tail[k] == rest[k] && rest[k] == t[k + 1]);
                } else if k == p {
                    assert(tail[k] == x);
                } else {
                    assert(tail[k] == rest[k - 1] && rest[k - 1] == t[k]);
                }
            } else {
                assert(r[i] == tail[i - 1] && r[j] == tail[j - 1]);
            }
        }
    }
}

/// Sorting texts puts them in non-decreasing text order and keeps every text, as many times as
/// it occurs.
pub proof fn law_sorted_texts(s: Seq<Seq<char>>)
    ensures
        texts_sorted(sort_texts_spec(s)),
        sort_texts_spec(s).to_multiset() == s.to_multiset(),
    decreases s.len(),
{
    broadcast use vstd::seq_lib::group_to_multiset_ensures;

    if s.len() > 0 {
        let p = s.drop_last();
        law_sorted_texts(p);
        let sp = sort_texts_spec(p);
        lemma_insert_sorted_sorted(sp, s.last());
        lemma_insert_sorted_shape(sp, s.last());
        let k = choose|k: int| 0 <= k <= sp.len() && insert_sorted(sp, s.last()) == sp.insert(k, s.last());
        assert(s =~= p.push(s.last()));
        assert(sp.insert(k, s.last()).to_multiset() == sp.to_multiset().insert(s.last()));
    }
}

/// Whether `a` comes before `b` in text order.
pub fn text_less(a: &str, b: &str) -> (r: bool)
    ensures
        r == chars_lt(a@, b@),
{
    match compare_text(a, b) {
        TextOrder::Less => true,
        TextOrder::Equal => {
            proof {
                crate::text::lemma_chars_lt_irreflexive(a@);
            }
            false
        },
        TextOrder::Greater => false,
    }
}

/// Sorts texts by insertion, as `sort_texts_spec` says.
pub fn sort_texts(v: Vec<String>) -> (s: Vec<String>)
    ensures
        text_views(s@) == sort_texts_spec(text_views(v@)),
{
    let ghost tv = text_views(v@);
    let mut s: Vec<String> = Vec::new();
    let mut v = v;
    let n = v.len();
    let mut i: usize = 0;
    assert(text_views(s@) =~= sort_texts_spec(tv.take(0)));
    while i < n
        invariant
            n == v.len(),
            tv == text_views(v@),
            i <= n,
            text_views(s@) == sort_texts_spec(tv.take(i as int)),
        decreases n - i,
    {
        let x = v[i].clone();
        let ghost sv = text_views(s@);
        let mut p: usize = 0;
        while p < s.len() && !text_less(x.as_str(), s[p].as_str())
            invariant
                p <= s.len(),
                sv == text_views(s@),
                x@ == tv[i as int],
                forall|q: int| 0 <= q < p ==> !chars_lt(x@, #[trigger] sv[q]),
            decreases s.len() - p,
        {
            p = p + 1;
        }
        proof {
            lemma_insert_sorted_at(sv, x@, p as int);
            let t1 = tv.take(i + 1);
            assert(t1.drop_last() =~= tv.take(i as int));
            assert(t1.last() == x@);
        }
        s.insert(p, x);
        assert(text_views(s@) =~= sv.insert(p as int, tv[i as int]));
        i = i + 1;
    }
    assert(tv.take(n as int) =~= tv);
    s
}

/// One entry of a directory listing.
pub struct DirEntryInfo {
    pub path: String,
    pub file_name: String,
    pub is_file: bool,
}

/// What an input path turned out to be.
pub enum InputKind {
    /// Anything but a directory: used as it is.
    File,
    /// A directory, with its entries.
    Directory(Vec<DirEntryInfo>),
    /// A directory whose entries could not be read, with the reason.
    Unreadable(String),
}

/// Why the input files could not be resolved.
#[derive(Debug, PartialEq, Eq)]
pub enum ResolveError {
    /// The directory holds no file whose name begins with `access.log`.
    NoAccessLogs(String),
    /// No input file at all.
    NoInputs,
    /// A directory could not be read.
    Unreadable(String),
}

/// The name prefix of access logs.
pub open spec fn access_log_prefix() -> Seq<char> {
    seq!['a', 'c', 'c', 'e', 's', 's', '.', 'l', 'o', 'g']
}

/// Whether a file name begins with `access.log`.
pub open spec fn is_access_log_name(name: Seq<char>) -> bool {
    name.len() >= 10 && name.take(10) == access_log_prefix()
}

/// The paths of the entries that are files named like access logs, in listing order.
pub open spec fn access_log_paths(entries: Seq<DirEntryInfo>) -> Seq<Seq<char>>
    decreases entries.len(),
{
    if entries.len() == 0 {
        Seq::empty()
    } else {
        let rest = access_log_paths(entries.drop_last());
        let e = entries.last();
        if is_access_log_name(e.file_name@) && e.is_file {
            rest.push(e.path@)
        } else {
            rest
        }
    }
}

/// The paths of a directory listing are pairwise different, as the entries of one directory
/// are.
pub open spec fn listing_paths_distinct(entries: Seq<DirEntryInfo>) -> bool {
    forall|i: int, j: int| 0 <= i < j < entries.len() ==> #[trigger] entries[i].path@ != #[trigger] entries[j].path@
}

proof fn lemma_access_log_paths_from(entries: Seq<DirEntryInfo>)
    ensures
        forall|q: int|
            #![trigger access_log_paths(entries)[q]]
            0 <= q < access_log_paths(entries).len() ==> exists|i: int|
                0 <= i < entries.len() && #[trigger] entries[i].path@ == access_log_paths(entries)[q],
    decreases entries.len(),
{
    if entries.len() > 0 {
        let p = entries.drop_last();
        lemma_access_log_paths_from(p);
        let rest = access_log_paths(p);
        let all = access_log_paths(entries);
        assert forall|q: int| #![trigger all[q]] 0 <= q < all.len() implies exists|i: int|
            0 <= i < entries.len() && #[trigger] entries[i].path@ == all[q] by {
            if q < rest.len() {
                assert(all[q] == rest[q]);
                let i = choose|i: int| 0 <= i < p.len() && #[trigger] p[i].path@ == rest[q];
                assert(entries[i] == p[i]);
            } else {
                assert(all[q] == entries[entries.len() - 1].path@);
            }
        }
    }
}

proof fn lemma_access_log_paths_distinct(entries: Seq<DirEntryInfo>)
    requires
        listing_paths_distinct(entries),
    ensures
        access_log_paths(entries).no_duplicates(),
    decreases entries.len(),
{
    if entries.len() > 0 {
        let p = entries.drop_last();
        assert forall|i: int, j: int| 0 <= i < j < p.len() implies #[trigger] p[i].path@ != #[trigger] p[j].path@ by {
            assert(p[i] == entries[i] && p[j] == entries[j]);
        }
        lemma_access_log_paths_distinct(p);
        lemma_access_log_paths_from(p);
        let rest = access_log_paths(p);
        let last = entries.last();
        assert forall|q: int| 0 <= q < rest.len() implies rest[q] != last.path@ by {
            let i = choose|i: int| 0 <= i < p.len() && #[trigger] p[i].path@ == rest[q];
            assert(p[i] == entries[i]);
            assert(entries[i].path@ != entries[entries.len() - 1].path@);
        }
    }
}

/// With the paths of a listing pairwise different, its access logs come out in strictly
/// increasing text order: sorted, and each at most once.
pub proof fn law_discovered_strictly_increasing(entries: Seq<DirEntryInfo>)
    requires
        listing_paths_distinct(entries),
    ensures
        forall|i: int, j: int|
            0 <= i < j < sort_texts_spec(access_log_paths(entries)).len() ==> chars_lt(
                #[trigger] sort_texts_spec(access_log_paths(entries))[i],
                #[trigger] sort_texts_spec(access_log_paths(entries))[j],
            ),
{
    let a = access_log_paths(entries);
    let r = sort_texts_spec(a);
    lemma_access_log_paths_distinct(entries);
    law_sorted_texts(a);
    a.lemma_multiset_has_no_duplicates();
    r.lemma_multiset_has_no_duplicates_conv();
    assert forall|i: int, j: int| 0 <= i < j < r.len() implies chars_lt(#[trigger] r[i], #[trigger] r[j]) by {
        assert(r[i] != r[j]);
        assert(!chars_lt(r[j], r[i]));
        crate::text::lemma_chars_lt_total(r[i], r[j]);
    }
}

/// A name counts as an access log's exactly when it begins with the ten characters
/// `access.log`, whatever follows them (nothing, a rotation number, a date).
pub proof fn law_access_log_names(suffix: Seq<char>, name: Seq<char>)
    ensures
        is_access_log_name(seq!['a', 'c', 'c', 'e', 's', 's', '.', 'l', 'o', 'g'] + suffix),
        is_access_log_name(name) <==> name.len() >= 10 && name.take(10) == seq![
            'a',
            'c',
            'c',
            'e',
            's',
            's',
            '.',
            'l',
            'o',
            'g',
        ],
{
    let p = seq!['a', 'c', 'c', 'e', 's', 's', '.', 'l', 'o', 'g'];
    assert((p + suffix).take(10) =~= p);
}

proof fn lemma_access_log_paths_keep(entries: Seq<DirEntryInfo>, i: int)
    requires
        0 <= i < entries.len(),
        entries[i].is_file,
        is_access_log_name(entries[i].file_name@),
    ensures
        access_log_paths(entries).contains(entries[i].path@),
    decreases entries.len(),
{
    let p = entries.drop_last();
    if i < entries.len() - 1 {
        assert(p[i] == entries[i]);
        lemma_access_log_paths_keep(p, i);
        let rest = access_log_paths(p);
        let k = choose|k: int| 0 <= k < rest.len() && rest[k] == entries[i].path@;
        assert(access_log_paths(entries)[k] == rest[k]);
    } else {
        let all = access_log_paths(entries);
        assert(all[all.len() - 1] == entries[i].path@);
    }
}

proof fn lemma_access_log_paths_only(entries: Seq<DirEntryInfo>, q: int)
    requires
        0 <= q < access_log_paths(entries).len(),
    ensures
        exists|i: int|
            0 <= i < entries.len() && entries[i].is_file && is_access_log_name(entries[i].file_name@)
                && #[trigger] entries[i].path@ == access_log_paths(entries)[q],
    decreases entries.len(),
{
    let p = entries.drop_last();
    let rest = access_log_paths(p);
    if q < rest.len() {
        lemma_access_log_paths_only(p, q);
        let i = choose|i: int|
            0 <= i < p.len() && p[i].is_file && is_access_log_name(p[i].file_name@)
                && #[trigger] p[i].path@ == rest[q];
        assert(entries[i] == p[i]);
    } else {
        let i = entries.len() - 1;
        assert(entries[i].path@ == access_log_paths(entries)[q]);
    }
}

/// Discovery keeps every file of the listing whose name begins with `access.log`, whatever
/// follows (`access.log.1`, `access.log-20260312`, ...), and nothing else: each path it gives is
/// that of such a file.
pub proof fn law_discover_keeps_every_access_log(entries: Seq<DirEntryInfo>, i: int, suffix: Seq<char>, q: int)
    ensures
        0 <= i < entries.len() && entries[i].is_file && entries[i].file_name@ == seq![
            'a',
            'c',
            'c',
            'e',
            's',
            's',
            '.',
            'l',
            'o',
            'g',
        ] + suffix ==> sort_texts_spec(access_log_paths(entries)).contains(entries[i].path@),
        0 <= q < sort_texts_spec(access_log_paths(entries)).len() ==> exists|j: int|
            0 <= j < entries.len() && entries[j].is_file && entries[j].file_name@.len() >= 10
                && entries[j].file_name@.take(10) == seq!['a', 'c', 'c', 'e', 's', 's', '.', 'l', 'o', 'g']
                && #[trigger] entries[j].path@ == sort_texts_spec(access_log_paths(entries))[q],
{
    broadcast use vstd::seq_lib::group_to_multiset_ensures;

    let a = access_log_paths(entries);
    let r = sort_texts_spec(a);
    law_sorted_texts(a);
    if 0 <= i < entries.len() && entries[i].is_file && entries[i].file_name@ == seq![
        'a',
        'c',
        'c',
        'e',
        's',
        's',
        '.',
        'l',
        'o',
        'g',
    ] + suffix {
        law_access_log_names(suffix, entries[i].file_name@);
        lemma_access_log_paths_keep(entries, i);
        assert(a.to_multiset().count(entries[i].path@) > 0);
        assert(r.to_multiset().count(entries[i].path@) > 0);
    }
    if 0 <= q < r.len() {
        assert(r.contains(r[q]));
        assert(r.to_multiset().count(r[q]) > 0);
        assert(a.contains(r[q]));
        let k = choose|k: int| 0 <= k < a.len() && a[k] == r[q];
        lemma_access_log_paths_only(entries, k);
    }
}

fn has_access_log_name(name: &str) -> (r: bool)
    ensures
        r == is_access_log_name(name@),
{
    let c = chars_of(name);
    if c.len() < 10 {
        return false;
    }
    let r = c[0] == 'a' && c[1] == 'c' && c[2] == 'c' && c[3] == 'e' && c[4] == 's' && c[5] == 's'
        && c[6] == '.' && c[7] == 'l' && c[8] == 'o' && c[9] == 'g';
    assert(r == (c@.take(10) =~= access_log_prefix()));
    r
}

/// The access logs of a directory listing: the files whose names begin with `access.log`,
/// sorted by path.
pub fn discover_access_logs(entries: &Vec<DirEntryInfo>) -> (r: Vec<String>)
    ensures
        text_views(r@) == sort_texts_spec(access_log_paths(entries@)),
{
    let mut found: Vec<String> = Vec::new();
    let n = entries.len();
    assert(text_views(found@) =~= access_log_paths(entries@.take(0)));
    for i in 0..n
        invariant
            n == entries@.len(),
            text_views(found@) == access_log_paths(entries@.take(i as int)),
    {
        let e = &entries[i];
        let ghost t1 = entries@.take(i + 1);
        assert(t1.drop_last() =~= entries@.take(i as int));
        assert(t1.last() == entries@[i as int]);
        if has_access_log_name(e.file_name.as_str()) && e.is_file {
            found.push(e.path.clone());
        }
        assert(text_views(found@) =~= access_log_paths(t1));
    }
    assert(entries@.take(n as int) =~= entries@);
    sort_texts(found)
}

/// Why resolution failed, as texts.
pub enum ResolveFailure {
    NoAccessLogs(Seq<char>),
    NoInputs,
    Unreadable(Seq<char>),
}

/// The meaning of a resolution error.
pub open spec fn failure_of(e: ResolveError) -> ResolveFailure {
    match e {
        ResolveError::NoAccessLogs(d) => ResolveFailure::NoAccessLogs(d@),
        ResolveError::NoInputs => ResolveFailure::NoInputs,
        ResolveError::Unreadable(m) => ResolveFailure::Unreadable(m@),
    }
}

/// The files that the first `n` inputs resolve to, in order: a file stands for itself, a
/// directory for its sorted access logs; a directory without access logs, or one that could
/// not be read, stops the resolution.
pub open spec fn resolve_upto(files: Seq<String>, kinds: Seq<InputKind>, n: int) -> Result<
    Seq<Seq<char>>,
    ResolveFailure,
>
    decreases n,
{
    if n <= 0 {
        Ok(Seq::empty())
    } else {
        match resolve_upto(files, kinds, n - 1) {
            Err(e) => Err(e),
            Ok(acc) => match kinds[n - 1] {
                InputKind::File => Ok(acc.push(files[n - 1]@)),
                InputKind::Directory(es) => {
                    let d = sort_texts_spec(access_log_paths(es@));
                    if d.len() == 0 {
                        Err(ResolveFailure::NoAccessLogs(files[n - 1]@))
                    } else {
                        Ok(acc + d)
                    }
                },
                InputKind::Unreadable(m) => Err(ResolveFailure::Unreadable(m@)),
            },
        }
    }
}

/// The files of all inputs; no file at all is an error.
pub open spec fn resolve_spec(files: Seq<String>, kinds: Seq<InputKind>) -> Result<
    Seq<Seq<char>>,
    ResolveFailure,
> {
    match resolve_upto(files, kinds, files.len() as int) {
        Ok(r) => if r.len() == 0 {
            Err(ResolveFailure::NoInputs)
        } else {
            Ok(r)
        },
        Err(e) => Err(e),
    }
}

/// The files one input stands for: a file itself, a directory its access logs in sorted order,
/// a directory that could not be read none.
pub open spec fn input_files(file: String, kind: InputKind) -> Seq<Seq<char>> {
    match kind {
        InputKind::File => seq![file@],
        InputKind::Directory(es) => sort_texts_spec(access_log_paths(es@)),
        InputKind::Unreadable(_) => Seq::empty(),
    }
}

/// Whether an input resolves: a file does, a directory when it holds access logs.
pub open spec fn input_resolves(file: String, kind: InputKind) -> bool {
    match kind {
        InputKind::File => true,
        InputKind::Directory(_) => input_files(file, kind).len() > 0,
        InputKind::Unreadable(_) => false,
    }
}

/// The files of the first `k` inputs, input by input.
pub open spec fn input_pieces(files: Seq<String>, kinds: Seq<InputKind>, k: int) -> Seq<Seq<Seq<char>>> {
    Seq::new(k as nat, |i: int| input_files(files[i], kinds[i]))
}

proof fn lemma_resolve_upto_closed(files: Seq<String>, kinds: Seq<InputKind>, k: int)
    requires
        0 <= k <= files.len(),
        files.len() == kinds.len(),
    ensures
        resolve_upto(files, kinds, k) is Ok <==> forall|i: int|
            0 <= i < k ==> input_resolves(files[i], #[trigger] kinds[i]),
        resolve_upto(files, kinds, k) is Ok ==> resolve_upto(files, kinds, k) == Ok::<
            Seq<Seq<char>>,
            ResolveFailure,
        >(input_pieces(files, kinds, k).flatten_alt()),
        resolve_upto(files, kinds, k) is Ok && k > 0 ==> input_pieces(files, kinds, k).flatten_alt().len() > 0,
    decreases k,
{
    if k > 0 {
        lemma_resolve_upto_closed(files, kinds, k - 1);
        let pk = input_pieces(files, kinds, k);
        assert(pk.drop_last() =~= input_pieces(files, kinds, k - 1));
        assert(pk.last() == input_files(files[k - 1], kinds[k - 1]));
        if resolve_upto(files, kinds, k - 1) is Err {
            assert(!input_resolves(files[k - 1], kinds[k - 1]) || !(forall|i: int|
                0 <= i < k - 1 ==> input_resolves(files[i], #[trigger] kinds[i])));
        } else {
            let acc = input_pieces(files, kinds, k - 1).flatten_alt();
            match kinds[k - 1] {
                InputKind::File => {
                    assert(acc.push(files[k - 1]@) =~= acc + seq![files[k - 1]@]);
                },
                _ => {},
            }
        }
    } else {
        assert(input_pieces(files, kinds, k).len() == 0);
    }
}

/// Resolution in closed form: it succeeds exactly when there is at least one input and every
/// input resolves (no unreadable directory, no directory without access logs), and then gives
/// the files of the inputs one after the other, in input order.
pub proof fn law_resolve_closed_form(files: Seq<String>, kinds: Seq<InputKind>)
    requires
        files.len() == kinds.len(),
    ensures
        resolve_spec(files, kinds) is Ok <==> files.len() > 0 && forall|i: int|
            0 <= i < files.len() ==> input_resolves(files[i], #[trigger] kinds[i]),
        resolve_spec(files, kinds) is Ok ==> resolve_spec(files, kinds) == Ok::<
            Seq<Seq<char>>,
            ResolveFailure,
        >(input_pieces(files, kinds, files.len() as int).flatten()),
{
    let n = files.len() as int;
    lemma_resolve_upto_closed(files, kinds, n);
    input_pieces(files, kinds, n).lemma_flatten_and_flatten_alt_are_equivalent();
    if n == 0 {
        assert(input_pieces(files, kinds, n).flatten_alt().len() == 0);
    }
}

proof fn lemma_resolve_error_stays(files: Seq<String>, kinds: Seq<InputKind>, k: int, m: int)
    requires
        0 <= k <= m,
        resolve_upto(files, kinds, k) is Err,
    ensures
        resolve_upto(files, kinds, m) == resolve_upto(files, kinds, k),
    decreases m - k,
{
    if k < m {
        lemma_resolve_error_stays(files, kinds, k, m - 1);
    }
}

impl Args {
    /// Resolves the input paths into log files, given what each input path is (`kinds[i]` for
    /// `files[i]`).
    pub fn resolve_input_files(&self, kinds: &Vec<InputKind>) -> (r: Result<Vec<String>, ResolveError>)
        requires
            kinds.len() == self.files.len(),
        ensures
            match r {
                Ok(v) => resolve_spec(self.files@, kinds@) == Ok::<Seq<Seq<char>>, ResolveFailure>(text_views(v@)),
                Err(e) => resolve_spec(self.files@, kinds@) == Err::<Seq<Seq<char>>, ResolveFailure>(failure_of(e)),
            },
    {
        let mut resolved: Vec<String> = Vec::new();
        let n = self.files.len();
        assert(text_views(resolved@) =~= Seq::<Seq<char>>::empty());
        for i in 0..n
            invariant
                n == self.files.len(),
                kinds.len() == n,
                resolve_upto(self.files@, kinds@, i as int) == Ok::<Seq<Seq<char>>, ResolveFailure>(text_views(resolved@)),
        {
            match &kinds[i] {
                InputKind::File => {
                    let ghost before = text_views(resolved@);
                    resolved.push(self.files[i].clone());
                    assert(text_views(resolved@) =~= before.push(self.files@[i as int]@));
                },
                InputKind::Directory(es) => {
                    let mut discovered = discover_access_logs(es);
                    if discovered.len() == 0 {
                        proof {
                            lemma_resolve_error_stays(self.files@, kinds@, i + 1, n as int);
                        }
                        return Err(ResolveError::NoAccessLogs(self.files[i].clone()));
                    }
                    let ghost before = text_views(resolved@);
                    let ghost found = text_views(discovered@);
                    resolved.append(&mut discovered);
                    assert(text_views(resolved@) =~= before + found);
                },
                InputKind::Unreadable(m) => {
                    proof {
                        lemma_resolve_error_stays(self.files@, kinds@, i + 1, n as int);
                    }
                    return Err(ResolveError::Unreadable(m.clone()));
                },
            }
        }
        if resolved.len() == 0 {
            return Err(ResolveError::NoInputs);
        }
        Ok(resolved)
    }
}

} // verus!
