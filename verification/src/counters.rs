use vstd::prelude::*;

use crate::text::{
    chars_lt, chars_of, compare_chars, lemma_chars_lt_asymmetric, lemma_chars_lt_irreflexive,
    lemma_chars_lt_total, lemma_chars_lt_transitive, TextOrder,
};

verus! {

/// The mathematical content of a counter: a number of visits and of bytes.
pub struct Tally {
    pub visits: nat,
    pub traffic: nat,
}

pub open spec fn zero_tally() -> Tally {
    Tally { visits: 0, traffic: 0 }
}

/// One more visit carrying `bytes` bytes.
pub open spec fn tally_hit(t: Tally, bytes: nat) -> Tally {
    Tally { visits: t.visits + 1, traffic: t.traffic + bytes }
}

pub open spec fn tally_add(a: Tally, b: Tally) -> Tally {
    Tally { visits: a.visits + b.visits, traffic: a.traffic + b.traffic }
}

/// The tally stored for `k`, or zero when there is none (the `or_default` of an entry).
pub open spec fn tally_at(m: Map<Seq<char>, Tally>, k: Seq<char>) -> Tally {
    if m.contains_key(k) {
        m[k]
    } else {
        zero_tally()
    }
}

/// `m` after one hit of `bytes` bytes was counted under `k`.
pub open spec fn map_hit(m: Map<Seq<char>, Tally>, k: Seq<char>, bytes: nat) -> Map<
    Seq<char>,
    Tally,
> {
    m.insert(k, tally_hit(tally_at(m, k), bytes))
}

/// The key-wise sum of two maps of tallies.
pub open spec fn merge_tallies(a: Map<Seq<char>, Tally>, b: Map<Seq<char>, Tally>) -> Map<
    Seq<char>,
    Tally,
> {
    Map::new(
        |k: Seq<char>| a.contains_key(k) || b.contains_key(k),
        |k: Seq<char>| tally_add(tally_at(a, k), tally_at(b, k)),
    )
}

/// Whether the key-wise sum of two maps fits in 64-bit counters.
pub open spec fn can_merge_tallies(a: Map<Seq<char>, Tally>, b: Map<Seq<char>, Tally>) -> bool {
    forall|k: Seq<char>|
        a.contains_key(k) && b.contains_key(k) ==> #[trigger] a[k].visits + b[k].visits
            <= u64::MAX && a[k].traffic + b[k].traffic <= u64::MAX
}

/// Visits and traffic counted for one bucket.
#[derive(Clone, Copy, Debug)]
pub struct Counter {
    pub visits: u64,
    pub traffic_bytes: u64,
}

impl View for Counter {
    type V = Tally;

    open spec fn view(&self) -> Tally {
        Tally { visits: self.visits as nat, traffic: self.traffic_bytes as nat }
    }
}

impl Default for Counter {
    fn default() -> (c: Self)
        ensures
            c.visits == 0,
            c.traffic_bytes == 0,
    {
        Counter { visits: 0, traffic_bytes: 0 }
    }
}

impl Counter {
    /// Counts one visit of `bytes` bytes.
    pub fn add_hit(&mut self, bytes: u64)
        requires
            old(self).visits < u64::MAX,
            old(self).traffic_bytes + bytes <= u64::MAX,
        ensures
            final(self).visits == old(self).visits + 1,
            final(self).traffic_bytes == old(self).traffic_bytes + bytes,
    {
        self.visits += 1;
        self.traffic_bytes += bytes;
    }

    /// Adds the counts of `other`.
    pub fn merge(&mut self, other: Counter)
        requires
            old(self).visits + other.visits <= u64::MAX,
            old(self).traffic_bytes + other.traffic_bytes <= u64::MAX,
        ensures
            final(self).visits == old(self).visits + other.visits,
            final(self).traffic_bytes == old(self).traffic_bytes + other.traffic_bytes,
    {
        self.visits += other.visits;
        self.traffic_bytes += other.traffic_bytes;
    }
}

/// Counting one hit is merging a counter of one visit with those bytes.
pub proof fn law_hit_is_merge_of_single_visit(c: Counter, bytes: u64)
    ensures
        tally_hit(c@, bytes as nat) == tally_add(c@, Counter { visits: 1, traffic_bytes: bytes }@),
{
}

/// Keys strictly increasing in text order.
pub open spec fn keys_increasing(s: Seq<(String, Counter)>) -> bool {
    forall|i: int, j: int| 0 <= i < j < s.len() ==> chars_lt(#[trigger] s[i].0@, #[trigger] s[j].0@)
}

/// Whether `k` is a key of the entries.
pub open spec fn has_key(s: Seq<(String, Counter)>, k: Seq<char>) -> bool {
    exists|i: int| 0 <= i < s.len() && #[trigger] s[i].0@ == k
}

/// The tally of the last entry whose key is `k`.
pub open spec fn lookup(s: Seq<(String, Counter)>, k: Seq<char>) -> Tally
    decreases s.len(),
{
    if s.len() == 0 {
        zero_tally()
    } else if s.last().0@ == k {
        s.last().1@
    } else {
        lookup(s.drop_last(), k)
    }
}

/// The map that a sequence of entries describes.
pub open spec fn entries_view(s: Seq<(String, Counter)>) -> Map<Seq<char>, Tally> {
    Map::new(|k: Seq<char>| has_key(s, k), |k: Seq<char>| lookup(s, k))
}

proof fn lemma_lookup(s: Seq<(String, Counter)>, i: int)
    requires
        keys_increasing(s),
        0 <= i < s.len(),
    ensures
        lookup(s, s[i].0@) == s[i].1@,
    decreases s.len(),
{
    if i < s.len() - 1 {
        assert(chars_lt(s[i].0@, s[s.len() - 1].0@));
        lemma_chars_lt_irreflexive(s[i].0@);
        let t = s.drop_last();
        assert(t[i] == s[i]);
        lemma_lookup(t, i);
    }
}

/// A sequence of entries in increasing key order that holds exactly the map `m`.
pub open spec fn entries_describe(s: Seq<(String, Counter)>, m: Map<Seq<char>, Tally>) -> bool {
    &&& keys_increasing(s)
    &&& s.len() == m.dom().len()
    &&& m.dom().finite()
    &&& forall|i: int| 0 <= i < s.len() ==> m.contains_key(#[trigger] s[i].0@) && m[s[i].0@] == s[i].1@
    &&& forall|k: Seq<char>| #[trigger] m.contains_key(k) ==> has_key(s, k)
}

proof fn lemma_view_index(s: Seq<(String, Counter)>, i: int)
    requires
        keys_increasing(s),
        0 <= i < s.len(),
    ensures
        entries_view(s).contains_key(s[i].0@),
        entries_view(s)[s[i].0@] == s[i].1@,
{
    let k = s[i].0@;
    assert(has_key(s, k));
    lemma_lookup(s, i);
}

proof fn lemma_view_properties(s: Seq<(String, Counter)>)
    requires
        keys_increasing(s),
    ensures
        entries_describe(s, entries_view(s)),
{
    let m = entries_view(s);
    let keys = s.map_values(|e: (String, Counter)| e.0@);
    assert forall|i: int| 0 <= i < s.len() implies m.contains_key(#[trigger] s[i].0@) && m[s[i].0@]
        == s[i].1@ by {
        lemma_view_index(s, i);
    }
    assert(m.dom() =~= keys.to_set()) by {
        assert forall|k: Seq<char>| m.dom().contains(k) implies keys.to_set().contains(k) by {
            let i = choose|i: int| 0 <= i < s.len() && #[trigger] s[i].0@ == k;
            assert(keys[i] == k);
        }
        assert forall|k: Seq<char>| keys.to_set().contains(k) implies m.dom().contains(k) by {
            let i = choose|i: int| 0 <= i < keys.len() && keys[i] == k;
            assert(s[i].0@ == k);
        }
    }
    assert(keys.no_duplicates()) by {
        assert forall|i: int, j: int| 0 <= i < keys.len() && 0 <= j < keys.len() && i != j implies keys[i]
            != keys[j] by {
            if i < j {
                assert(chars_lt(s[i].0@, s[j].0@));
                lemma_chars_lt_irreflexive(s[i].0@);
            } else {
                assert(chars_lt(s[j].0@, s[i].0@));
                lemma_chars_lt_irreflexive(s[j].0@);
            }
        }
    }
    keys.unique_seq_to_set();
    vstd::seq_lib::seq_to_set_is_finite(keys);
}

proof fn lemma_view_insert(s: Seq<(String, Counter)>, p: int, e: (String, Counter))
    requires
        keys_increasing(s),
        0 <= p <= s.len(),
        forall|i: int| 0 <= i < p ==> chars_lt(#[trigger] s[i].0@, e.0@),
        forall|i: int| p <= i < s.len() ==> chars_lt(e.0@, #[trigger] s[i].0@),
    ensures
        keys_increasing(s.insert(p, e)),
        entries_view(s.insert(p, e)) == entries_view(s).insert(e.0@, e.1@),
{
    let t = s.insert(p, e);
    assert forall|i: int, j: int| 0 <= i < j < t.len() implies chars_lt(#[trigger] t[i].0@, #[trigger] t[j].0@) by {
        if j < p {
            assert(t[i] == s[i] && t[j] == s[j]);
        } else if j == p {
            assert(t[i] == s[i]);
        } else if i < p {
            assert(t[i] == s[i] && t[j] == s[j - 1]);
            assert(chars_lt(e.0@, s[j - 1].0@));
            lemma_chars_lt_transitive(s[i].0@, e.0@, s[j - 1].0@);
        } else if i == p {
            assert(t[j] == s[j - 1]);
        } else {
            assert(t[i] == s[i - 1] && t[j] == s[j - 1]);
        }
    }
    let a = entries_view(t);
    let b = entries_view(s).insert(e.0@, e.1@);
    assert forall|k: Seq<char>| #[trigger] a.contains_key(k) == b.contains_key(k) by {
        if a.contains_key(k) {
            let i = choose|i: int| 0 <= i < t.len() && #[trigger] t[i].0@ == k;
            if i < p {
                assert(s[i].0@ == k);
                assert(has_key(s, k));
            } else if i > p {
                assert(s[i - 1].0@ == k);
                assert(has_key(s, k));
            }
        }
        if b.contains_key(k) && k != e.0@ {
            let i = choose|i: int| 0 <= i < s.len() && #[trigger] s[i].0@ == k;
            if i < p {
                assert(t[i].0@ == k);
            } else {
                assert(t[i + 1].0@ == k);
            }
            assert(has_key(t, k));
        }
        if k == e.0@ {
            assert(t[p].0@ == k);
            assert(has_key(t, k));
        }
    }
    assert forall|k: Seq<char>| a.contains_key(k) implies #[trigger] a[k] == b[k] by {
        let i = choose|i: int| 0 <= i < t.len() && #[trigger] t[i].0@ == k;
        lemma_view_index(t, i);
        if i < p {
            assert(t[i] == s[i]);
            lemma_view_index(s, i);
            assert(chars_lt(k, e.0@));
            lemma_chars_lt_irreflexive(k);
        } else if i > p {
            assert(t[i] == s[i - 1]);
            lemma_view_index(s, i - 1);
            assert(chars_lt(e.0@, k));
            lemma_chars_lt_irreflexive(k);
        }
    }
    assert(a =~= b);
}

proof fn lemma_view_update(s: Seq<(String, Counter)>, p: int, c: Counter)
    requires
        keys_increasing(s),
        0 <= p < s.len(),
    ensures
        keys_increasing(s.update(p, (s[p].0, c))),
        entries_view(s.update(p, (s[p].0, c))) == entries_view(s).insert(s[p].0@, c@),
{
    let t = s.update(p, (s[p].0, c));
    assert forall|i: int, j: int| 0 <= i < j < t.len() implies chars_lt(#[trigger] t[i].0@, #[trigger] t[j].0@) by {
        assert(t[i].0@ == s[i].0@ && t[j].0@ == s[j].0@);
    }
    let a = entries_view(t);
    let b = entries_view(s).insert(s[p].0@, c@);
    assert forall|k: Seq<char>| #[trigger] a.contains_key(k) == b.contains_key(k) by {
        if a.contains_key(k) {
            let i = choose|i: int| 0 <= i < t.len() && #[trigger] t[i].0@ == k;
            assert(s[i].0@ == k);
            assert(has_key(s, k));
        }
        if b.contains_key(k) {
            if k == s[p].0@ {
                assert(t[p].0@ == k);
            } else {
                let i = choose|i: int| 0 <= i < s.len() && #[trigger] s[i].0@ == k;
                assert(t[i].0@ == k);
            }
        }
    }
    assert forall|k: Seq<char>| a.contains_key(k) implies #[trigger] a[k] == b[k] by {
        let i = choose|i: int| 0 <= i < t.len() && #[trigger] t[i].0@ == k;
        lemma_view_index(t, i);
        if i != p {
            lemma_view_index(s, i);
            if k == s[p].0@ {
                if i < p {
                    assert(chars_lt(s[i].0@, s[p].0@));
                } else {
                    assert(chars_lt(s[p].0@, s[i].0@));
                }
                lemma_chars_lt_irreflexive(k);
            }
        }
    }
    assert(a =~= b);
}

proof fn lemma_view_push(s: Seq<(String, Counter)>, e: (String, Counter))
    requires
        keys_increasing(s),
        forall|i: int| 0 <= i < s.len() ==> chars_lt(#[trigger] s[i].0@, e.0@),
    ensures
        keys_increasing(s.push(e)),
        entries_view(s.push(e)) == entries_view(s).insert(e.0@, e.1@),
{
    assert(s.insert(s.len() as int, e) =~= s.push(e));
    lemma_view_insert(s, s.len() as int, e);
}

/// Where a key stands among sorted entries.
enum Slot {
    Found(usize),
    Missing(usize),
}

/// Counters keyed by text, held in increasing key order.
pub struct CounterMap {
    entries: Vec<(String, Counter)>,
}

impl View for CounterMap {
    type V = Map<Seq<char>, Tally>;

    closed spec fn view(&self) -> Map<Seq<char>, Tally> {
        entries_view(self.entries@)
    }
}

impl CounterMap {
    /// The keys are kept strictly increasing.
    pub closed spec fn wf(&self) -> bool {
        keys_increasing(self.entries@)
    }

    /// An empty map.
    pub fn new() -> (m: Self)
        ensures
            m.wf(),
            m@ == Map::<Seq<char>, Tally>::empty(),
    {
        let m = CounterMap { entries: Vec::new() };
        assert(m@ =~= Map::<Seq<char>, Tally>::empty());
        m
    }

    /// The domain of a well-formed map is finite.
    pub proof fn lemma_wf_finite(&self)
        requires
            self.wf(),
        ensures
            self@.dom().finite(),
    {
        lemma_view_properties(self.entries@);
    }

    /// The entries, in increasing key order.
    pub fn entries(&self) -> (r: &Vec<(String, Counter)>)
        requires
            self.wf(),
        ensures
            entries_describe(r@, self@),
    {
        proof {
            lemma_view_properties(self.entries@);
        }
        &self.entries
    }

    /// The number of keys.
    pub fn len(&self) -> (n: usize)
        requires
            self.wf(),
        ensures
            n == self@.dom().len(),
    {
        proof {
            lemma_view_properties(self.entries@);
        }
        self.entries.len()
    }

    fn locate(&self, key: &Vec<char>) -> (r: Slot)
        requires
            self.wf(),
        ensures
            match r {
                Slot::Found(i) => i < self.entries@.len() && self.entries@[i as int].0@ == key@,
                Slot::Missing(p) => p <= self.entries@.len() && (forall|i: int|
                    0 <= i < p ==> chars_lt(#[trigger] self.entries@[i].0@, key@)) && (forall|i: int|
                    p <= i < self.entries@.len() ==> chars_lt(key@, #[trigger] self.entries@[i].0@)),
            },
    {
        let mut lo: usize = 0;
        let mut hi: usize = self.entries.len();
        while lo < hi
            invariant
                self.wf(),
                lo <= hi <= self.entries@.len(),
                forall|i: int| 0 <= i < lo ==> chars_lt(#[trigger] self.entries@[i].0@, key@),
                forall|i: int| hi <= i < self.entries@.len() ==> chars_lt(key@, #[trigger] self.entries@[i].0@),
            decreases hi - lo,
        {
            let mid = lo + (hi - lo) / 2;
            let probe = chars_of(self.entries[mid].0.as_str());
            match compare_chars(&probe, key) {
                TextOrder::Equal => {
                    return Slot::Found(mid);
                },
                TextOrder::Less => {
                    proof {
                        assert forall|i: int| 0 <= i < mid + 1 implies chars_lt(#[trigger] self.entries@[i].0@, key@) by {
                            if i < mid {
                                lemma_chars_lt_transitive(self.entries@[i].0@, self.entries@[mid as int].0@, key@);
                            }
                        }
                    }
                    lo = mid + 1;
                },
                TextOrder::Greater => {
                    proof {
                        lemma_chars_lt_total(probe@, key@);
                        assert forall|i: int| mid <= i < self.entries@.len() implies chars_lt(key@, #[trigger] self.entries@[i].0@) by {
                            if i > mid {
                                lemma_chars_lt_transitive(key@, self.entries@[mid as int].0@, self.entries@[i].0@);
                            }
                        }
                    }
                    hi = mid;
                },
            }
        }
        Slot::Missing(lo)
    }

    /// The counter stored under `key`.
    pub fn get(&self, key: &str) -> (r: Option<Counter>)
        requires
            self.wf(),
        ensures
            match r {
                Some(c) => self@.contains_key(key@) && self@[key@] == c@,
                None => !self@.contains_key(key@),
            },
    {
        let k = chars_of(key);
        match self.locate(&k) {
            Slot::Found(i) => {
                proof {
                    lemma_view_index(self.entries@, i as int);
                }
                Some(self.entries[i].1)
            },
            Slot::Missing(p) => {
                proof {
                    if self@.contains_key(key@) {
                        let i = choose|i: int| 0 <= i < self.entries@.len() && #[trigger] self.entries@[i].0@ == key@;
                        if i < p {
                            assert(chars_lt(self.entries@[i].0@, key@));
                        } else {
                            assert(chars_lt(key@, self.entries@[i].0@));
                        }
                        lemma_chars_lt_irreflexive(key@);
                    }
                }
                None
            },
        }
    }

    /// Stores `counter` under `key`, replacing what was there.
    pub fn insert(&mut self, key: String, counter: Counter)
        requires
            old(self).wf(),
        ensures
            final(self).wf(),
            final(self)@ == old(self)@.insert(key@, counter@),
    {
        let k = chars_of(key.as_str());
        match self.locate(&k) {
            Slot::Found(i) => {
                proof {
                    lemma_view_update(self.entries@, i as int, counter);
                }
                let ghost s = self.entries@;
                let name = self.entries[i].0.clone();
                self.entries.set(i, (name, counter));
                assert(self.entries@ =~= s.update(i as int, (s[i as int].0, counter)));
            },
            Slot::Missing(p) => {
                proof {
                    lemma_view_insert(self.entries@, p as int, (key, counter));
                }
                self.entries.insert(p, (key, counter));
            },
        }
    }

    /// Adds `counter` to what is stored under `key` (zero when nothing is), as
    /// `entry(key).or_default().merge(counter)` does.
    pub fn merge_counter(&mut self, key: String, counter: Counter)
        requires
            old(self).wf(),
            tally_at(old(self)@, key@).visits + counter.visits <= u64::MAX,
            tally_at(old(self)@, key@).traffic + counter.traffic_bytes <= u64::MAX,
        ensures
            final(self).wf(),
            final(self)@ == old(self)@.insert(key@, tally_add(tally_at(old(self)@, key@), counter@)),
    {
        let k = chars_of(key.as_str());
        match self.locate(&k) {
            Slot::Found(i) => {
                proof {
                    lemma_view_index(self.entries@, i as int);
                }
                let mut c = self.entries[i].1;
                c.merge(counter);
                proof {
                    lemma_view_update(self.entries@, i as int, c);
                }
                let ghost s = self.entries@;
                let name = self.entries[i].0.clone();
                self.entries.set(i, (name, c));
                assert(self.entries@ =~= s.update(i as int, (s[i as int].0, c)));
                assert(c@ == tally_add(tally_at(old(self)@, key@), counter@));
            },
            Slot::Missing(p) => {
                proof {
                    if self@.contains_key(key@) {
                        let i = choose|i: int| 0 <= i < self.entries@.len() && #[trigger] self.entries@[i].0@ == key@;
                        if i < p {
                            assert(chars_lt(self.entries@[i].0@, key@));
                        } else {
                            assert(chars_lt(key@, self.entries@[i].0@));
                        }
                        lemma_chars_lt_irreflexive(key@);
                    }
                    lemma_view_insert(self.entries@, p as int, (key, counter));
                }
                self.entries.insert(p, (key, counter));
                assert(counter@ == tally_add(zero_tally(), counter@));
            },
        }
    }

    /// Whether adding every counter of `other` into this map keeps each counter within 64 bits.
    pub fn can_merge(&self, other: &CounterMap) -> (r: bool)
        requires
            self.wf(),
            other.wf(),
        ensures
            r == can_merge_tallies(self@, other@),
    {
        let entries = other.entries();
        let ghost es = entries@;
        let n = entries.len();
        for i in 0..n
            invariant
                n == es.len(),
                entries@ == es,
                self.wf(),
                entries_describe(es, other@),
                forall|j: int|
                    0 <= j < i && self@.contains_key(#[trigger] es[j].0@) ==> self@[es[j].0@].visits
                        + es[j].1.visits <= u64::MAX && self@[es[j].0@].traffic + es[j].1.traffic_bytes
                        <= u64::MAX,
        {
            match self.get(entries[i].0.as_str()) {
                Some(c) => {
                    if c.visits > u64::MAX - entries[i].1.visits || c.traffic_bytes > u64::MAX
                        - entries[i].1.traffic_bytes {
                        proof {
                            assert(other@.contains_key(es[i as int].0@) && other@[es[i as int].0@]
                                == es[i as int].1@);
                        }
                        return false;
                    }
                },
                None => {},
            }
        }
        proof {
            assert forall|k: Seq<char>|
                self@.contains_key(k) && other@.contains_key(k) implies #[trigger] self@[k].visits
                + other@[k].visits <= u64::MAX && self@[k].traffic + other@[k].traffic <= u64::MAX by {
                assert(has_key(es, k));
                let j = choose|j: int| 0 <= j < es.len() && #[trigger] es[j].0@ == k;
                assert(other@[es[j].0@] == es[j].1@);
            }
        }
        true
    }

    /// Counts one hit of `bytes` bytes under `key`, as `entry(key).or_default().add_hit(bytes)`
    /// does.
    pub fn add_hit(&mut self, key: String, bytes: u64)
        requires
            old(self).wf(),
            tally_at(old(self)@, key@).visits < u64::MAX,
            tally_at(old(self)@, key@).traffic + bytes <= u64::MAX,
        ensures
            final(self).wf(),
            final(self)@ == map_hit(old(self)@, key@, bytes as nat),
    {
        self.merge_counter(key, Counter { visits: 1, traffic_bytes: bytes });
    }
}

/// The map that storing the entries one after the other gives: a later entry replaces an earlier
/// one with the same key.
pub open spec fn entries_inserted(s: Seq<(String, Counter)>) -> Map<Seq<char>, Tally>
    decreases s.len(),
{
    if s.len() == 0 {
        Map::empty()
    } else {
        entries_inserted(s.drop_last()).insert(s.last().0@, s.last().1@)
    }
}

impl CounterMap {
    /// Stores the entries one after the other.
    pub fn from_entries(entries: Vec<(String, Counter)>) -> (m: CounterMap)
        ensures
            m.wf(),
            m@ == entries_inserted(entries@),
    {
        let mut m = CounterMap::new();
        let ghost es = entries@;
        let n = entries.len();
        assert(entries_inserted(es.take(0)) =~= Map::<Seq<char>, Tally>::empty());
        for i in 0..n
            invariant
                n == es.len(),
                entries@ == es,
                m.wf(),
                m@ == entries_inserted(es.take(i as int)),
        {
            let key = entries[i].0.clone();
            let counter = entries[i].1;
            proof {
                let t1 = es.take(i + 1);
                assert(t1.drop_last() =~= es.take(i as int));
                assert(t1.last() == es[i as int]);
            }
            m.insert(key, counter);
        }
        assert(es.take(n as int) =~= es);
        m
    }
}

/// No two entries share a key.
pub open spec fn entry_keys_distinct(s: Seq<(String, Counter)>) -> bool {
    forall|i: int, j: int| 0 <= i < j < s.len() ==> #[trigger] s[i].0@ != #[trigger] s[j].0@
}

proof fn lemma_inserted_distinct(s: Seq<(String, Counter)>)
    requires
        entry_keys_distinct(s),
    ensures
        forall|k: Seq<char>| #[trigger] entries_inserted(s).contains_key(k) <==> has_key(s, k),
        forall|i: int| 0 <= i < s.len() ==> #[trigger] entries_inserted(s)[s[i].0@] == s[i].1@,
    decreases s.len(),
{
    if s.len() > 0 {
        let p = s.drop_last();
        assert forall|i: int, j: int| 0 <= i < j < p.len() implies #[trigger] p[i].0@ != #[trigger] p[j].0@ by {
            assert(p[i] == s[i] && p[j] == s[j]);
        }
        lemma_inserted_distinct(p);
        let last = s.last();
        assert forall|k: Seq<char>| #[trigger] entries_inserted(s).contains_key(k) <==> has_key(s, k) by {
            if has_key(s, k) {
                let i = choose|i: int| 0 <= i < s.len() && #[trigger] s[i].0@ == k;
                if i < s.len() - 1 {
                    assert(p[i] == s[i]);
                    assert(has_key(p, k));
                }
            }
            if entries_inserted(p).contains_key(k) {
                let i = choose|i: int| 0 <= i < p.len() && #[trigger] p[i].0@ == k;
                assert(s[i] == p[i]);
            }
            if k == last.0@ {
                assert(s[s.len() - 1].0@ == k);
            }
        }
        assert forall|i: int| 0 <= i < s.len() implies #[trigger] entries_inserted(s)[s[i].0@] == s[i].1@ by {
            if i < s.len() - 1 {
                assert(s[i].0@ != s[s.len() - 1].0@);
                assert(p[i] == s[i]);
                assert(entries_inserted(p)[p[i].0@] == p[i].1@);
                assert(entries_inserted(s) == entries_inserted(p).insert(last.0@, last.1@));
            }
        }
    }
}

/// Storing the entries of a map one after the other, in any order, gives the map back: what
/// makes saving aggregates as lists of entries and loading them again lose nothing.
pub proof fn law_entries_roundtrip(es: Seq<(String, Counter)>, m: Map<Seq<char>, Tally>)
    requires
        entry_keys_distinct(es),
        forall|i: int| 0 <= i < es.len() ==> m.contains_key(#[trigger] es[i].0@) && m[es[i].0@] == es[i].1@,
        forall|k: Seq<char>| #[trigger] m.contains_key(k) ==> has_key(es, k),
    ensures
        entries_inserted(es) == m,
{
    lemma_inserted_distinct(es);
    let a = entries_inserted(es);
    assert forall|k: Seq<char>| #[trigger] a.contains_key(k) == m.contains_key(k) by {
        if a.contains_key(k) {
            let i = choose|i: int| 0 <= i < es.len() && #[trigger] es[i].0@ == k;
            assert(m.contains_key(es[i].0@));
        }
    }
    assert forall|k: Seq<char>| a.contains_key(k) implies #[trigger] a[k] == m[k] by {
        let i = choose|i: int| 0 <= i < es.len() && #[trigger] es[i].0@ == k;
        assert(a[es[i].0@] == es[i].1@);
    }
    assert(a =~= m);
}

/// The entries of a map, as `entries` gives them, store back into the same map.
pub proof fn law_sorted_entries_roundtrip(es: Seq<(String, Counter)>, m: Map<Seq<char>, Tally>)
    requires
        entries_describe(es, m),
    ensures
        entries_inserted(es) == m,
{
    assert forall|i: int, j: int| 0 <= i < j < es.len() implies #[trigger] es[i].0@ != #[trigger] es[j].0@ by {
        assert(chars_lt(es[i].0@, es[j].0@));
        lemma_chars_lt_irreflexive(es[i].0@);
    }
    law_entries_roundtrip(es, m);
}

/// Adds every counter of `source` into `target`, key by key.
pub fn merge_map(target: &mut CounterMap, source: CounterMap)
    requires
        old(target).wf(),
        source.wf(),
        can_merge_tallies(old(target)@, source@),
    ensures
        final(target).wf(),
        final(target)@ == merge_tallies(old(target)@, source@),
{
    let ghost start = target@;
    let ghost es = source.entries@;
    proof {
        lemma_view_properties(es);
    }
    let entries = source.entries;
    let n = entries.len();
    let mut i: usize = 0;
    assert(entries_view(es.take(0)) =~= Map::<Seq<char>, Tally>::empty());
    assert(merge_tallies(start, Map::<Seq<char>, Tally>::empty()) =~= start);
    while i < n
        invariant
            n == es.len(),
            entries@ == es,
            i <= n,
            keys_increasing(es),
            target.wf(),
            can_merge_tallies(start, entries_view(es)),
            entries_describe(es, entries_view(es)),
            target@ == merge_tallies(start, entries_view(es.take(i as int))),
        decreases n - i,
    {
        let key = entries[i].0.clone();
        let counter = entries[i].1;
        let ghost pre = es.take(i as int);
        let ghost post = es.take(i + 1);
        proof {
            assert(post =~= pre.push(es[i as int]));
            assert(keys_increasing(pre));
            assert forall|j: int| 0 <= j < pre.len() implies chars_lt(#[trigger] pre[j].0@, es[i as int].0@) by {
                assert(pre[j] == es[j]);
            }
            lemma_view_push(pre, es[i as int]);
            // the key is new to the prefix
            if entries_view(pre).contains_key(key@) {
                let j = choose|j: int| 0 <= j < pre.len() && #[trigger] pre[j].0@ == key@;
                assert(chars_lt(pre[j].0@, key@));
                lemma_chars_lt_irreflexive(key@);
            }
            lemma_view_index(es, i as int);
            assert(tally_at(target@, key@) == tally_at(start, key@));
        }
        target.merge_counter(key, counter);
        proof {
            let a = target@;
            let b = merge_tallies(start, entries_view(post));
            assert forall|k: Seq<char>| #[trigger] a.contains_key(k) == b.contains_key(k) by {}
            assert forall|k: Seq<char>| a.contains_key(k) implies #[trigger] a[k] == b[k] by {}
            assert(a =~= b);
        }
        i = i + 1;
    }
    assert(es.take(n as int) =~= es);
}

/// Merging maps of tallies does not depend on their order.
pub proof fn law_merge_tallies_commutative(a: Map<Seq<char>, Tally>, b: Map<Seq<char>, Tally>)
    ensures
        merge_tallies(a, b) == merge_tallies(b, a),
{
    assert(merge_tallies(a, b) =~= merge_tallies(b, a));
}

/// Merging maps of tallies is associative.
pub proof fn law_merge_tallies_associative(
    a: Map<Seq<char>, Tally>,
    b: Map<Seq<char>, Tally>,
    c: Map<Seq<char>, Tally>,
)
    ensures
        merge_tallies(merge_tallies(a, b), c) == merge_tallies(a, merge_tallies(b, c)),
{
    assert(merge_tallies(merge_tallies(a, b), c) =~= merge_tallies(a, merge_tallies(b, c)));
}

/// The empty map is neutral for merging.
pub proof fn law_merge_tallies_empty(a: Map<Seq<char>, Tally>)
    ensures
        merge_tallies(a, Map::empty()) == a,
        merge_tallies(Map::empty(), a) == a,
{
    assert(merge_tallies(a, Map::empty()) =~= a);
    assert(merge_tallies(Map::empty(), a) =~= a);
}

/// All the tallies of a map added up; defined for maps with finitely many keys.
pub open spec fn tally_total(m: Map<Seq<char>, Tally>) -> Tally
    decreases m.dom().len(),
    when m.dom().finite()
{
    if m.dom().len() == 0 {
        zero_tally()
    } else {
        let k = m.dom().choose();
        tally_add(m[k], tally_total(m.remove(k)))
    }
}

/// `m` with `t` added to the tally of `k`.
pub open spec fn add_at(m: Map<Seq<char>, Tally>, k: Seq<char>, t: Tally) -> Map<Seq<char>, Tally> {
    m.insert(k, tally_add(tally_at(m, k), t))
}

proof fn lemma_total_remove(m: Map<Seq<char>, Tally>, k: Seq<char>)
    requires
        m.dom().finite(),
        m.contains_key(k),
    ensures
        tally_total(m) == tally_add(m[k], tally_total(m.remove(k))),
    decreases m.dom().len(),
{
    let c = m.dom().choose();
    if c != k {
        let mc = m.remove(c);
        let mk = m.remove(k);
        lemma_total_remove(mc, k);
        lemma_total_remove(mk, c);
        assert(mc.remove(k) =~= mk.remove(c));
    }
}

proof fn lemma_total_empty(m: Map<Seq<char>, Tally>)
    requires
        m.dom().finite(),
        m.dom().len() == 0,
    ensures
        tally_total(m) == zero_tally(),
{
}

proof fn lemma_total_add_at(m: Map<Seq<char>, Tally>, k: Seq<char>, t: Tally)
    requires
        m.dom().finite(),
    ensures
        add_at(m, k, t).dom().finite(),
        tally_total(add_at(m, k, t)) == tally_add(tally_total(m), t),
{
    let n = add_at(m, k, t);
    lemma_total_remove(n, k);
    if m.contains_key(k) {
        lemma_total_remove(m, k);
        assert(n.remove(k) =~= m.remove(k));
    } else {
        assert(n.remove(k) =~= m);
    }
}

/// Counting one hit under any key adds one visit and its bytes to the total of the map.
pub proof fn law_total_after_hit(m: Map<Seq<char>, Tally>, k: Seq<char>, bytes: nat)
    requires
        m.dom().finite(),
    ensures
        map_hit(m, k, bytes).dom().finite(),
        tally_total(map_hit(m, k, bytes)) == tally_hit(tally_total(m), bytes),
{
    assert(map_hit(m, k, bytes) == add_at(m, k, Tally { visits: 1, traffic: bytes }));
    lemma_total_add_at(m, k, Tally { visits: 1, traffic: bytes });
}

/// The key-wise sum of two maps has the sum of their totals.
pub proof fn law_total_of_merge(a: Map<Seq<char>, Tally>, b: Map<Seq<char>, Tally>)
    requires
        a.dom().finite(),
        b.dom().finite(),
    ensures
        merge_tallies(a, b).dom().finite(),
        tally_total(merge_tallies(a, b)) == tally_add(tally_total(a), tally_total(b)),
    decreases b.dom().len(),
{
    if b.dom().len() == 0 {
        assert(b.dom() =~= Set::<Seq<char>>::empty());
        assert(merge_tallies(a, b) =~= a);
        lemma_total_empty(b);
    } else {
        let k = b.dom().choose();
        let rest = b.remove(k);
        law_total_of_merge(a, rest);
        lemma_total_remove(b, k);
        assert(merge_tallies(a, b) =~= add_at(merge_tallies(a, rest), k, b[k]));
        lemma_total_add_at(merge_tallies(a, rest), k, b[k]);
    }
}

/// A map without keys has nothing counted.
pub proof fn law_total_of_empty()
    ensures
        tally_total(Map::<Seq<char>, Tally>::empty()) == zero_tally(),
{
    lemma_total_empty(Map::<Seq<char>, Tally>::empty());
}

} // verus!
