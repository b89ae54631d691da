use vstd::prelude::*;
use vstd::string::StringSliceAdditionalSpecFns;
use vstd::utf8::{decode_utf8, encode_utf8, is_char_boundary};

use crate::cli::Args;
use crate::counters::{
    can_merge_tallies, law_total_after_hit, law_total_of_empty, law_total_of_merge, map_hit,
    merge_map, merge_tallies, tally_add, tally_at, tally_total, Counter, CounterMap, Tally,
};
use crate::pattern::{regex_accepts, regex_replace_all, Pattern};
use crate::text::{
    chars_lt, chars_of, compare_text, lemma_chars_lt_concat, lemma_chars_lt_irreflexive, push_chars,
    TextOrder,
};

verus! {

broadcast use {vstd::utf8::encode_utf8_valid_utf8, vstd::utf8::encode_utf8_decode_utf8};

/// The four views of the traffic.
#[derive(Debug, Clone, Copy, PartialEq, Eq)]
pub enum Dimension {
    Ip,
    Path,
    UserAgent,
    StatusCode,
}

impl Dimension {
    /// The title shown for the dimension.
    #[verifier::allow_in_spec]
    pub fn title(self) -> &'static str
        returns
            (match self {
                Dimension::Ip => "IP",
                Dimension::Path => "Path",
                Dimension::UserAgent => "User-Agent",
                Dimension::StatusCode => "Status",
            }),
    {
        match self {
            Dimension::Ip => "IP",
            Dimension::Path => "Path",
            Dimension::UserAgent => "User-Agent",
            Dimension::StatusCode => "Status",
        }
    }

    /// The next dimension, wrapping around after the status code.
    #[verifier::allow_in_spec]
    pub fn next(self) -> Self
        returns
            (match self {
                Dimension::Ip => Dimension::Path,
                Dimension::Path => Dimension::UserAgent,
                Dimension::UserAgent => Dimension::StatusCode,
                Dimension::StatusCode => Dimension::Ip,
            }),
    {
        match self {
            Dimension::Ip => Dimension::Path,
            Dimension::Path => Dimension::UserAgent,
            Dimension::UserAgent => Dimension::StatusCode,
            Dimension::StatusCode => Dimension::Ip,
        }
    }

    /// The previous dimension, wrapping around before the IP.
    #[verifier::allow_in_spec]
    pub fn previous(self) -> Self
        returns
            (match self {
                Dimension::Ip => Dimension::StatusCode,
                Dimension::Path => Dimension::Ip,
                Dimension::UserAgent => Dimension::Path,
                Dimension::StatusCode => Dimension::UserAgent,
            }),
    {
        match self {
            Dimension::Ip => Dimension::StatusCode,
            Dimension::Path => Dimension::Ip,
            Dimension::UserAgent => Dimension::Path,
            Dimension::StatusCode => Dimension::UserAgent,
        }
    }
}

/// The position of a dimension in the cycle `next` walks.
pub open spec fn dimension_index(d: Dimension) -> int {
    match d {
        Dimension::Ip => 0,
        Dimension::Path => 1,
        Dimension::UserAgent => 2,
        Dimension::StatusCode => 3,
    }
}

/// `next` and `previous` undo each other, and `next` steps once around a cycle of four.
pub proof fn law_dimension_cycle(d: Dimension)
    ensures
        d.next().previous() == d,
        d.previous().next() == d,
        dimension_index(d.next()) == (dimension_index(d) + 1) % 4,
        d.next().next().next().next() == d,
{
}

/// The bucket size of the traffic trend.
#[derive(Debug, Clone, Copy, PartialEq, Eq)]
pub enum DateGranularity {
    Hour,
    Day,
    Month,
}

impl Default for DateGranularity {
    fn default() -> (r: Self)
        ensures
            r == DateGranularity::Day,
    {
        DateGranularity::Day
    }
}

impl DateGranularity {
    /// The next granularity, wrapping around after the month.
    #[verifier::allow_in_spec]
    pub fn next(self) -> Self
        returns
            (match self {
                DateGranularity::Hour => DateGranularity::Day,
                DateGranularity::Day => DateGranularity::Month,
                DateGranularity::Month => DateGranularity::Hour,
            }),
    {
        match self {
            DateGranularity::Hour => DateGranularity::Day,
            DateGranularity::Day => DateGranularity::Month,
            DateGranularity::Month => DateGranularity::Hour,
        }
    }

    /// The label shown for the granularity.
    pub fn label(self) -> (r: &'static str)
        ensures
            r@ == match self {
                DateGranularity::Hour => "Hour"@,
                DateGranularity::Day => "Day"@,
                DateGranularity::Month => "Month"@,
            },
    {
        match self {
            DateGranularity::Hour => "Hour",
            DateGranularity::Day => "Day",
            DateGranularity::Month => "Month",
        }
    }
}

/// `next` steps once around a cycle of three granularities.
pub proof fn law_granularity_cycle(g: DateGranularity)
    ensures
        g.next() != g,
        g.next().next().next() == g,
{
}

/// The characters of a byte range of `s`'s UTF-8 encoding, which is what `str::get` takes when
/// both ends fall on character boundaries.
pub open spec fn byte_piece(s: Seq<char>, i: int, j: int) -> Seq<char> {
    decode_utf8(encode_utf8(s).subrange(i, j))
}

/// Whether `str::get(i..j)` succeeds on a text with these bytes.
pub open spec fn byte_range_ok(b: Seq<u8>, i: int, j: int) -> bool {
    0 <= i <= j <= b.len() && is_char_boundary(b, i) && is_char_boundary(b, j)
}

/// The two-digit month number of an English month abbreviation.
pub open spec fn month_number(m: Seq<char>) -> Option<Seq<char>> {
    if m == seq!['J', 'a', 'n'] {
        Some(seq!['0', '1'])
    } else if m == seq!['F', 'e', 'b'] {
        Some(seq!['0', '2'])
    } else if m == seq!['M', 'a', 'r'] {
        Some(seq!['0', '3'])
    } else if m == seq!['A', 'p', 'r'] {
        Some(seq!['0', '4'])
    } else if m == seq!['M', 'a', 'y'] {
        Some(seq!['0', '5'])
    } else if m == seq!['J', 'u', 'n'] {
        Some(seq!['0', '6'])
    } else if m == seq!['J', 'u', 'l'] {
        Some(seq!['0', '7'])
    } else if m == seq!['A', 'u', 'g'] {
        Some(seq!['0', '8'])
    } else if m == seq!['S', 'e', 'p'] {
        Some(seq!['0', '9'])
    } else if m == seq!['O', 'c', 't'] {
        Some(seq!['1', '0'])
    } else if m == seq!['N', 'o', 'v'] {
        Some(seq!['1', '1'])
    } else if m == seq!['D', 'e', 'c'] {
        Some(seq!['1', '2'])
    } else {
        None
    }
}

/// The day, hour and month keys of an nginx time such as `13/Mar/2026:09:22:11 +0000`:
/// `2026-03-13`, `2026-03-13 09:00` and `2026-03`. The day, month name, year and hour are read
/// at byte offsets 0, 3, 7 and 12; a text shorter than fourteen bytes, a cut that falls inside a
/// character, or an unknown month gives nothing.
pub open spec fn timestamp_keys(s: Seq<char>) -> Option<(Seq<char>, Seq<char>, Seq<char>)> {
    let b = encode_utf8(s);
    if b.len() < 14 || !byte_range_ok(b, 0, 2) || !byte_range_ok(b, 3, 6) || !byte_range_ok(b, 7, 11)
        || !byte_range_ok(b, 12, 14) {
        None
    } else {
        match month_number(byte_piece(s, 3, 6)) {
            None => None,
            Some(mon) => {
                let day = byte_piece(s, 0, 2);
                let year = byte_piece(s, 7, 11);
                let hour = byte_piece(s, 12, 14);
                let month_key = year + seq!['-'] + mon;
                let day_key = month_key + seq!['-'] + day;
                Some((day_key, day_key + seq![' '] + hour + seq![':', '0', '0'], month_key))
            },
        }
    }
}

/// The text between bytes `i` and `j` of `s`, as `&s[i..j]` gives it.
pub fn byte_slice(s: &str, i: usize, j: usize) -> (r: &str)
    requires
        byte_range_ok(s.spec_bytes(), i as int, j as int),
    ensures
        r@ == byte_piece(s@, i as int, j as int),
{
    let ghost b = s.spec_bytes();
    let (left, _) = s.split_at(j);
    proof {
        let lb = left.spec_bytes();
        assert(lb =~= b.subrange(0, j as int));
        if 0 < i && i < j {
            vstd::utf8::is_char_boundary_iff_not_is_continuation_byte(b, i as int);
            vstd::utf8::is_char_boundary_iff_not_is_continuation_byte(lb, i as int);
            assert(lb[i as int] == b[i as int]);
        } else if i == j {
            vstd::utf8::is_char_boundary_start_end_of_seq(lb);
        }
    }
    let (_, mid) = left.split_at(i);
    proof {
        assert(mid.spec_bytes() =~= b.subrange(i as int, j as int));
    }
    mid
}

/// The two digits of a month abbreviation.
fn month_digits(m: &Vec<char>) -> (r: Option<(char, char)>)
    ensures
        match r {
            Some((x, y)) => month_number(m@) == Some(seq![x, y]),
            None => month_number(m@) is None,
        },
{
    if m.len() != 3 {
        return None;
    }
    let (a, b, c) = (m[0], m[1], m[2]);
    assert(m@ =~= seq![a, b, c]);
    if a == 'J' && b == 'a' && c == 'n' {
        Some(('0', '1'))
    } else if a == 'F' && b == 'e' && c == 'b' {
        Some(('0', '2'))
    } else if a == 'M' && b == 'a' && c == 'r' {
        Some(('0', '3'))
    } else if a == 'A' && b == 'p' && c == 'r' {
        Some(('0', '4'))
    } else if a == 'M' && b == 'a' && c == 'y' {
        Some(('0', '5'))
    } else if a == 'J' && b == 'u' && c == 'n' {
        Some(('0', '6'))
    } else if a == 'J' && b == 'u' && c == 'l' {
        Some(('0', '7'))
    } else if a == 'A' && b == 'u' && c == 'g' {
        Some(('0', '8'))
    } else if a == 'S' && b == 'e' && c == 'p' {
        Some(('0', '9'))
    } else if a == 'O' && b == 'c' && c == 't' {
        Some(('1', '0'))
    } else if a == 'N' && b == 'o' && c == 'v' {
        Some(('1', '1'))
    } else if a == 'D' && b == 'e' && c == 'c' {
        Some(('1', '2'))
    } else {
        None
    }
}

/// Reads the day, hour and month keys out of an nginx time.
pub fn parse_timestamp(s: &str) -> (r: Option<(String, String, String)>)
    ensures
        match r {
            Some((d, h, m)) => timestamp_keys(s@) == Some((d@, h@, m@)),
            None => timestamp_keys(s@) is None,
        },
{
    let ghost b = s.spec_bytes();
    if s.as_bytes().len() < 14 {
        return None;
    }
    if !(s.is_char_boundary(2) && s.is_char_boundary(3) && s.is_char_boundary(6)
        && s.is_char_boundary(7) && s.is_char_boundary(11) && s.is_char_boundary(12)
        && s.is_char_boundary(14)) {
        return None;
    }
    assert(is_char_boundary(b, 0));
    let day = byte_slice(s, 0, 2);
    let mon_str = byte_slice(s, 3, 6);
    let year = byte_slice(s, 7, 11);
    let hour = byte_slice(s, 12, 14);
    let mon_chars = chars_of(mon_str);
    let (m1, m2) = match month_digits(&mon_chars) {
        Some(digits) => digits,
        None => {
            return None;
        },
    };
    let mut month_key = String::new();
    push_chars(&mut month_key, year);
    month_key.push('-');
    month_key.push(m1);
    month_key.push(m2);
    let mut day_key = month_key.clone();
    day_key.push('-');
    push_chars(&mut day_key, day);
    let mut hour_key = day_key.clone();
    hour_key.push(' ');
    push_chars(&mut hour_key, hour);
    hour_key.push(':');
    hour_key.push('0');
    hour_key.push('0');
    proof {
        let mon = seq![m1, m2];
        assert(month_key@ =~= year@ + seq!['-'] + mon);
        assert(day_key@ =~= month_key@ + seq!['-'] + day@);
        assert(hour_key@ =~= day_key@ + seq![' '] + hour@ + seq![':', '0', '0']);
    }
    Some((day_key, hour_key, month_key))
}

/// The hour key extends the day key, and the day key extends the month key.
pub proof fn law_timestamp_keys_nest(s: Seq<char>)
    requires
        timestamp_keys(s) is Some,
    ensures
        ({
            let (d, h, m) = timestamp_keys(s).unwrap();
            &&& h.len() > d.len()
            &&& h.take(d.len() as int) == d
            &&& h[d.len() as int] == ' '
            &&& d.take(m.len() as int) == m
            &&& d[m.len() as int] == '-'
        }),
{
    let (d, h, m) = timestamp_keys(s).unwrap();
    assert(h.take(d.len() as int) =~= d);
    assert(d.take(m.len() as int) =~= m);
}


/// The year of an nginx time, as its keys hold it.
pub open spec fn stamp_year(s: Seq<char>) -> Seq<char> {
    byte_piece(s, 7, 11)
}

/// The two-digit month number of an nginx time.
pub open spec fn stamp_month(s: Seq<char>) -> Seq<char> {
    month_number(byte_piece(s, 3, 6)).unwrap()
}

/// The day of an nginx time.
pub open spec fn stamp_day(s: Seq<char>) -> Seq<char> {
    byte_piece(s, 0, 2)
}

/// The hour of an nginx time.
pub open spec fn stamp_hour(s: Seq<char>) -> Seq<char> {
    byte_piece(s, 12, 14)
}

/// Month numbers are two decimal digits, so they sort in calendar order.
pub proof fn law_month_numbers_are_digits(m: Seq<char>)
    requires
        month_number(m) is Some,
    ensures
        month_number(m).unwrap().len() == 2,
        crate::text::is_digit(month_number(m).unwrap()[0]),
        crate::text::is_digit(month_number(m).unwrap()[1]),
{
}

/// The English month abbreviations, in calendar order.
pub open spec fn calendar_months() -> Seq<Seq<char>> {
    seq![
        seq!['J', 'a', 'n'],
        seq!['F', 'e', 'b'],
        seq!['M', 'a', 'r'],
        seq!['A', 'p', 'r'],
        seq!['M', 'a', 'y'],
        seq!['J', 'u', 'n'],
        seq!['J', 'u', 'l'],
        seq!['A', 'u', 'g'],
        seq!['S', 'e', 'p'],
        seq!['O', 'c', 't'],
        seq!['N', 'o', 'v'],
        seq!['D', 'e', 'c'],
    ]
}

/// The month of a time is numbered by its place in the calendar: the `i`-th abbreviation (from
/// zero) gets the two digits of `i + 1`, so `Jan` is `01`, `Jun` is `06`, `Jul` is `07` and
/// `Dec` is `12`; and nothing but these twelve abbreviations gets a number.
pub proof fn law_month_numbers_follow_the_calendar(i: int, m: Seq<char>)
    requires
        0 <= i < 12,
    ensures
        month_number(calendar_months()[i]) is Some,
        month_number(calendar_months()[i]).unwrap().len() == 2,
        crate::text::digits_value(month_number(calendar_months()[i]).unwrap()) == i + 1,
        month_number(m) is Some ==> exists|j: int| 0 <= j < 12 && calendar_months()[j] == m,
{
    reveal_with_fuel(crate::text::digits_value, 3);
    let c = calendar_months();
    let n = month_number(c[i]).unwrap();
    assert(c[0] == seq!['J', 'a', 'n'] && c[1] == seq!['F', 'e', 'b'] && c[2] == seq!['M', 'a', 'r']
        && c[3] == seq!['A', 'p', 'r'] && c[4] == seq!['M', 'a', 'y'] && c[5] == seq!['J', 'u', 'n']
        && c[6] == seq!['J', 'u', 'l'] && c[7] == seq!['A', 'u', 'g'] && c[8] == seq!['S', 'e', 'p']
        && c[9] == seq!['O', 'c', 't'] && c[10] == seq!['N', 'o', 'v'] && c[11] == seq!['D', 'e', 'c']);
    assert(n.drop_last() =~= seq![n[0]]);
    assert(seq![n[0]].drop_last() =~= Seq::<char>::empty());
    if month_number(m) is Some {
        if m == c[0] {
        } else if m == c[1] {
        } else if m == c[2] {
        } else if m == c[3] {
        } else if m == c[4] {
        } else if m == c[5] {
        } else if m == c[6] {
        } else if m == c[7] {
        } else if m == c[8] {
        } else if m == c[9] {
        } else if m == c[10] {
        } else {
            assert(m == c[11]);
        }
    }
}

/// The keys of two times whose year, day and hour have the same lengths sort by year, then
/// month, then day, then hour. With digit fields, as nginx writes them, that is the order of
/// the times (`law_digit_texts_order`), so the trend buckets come out in time order.
pub proof fn law_timestamp_keys_order(s1: Seq<char>, s2: Seq<char>)
    requires
        timestamp_keys(s1) is Some,
        timestamp_keys(s2) is Some,
        stamp_year(s1).len() == stamp_year(s2).len(),
        stamp_day(s1).len() == stamp_day(s2).len(),
        stamp_hour(s1).len() == stamp_hour(s2).len(),
    ensures
        ({
            let (d1, h1, m1) = timestamp_keys(s1).unwrap();
            let (d2, h2, m2) = timestamp_keys(s2).unwrap();
            let (y1, n1, a1, o1) = (stamp_year(s1), stamp_month(s1), stamp_day(s1), stamp_hour(s1));
            let (y2, n2, a2, o2) = (stamp_year(s2), stamp_month(s2), stamp_day(s2), stamp_hour(s2));
            &&& chars_lt(m1, m2) == (chars_lt(y1, y2) || (y1 == y2 && chars_lt(n1, n2)))
            &&& chars_lt(d1, d2) == (chars_lt(y1, y2) || (y1 == y2 && (chars_lt(n1, n2) || (n1
                == n2 && chars_lt(a1, a2)))))
            &&& chars_lt(h1, h2) == (chars_lt(y1, y2) || (y1 == y2 && (chars_lt(n1, n2) || (n1
                == n2 && (chars_lt(a1, a2) || (a1 == a2 && chars_lt(o1, o2)))))))
        }),
{
    let (d1, h1, m1) = timestamp_keys(s1).unwrap();
    let (d2, h2, m2) = timestamp_keys(s2).unwrap();
    let (y1, n1, a1, o1) = (stamp_year(s1), stamp_month(s1), stamp_day(s1), stamp_hour(s1));
    let (y2, n2, a2, o2) = (stamp_year(s2), stamp_month(s2), stamp_day(s2), stamp_hour(s2));
    law_month_numbers_are_digits(byte_piece(s1, 3, 6));
    law_month_numbers_are_digits(byte_piece(s2, 3, 6));
    let dash = seq!['-'];
    let space = seq![' '];
    let tail = seq![':', '0', '0'];
    lemma_chars_lt_irreflexive(dash);
    lemma_chars_lt_irreflexive(tail);
    assert(m1 == y1 + dash + n1 && m2 == y2 + dash + n2);
    lemma_chars_lt_concat(y1, dash, y2, dash);
    lemma_chars_lt_concat(y1 + dash, n1, y2 + dash, n2);
    assert(d1 == m1 + dash + a1 && d2 == m2 + dash + a2);
    lemma_chars_lt_concat(m1, dash, m2, dash);
    lemma_chars_lt_concat(m1 + dash, a1, m2 + dash, a2);
    assert(h1 == d1 + space + o1 + tail && h2 == d2 + space + o2 + tail);
    lemma_chars_lt_concat(d1, space, d2, space);
    lemma_chars_lt_concat(d1 + space, o1, d2 + space, o2);
    lemma_chars_lt_concat(d1 + space + o1, tail, d2 + space + o2, tail);
    lemma_chars_lt_irreflexive(space);
}

/// One parsed access log line.
#[derive(Debug)]
pub struct ParsedRecord {
    pub ip: String,
    pub path: String,
    pub user_agent: String,
    pub status_code: String,
    pub traffic_bytes: u64,
    pub timestamp_str: Option<String>,
}

/// The content of a parsed line.
pub struct RecordModel {
    pub ip: Seq<char>,
    pub path: Seq<char>,
    pub user_agent: Seq<char>,
    pub status_code: Seq<char>,
    pub traffic_bytes: nat,
    pub timestamp: Option<Seq<char>>,
}

impl View for ParsedRecord {
    type V = RecordModel;

    open spec fn view(&self) -> RecordModel {
        RecordModel {
            ip: self.ip@,
            path: self.path@,
            user_agent: self.user_agent@,
            status_code: self.status_code@,
            traffic_bytes: self.traffic_bytes as nat,
            timestamp: match self.timestamp_str {
                Some(t) => Some(t@),
                None => None,
            },
        }
    }
}

/// What a grouping rule does to a key.
pub enum RuleModel {
    Identity,
    Replace { pattern: Seq<char>, replacement: Seq<char> },
}

/// The key a rule maps `input` to.
pub open spec fn apply_rule(rule: RuleModel, input: Seq<char>) -> Seq<char> {
    match rule {
        RuleModel::Identity => input,
        RuleModel::Replace { pattern, replacement } => regex_replace_all(
            pattern,
            input,
            replacement,
        ),
    }
}

/// The rule made from a pattern and a replacement: the pattern `^(.*)$` with the replacement
/// `$1` keeps keys as they are, and any other pair replaces every match.
pub open spec fn rule_for(pattern: Seq<char>, replacement: Seq<char>) -> RuleModel {
    if pattern == "^(.*)$"@ && replacement == "$1"@ {
        RuleModel::Identity
    } else {
        RuleModel::Replace { pattern, replacement }
    }
}

/// The default rule, `^(.*)$` replaced by `$1`, keeps every key as it is.
pub proof fn law_default_rule_keeps_keys(input: Seq<char>)
    ensures
        apply_rule(rule_for("^(.*)$"@, "$1"@), input) == input,
{
}

/// A rule groups a key with `replace_all` of its pattern and replacement, whatever they are
/// (an empty replacement included), except for the default pair `^(.*)$` and `$1`, which keeps
/// every key as it is.
pub proof fn law_rule_replaces_unless_default(pattern: Seq<char>, replacement: Seq<char>, key: Seq<char>)
    ensures
        !(pattern == seq!['^', '(', '.', '*', ')', '$'] && replacement == seq!['$', '1']) ==> apply_rule(
            rule_for(pattern, replacement),
            key,
        ) == regex_replace_all(pattern, key, replacement),
        (pattern == seq!['^', '(', '.', '*', ')', '$'] && replacement == seq!['$', '1']) ==> apply_rule(
            rule_for(pattern, replacement),
            key,
        ) == key,
{
    reveal_strlit("^(.*)$");
    reveal_strlit("$1");
    assert("^(.*)$"@ =~= seq!['^', '(', '.', '*', ')', '$']);
    assert("$1"@ =~= seq!['$', '1']);
}

enum GroupRuleKind {
    Passthrough,
    Regex { regex: Pattern, replace: String },
}

/// A rule that groups keys, such as IPs into subnets.
pub struct GroupRule {
    kind: GroupRuleKind,
}

impl View for GroupRule {
    type V = RuleModel;

    closed spec fn view(&self) -> RuleModel {
        match self.kind {
            GroupRuleKind::Passthrough => RuleModel::Identity,
            GroupRuleKind::Regex { regex, replace } => RuleModel::Replace {
                pattern: regex.source_view(),
                replacement: replace@,
            },
        }
    }
}

impl Clone for GroupRule {
    fn clone(&self) -> (r: Self)
        ensures
            r@ == self@,
    {
        match &self.kind {
            GroupRuleKind::Passthrough => GroupRule { kind: GroupRuleKind::Passthrough },
            GroupRuleKind::Regex { regex, replace } => GroupRule {
                kind: GroupRuleKind::Regex { regex: regex.clone(), replace: replace.clone() },
            },
        }
    }
}

fn is_text(a: &str, b: &str) -> (r: bool)
    ensures
        r == (a@ == b@),
{
    match compare_text(a, b) {
        TextOrder::Equal => true,
        _ => false,
    }
}

impl GroupRule {
    /// Makes a rule from a compiled pattern and its replacement.
    pub fn from_parts(regex: Pattern, replace: String) -> (r: Self)
        ensures
            r@ == rule_for(regex.source_view(), replace@),
    {
        if is_text(regex.as_str(), "^(.*)$") && is_text(replace.as_str(), "$1") {
            return GroupRule { kind: GroupRuleKind::Passthrough };
        }
        GroupRule { kind: GroupRuleKind::Regex { regex, replace } }
    }

    /// The key that `input` is grouped under.
    pub fn apply(&self, input: &str) -> (r: String)
        ensures
            r@ == apply_rule(self@, input@),
    {
        match &self.kind {
            GroupRuleKind::Passthrough => input.to_owned(),
            GroupRuleKind::Regex { regex, replace } => regex.replace_all(input, replace.as_str()),
        }
    }
}

/// The grouping of IPs, paths and user agents.
pub struct RulesModel {
    pub ip: RuleModel,
    pub path: RuleModel,
    pub user_agent: RuleModel,
}

/// The grouping rules of the three text dimensions.
pub struct GroupingRules {
    pub ip: GroupRule,
    pub path: GroupRule,
    pub user_agent: GroupRule,
}

impl View for GroupingRules {
    type V = RulesModel;

    open spec fn view(&self) -> RulesModel {
        RulesModel { ip: self.ip@, path: self.path@, user_agent: self.user_agent@ }
    }
}

impl Clone for GroupingRules {
    fn clone(&self) -> (r: Self)
        ensures
            r@ == self@,
    {
        GroupingRules {
            ip: self.ip.clone(),
            path: self.path.clone(),
            user_agent: self.user_agent.clone(),
        }
    }
}

/// Which grouping pattern was refused.
#[derive(Debug, Clone, Copy, PartialEq, Eq)]
pub enum RulesError {
    InvalidIpRegex,
    InvalidPathRegex,
    InvalidUserAgentRegex,
    InvalidPassthroughRegex,
}

impl GroupingRules {
    /// Compiles the grouping patterns of the command line, the IP pattern first, then the path
    /// pattern, then the user agent pattern; the first that does not compile is reported.
    pub fn from_args(args: &Args) -> (r: Result<Self, RulesError>)
        ensures
            match r {
                Ok(rules) => regex_accepts(args.group_ip_regex@) && regex_accepts(
                    args.group_path_regex@,
                ) && regex_accepts(args.group_ua_regex@) && rules@ == (RulesModel {
                    ip: rule_for(args.group_ip_regex@, args.group_ip_replace@),
                    path: rule_for(args.group_path_regex@, args.group_path_replace@),
                    user_agent: rule_for(args.group_ua_regex@, args.group_ua_replace@),
                }),
                Err(RulesError::InvalidIpRegex) => !regex_accepts(args.group_ip_regex@),
                Err(RulesError::InvalidPathRegex) => regex_accepts(args.group_ip_regex@)
                    && !regex_accepts(args.group_path_regex@),
                Err(RulesError::InvalidUserAgentRegex) => regex_accepts(args.group_ip_regex@)
                    && regex_accepts(args.group_path_regex@) && !regex_accepts(
                    args.group_ua_regex@,
                ),
                Err(RulesError::InvalidPassthroughRegex) => false,
            },
    {
        let ip = match Pattern::new(args.group_ip_regex.as_str()) {
            Ok(p) => p,
            Err(_) => {
                return Err(RulesError::InvalidIpRegex);
            },
        };
        let path = match Pattern::new(args.group_path_regex.as_str()) {
            Ok(p) => p,
            Err(_) => {
                return Err(RulesError::InvalidPathRegex);
            },
        };
        let user_agent = match Pattern::new(args.group_ua_regex.as_str()) {
            Ok(p) => p,
            Err(_) => {
                return Err(RulesError::InvalidUserAgentRegex);
            },
        };
        Ok(GroupingRules {
            ip: GroupRule::from_parts(ip, args.group_ip_replace.clone()),
            path: GroupRule::from_parts(path, args.group_path_replace.clone()),
            user_agent: GroupRule::from_parts(user_agent, args.group_ua_replace.clone()),
        })
    }

    /// Rules that keep every key as it is.
    pub fn passthrough() -> (r: Result<Self, RulesError>)
        ensures
            match r {
                Ok(rules) => regex_accepts("^(.*)$"@) && rules@ == (RulesModel {
                    ip: RuleModel::Identity,
                    path: RuleModel::Identity,
                    user_agent: RuleModel::Identity,
                }),
                Err(e) => e == RulesError::InvalidPassthroughRegex && !regex_accepts("^(.*)$"@),
            },
    {
        let regex = match Pattern::new("^(.*)$") {
            Ok(p) => p,
            Err(_) => {
                return Err(RulesError::InvalidPassthroughRegex);
            },
        };
        let keep = "$1";
        Ok(GroupingRules {
            ip: GroupRule::from_parts(regex.clone(), keep.to_owned()),
            path: GroupRule::from_parts(regex.clone(), keep.to_owned()),
            user_agent: GroupRule::from_parts(regex, keep.to_owned()),
        })
    }
}


/// The mathematical content of the aggregates.
pub struct AggregatesModel {
    pub total_visits: nat,
    pub total_traffic_bytes: nat,
    pub parse_errors: nat,
    pub ip: Map<Seq<char>, Tally>,
    pub path: Map<Seq<char>, Tally>,
    pub user_agent: Map<Seq<char>, Tally>,
    pub status_code: Map<Seq<char>, Tally>,
    pub by_day: Map<Seq<char>, Tally>,
    pub by_hour: Map<Seq<char>, Tally>,
    pub by_month: Map<Seq<char>, Tally>,
}

/// Nothing counted yet.
pub open spec fn empty_model() -> AggregatesModel {
    AggregatesModel {
        total_visits: 0,
        total_traffic_bytes: 0,
        parse_errors: 0,
        ip: Map::empty(),
        path: Map::empty(),
        user_agent: Map::empty(),
        status_code: Map::empty(),
        by_day: Map::empty(),
        by_hour: Map::empty(),
        by_month: Map::empty(),
    }
}

/// The aggregates after counting one parsed line: the totals grow by one visit and its bytes;
/// the grouped IP, path and user agent and the status code each count the hit; and when the
/// time reads as a date, so do its day, hour and month buckets.
pub open spec fn record_model(m: AggregatesModel, r: RecordModel, rules: RulesModel) -> AggregatesModel {
    let b = r.traffic_bytes;
    let (by_day, by_hour, by_month) = match r.timestamp {
        Some(ts) => match timestamp_keys(ts) {
            Some((d, h, mo)) => (
                map_hit(m.by_day, d, b),
                map_hit(m.by_hour, h, b),
                map_hit(m.by_month, mo, b),
            ),
            None => (m.by_day, m.by_hour, m.by_month),
        },
        None => (m.by_day, m.by_hour, m.by_month),
    };
    AggregatesModel {
        total_visits: m.total_visits + 1,
        total_traffic_bytes: m.total_traffic_bytes + b,
        parse_errors: m.parse_errors,
        ip: map_hit(m.ip, apply_rule(rules.ip, r.ip), b),
        path: map_hit(m.path, apply_rule(rules.path, r.path), b),
        user_agent: map_hit(m.user_agent, apply_rule(rules.user_agent, r.user_agent), b),
        status_code: map_hit(m.status_code, r.status_code, b),
        by_day,
        by_hour,
        by_month,
    }
}

/// The sum of two aggregates: totals add, and every map adds key by key.
pub open spec fn merge_model(a: AggregatesModel, b: AggregatesModel) -> AggregatesModel {
    AggregatesModel {
        total_visits: a.total_visits + b.total_visits,
        total_traffic_bytes: a.total_traffic_bytes + b.total_traffic_bytes,
        parse_errors: a.parse_errors + b.parse_errors,
        ip: merge_tallies(a.ip, b.ip),
        path: merge_tallies(a.path, b.path),
        user_agent: merge_tallies(a.user_agent, b.user_agent),
        status_code: merge_tallies(a.status_code, b.status_code),
        by_day: merge_tallies(a.by_day, b.by_day),
        by_hour: merge_tallies(a.by_hour, b.by_hour),
        by_month: merge_tallies(a.by_month, b.by_month),
    }
}

/// `m` with one more line that could not be parsed.
pub open spec fn with_parse_error(m: AggregatesModel) -> AggregatesModel {
    AggregatesModel { parse_errors: m.parse_errors + 1, ..m }
}

/// Every tally of `m` is within the totals.
pub open spec fn tallies_within(m: Map<Seq<char>, Tally>, visits: nat, traffic: nat) -> bool {
    forall|k: Seq<char>| #[trigger] m.contains_key(k) ==> m[k].visits <= visits && m[k].traffic <= traffic
}

/// No counter exceeds the totals: what counting keeps, and what rules out overflow of a
/// counter whenever the totals do not overflow.
pub open spec fn bounded(m: AggregatesModel) -> bool {
    let v = m.total_visits;
    let t = m.total_traffic_bytes;
    &&& tallies_within(m.ip, v, t)
    &&& tallies_within(m.path, v, t)
    &&& tallies_within(m.user_agent, v, t)
    &&& tallies_within(m.status_code, v, t)
    &&& tallies_within(m.by_day, v, t)
    &&& tallies_within(m.by_hour, v, t)
    &&& tallies_within(m.by_month, v, t)
}

/// Whether merging `b` into `a` fits in 64-bit counters: the totals, and the counter of every
/// key that both hold.
pub open spec fn merge_fits(a: AggregatesModel, b: AggregatesModel) -> bool {
    &&& a.total_visits + b.total_visits <= u64::MAX
    &&& a.total_traffic_bytes + b.total_traffic_bytes <= u64::MAX
    &&& a.parse_errors + b.parse_errors <= u64::MAX
    &&& can_merge_tallies(a.ip, b.ip)
    &&& can_merge_tallies(a.path, b.path)
    &&& can_merge_tallies(a.user_agent, b.user_agent)
    &&& can_merge_tallies(a.status_code, b.status_code)
    &&& can_merge_tallies(a.by_day, b.by_day)
    &&& can_merge_tallies(a.by_hour, b.by_hour)
    &&& can_merge_tallies(a.by_month, b.by_month)
}

/// Whether one more hit of `bytes` bytes under `k` fits in a 64-bit counter.
pub open spec fn hit_fits(m: Map<Seq<char>, Tally>, k: Seq<char>, bytes: nat) -> bool {
    tally_at(m, k).visits < u64::MAX && tally_at(m, k).traffic + bytes <= u64::MAX
}

/// Whether counting the line fits in 64-bit counters: the totals, and every counter it adds
/// to.
pub open spec fn record_fits(m: AggregatesModel, r: RecordModel, rules: RulesModel) -> bool {
    let b = r.traffic_bytes;
    &&& m.total_visits < u64::MAX
    &&& m.total_traffic_bytes + b <= u64::MAX
    &&& hit_fits(m.ip, apply_rule(rules.ip, r.ip), b)
    &&& hit_fits(m.path, apply_rule(rules.path, r.path), b)
    &&& hit_fits(m.user_agent, apply_rule(rules.user_agent, r.user_agent), b)
    &&& hit_fits(m.status_code, r.status_code, b)
    &&& match r.timestamp {
        Some(ts) => match timestamp_keys(ts) {
            Some((d, h, mo)) => hit_fits(m.by_day, d, b) && hit_fits(m.by_hour, h, b) && hit_fits(
                m.by_month,
                mo,
                b,
            ),
            None => true,
        },
        None => true,
    }
}

/// The map of one dimension.
pub open spec fn dimension_map(m: AggregatesModel, d: Dimension) -> Map<Seq<char>, Tally> {
    match d {
        Dimension::Ip => m.ip,
        Dimension::Path => m.path,
        Dimension::UserAgent => m.user_agent,
        Dimension::StatusCode => m.status_code,
    }
}

/// The trend map of one granularity.
pub open spec fn trend_map(m: AggregatesModel, g: DateGranularity) -> Map<Seq<char>, Tally> {
    match g {
        DateGranularity::Hour => m.by_hour,
        DateGranularity::Day => m.by_day,
        DateGranularity::Month => m.by_month,
    }
}

/// Totals and counters of parsed access logs.
pub struct Aggregates {
    pub total_visits: u64,
    pub total_traffic_bytes: u64,
    pub parse_errors: u64,
    ip: CounterMap,
    path: CounterMap,
    user_agent: CounterMap,
    status_code: CounterMap,
    pub by_day: CounterMap,
    pub by_hour: CounterMap,
    pub by_month: CounterMap,
}

impl View for Aggregates {
    type V = AggregatesModel;

    closed spec fn view(&self) -> AggregatesModel {
        AggregatesModel {
            total_visits: self.total_visits as nat,
            total_traffic_bytes: self.total_traffic_bytes as nat,
            parse_errors: self.parse_errors as nat,
            ip: self.ip@,
            path: self.path@,
            user_agent: self.user_agent@,
            status_code: self.status_code@,
            by_day: self.by_day@,
            by_hour: self.by_hour@,
            by_month: self.by_month@,
        }
    }
}

impl Default for Aggregates {
    fn default() -> (r: Self)
        ensures
            r.wf(),
            r@ == empty_model(),
    {
        Aggregates {
            total_visits: 0,
            total_traffic_bytes: 0,
            parse_errors: 0,
            ip: CounterMap::new(),
            path: CounterMap::new(),
            user_agent: CounterMap::new(),
            status_code: CounterMap::new(),
            by_day: CounterMap::new(),
            by_hour: CounterMap::new(),
            by_month: CounterMap::new(),
        }
    }
}

impl Aggregates {
    /// Every map keeps its keys in order.
    pub closed spec fn wf(&self) -> bool {
        &&& self.ip.wf()
        &&& self.path.wf()
        &&& self.user_agent.wf()
        &&& self.status_code.wf()
        &&& self.by_day.wf()
        &&& self.by_hour.wf()
        &&& self.by_month.wf()
    }

    /// The total visits, total bytes and parse errors.
    pub fn totals(&self) -> (r: (u64, u64, u64))
        ensures
            r.0 == self@.total_visits,
            r.1 == self@.total_traffic_bytes,
            r.2 == self@.parse_errors,
    {
        (self.total_visits, self.total_traffic_bytes, self.parse_errors)
    }

    /// The totals are 64-bit counters.
    pub proof fn lemma_totals_fit(&self)
        ensures
            self@.total_visits <= u64::MAX,
            self@.total_traffic_bytes <= u64::MAX,
            self@.parse_errors <= u64::MAX,
    {
    }

    /// Counts one line that could not be parsed.
    pub fn add_parse_error(&mut self)
        requires
            old(self)@.parse_errors < u64::MAX,
        ensures
            final(self).wf() == old(self).wf(),
            final(self)@ == with_parse_error(old(self)@),
    {
        self.parse_errors += 1;
    }

    /// Assembles aggregates from their parts.
    pub fn from_parts(
        total_visits: u64,
        total_traffic_bytes: u64,
        parse_errors: u64,
        ip: CounterMap,
        path: CounterMap,
        user_agent: CounterMap,
        status_code: CounterMap,
        by_day: CounterMap,
        by_hour: CounterMap,
        by_month: CounterMap,
    ) -> (r: Self)
        requires
            ip.wf(),
            path.wf(),
            user_agent.wf(),
            status_code.wf(),
            by_day.wf(),
            by_hour.wf(),
            by_month.wf(),
        ensures
            r.wf(),
            r@ == (AggregatesModel {
                total_visits: total_visits as nat,
                total_traffic_bytes: total_traffic_bytes as nat,
                parse_errors: parse_errors as nat,
                ip: ip@,
                path: path@,
                user_agent: user_agent@,
                status_code: status_code@,
                by_day: by_day@,
                by_hour: by_hour@,
                by_month: by_month@,
            }),
    {
        Aggregates {
            total_visits,
            total_traffic_bytes,
            parse_errors,
            ip,
            path,
            user_agent,
            status_code,
            by_day,
            by_hour,
            by_month,
        }
    }

    /// Adds the totals and counters of `other`.
    pub fn merge(&mut self, other: Aggregates)
        requires
            old(self).wf(),
            other.wf(),
            merge_fits(old(self)@, other@),
        ensures
            final(self).wf(),
            final(self)@ == merge_model(old(self)@, other@),
            bounded(old(self)@) && bounded(other@) ==> bounded(final(self)@),
    {
        let ghost a = self@;
        let ghost b = other@;
        self.total_visits += other.total_visits;
        self.total_traffic_bytes += other.total_traffic_bytes;
        self.parse_errors += other.parse_errors;
        merge_map(&mut self.ip, other.ip);
        merge_map(&mut self.path, other.path);
        merge_map(&mut self.user_agent, other.user_agent);
        merge_map(&mut self.status_code, other.status_code);
        merge_map(&mut self.by_day, other.by_day);
        merge_map(&mut self.by_hour, other.by_hour);
        merge_map(&mut self.by_month, other.by_month);
        proof {
            if bounded(a) && bounded(b) {
                law_merge_bounded(a, b);
            }
        }
    }

    /// Whether `other` can be merged into these aggregates without a counter overflowing.
    pub fn can_merge(&self, other: &Aggregates) -> (r: bool)
        requires
            self.wf(),
            other.wf(),
        ensures
            r == merge_fits(self@, other@),
    {
        self.total_visits <= u64::MAX - other.total_visits && self.total_traffic_bytes <= u64::MAX
            - other.total_traffic_bytes && self.parse_errors <= u64::MAX - other.parse_errors
            && self.ip.can_merge(&other.ip) && self.path.can_merge(&other.path)
            && self.user_agent.can_merge(&other.user_agent) && self.status_code.can_merge(
            &other.status_code,
        ) && self.by_day.can_merge(&other.by_day) && self.by_hour.can_merge(&other.by_hour)
            && self.by_month.can_merge(&other.by_month)
    }

    /// Counts one parsed line, grouping its keys with `rules`.
    pub fn record(&mut self, record: ParsedRecord, rules: &GroupingRules)
        requires
            old(self).wf(),
            record_fits(old(self)@, record@, rules@),
        ensures
            final(self).wf(),
            final(self)@ == record_model(old(self)@, record@, rules@),
            bounded(old(self)@) ==> bounded(final(self)@),
    {
        let ghost a = self@;
        let ghost r = record@;
        let bytes = record.traffic_bytes;
        self.total_visits += 1;
        self.total_traffic_bytes += bytes;
        let grouped_ip = rules.ip.apply(record.ip.as_str());
        let grouped_path = rules.path.apply(record.path.as_str());
        let grouped_ua = rules.user_agent.apply(record.user_agent.as_str());
        proof {
            if bounded(a) {
                law_record_bounded(a, r, rules@);
            }
        }
        self.ip.add_hit(grouped_ip, bytes);
        self.path.add_hit(grouped_path, bytes);
        self.user_agent.add_hit(grouped_ua, bytes);
        self.status_code.add_hit(record.status_code, bytes);
        if let Some(ts) = &record.timestamp_str {
            if let Some((day_key, hour_key, month_key)) = parse_timestamp(ts.as_str()) {
                self.by_day.add_hit(day_key, bytes);
                self.by_hour.add_hit(hour_key, bytes);
                self.by_month.add_hit(month_key, bytes);
            }
        }
    }

    /// The trend buckets of one granularity, in increasing key order.
    pub fn date_series(&self, granularity: DateGranularity) -> (r: Vec<(&str, Counter)>)
        requires
            self.wf(),
        ensures
            r.len() == trend_map(self@, granularity).dom().len(),
            forall|i: int, j: int| 0 <= i < j < r.len() ==> crate::text::chars_lt(#[trigger] r[i].0@, #[trigger] r[j].0@),
            forall|i: int| 0 <= i < r.len() ==> trend_map(self@, granularity).contains_key(#[trigger] r[i].0@)
                && trend_map(self@, granularity)[r[i].0@] == r[i].1@,
    {
        let map = match granularity {
            DateGranularity::Hour => &self.by_hour,
            DateGranularity::Day => &self.by_day,
            DateGranularity::Month => &self.by_month,
        };
        let entries = map.entries();
        let mut out: Vec<(&str, Counter)> = Vec::new();
        for i in 0..entries.len()
            invariant
                out.len() == i,
                crate::counters::entries_describe(entries@, map@),
                map@ == trend_map(self@, granularity),
                forall|j: int| 0 <= j < i ==> out[j].0@ == entries@[j].0@ && out[j].1 == entries@[j].1,
        {
            out.push((entries[i].0.as_str(), entries[i].1));
        }
        out
    }

    /// The trend map of one granularity.
    pub fn trend(&self, granularity: DateGranularity) -> (r: &CounterMap)
        requires
            self.wf(),
        ensures
            r.wf(),
            r@ == trend_map(self@, granularity),
    {
        match granularity {
            DateGranularity::Hour => &self.by_hour,
            DateGranularity::Day => &self.by_day,
            DateGranularity::Month => &self.by_month,
        }
    }

    /// The map of one dimension.
    pub fn selected_map(&self, dimension: Dimension) -> (r: &CounterMap)
        requires
            self.wf(),
        ensures
            r.wf(),
            r@ == dimension_map(self@, dimension),
    {
        match dimension {
            Dimension::Ip => &self.ip,
            Dimension::Path => &self.path,
            Dimension::UserAgent => &self.user_agent,
            Dimension::StatusCode => &self.status_code,
        }
    }
}

/// Merging with nothing counted changes nothing, on either side.
pub proof fn law_merge_empty(m: AggregatesModel)
    ensures
        merge_model(m, empty_model()) == m,
        merge_model(empty_model(), m) == m,
{
    crate::counters::law_merge_tallies_empty(m.ip);
    crate::counters::law_merge_tallies_empty(m.path);
    crate::counters::law_merge_tallies_empty(m.user_agent);
    crate::counters::law_merge_tallies_empty(m.status_code);
    crate::counters::law_merge_tallies_empty(m.by_day);
    crate::counters::law_merge_tallies_empty(m.by_hour);
    crate::counters::law_merge_tallies_empty(m.by_month);
}

/// The order in which partial aggregates are merged does not matter.
pub proof fn law_merge_commutative(a: AggregatesModel, b: AggregatesModel)
    ensures
        merge_model(a, b) == merge_model(b, a),
{
    crate::counters::law_merge_tallies_commutative(a.ip, b.ip);
    crate::counters::law_merge_tallies_commutative(a.path, b.path);
    crate::counters::law_merge_tallies_commutative(a.user_agent, b.user_agent);
    crate::counters::law_merge_tallies_commutative(a.status_code, b.status_code);
    crate::counters::law_merge_tallies_commutative(a.by_day, b.by_day);
    crate::counters::law_merge_tallies_commutative(a.by_hour, b.by_hour);
    crate::counters::law_merge_tallies_commutative(a.by_month, b.by_month);
}

/// The grouping of merges of partial aggregates does not matter.
pub proof fn law_merge_associative(a: AggregatesModel, b: AggregatesModel, c: AggregatesModel)
    ensures
        merge_model(merge_model(a, b), c) == merge_model(a, merge_model(b, c)),
{
    crate::counters::law_merge_tallies_associative(a.ip, b.ip, c.ip);
    crate::counters::law_merge_tallies_associative(a.path, b.path, c.path);
    crate::counters::law_merge_tallies_associative(a.user_agent, b.user_agent, c.user_agent);
    crate::counters::law_merge_tallies_associative(a.status_code, b.status_code, c.status_code);
    crate::counters::law_merge_tallies_associative(a.by_day, b.by_day, c.by_day);
    crate::counters::law_merge_tallies_associative(a.by_hour, b.by_hour, c.by_hour);
    crate::counters::law_merge_tallies_associative(a.by_month, b.by_month, c.by_month);
}

proof fn lemma_merge_hit(x: Map<Seq<char>, Tally>, y: Map<Seq<char>, Tally>, k: Seq<char>, bytes: nat)
    ensures
        merge_tallies(x, map_hit(y, k, bytes)) == map_hit(merge_tallies(x, y), k, bytes),
{
    assert(merge_tallies(x, map_hit(y, k, bytes)) =~= map_hit(merge_tallies(x, y), k, bytes));
}

/// Counting a line into a partial aggregate and then merging gives what merging first and then
/// counting the line gives.
pub proof fn law_record_after_merge(a: AggregatesModel, b: AggregatesModel, r: RecordModel, rules: RulesModel)
    ensures
        merge_model(a, record_model(b, r, rules)) == record_model(merge_model(a, b), r, rules),
{
    let bytes = r.traffic_bytes;
    lemma_merge_hit(a.ip, b.ip, apply_rule(rules.ip, r.ip), bytes);
    lemma_merge_hit(a.path, b.path, apply_rule(rules.path, r.path), bytes);
    lemma_merge_hit(a.user_agent, b.user_agent, apply_rule(rules.user_agent, r.user_agent), bytes);
    lemma_merge_hit(a.status_code, b.status_code, r.status_code, bytes);
    match r.timestamp {
        Some(ts) => match timestamp_keys(ts) {
            Some((d, h, mo)) => {
                lemma_merge_hit(a.by_day, b.by_day, d, bytes);
                lemma_merge_hit(a.by_hour, b.by_hour, h, bytes);
                lemma_merge_hit(a.by_month, b.by_month, mo, bytes);
            },
            None => {},
        },
        None => {},
    }
}

/// Counting a parse error commutes with merging in the same way.
pub proof fn law_parse_error_after_merge(a: AggregatesModel, b: AggregatesModel)
    ensures
        merge_model(a, with_parse_error(b)) == with_parse_error(merge_model(a, b)),
{
}

proof fn lemma_can_merge(x: Map<Seq<char>, Tally>, y: Map<Seq<char>, Tally>, a: AggregatesModel, b: AggregatesModel)
    requires
        tallies_within(x, a.total_visits, a.total_traffic_bytes),
        tallies_within(y, b.total_visits, b.total_traffic_bytes),
        a.total_visits + b.total_visits <= u64::MAX,
        a.total_traffic_bytes + b.total_traffic_bytes <= u64::MAX,
    ensures
        can_merge_tallies(x, y),
{
}

proof fn lemma_merge_within(x: Map<Seq<char>, Tally>, y: Map<Seq<char>, Tally>, a: AggregatesModel, b: AggregatesModel)
    requires
        tallies_within(x, a.total_visits, a.total_traffic_bytes),
        tallies_within(y, b.total_visits, b.total_traffic_bytes),
    ensures
        tallies_within(
            merge_tallies(x, y),
            a.total_visits + b.total_visits,
            a.total_traffic_bytes + b.total_traffic_bytes,
        ),
{
}

proof fn lemma_room(m: Map<Seq<char>, Tally>, k: Seq<char>, v: nat, t: nat, bytes: nat)
    requires
        tallies_within(m, v, t),
        v < u64::MAX,
        t + bytes <= u64::MAX,
    ensures
        tally_at(m, k).visits < u64::MAX,
        tally_at(m, k).traffic + bytes <= u64::MAX,
{
}

proof fn lemma_hit_within(m: Map<Seq<char>, Tally>, k: Seq<char>, v: nat, t: nat, bytes: nat)
    requires
        tallies_within(m, v, t),
    ensures
        tallies_within(map_hit(m, k, bytes), v + 1, t + bytes),
{
}

proof fn lemma_within_grows(m: Map<Seq<char>, Tally>, v: nat, t: nat, v2: nat, t2: nat)
    requires
        tallies_within(m, v, t),
        v <= v2,
        t <= t2,
    ensures
        tallies_within(m, v2, t2),
{
}

/// The totals as one tally.
pub open spec fn totals_tally(m: AggregatesModel) -> Tally {
    Tally { visits: m.total_visits, traffic: m.total_traffic_bytes }
}

/// What counting keeps: every map has finitely many keys; the buckets of each dimension add up
/// to the totals, every counted line being in exactly one bucket of each; and the day, hour and
/// month buckets count the same lines, those with a readable time, so no more than all of them.
pub open spec fn consistent(m: AggregatesModel) -> bool {
    &&& m.ip.dom().finite()
    &&& m.path.dom().finite()
    &&& m.user_agent.dom().finite()
    &&& m.status_code.dom().finite()
    &&& m.by_day.dom().finite()
    &&& m.by_hour.dom().finite()
    &&& m.by_month.dom().finite()
    &&& tally_total(m.ip) == totals_tally(m)
    &&& tally_total(m.path) == totals_tally(m)
    &&& tally_total(m.user_agent) == totals_tally(m)
    &&& tally_total(m.status_code) == totals_tally(m)
    &&& tally_total(m.by_hour) == tally_total(m.by_day)
    &&& tally_total(m.by_month) == tally_total(m.by_day)
    &&& tally_total(m.by_day).visits <= m.total_visits
    &&& tally_total(m.by_day).traffic <= m.total_traffic_bytes
}

/// Nothing counted is consistent.
pub proof fn law_empty_consistent()
    ensures
        consistent(empty_model()),
{
    law_total_of_empty();
}

/// Counting a parsed line keeps the aggregates consistent.
pub proof fn law_record_consistent(m: AggregatesModel, r: RecordModel, rules: RulesModel)
    requires
        consistent(m),
    ensures
        consistent(record_model(m, r, rules)),
{
    let b = r.traffic_bytes;
    law_total_after_hit(m.ip, apply_rule(rules.ip, r.ip), b);
    law_total_after_hit(m.path, apply_rule(rules.path, r.path), b);
    law_total_after_hit(m.user_agent, apply_rule(rules.user_agent, r.user_agent), b);
    law_total_after_hit(m.status_code, r.status_code, b);
    match r.timestamp {
        Some(ts) => match timestamp_keys(ts) {
            Some((d, h, mo)) => {
                law_total_after_hit(m.by_day, d, b);
                law_total_after_hit(m.by_hour, h, b);
                law_total_after_hit(m.by_month, mo, b);
            },
            None => {},
        },
        None => {},
    }
}

/// Counting a line that did not parse keeps the aggregates consistent.
pub proof fn law_parse_error_consistent(m: AggregatesModel)
    requires
        consistent(m),
    ensures
        consistent(with_parse_error(m)),
{
}

/// Merging consistent aggregates gives consistent aggregates.
pub proof fn law_merge_consistent(a: AggregatesModel, b: AggregatesModel)
    requires
        consistent(a),
        consistent(b),
    ensures
        consistent(merge_model(a, b)),
{
    law_total_of_merge(a.ip, b.ip);
    law_total_of_merge(a.path, b.path);
    law_total_of_merge(a.user_agent, b.user_agent);
    law_total_of_merge(a.status_code, b.status_code);
    law_total_of_merge(a.by_day, b.by_day);
    law_total_of_merge(a.by_hour, b.by_hour);
    law_total_of_merge(a.by_month, b.by_month);
}

/// Counting a line keeps every counter within the totals.
pub proof fn law_record_bounded(m: AggregatesModel, r: RecordModel, rules: RulesModel)
    requires
        bounded(m),
    ensures
        bounded(record_model(m, r, rules)),
{
    let v = m.total_visits;
    let t = m.total_traffic_bytes;
    let b = r.traffic_bytes;
    lemma_hit_within(m.ip, apply_rule(rules.ip, r.ip), v, t, b);
    lemma_hit_within(m.path, apply_rule(rules.path, r.path), v, t, b);
    lemma_hit_within(m.user_agent, apply_rule(rules.user_agent, r.user_agent), v, t, b);
    lemma_hit_within(m.status_code, r.status_code, v, t, b);
    lemma_within_grows(m.by_day, v, t, v + 1, t + b);
    lemma_within_grows(m.by_hour, v, t, v + 1, t + b);
    lemma_within_grows(m.by_month, v, t, v + 1, t + b);
    match r.timestamp {
        Some(ts) => match timestamp_keys(ts) {
            Some((d, h, mo)) => {
                lemma_hit_within(m.by_day, d, v, t, b);
                lemma_hit_within(m.by_hour, h, v, t, b);
                lemma_hit_within(m.by_month, mo, v, t, b);
            },
            None => {},
        },
        None => {},
    }
}

/// Merging aggregates whose counters are within their totals gives the same.
pub proof fn law_merge_bounded(a: AggregatesModel, b: AggregatesModel)
    requires
        bounded(a),
        bounded(b),
    ensures
        bounded(merge_model(a, b)),
{
    lemma_merge_within(a.ip, b.ip, a, b);
    lemma_merge_within(a.path, b.path, a, b);
    lemma_merge_within(a.user_agent, b.user_agent, a, b);
    lemma_merge_within(a.status_code, b.status_code, a, b);
    lemma_merge_within(a.by_day, b.by_day, a, b);
    lemma_merge_within(a.by_hour, b.by_hour, a, b);
    lemma_merge_within(a.by_month, b.by_month, a, b);
}

/// Where counters are within their totals, a line can be counted exactly when the totals fit.
pub proof fn law_bounded_record_fits(m: AggregatesModel, r: RecordModel, rules: RulesModel)
    requires
        bounded(m),
    ensures
        record_fits(m, r, rules) <==> (m.total_visits < u64::MAX && m.total_traffic_bytes
            + r.traffic_bytes <= u64::MAX),
{
    let v = m.total_visits;
    let t = m.total_traffic_bytes;
    let b = r.traffic_bytes;
    if v < u64::MAX && t + b <= u64::MAX {
        lemma_room(m.ip, apply_rule(rules.ip, r.ip), v, t, b);
        lemma_room(m.path, apply_rule(rules.path, r.path), v, t, b);
        lemma_room(m.user_agent, apply_rule(rules.user_agent, r.user_agent), v, t, b);
        lemma_room(m.status_code, r.status_code, v, t, b);
        match r.timestamp {
            Some(ts) => match timestamp_keys(ts) {
                Some((d, h, mo)) => {
                    lemma_room(m.by_day, d, v, t, b);
                    lemma_room(m.by_hour, h, v, t, b);
                    lemma_room(m.by_month, mo, v, t, b);
                },
                None => {},
            },
            None => {},
        }
    }
}

/// Where counters are within their totals, two aggregates can be merged exactly when the
/// merged totals fit.
pub proof fn law_bounded_merge_fits(a: AggregatesModel, b: AggregatesModel)
    requires
        bounded(a),
        bounded(b),
    ensures
        merge_fits(a, b) <==> (a.total_visits + b.total_visits <= u64::MAX && a.total_traffic_bytes
            + b.total_traffic_bytes <= u64::MAX && a.parse_errors + b.parse_errors <= u64::MAX),
{
    if a.total_visits + b.total_visits <= u64::MAX && a.total_traffic_bytes + b.total_traffic_bytes
        <= u64::MAX {
        lemma_can_merge(a.ip, b.ip, a, b);
        lemma_can_merge(a.path, b.path, a, b);
        lemma_can_merge(a.user_agent, b.user_agent, a, b);
        lemma_can_merge(a.status_code, b.status_code, a, b);
        lemma_can_merge(a.by_day, b.by_day, a, b);
        lemma_can_merge(a.by_hour, b.by_hour, a, b);
        lemma_can_merge(a.by_month, b.by_month, a, b);
    }
}

/// Counting a line adds one visit and its bytes to the tally of `key` in `after`, and leaves
/// every other key as it was in `before`.
pub open spec fn one_more_visit(
    before: Map<Seq<char>, Tally>,
    after: Map<Seq<char>, Tally>,
    key: Seq<char>,
    bytes: nat,
) -> bool {
    &&& after.contains_key(key)
    &&& after[key].visits == tally_at(before, key).visits + 1
    &&& after[key].traffic == tally_at(before, key).traffic + bytes
    &&& after.remove(key) == before.remove(key)
}

/// Counting a line is one more visit, with its bytes, in each dimension under its (grouped) key;
/// and when its time reads as a date, one more visit in its day, hour and month buckets,
/// whatever its byte count, a zero-byte hit included; otherwise the trend is left alone.
pub proof fn law_record_counts_one_visit_everywhere(m: AggregatesModel, r: RecordModel, rules: RulesModel)
    ensures
        ({
            let after = record_model(m, r, rules);
            let b = r.traffic_bytes;
            &&& after.total_visits == m.total_visits + 1
            &&& after.total_traffic_bytes == m.total_traffic_bytes + b
            &&& after.parse_errors == m.parse_errors
            &&& one_more_visit(m.ip, after.ip, apply_rule(rules.ip, r.ip), b)
            &&& one_more_visit(m.path, after.path, apply_rule(rules.path, r.path), b)
            &&& one_more_visit(m.user_agent, after.user_agent, apply_rule(rules.user_agent, r.user_agent), b)
            &&& one_more_visit(m.status_code, after.status_code, r.status_code, b)
            &&& match r.timestamp {
                Some(ts) => match timestamp_keys(ts) {
                    Some((d, h, mo)) => one_more_visit(m.by_day, after.by_day, d, b)
                        && one_more_visit(m.by_hour, after.by_hour, h, b)
                        && one_more_visit(m.by_month, after.by_month, mo, b),
                    None => after.by_day == m.by_day && after.by_hour == m.by_hour && after.by_month
                        == m.by_month,
                },
                None => after.by_day == m.by_day && after.by_hour == m.by_hour && after.by_month
                    == m.by_month,
            }
        }),
{
    let after = record_model(m, r, rules);
    let b = r.traffic_bytes;
    assert(after.ip.remove(apply_rule(rules.ip, r.ip)) =~= m.ip.remove(apply_rule(rules.ip, r.ip)));
    assert(after.path.remove(apply_rule(rules.path, r.path)) =~= m.path.remove(
        apply_rule(rules.path, r.path),
    ));
    assert(after.user_agent.remove(apply_rule(rules.user_agent, r.user_agent)) =~= m.user_agent.remove(
        apply_rule(rules.user_agent, r.user_agent),
    ));
    assert(after.status_code.remove(r.status_code) =~= m.status_code.remove(r.status_code));
    match r.timestamp {
        Some(ts) => match timestamp_keys(ts) {
            Some((d, h, mo)) => {
                assert(after.by_day.remove(d) =~= m.by_day.remove(d));
                assert(after.by_hour.remove(h) =~= m.by_hour.remove(h));
                assert(after.by_month.remove(mo) =~= m.by_month.remove(mo));
            },
            None => {},
        },
        None => {},
    }
}

} // verus!
