use vstd::prelude::*;

verus! {

/// `String::push` appends one character: the contract claims that the text afterwards is the
/// text before with `ch` at its end, as the standard library documents.
pub assume_specification[ String::push ](string: &mut String, ch: char)
    ensures
        final(string)@ == old(string)@.push(ch),
;

/// The characters of a string slice, in order.
pub fn chars_of(s: &str) -> (out: Vec<char>)
    ensures
        out@ == s@,
{
    let mut out: Vec<char> = Vec::new();
    for c in it: s.chars()
        invariant
            it.seq() == s@,
            out@ == it.seq().take(it.index() as int),
    {
        out.push(c);
    }
    out
}

/// A string holding exactly the given characters.
pub fn string_of_chars(chars: &Vec<char>) -> (out: String)
    ensures
        out@ == chars@,
{
    let mut out = String::new();
    for i in 0..chars.len()
        invariant
            out@ == chars@.take(i as int),
    {
        out.push(chars[i]);
        assert(chars@.take(i + 1) == chars@.take(i as int).push(chars@[i as int]));
    }
    assert(chars@.take(chars.len() as int) == chars@);
    out
}

/// Appends the characters of `tail` to `out`.
pub fn push_chars(out: &mut String, tail: &str)
    ensures
        final(out)@ == old(out)@ + tail@,
{
    let chars = chars_of(tail);
    let ghost start = out@;
    for i in 0..chars.len()
        invariant
            out@ == start + chars@.take(i as int),
    {
        out.push(chars[i]);
        assert(chars@.take(i + 1) == chars@.take(i as int).push(chars@[i as int]));
    }
    assert(chars@.take(chars.len() as int) == chars@);
}

/// Strict lexicographic order of character sequences, by code point.
/// This is the order of Rust's `str` comparison, since UTF-8 preserves code point order.
pub open spec fn chars_lt(a: Seq<char>, b: Seq<char>) -> bool
    decreases a.len(),
{
    if a.len() == 0 {
        b.len() > 0
    } else if b.len() == 0 {
        false
    } else if a[0] != b[0] {
        (a[0] as u32) < (b[0] as u32)
    } else {
        chars_lt(a.drop_first(), b.drop_first())
    }
}

/// Distinct characters have distinct code points.
pub proof fn lemma_char_code_injective(x: char, y: char)
    requires
        (x as u32) == (y as u32),
    ensures
        x == y,
{
    vstd::utf8::char_u32_cast(x, x as u32);
    vstd::utf8::char_u32_cast(y, y as u32);
}

pub proof fn lemma_chars_lt_irreflexive(a: Seq<char>)
    ensures
        !chars_lt(a, a),
    decreases a.len(),
{
    if a.len() > 0 {
        lemma_chars_lt_irreflexive(a.drop_first());
    }
}

pub proof fn lemma_chars_lt_asymmetric(a: Seq<char>, b: Seq<char>)
    ensures
        !(chars_lt(a, b) && chars_lt(b, a)),
    decreases a.len(),
{
    if a.len() > 0 && b.len() > 0 && a[0] == b[0] {
        lemma_chars_lt_asymmetric(a.drop_first(), b.drop_first());
    }
}

pub proof fn lemma_chars_lt_transitive(a: Seq<char>, b: Seq<char>, c: Seq<char>)
    requires
        chars_lt(a, b),
        chars_lt(b, c),
    ensures
        chars_lt(a, c),
    decreases a.len(),
{
    if a.len() > 0 && b.len() > 0 && c.len() > 0 && a[0] == b[0] && b[0] == c[0] {
        lemma_chars_lt_transitive(a.drop_first(), b.drop_first(), c.drop_first());
    }
}

pub proof fn lemma_chars_lt_total(a: Seq<char>, b: Seq<char>)
    ensures
        a != b ==> chars_lt(a, b) || chars_lt(b, a),
    decreases a.len(),
{
    if a.len() == 0 && b.len() == 0 {
        assert(a =~= b);
    } else if a.len() > 0 && b.len() > 0 && a[0] == b[0] {
        lemma_chars_lt_total(a.drop_first(), b.drop_first());
        if a.drop_first() == b.drop_first() {
            assert(a =~= seq![a[0]] + a.drop_first());
            assert(b =~= seq![b[0]] + b.drop_first());
        }
    } else if a.len() > 0 && b.len() > 0 {
        if (a[0] as u32) == (b[0] as u32) {
            lemma_char_code_injective(a[0], b[0]);
        }
    }
}

/// Texts that start with parts of the same length compare by those parts first, then by what
/// follows them.
pub proof fn lemma_chars_lt_concat(a1: Seq<char>, b1: Seq<char>, a2: Seq<char>, b2: Seq<char>)
    requires
        a1.len() == a2.len(),
    ensures
        chars_lt(a1 + b1, a2 + b2) == (chars_lt(a1, a2) || (a1 == a2 && chars_lt(b1, b2))),
        (a1 + b1 == a2 + b2) == (a1 == a2 && b1 == b2),
    decreases a1.len(),
{
    if a1 + b1 == a2 + b2 {
        assert(a1 =~= (a1 + b1).take(a1.len() as int));
        assert(a2 =~= (a2 + b2).take(a2.len() as int));
        assert(b1 =~= (a1 + b1).skip(a1.len() as int));
        assert(b2 =~= (a2 + b2).skip(a2.len() as int));
    }
    if a1.len() == 0 {
        assert(a1 + b1 =~= b1);
        assert(a2 + b2 =~= b2);
        assert(a1 =~= a2);
    } else {
        assert((a1 + b1)[0] == a1[0]);
        assert((a2 + b2)[0] == a2[0]);
        if a1[0] == a2[0] {
            assert((a1 + b1).drop_first() =~= a1.drop_first() + b1);
            assert((a2 + b2).drop_first() =~= a2.drop_first() + b2);
            lemma_chars_lt_concat(a1.drop_first(), b1, a2.drop_first(), b2);
            if a1.drop_first() == a2.drop_first() {
                assert(a1 =~= seq![a1[0]] + a1.drop_first());
                assert(a2 =~= seq![a2[0]] + a2.drop_first());
            }
        }
    }
}

proof fn lemma_digit_values(x: char, y: char)
    requires
        is_digit(x),
        is_digit(y),
    ensures
        digit_value(x) < 10,
        ((x as u32) < (y as u32)) == (digit_value(x) < digit_value(y)),
        (x == y) == (digit_value(x) == digit_value(y)),
{
    if digit_value(x) == digit_value(y) {
        lemma_char_code_injective(x, y);
    }
}

/// Digit strings of the same length are in text order exactly when their values are in
/// numeric order: what makes zero-padded dates sort in time order.
pub proof fn law_digit_texts_order(a: Seq<char>, b: Seq<char>)
    requires
        a.len() == b.len(),
        forall|i: int| 0 <= i < a.len() ==> is_digit(#[trigger] a[i]),
        forall|i: int| 0 <= i < b.len() ==> is_digit(#[trigger] b[i]),
    ensures
        chars_lt(a, b) == (digits_value(a) < digits_value(b)),
        (a == b) == (digits_value(a) == digits_value(b)),
    decreases a.len(),
{
    if a.len() == 0 {
        assert(a =~= b);
    } else {
        let pa = a.drop_last();
        let pb = b.drop_last();
        let x = a.last();
        let y = b.last();
        law_digit_texts_order(pa, pb);
        assert(a =~= pa + seq![x]);
        assert(b =~= pb + seq![y]);
        lemma_chars_lt_concat(pa, seq![x], pb, seq![y]);
        assert(is_digit(x) && is_digit(y));
        lemma_digit_values(x, y);
        lemma_digit_values(y, x);
        assert(chars_lt(seq![x], seq![y]) == ((x as u32) < (y as u32))) by {
            assert(seq![x][0] == x && seq![y][0] == y);
            if x == y {
                lemma_chars_lt_irreflexive(seq![x]);
            }
        }
        assert((seq![x] == seq![y]) == (x == y)) by {
            if seq![x] == seq![y] {
                assert(seq![x][0] == seq![y][0]);
            }
        }
        let p = digits_value(pa);
        let q = digits_value(pb);
        let dx = digit_value(x);
        let dy = digit_value(y);
        assert(digits_value(a) == p * 10 + dx);
        assert(digits_value(b) == q * 10 + dy);
        assert((p * 10 + dx < q * 10 + dy) == (p < q || (p == q && dx < dy))) by (nonlinear_arith)
            requires
                dx < 10,
                dy < 10,
        ;
        assert((p * 10 + dx == q * 10 + dy) == (p == q && dx == dy)) by (nonlinear_arith)
            requires
                dx < 10,
                dy < 10,
        ;
    }
}

/// The result of comparing two texts.
#[derive(Clone, Copy, PartialEq, Eq, Debug)]
pub enum TextOrder {
    Less,
    Equal,
    Greater,
}

/// The spec meaning of a comparison result.
pub open spec fn text_order(a: Seq<char>, b: Seq<char>) -> TextOrder {
    if a == b {
        TextOrder::Equal
    } else if chars_lt(a, b) {
        TextOrder::Less
    } else {
        TextOrder::Greater
    }
}

/// Whether `x` has a smaller code point than `y`.
pub fn char_less(x: char, y: char) -> (r: bool)
    ensures
        r == ((x as u32) < (y as u32)),
{
    (x as u32) < (y as u32)
}

/// Compares two character vectors lexicographically.
pub fn compare_chars(a: &Vec<char>, b: &Vec<char>) -> (r: TextOrder)
    ensures
        r == text_order(a@, b@),
{
    let mut i: usize = 0;
    assert(a@.skip(0) =~= a@);
    assert(b@.skip(0) =~= b@);
    while i < a.len() && i < b.len()
        invariant
            i <= a.len(),
            i <= b.len(),
            a@.take(i as int) == b@.take(i as int),
            chars_lt(a@, b@) == chars_lt(a@.skip(i as int), b@.skip(i as int)),
            (a@ == b@) == (a@.skip(i as int) == b@.skip(i as int)),
        decreases a.len() - i,
    {
        if a[i] != b[i] {
            let lt = char_less(a[i], b[i]);
            proof {
                assert(a@.skip(i as int)[0] == a@[i as int]);
                assert(b@.skip(i as int)[0] == b@[i as int]);
                assert(a@ != b@);
                if (a@[i as int] as u32) == (b@[i as int] as u32) {
                    lemma_char_code_injective(a@[i as int], b@[i as int]);
                }
            }
            if lt {
                return TextOrder::Less;
            } else {
                return TextOrder::Greater;
            }
        }
        proof {
            let sa = a@.skip(i as int);
            let sb = b@.skip(i as int);
            assert(sa.drop_first() =~= a@.skip(i + 1));
            assert(sb.drop_first() =~= b@.skip(i + 1));
            assert(a@.take(i + 1) =~= a@.take(i as int).push(a@[i as int]));
            assert(b@.take(i + 1) =~= b@.take(i as int).push(b@[i as int]));
            assert(sa =~= seq![sa[0]] + sa.drop_first());
            assert(sb =~= seq![sb[0]] + sb.drop_first());
            if sa.drop_first() == sb.drop_first() {
                assert(sa == sb);
            }
        }
        i = i + 1;
    }
    proof {
        let sa = a@.skip(i as int);
        let sb = b@.skip(i as int);
        if i == a.len() {
            assert(a@.take(i as int) =~= a@);
        }
        if i == b.len() {
            assert(b@.take(i as int) =~= b@);
        }
    }
    if a.len() == b.len() {
        proof {
            assert(a@ =~= a@.take(i as int));
            assert(b@ =~= b@.take(i as int));
        }
        TextOrder::Equal
    } else if a.len() < b.len() {
        proof {
            assert(a@.skip(i as int).len() == 0);
            assert(a@ != b@);
        }
        TextOrder::Less
    } else {
        proof {
            assert(b@.skip(i as int).len() == 0);
            assert(a@ != b@);
        }
        TextOrder::Greater
    }
}

/// Compares two texts lexicographically by code point.
pub fn compare_text(a: &str, b: &str) -> (r: TextOrder)
    ensures
        r == text_order(a@, b@),
{
    let va = chars_of(a);
    let vb = chars_of(b);
    compare_chars(&va, &vb)
}


/// The decimal digit character for a value below ten.
pub open spec fn digit_char(d: int) -> char {
    if d == 0 {
        '0'
    } else if d == 1 {
        '1'
    } else if d == 2 {
        '2'
    } else if d == 3 {
        '3'
    } else if d == 4 {
        '4'
    } else if d == 5 {
        '5'
    } else if d == 6 {
        '6'
    } else if d == 7 {
        '7'
    } else if d == 8 {
        '8'
    } else {
        '9'
    }
}

/// The shortest decimal representation of a natural number.
pub open spec fn decimal(n: nat) -> Seq<char>
    decreases n,
{
    if n < 10 {
        seq![digit_char(n as int)]
    } else {
        decimal(n / 10).push(digit_char((n % 10) as int))
    }
}

fn digit_of(d: u64) -> (c: char)
    requires
        d < 10,
    ensures
        c == digit_char(d as int),
{
    match d {
        0 => '0',
        1 => '1',
        2 => '2',
        3 => '3',
        4 => '4',
        5 => '5',
        6 => '6',
        7 => '7',
        8 => '8',
        _ => '9',
    }
}

/// Appends the decimal representation of `n` to `out`.
pub fn push_decimal(out: &mut String, n: u64)
    ensures
        final(out)@ == old(out)@ + decimal(n as nat),
    decreases n,
{
    if n >= 10 {
        push_decimal(out, n / 10);
    }
    out.push(digit_of(n % 10));
}

/// The decimal representation of `n`, as `u64::to_string` writes it.
pub fn decimal_text(n: u64) -> (out: String)
    ensures
        out@ == decimal(n as nat),
{
    let mut out = String::new();
    push_decimal(&mut out, n);
    out
}

/// Whether a character is an ASCII decimal digit.
pub open spec fn is_digit(c: char) -> bool {
    '0' <= c && c <= '9'
}

/// The value of a decimal digit character.
pub open spec fn digit_value(c: char) -> nat {
    ((c as u32) - ('0' as u32)) as nat
}

/// The value of a string of decimal digits.
pub open spec fn digits_value(d: Seq<char>) -> nat
    decreases d.len(),
{
    if d.len() == 0 {
        0
    } else {
        digits_value(d.drop_last()) * 10 + digit_value(d.last())
    }
}

/// The digits that `u64::from_str` reads: an optional leading `+` is skipped.
pub open spec fn unsigned_digits(s: Seq<char>) -> Seq<char> {
    if s.len() > 0 && s[0] == '+' {
        s.drop_first()
    } else {
        s
    }
}

/// What `str::parse::<u64>` returns: the value when the text is an optional `+` followed by
/// at least one ASCII digit and the value fits in 64 bits, and nothing otherwise.
pub open spec fn parse_unsigned(s: Seq<char>) -> Option<u64> {
    let d = unsigned_digits(s);
    if d.len() > 0 && (forall|i: int| 0 <= i < d.len() ==> is_digit(#[trigger] d[i]))
        && digits_value(d) <= u64::MAX {
        Some(digits_value(d) as u64)
    } else {
        None
    }
}

proof fn lemma_digits_value_monotone(d: Seq<char>, i: int)
    requires
        0 <= i <= d.len(),
        forall|j: int| 0 <= j < d.len() ==> is_digit(#[trigger] d[j]),
    ensures
        digits_value(d.take(i)) <= digits_value(d),
    decreases d.len() - i,
{
    if i < d.len() {
        lemma_digits_value_monotone(d, i + 1);
        assert(d.take(i + 1).drop_last() =~= d.take(i));
        assert(d.take(i + 1).last() == d[i]);
    } else {
        assert(d.take(i) =~= d);
    }
}

/// Reads an unsigned decimal number, as `str::parse::<u64>` does.
pub fn parse_u64(s: &str) -> (r: Option<u64>)
    ensures
        r == parse_unsigned(s@),
{
    let chars = chars_of(s);
    let mut start: usize = 0;
    if chars.len() > 0 && chars[0] == '+' {
        start = 1;
    }
    let ghost d = unsigned_digits(s@);
    assert(d =~= chars@.skip(start as int));
    if start >= chars.len() {
        return None;
    }
    let mut acc: u64 = 0;
    let mut i: usize = start;
    while i < chars.len()
        invariant
            start <= i <= chars.len(),
            chars@ == s@,
            d == unsigned_digits(s@),
            d =~= chars@.skip(start as int),
            forall|j: int| 0 <= j < i - start ==> is_digit(#[trigger] d[j]),
            acc == digits_value(d.take(i - start)),
        decreases chars.len() - i,
    {
        let c = chars[i];
        assert(d[i - start] == c);
        if !('0' <= c && c <= '9') {
            proof {
                let j = i - start;
                assert(!is_digit(d[j]));
                assert(!(forall|k: int| 0 <= k < d.len() ==> is_digit(#[trigger] d[k])));
            }
            return None;
        }
        let v = (c as u32 - '0' as u32) as u64;
        assert(d.take(i + 1 - start).drop_last() =~= d.take(i - start));
        assert(d.take(i + 1 - start).last() == c);
        match acc.checked_mul(10) {
            None => {
                proof {
                    if forall|k: int| 0 <= k < d.len() ==> is_digit(#[trigger] d[k]) {
                        lemma_digits_value_monotone(d, i + 1 - start);
                    }
                }
                return None;
            }
            Some(m) => match m.checked_add(v) {
                None => {
                    proof {
                        if forall|k: int| 0 <= k < d.len() ==> is_digit(#[trigger] d[k]) {
                            lemma_digits_value_monotone(d, i + 1 - start);
                        }
                    }
                    return None;
                }
                Some(n) => {
                    acc = n;
                }
            },
        }
        i = i + 1;
    }
    assert(d.take(i - start) =~= d);
    Some(acc)
}

/// Whether `char::is_whitespace` holds: the Unicode `White_Space` property.
pub open spec fn is_space(c: char) -> bool {
    let u = c as u32;
    (0x09 <= u && u <= 0x0d) || u == 0x20 || u == 0x85 || u == 0xa0 || u == 0x1680
        || (0x2000 <= u && u <= 0x200a) || u == 0x2028 || u == 0x2029 || u == 0x202f
        || u == 0x205f || u == 0x3000
}

/// Whether `c` is whitespace, as `char::is_whitespace` says.
pub fn is_space_char(c: char) -> (r: bool)
    ensures
        r == is_space(c),
{
    let u = c as u32;
    (0x09 <= u && u <= 0x0d) || u == 0x20 || u == 0x85 || u == 0xa0 || u == 0x1680
        || (0x2000 <= u && u <= 0x200a) || u == 0x2028 || u == 0x2029 || u == 0x202f
        || u == 0x205f || u == 0x3000
}

/// The maximal runs of non-whitespace characters, in order, as `str::split_whitespace` yields
/// them.
pub open spec fn words(s: Seq<char>) -> Seq<Seq<char>>
    decreases s.len(),
{
    if s.len() == 0 {
        Seq::empty()
    } else {
        let prev = words(s.drop_last());
        let c = s.last();
        if is_space(c) {
            prev
        } else if s.len() > 1 && !is_space(s[s.len() - 2]) {
            prev.update(prev.len() - 1, prev.last().push(c))
        } else {
            prev.push(seq![c])
        }
    }
}

proof fn lemma_words_nonempty(s: Seq<char>)
    requires
        s.len() > 0,
        !is_space(s.last()),
    ensures
        words(s).len() > 0,
    decreases s.len(),
{
    if s.len() > 1 && !is_space(s[s.len() - 2]) {
        let p = s.drop_last();
        assert(p.last() == s[s.len() - 2]);
        lemma_words_nonempty(p);
    }
}

/// The second whitespace-separated word of `s`, as `s.split_whitespace().nth(1)` gives it.
pub fn second_word(s: &str) -> (r: Option<String>)
    ensures
        match r {
            Some(w) => words(s@).len() >= 2 && w@ == words(s@)[1],
            None => words(s@).len() < 2,
        },
{
    let chars = chars_of(s);
    let mut count: usize = 0;
    let mut second: Vec<char> = Vec::new();
    let mut i: usize = 0;
    while i < chars.len()
        invariant
            i <= chars.len(),
            chars@ == s@,
            count as int == words(s@.take(i as int)).len(),
            count <= i,
            count >= 2 ==> second@ == words(s@.take(i as int))[1],
            count < 2 ==> second@.len() == 0,
        decreases chars.len() - i,
    {
        let c = chars[i];
        let ghost t = s@.take(i + 1);
        assert(t.drop_last() =~= s@.take(i as int));
        assert(t.last() == c);
        if is_space_char(c) {
        } else if i > 0 && !is_space_char(chars[i - 1]) {
            proof {
                assert(t[t.len() - 2] == chars@[i - 1]);
                lemma_words_nonempty(s@.take(i as int));
            }
            if count == 2 {
                second.push(c);
            }
        } else {
            count = count + 1;
            if count == 2 {
                second.push(c);
            }
        }
        i = i + 1;
    }
    assert(s@.take(i as int) =~= s@);
    if count >= 2 {
        Some(string_of_chars(&second))
    } else {
        None
    }
}

} // verus!
