use vstd::prelude::*;

use crate::text::{chars_of, string_of_chars};

verus! {

/// A label cut to at most `max` characters: a longer text keeps its first `max - 1` characters
/// (none when `max` is zero) and ends with `~`.
pub open spec fn truncated(text: Seq<char>, max: nat) -> Seq<char> {
    if text.len() <= max {
        text
    } else {
        text.take(if max >= 1 {
            max - 1
        } else {
            0
        }).push('~')
    }
}

/// Cuts a label to fit a bar of the chart.
pub fn truncate_label(text: &str, max: usize) -> (r: String)
    ensures
        r@ == truncated(text@, max as nat),
{
    let chars = chars_of(text);
    if chars.len() <= max {
        return text.to_owned();
    }
    let keep = if max >= 1 {
        max - 1
    } else {
        0
    };
    let mut out: Vec<char> = Vec::new();
    for i in 0..keep
        invariant
            keep < chars.len(),
            out@ == chars@.take(i as int),
    {
        out.push(chars[i]);
        assert(chars@.take(i + 1) =~= chars@.take(i as int).push(chars@[i as int]));
    }
    out.push('~');
    string_of_chars(&out)
}

/// A cut label is never longer than `max` characters, when `max` is at least one.
pub proof fn law_truncated_fits(text: Seq<char>, max: nat)
    requires
        max >= 1,
    ensures
        truncated(text, max).len() <= max,
        text.len() <= max ==> truncated(text, max) == text,
{
}

} // verus!
