use vstd::prelude::*;
use vstd::string::StringSliceAdditionalSpecFns;
use vstd::utf8::encode_utf8;

use crate::domain::{byte_piece, byte_range_ok, byte_slice, DateGranularity};

verus! {

/// The short label of a trend key: bytes 5 to 13 of an hour key (`03-13 09` of
/// `2026-03-13 09:00`), bytes 5 to 10 of a day key (`03-13` of `2026-03-13`), the whole month
/// key; the whole key when those bytes cannot be cut out.
pub open spec fn trend_label_of(label: Seq<char>, granularity: DateGranularity) -> Seq<char> {
    let b = encode_utf8(label);
    match granularity {
        DateGranularity::Hour => if byte_range_ok(b, 5, 13) {
            byte_piece(label, 5, 13)
        } else {
            label
        },
        DateGranularity::Day => if byte_range_ok(b, 5, 10) {
            byte_piece(label, 5, 10)
        } else {
            label
        },
        DateGranularity::Month => label,
    }
}

fn cut_or_whole(label: &str, i: usize, j: usize) -> (r: String)
    requires
        i <= j,
    ensures
        r@ == if byte_range_ok(label.spec_bytes(), i as int, j as int) {
            byte_piece(label@, i as int, j as int)
        } else {
            label@
        },
{
    if label.as_bytes().len() >= j && label.is_char_boundary(i) && label.is_char_boundary(j) {
        byte_slice(label, i, j).to_owned()
    } else {
        label.to_owned()
    }
}

/// The label shown under the trend chart for a bucket key.
pub fn trend_label(label: &str, granularity: DateGranularity) -> (r: String)
    ensures
        r@ == trend_label_of(label@, granularity),
{
    match granularity {
        DateGranularity::Hour => cut_or_whole(label, 5, 13),
        DateGranularity::Day => cut_or_whole(label, 5, 10),
        DateGranularity::Month => label.to_owned(),
    }
}

} // verus!
