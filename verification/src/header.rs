//! The header that asks a server for one range of a resource.

use vstd::prelude::*;
use vstd::string::StringExecFns;
use crate::range::ByteRange;
use crate::text::{decimal, push_decimal};

verus! {

/// Name of the header that carries the range.
pub const RANGE_HEADER: &'static str = "Range";

/// The range in the words of the header: `bytes=`, the offset of the first
/// byte, a hyphen, and the offset of the last byte, both in decimal.
pub open spec fn range_header(range: ByteRange) -> Seq<char> {
    "bytes="@ + decimal(range.start as nat) + "-"@ + decimal(range.end as nat)
}

/// The value of the `Range` header of the request for `range`.
pub fn range_header_value(range: ByteRange) -> (value: String)
    ensures
        value@ == range_header(range),
{
    let mut value = String::from_str("bytes=");
    push_decimal(&mut value, range.start);
    value.append("-");
    push_decimal(&mut value, range.end);
    value
}

} // verus!
