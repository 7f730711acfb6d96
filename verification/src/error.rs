//! The ways in which a download can fail.

use vstd::prelude::*;
use vstd::string::StringExecFns;
use crate::range::ByteRange;
use crate::text::{decimal, push_decimal};

verus! {

/// Why a download was given up. Any one of these ends the whole download:
/// there is no partial success.
#[derive(Clone, Copy, Debug, PartialEq, Eq, Structural)]
pub enum DownloadError {
    /// The request for `range` failed below HTTP: no connection, a timeout,
    /// a name that does not resolve.
    Network { range: ByteRange },
    /// The request for `range` was answered with a status outside 200..=299.
    Protocol { range: ByteRange, status: u16 },
    /// The answer for `range` held `received` bytes, which is not the length
    /// of the range.
    LengthMismatch { range: ByteRange, received: u64 },
    /// The pieces do not make up the resource: a chunk for a range that was
    /// never asked for, a second chunk for the same range, or a range whose
    /// chunk never came.
    Assembly,
}

/// A range in words: `bytes `, its first offset, a hyphen, its last offset.
pub open spec fn range_words(range: ByteRange) -> Seq<char> {
    "bytes "@ + decimal(range.start as nat) + "-"@ + decimal(range.end as nat)
}

impl DownloadError {
    /// The error in words.
    pub open spec fn description(self) -> Seq<char> {
        match self {
            DownloadError::Network { range } => "network failure while fetching "@ + range_words(
                range,
            ),
            DownloadError::Protocol { range, status } => "unexpected HTTP status "@ + decimal(
                status as nat,
            ) + " for "@ + range_words(range),
            DownloadError::LengthMismatch { range, received } => "received "@ + decimal(
                received as nat,
            ) + " bytes for "@ + range_words(range),
            DownloadError::Assembly => "the chunks received do not make up the resource"@,
        }
    }

    /// Says in words what went wrong, and for which range.
    pub fn describe(&self) -> (text: String)
        ensures
            text@ == self.description(),
    {
        match *self {
            DownloadError::Network { range } => {
                let mut text = String::from_str("network failure while fetching ");
                push_range(&mut text, range);
                text
            },
            DownloadError::Protocol { range, status } => {
                let mut text = String::from_str("unexpected HTTP status ");
                push_decimal(&mut text, status as u64);
                text.append(" for ");
                push_range(&mut text, range);
                text
            },
            DownloadError::LengthMismatch { range, received } => {
                let mut text = String::from_str("received ");
                push_decimal(&mut text, received);
                text.append(" bytes for ");
                push_range(&mut text, range);
                text
            },
            DownloadError::Assembly => String::from_str(
                "the chunks received do not make up the resource",
            ),
        }
    }
}

/// Appends a range in words to `text`.
fn push_range(text: &mut String, range: ByteRange)
    ensures
        final(text)@ == old(text)@ + range_words(range),
{
    text.append("bytes ");
    push_decimal(text, range.start);
    text.append("-");
    push_decimal(text, range.end);
    assert(text@ =~= old(text)@ + range_words(range));
}

} // verus!
