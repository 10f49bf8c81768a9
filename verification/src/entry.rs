//! The layout of one entry: start sentinel, header, payload, end sentinel.

use crate::decimal::{digits_value, is_unsigned, parse_unsigned, read_unsigned};
use crate::error::{Damage, Error};
use crate::header::{header_wire, supported_version, HeaderView, ResourceHead};
use crate::text::{to_chars, trim, trim_bounds};
use crate::version::{
    first_dot, lemma_rank_reflexive, part_value, rank_versions, split_dots, version_rank, Rank,
};
use vstd::prelude::*;

verus! {

/// Length of the start sentinel in bytes.
pub const MAGIC_LEN: usize = 16;

/// The start sentinel that opens every entry: a byte with the high bit
/// set, the letters `OverlayData`, and the line ends and end-of-file mark
/// that guard it against conversions of text.
pub const RESOURCE_MAGIC: [u8; 16] = [
    0x89, 0x4F, 0x76, 0x65, 0x72, 0x6C, 0x61, 0x79, 0x44, 0x61, 0x74, 0x61, 0x0D, 0x0A, 0x1A, 0x0A,
];

/// The start sentinel as a sequence of bytes.
pub open spec fn magic() -> Seq<u8> {
    seq![
        0x89u8, 0x4Fu8, 0x76u8, 0x65u8, 0x72u8, 0x6Cu8, 0x61u8, 0x79u8,
        0x44u8, 0x61u8, 0x74u8, 0x61u8, 0x0Du8, 0x0Au8, 0x1Au8, 0x0Au8,
    ]
}

/// The start sentinel.
pub fn magic_slice() -> (sentinel: &'static [u8])
    ensures
        sentinel@ == magic(),
{
    let sentinel: &'static [u8; 16] = &RESOURCE_MAGIC;
    sentinel
}

/// Length of the end sentinel in bytes.
pub const END_LEN: usize = 5;

/// The end sentinel that closes every entry: the letters `ODEND`.
pub const END_IDENTIFIER: [u8; 5] = [0x4F, 0x44, 0x45, 0x4E, 0x44];

/// The end sentinel as a sequence of bytes.
pub open spec fn end_marker() -> Seq<u8> {
    seq![0x4Fu8, 0x44u8, 0x45u8, 0x4Eu8, 0x44u8]
}

/// An entry on the wire: start sentinel, header, payload, end sentinel.
pub open spec fn entry_bytes(h: HeaderView, payload: Seq<u8>) -> Seq<u8> {
    magic() + header_wire(h) + payload + end_marker()
}

/// Where an entry lies in its container.
pub struct Span {
    /// Where the start sentinel begins.
    pub start: int,
    /// Where the payload begins.
    pub payload_start: int,
    /// Number of bytes of the payload.
    pub payload_len: int,
    /// Where the entry ends, behind its end sentinel.
    pub end: int,
}

impl Span {
    /// Where the end sentinel begins.
    pub open spec fn marker(self) -> int {
        self.payload_start + self.payload_len
    }
}

/// Where an entry lies in its container, in the machine's numbers.
#[derive(Debug, Clone, Copy, PartialEq, Eq, Structural)]
pub struct Extent {
    /// Where the start sentinel begins.
    pub start: usize,
    /// Where the payload begins.
    pub payload_start: usize,
    /// Number of bytes of the payload.
    pub payload_len: usize,
    /// Where the entry ends, behind its end sentinel.
    pub end: usize,
}

impl View for Extent {
    type V = Span;

    open spec fn view(&self) -> Span {
        Span {
            start: self.start as int,
            payload_start: self.payload_start as int,
            payload_len: self.payload_len as int,
            end: self.end as int,
        }
    }
}

/// Whether a version compares equal to the one that this library supports.
pub open spec fn version_supported(version: Seq<char>) -> bool {
    version_rank(version, supported_version()) == Ok::<Rank, Error>(Rank::Equal)
}

/// The text of one digit writes that digit.
proof fn lemma_one_digit(part: Seq<char>, d: int)
    requires
        part.len() == 1,
        0 <= d <= 9,
        part[0] as u32 == 48 + d,
    ensures
        part_value(part) == Some(d),
{
    assert(digits_value(part.drop_last()) == 0);
}

/// The version that this library writes is one that it accepts.
pub proof fn lemma_supported_version()
    ensures
        version_supported(supported_version()),
{
    let s = supported_version();
    reveal_strlit("1.0.0");
    let s2 = s.skip(2);
    let s3 = s2.skip(2);
    assert(first_dot(s) == 1) by {
        reveal_with_fuel(first_dot, 3);
    }
    assert(first_dot(s2) == 1) by {
        reveal_with_fuel(first_dot, 3);
    }
    assert(first_dot(s3) == 1) by {
        reveal_with_fuel(first_dot, 3);
    }
    assert(split_dots(s2) == seq![s2.take(1)] + split_dots(s3));
    let parts = split_dots(s);
    lemma_one_digit(parts[0], 1);
    lemma_one_digit(parts[1], 0);
    lemma_one_digit(parts[2], 0);
    lemma_rank_reflexive(parts, 0);
}

/// The number of stored bytes that a header records, where its length
/// field writes a number.
pub open spec fn stored_length(h: HeaderView) -> Option<nat> {
    parse_unsigned(trim(h.length))
}

/// The size that a header records, where its size field writes a number
/// of 64 bits.
pub open spec fn recorded_size(h: HeaderView) -> Option<nat> {
    match parse_unsigned(trim(h.size)) {
        Some(n) => if n <= u64::MAX {
            Some(n)
        } else {
            None
        },
        None => None,
    }
}

/// Where the entry with header `h` lies that starts at `start` in a
/// container of `file_len` bytes. The version must be the supported one,
/// the length a number, and the whole entry within the container.
pub open spec fn span_of(file_len: int, start: int, h: HeaderView) -> Result<Span, Error> {
    if !version_supported(h.version) {
        Err(Error::VersionMismatch)
    } else {
        match stored_length(h) {
            None => Err(Error::Integrity(Damage::Length)),
            Some(n) => {
                let payload_start = start + MAGIC_LEN + header_wire(h).len();
                let end = payload_start + n + END_LEN;
                if end > file_len {
                    Err(Error::Integrity(Damage::Bounds))
                } else {
                    Ok(Span { start, payload_start, payload_len: n as int, end })
                }
            },
        }
    }
}

/// What a check of the end sentinel gives for the bytes found in its
/// place.
pub open spec fn end_check(found: Seq<u8>) -> Result<(), Error> {
    if found == end_marker() {
        Ok(())
    } else {
        Err(Error::Integrity(Damage::EndMarker))
    }
}

/// The number of stored bytes that `head` records, or `None` where the
/// number does not fit the machine.
fn read_length(head: &ResourceHead) -> (length: Result<Option<usize>, Error>)
    ensures
        match length {
            Ok(Some(n)) => stored_length(head@) == Some(n as nat),
            Ok(None) => stored_length(head@) is Some && stored_length(head@)->0 > usize::MAX,
            Err(e) => stored_length(head@) is None && e == Error::Integrity(Damage::Length),
        },
{
    let chars = to_chars(head.length());
    let (lo, hi) = trim_bounds(chars.as_slice());
    if !is_unsigned(chars.as_slice(), lo, hi) {
        return Err(Error::Integrity(Damage::Length));
    }
    match read_unsigned(chars.as_slice(), lo, hi, usize::MAX as u64) {
        Some(n) => Ok(Some(n as usize)),
        None => Ok(None),
    }
}

/// The size that `head` records, where its size field writes a number of
/// 64 bits.
pub fn read_size(head: &ResourceHead) -> (size: Option<u64>)
    ensures
        match size {
            Some(n) => recorded_size(head@) == Some(n as nat),
            None => recorded_size(head@) is None,
        },
{
    let chars = to_chars(head.size());
    let (lo, hi) = trim_bounds(chars.as_slice());
    read_unsigned(chars.as_slice(), lo, hi, u64::MAX)
}

/// Where the entry with header `head` lies that starts at `start` in a
/// container of `file_len` bytes.
pub fn plan(file_len: usize, start: usize, head: &ResourceHead) -> (planned: Result<Extent, Error>)
    ensures
        match planned {
            Ok(extent) => span_of(file_len as int, start as int, head@) == Ok::<Span, Error>(
                extent@,
            ),
            Err(e) => span_of(file_len as int, start as int, head@) == Err::<Span, Error>(e),
        },
{
    match rank_versions(head.version(), "1.0.0") {
        Ok(Rank::Equal) => {},
        _ => { return Err(Error::VersionMismatch); },
    }
    let length: usize = match read_length(head) {
        Err(e) => { return Err(e); },
        Ok(None) => { return Err(Error::Integrity(Damage::Bounds)); },
        Ok(Some(n)) => n,
    };
    let header_len: usize = head.get_len();
    let bounds = Err(Error::Integrity(Damage::Bounds));
    let payload_start: usize = match start.checked_add(MAGIC_LEN) {
        None => { return bounds; },
        Some(behind_magic) => match behind_magic.checked_add(header_len) {
            None => { return bounds; },
            Some(p) => p,
        },
    };
    let end: usize = match payload_start.checked_add(length) {
        None => { return bounds; },
        Some(marker) => match marker.checked_add(END_LEN) {
            None => { return bounds; },
            Some(e) => e,
        },
    };
    if end > file_len {
        return bounds;
    }
    Ok(Extent { start, payload_start, payload_len: length, end })
}

/// Checks the five bytes found where an end sentinel is due.
pub fn confirm_end(found: &[u8]) -> (checked: Result<(), Error>)
    ensures
        checked == end_check(found@),
{
    if found.len() == END_LEN && found[0] == 0x4F && found[1] == 0x44 && found[2] == 0x45
        && found[3] == 0x4E && found[4] == 0x44 {
        assert(found@ =~= end_marker());
        Ok(())
    } else {
        Err(Error::Integrity(Damage::EndMarker))
    }
}

} // verus!
