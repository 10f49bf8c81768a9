//! A container held in memory: appending an entry, finding one by its
//! identifier, taking its payload out, cutting it out.

use crate::entry::{
    confirm_end, end_check, entry_bytes, magic_slice, plan, read_size, recorded_size, span_of,
    Extent, Span, END_IDENTIFIER,
};
use crate::error::Error;
use crate::gzip::{compression_file, decompress_file, gzip_decoding, gzip_encoding};
use crate::header::{
    check_limits, new_header, within_limits, CompressMode, HeaderView, ResourceHead,
};
use crate::scan::{candidates, first_match, Scanner};
use crate::text::to_chars;
use vstd::prelude::*;
use vstd::slice::{slice_subrange, slice_to_vec};

verus! {

/// An entry that was found and checked: its header and where it lies.
#[derive(Debug, Clone)]
pub struct Entry {
    /// The header of the entry.
    pub head: ResourceHead,
    /// Where the entry lies in the container.
    pub extent: Extent,
}

/// The entry that a search for `id` in `data` settles on: the first one in
/// the order of places whose header carries `id`. It alone decides: where
/// it is of another version, damaged or cut short, that is the answer, and
/// no later entry is tried.
pub open spec fn locate_spec(data: Seq<u8>, id: Seq<char>) -> Result<(Span, HeaderView), Error> {
    match first_match(candidates(data, 0, data.len() as int), id) {
        None => Err(Error::NotFound),
        Some((start, h)) => match span_of(data.len() as int, start, h) {
            Err(e) => Err(e),
            Ok(span) => match end_check(data.subrange(span.marker(), span.end)) {
                Err(e) => Err(e),
                Ok(()) => Ok((span, h)),
            },
        },
    }
}

/// Finds the entry of `data` that carries the identifier `id` and checks
/// it: version, length, extent and end sentinel.
pub fn locate(data: &[u8], id: &str) -> (located: Result<Entry, Error>)
    ensures
        match located {
            Ok(entry) => locate_spec(data@, id@) == Ok::<(Span, HeaderView), Error>(
                (entry.extent@, entry.head@),
            ),
            Err(e) => locate_spec(data@, id@) == Err::<(Span, HeaderView), Error>(e),
        },
{
    let wanted = to_chars(id);
    let mut scanner = Scanner::new(data.len());
    let hit = match scanner.find_id(data, wanted.as_slice()) {
        None => { return Err(Error::NotFound); },
        Some(hit) => hit,
    };
    let extent = match plan(data.len(), hit.offset, &hit.head) {
        Err(e) => { return Err(e); },
        Ok(extent) => extent,
    };
    let marker: usize = extent.payload_start + extent.payload_len;
    match confirm_end(slice_subrange(data, marker, extent.end)) {
        Err(e) => Err(e),
        Ok(()) => Ok(Entry { head: hit.head, extent }),
    }
}

/// What is left of `data` when the entry that carries `id` is cut out:
/// what stands before it and what stands behind it, unchanged.
pub open spec fn remove_spec(data: Seq<u8>, id: Seq<char>) -> Result<Seq<u8>, Error> {
    match locate_spec(data, id) {
        Err(e) => Err(e),
        Ok((span, _)) => Ok(data.subrange(0, span.start) + data.subrange(
            span.end,
            data.len() as int,
        )),
    }
}

/// The container without the entry that carries the identifier `id`: the
/// bytes from its start sentinel to the end of its end sentinel are cut
/// out, and nothing else changes.
pub fn remove_resource(data: &[u8], id: &str) -> (removed: Result<Vec<u8>, Error>)
    ensures
        match removed {
            Ok(rest) => remove_spec(data@, id@) == Ok::<Seq<u8>, Error>(rest@),
            Err(e) => remove_spec(data@, id@) == Err::<Seq<u8>, Error>(e),
        },
{
    let entry = match locate(data, id) {
        Err(e) => { return Err(e); },
        Ok(entry) => entry,
    };
    let mut rest: Vec<u8> = slice_to_vec(slice_subrange(data, 0, entry.extent.start));
    append_bytes(&mut rest, slice_subrange(data, entry.extent.end, data.len()));
    Ok(rest)
}

/// Puts `bytes` behind what `out` holds.
pub fn append_bytes(out: &mut Vec<u8>, bytes: &[u8])
    ensures
        final(out)@ == old(out)@ + bytes@,
{
    let n: usize = bytes.len();
    let mut i: usize = 0;
    while i < n
        invariant
            n == bytes@.len(),
            i <= n,
            out@ == old(out)@ + bytes@.take(i as int),
        decreases n - i,
    {
        out.push(bytes[i]);
        i += 1;
    }
}

/// What the stored bytes of a payload stand for: themselves, or what the
/// gzip stream in them expands to.
pub open spec fn unpack_spec(mode: CompressMode, stored: Seq<u8>) -> Option<Seq<u8>> {
    match mode {
        CompressMode::Plain => Some(stored),
        CompressMode::Compress => gzip_decoding(stored),
    }
}

/// What a check of the number of stored bytes against the size in the
/// header gives. The size that a header records is the number of bytes
/// that were stored, also where they are a gzip stream.
pub open spec fn size_check(h: HeaderView, stored: int) -> Result<(), Error> {
    match recorded_size(h) {
        None => Err(Error::InvalidSize),
        Some(n) => if n == stored {
            Ok(())
        } else {
            Err(Error::SizeMismatch)
        },
    }
}

/// What extracting a payload gives once its `stored` bytes are unpacked:
/// the unpacked bytes, if the stored ones were as many as the header
/// records.
pub open spec fn finish_spec(h: HeaderView, stored: int, unpacked: Option<Seq<u8>>) -> Result<
    Seq<u8>,
    Error,
> {
    match unpacked {
        None => Err(Error::Decompress),
        Some(bytes) => match size_check(h, stored) {
            Err(e) => Err(e),
            Ok(()) => Ok(bytes),
        },
    }
}

/// The payload of the entry of `data` that carries `id`.
pub open spec fn export_spec(data: Seq<u8>, id: Seq<char>) -> Result<Seq<u8>, Error> {
    match locate_spec(data, id) {
        Err(e) => Err(e),
        Ok((span, h)) => finish_spec(
            h,
            span.payload_len,
            unpack_spec(h.compress, data.subrange(span.payload_start, span.marker())),
        ),
    }
}

/// Checks the number of bytes that are stored for a payload against the
/// size that the header records.
pub fn check_size(head: &ResourceHead, stored: u64) -> (checked: Result<(), Error>)
    ensures
        checked == size_check(head@, stored as int),
{
    match read_size(head) {
        None => Err(Error::InvalidSize),
        Some(n) => if n == stored {
            Ok(())
        } else {
            Err(Error::SizeMismatch)
        },
    }
}

/// The bytes that `unpacked` holds, if it holds any.
pub open spec fn unpacked_view(unpacked: Option<Vec<u8>>) -> Option<Seq<u8>> {
    match unpacked {
        Some(bytes) => Some(bytes@),
        None => None,
    }
}

/// Ends an extraction: `stored` is the number of bytes that were stored,
/// `unpacked` what they were unpacked to, or `None` where they could not
/// be. The unpacked bytes are handed on if the stored ones were as many as
/// the header records.
pub fn finish_export(head: &ResourceHead, stored: u64, unpacked: Option<Vec<u8>>) -> (finished:
    Result<Vec<u8>, Error>)
    ensures
        match finished {
            Ok(bytes) => finish_spec(head@, stored as int, unpacked_view(unpacked)) == Ok::<
                Seq<u8>,
                Error,
            >(bytes@),
            Err(e) => finish_spec(head@, stored as int, unpacked_view(unpacked)) == Err::<
                Seq<u8>,
                Error,
            >(e),
        },
{
    match unpacked {
        None => Err(Error::Decompress),
        Some(bytes) => match check_size(head, stored) {
            Err(e) => Err(e),
            Ok(()) => Ok(bytes),
        },
    }
}

/// The payload of the entry that carries the identifier `id`, expanded
/// where it is stored compressed.
pub fn export_resource(data: &[u8], id: &str) -> (exported: Result<Vec<u8>, Error>)
    ensures
        match exported {
            Ok(payload) => export_spec(data@, id@) == Ok::<Seq<u8>, Error>(payload@),
            Err(e) => export_spec(data@, id@) == Err::<Seq<u8>, Error>(e),
        },
{
    let entry = match locate(data, id) {
        Err(e) => { return Err(e); },
        Ok(entry) => entry,
    };
    let stored = slice_subrange(
        data,
        entry.extent.payload_start,
        entry.extent.payload_start + entry.extent.payload_len,
    );
    let unpacked = match entry.head.compress() {
        CompressMode::Plain => Some(slice_to_vec(stored)),
        CompressMode::Compress => match decompress_file(stored) {
            Ok(bytes) => Some(bytes),
            Err(_) => None,
        },
    };
    finish_export(&entry.head, entry.extent.payload_len as u64, unpacked)
}

/// A container with one more entry behind it: `stored` under the
/// identifier `id` and the name `name`, with both sizes set to the number
/// of stored bytes.
pub open spec fn appended(
    container: Seq<u8>,
    stored: Seq<u8>,
    name: Seq<char>,
    id: Seq<char>,
    mode: CompressMode,
) -> Seq<u8> {
    container + entry_bytes(new_header(id, stored.len(), stored.len(), name, mode), stored)
}

/// What appending gives: the longer container, unless identifier or name
/// are over their limits.
pub open spec fn append_spec(
    container: Seq<u8>,
    stored: Seq<u8>,
    name: Seq<char>,
    id: Seq<char>,
    mode: CompressMode,
) -> Result<Seq<u8>, Error> {
    if within_limits(id, name) {
        Ok(appended(container, stored, name, id, mode))
    } else {
        Err(Error::Validation)
    }
}

/// Appends an entry that holds `stored` as it is. Nothing that the
/// container holds is read or changed, and an identifier that it holds
/// already is no obstacle.
pub fn append_entry(
    container: &mut Vec<u8>,
    stored: &[u8],
    name: &str,
    id: &str,
    mode: CompressMode,
) -> (done: Result<(), Error>)
    ensures
        match done {
            Ok(()) => append_spec(old(container)@, stored@, name@, id@, mode) == Ok::<
                Seq<u8>,
                Error,
            >(final(container)@),
            Err(e) => append_spec(old(container)@, stored@, name@, id@, mode) == Err::<
                Seq<u8>,
                Error,
            >(e) && final(container)@ == old(container)@,
        },
{
    let length: u64 = stored.len() as u64;
    let head = match ResourceHead::new(id, length, length, name, mode) {
        Err(e) => { return Err(e); },
        Ok(head) => head,
    };
    let wire = match head.to_bytes() {
        Err(e) => { return Err(e); },
        Ok(wire) => wire,
    };
    append_bytes(container, magic_slice());
    append_bytes(container, wire.as_slice());
    append_bytes(container, stored);
    append_bytes(container, &END_IDENTIFIER);
    proof {
        assert(container@ =~= old(container)@ + entry_bytes(head@, stored@));
    }
    Ok(())
}

/// The level at which a payload is compressed: none where none is asked
/// for, and none at level 0, which stores the payload as it is.
pub open spec fn level_of(grade: Option<u32>) -> Option<u32> {
    match grade {
        Some(level) => if level == 0 {
            None
        } else {
            Some(level)
        },
        None => None,
    }
}

/// The level at which a payload is compressed where `compression_grade`
/// is asked for.
pub fn effective_level(compression_grade: Option<u32>) -> (level: Option<u32>)
    ensures
        level == level_of(compression_grade),
{
    match compression_grade {
        Some(level) => if level == 0 {
            None
        } else {
            Some(level)
        },
        None => None,
    }
}

/// What adding a payload gives. An identifier or a name over the limit is
/// refused before anything else. The payload is appended as it is where
/// no level of compression or level 0 is given, and as the gzip stream
/// made of it at the levels 1 to 9.
pub open spec fn add_spec(
    container: Seq<u8>,
    source: Seq<u8>,
    name: Seq<char>,
    id: Seq<char>,
    grade: Option<u32>,
) -> Result<Seq<u8>, Error> {
    if !within_limits(id, name) {
        Err(Error::Validation)
    } else {
        match level_of(grade) {
            None => append_spec(container, source, name, id, CompressMode::Plain),
            Some(level) => match gzip_encoding(source, level) {
                None => Err(Error::Compress),
                Some(stream) => append_spec(container, stream, name, id, CompressMode::Compress),
            },
        }
    }
}

/// Adds the payload `source` to the container under the identifier `id`
/// and the name `source_name`. At level 0, and where no level is given,
/// it is stored as it is; at the levels 1 to 9 as a gzip stream, which the
/// decoder expands to `source` again.
pub fn add_resource(
    container: &mut Vec<u8>,
    source: &[u8],
    source_name: &str,
    id: &str,
    compression_grade: Option<u32>,
) -> (done: Result<(), Error>)
    requires
        compression_grade matches Some(level) ==> level <= 9,
    ensures
        match done {
            Ok(()) => add_spec(old(container)@, source@, source_name@, id@, compression_grade)
                == Ok::<Seq<u8>, Error>(final(container)@),
            Err(e) => add_spec(old(container)@, source@, source_name@, id@, compression_grade)
                == Err::<Seq<u8>, Error>(e) && final(container)@ == old(container)@,
        },
        done is Ok ==> match level_of(compression_grade) {
            Some(level) => gzip_encoding(source@, level) matches Some(stream) && gzip_decoding(
                stream,
            ) == Some(source@),
            None => true,
        },
{
    if let Err(e) = check_limits(id, source_name) {
        return Err(e);
    }
    match effective_level(compression_grade) {
        None => append_entry(container, source, source_name, id, CompressMode::Plain),
        Some(level) => match compression_file(source, level) {
            Err(e) => Err(e),
            Ok(stream) => append_entry(
                container,
                stream.as_slice(),
                source_name,
                id,
                CompressMode::Compress,
            ),
        },
    }
}

} // verus!
