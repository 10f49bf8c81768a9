//! What holds of the operations on a container taken together.

use crate::container::{
    add_spec, append_spec, appended, export_spec, finish_spec, locate_spec, remove_spec,
    unpack_spec,
};
use crate::decimal::lemma_padded_reads_back;
use crate::entry::{
    end_marker, entry_bytes, lemma_supported_version, magic, recorded_size, span_of,
    stored_length, version_supported, Span, END_LEN, MAGIC_LEN,
};
use crate::error::{Damage, Error};
use crate::gzip::{gzip_decoding, gzip_encoding};
use crate::header::{
    header_wire, id_matches, lemma_new_header_fits, lemma_parse_header_prefix,
    lemma_parse_header_wire, new_header, within_limits, CompressMode, HeaderView,
    MAX_HEADER_SIZE, SIZE_FIELD_WIDTH,
};
use crate::scan::{
    candidates, first_match, header_at, lemma_candidates_none, lemma_candidates_places,
    lemma_candidates_split, probe,
};
use crate::search::occurs_at;
use vstd::prelude::*;

verus! {

/// No entry that starts in `data` before `place` carries `id`.
pub open spec fn no_match_before(data: Seq<u8>, id: Seq<char>, place: int) -> bool {
    forall|p: int|
        0 <= p < place ==> match #[trigger] header_at(data, p) {
            Some(h) => !id_matches(h, id),
            None => true,
        }
}

/// A container in which an entry stands between two runs of bytes.
pub open spec fn framed(prefix: Seq<u8>, h: HeaderView, payload: Seq<u8>, suffix: Seq<u8>) -> Seq<
    u8,
> {
    prefix + entry_bytes(h, payload) + suffix
}

/// Where the entry of `framed` lies.
pub open spec fn framed_span(prefix: Seq<u8>, h: HeaderView, payload: Seq<u8>) -> Span {
    let payload_start = prefix.len() + MAGIC_LEN + header_wire(h).len();
    Span {
        start: prefix.len() as int,
        payload_start,
        payload_len: payload.len() as int,
        end: payload_start + payload.len() + END_LEN,
    }
}

/// The parts of `framed` stand where `framed_span` says.
pub proof fn lemma_framed_parts(
    prefix: Seq<u8>,
    h: HeaderView,
    payload: Seq<u8>,
    suffix: Seq<u8>,
)
    ensures
        ({
            let data = framed(prefix, h, payload, suffix);
            let span = framed_span(prefix, h, payload);
            &&& data.len() == span.end + suffix.len()
            &&& data.subrange(0, span.start) == prefix
            &&& data.subrange(span.start, span.start + MAGIC_LEN) == magic()
            &&& data.subrange(span.start + MAGIC_LEN, span.payload_start) == header_wire(h)
            &&& data.subrange(span.payload_start, span.marker()) == payload
            &&& data.subrange(span.marker(), span.end) == end_marker()
            &&& data.subrange(span.end, data.len() as int) == suffix
        }),
{
}

/// Where a start sentinel stands and the wire form of a header follows
/// it, the entry there has that header.
pub proof fn lemma_header_behind_sentinel(data: Seq<u8>, at: int, h: HeaderView)
    requires
        h.wf(),
        header_wire(h).len() <= MAX_HEADER_SIZE,
        occurs_at(data, magic(), at),
        at + MAGIC_LEN + header_wire(h).len() <= data.len(),
        data.subrange(at + MAGIC_LEN, at + MAGIC_LEN + header_wire(h).len()) == header_wire(h),
    ensures
        header_at(data, at) == Some(h),
{
    let behind = probe(data, at);
    let wire = header_wire(h);
    let tail = behind.skip(wire.len() as int);
    assert(behind =~= wire + tail);
    lemma_parse_header_wire(h, tail);
}

/// The entry of `framed` is found where it stands, with its header.
pub proof fn lemma_framed_header(
    prefix: Seq<u8>,
    h: HeaderView,
    payload: Seq<u8>,
    suffix: Seq<u8>,
)
    requires
        h.wf(),
        header_wire(h).len() <= MAX_HEADER_SIZE,
    ensures
        header_at(framed(prefix, h, payload, suffix), prefix.len() as int) == Some(h),
{
    lemma_framed_parts(prefix, h, payload, suffix);
    lemma_header_behind_sentinel(framed(prefix, h, payload, suffix), prefix.len() as int, h);
}

/// A list none of whose entries carries `id` has no first match.
pub proof fn lemma_first_match_none(found: Seq<(int, HeaderView)>, id: Seq<char>)
    requires
        forall|i: int| 0 <= i < found.len() ==> !id_matches((#[trigger] found[i]).1, id),
    ensures
        first_match(found, id) is None,
    decreases found.len(),
{
    if found.len() > 0 {
        let rest = found.drop_first();
        assert forall|i: int| 0 <= i < rest.len() implies !id_matches(
            (#[trigger] rest[i]).1,
            id,
        ) by {}
        lemma_first_match_none(rest, id);
    }
}

/// A container in which the start sentinel stands at one place only, in
/// front of a header, holds that entry and no other.
pub proof fn lemma_single_entry(data: Seq<u8>, at: int, h: HeaderView)
    requires
        0 <= at < data.len(),
        header_at(data, at) == Some(h),
        forall|p: int| p != at ==> !occurs_at(data, magic(), p),
    ensures
        candidates(data, 0, data.len() as int) == seq![(at, h)],
{
    let total = data.len() as int;
    lemma_candidates_split(data, 0, at, total);
    lemma_candidates_split(data, at, at + 1, total);
    lemma_candidates_none(data, 0, at);
    lemma_candidates_none(data, at + 1, total);
    assert(candidates(data, at, at) =~= Seq::empty());
}

/// A search for an identifier settles on the first entry that carries it,
/// whatever follows that entry.
pub proof fn lemma_first_entry_decides(data: Seq<u8>, at: int, h: HeaderView, id: Seq<char>)
    requires
        0 <= at < data.len(),
        header_at(data, at) == Some(h),
        id_matches(h, id),
        no_match_before(data, id, at),
    ensures
        first_match(candidates(data, 0, data.len() as int), id) == Some((at, h)),
{
    let total = data.len() as int;
    let before = candidates(data, 0, at);
    let here = candidates(data, at, at + 1);
    let behind = candidates(data, at + 1, total);
    lemma_candidates_split(data, 0, at, total);
    lemma_candidates_split(data, at, at + 1, total);
    lemma_candidates_places(data, 0, at);
    lemma_first_match_none(before, id);
    assert(candidates(data, at, at) =~= Seq::empty());
    crate::scan::lemma_first_match_concat(here, behind, id);
    crate::scan::lemma_first_match_concat(before, here + behind, id);
}

/// A container that holds no entry carrying `id` answers a search for it
/// with `NotFound`.
pub proof fn lemma_absent_is_not_found(data: Seq<u8>, id: Seq<char>)
    requires
        no_match_before(data, id, data.len() as int),
    ensures
        locate_spec(data, id) == Err::<(Span, HeaderView), Error>(Error::NotFound),
        export_spec(data, id) == Err::<Seq<u8>, Error>(Error::NotFound),
        remove_spec(data, id) == Err::<Seq<u8>, Error>(Error::NotFound),
{
    lemma_candidates_places(data, 0, data.len() as int);
    lemma_first_match_none(candidates(data, 0, data.len() as int), id);
}

/// Whether the first entry of `data` that carries `id` is the one with
/// header `h` between `prefix` and `suffix`, sound and of the supported
/// version, with as many payload bytes as its header says.
pub open spec fn holds_first(
    prefix: Seq<u8>,
    h: HeaderView,
    payload: Seq<u8>,
    suffix: Seq<u8>,
    id: Seq<char>,
) -> bool {
    &&& h.wf()
    &&& header_wire(h).len() <= MAX_HEADER_SIZE
    &&& id_matches(h, id)
    &&& version_supported(h.version)
    &&& stored_length(h) == Some(payload.len())
    &&& no_match_before(framed(prefix, h, payload, suffix), id, prefix.len() as int)
}

/// A search settles on a sound entry that is the first to carry the
/// identifier, and finds it where it lies.
pub proof fn lemma_locate_framed(
    prefix: Seq<u8>,
    h: HeaderView,
    payload: Seq<u8>,
    suffix: Seq<u8>,
    id: Seq<char>,
)
    requires
        holds_first(prefix, h, payload, suffix, id),
    ensures
        locate_spec(framed(prefix, h, payload, suffix), id) == Ok::<(Span, HeaderView), Error>(
            (framed_span(prefix, h, payload), h),
        ),
{
    let data = framed(prefix, h, payload, suffix);
    lemma_framed_parts(prefix, h, payload, suffix);
    lemma_framed_header(prefix, h, payload, suffix);
    lemma_first_entry_decides(data, prefix.len() as int, h, id);
}

/// Extracting the first entry that carries an identifier gives its
/// payload: as it is stored, or expanded, and only if as many bytes are
/// stored as the header records for its size. What follows the entry plays
/// no part, so a later entry with the same identifier is never reached.
pub proof fn lemma_export_framed(
    prefix: Seq<u8>,
    h: HeaderView,
    payload: Seq<u8>,
    suffix: Seq<u8>,
    id: Seq<char>,
)
    requires
        holds_first(prefix, h, payload, suffix, id),
    ensures
        export_spec(framed(prefix, h, payload, suffix), id) == finish_spec(
            h,
            payload.len() as int,
            unpack_spec(h.compress, payload),
        ),
{
    lemma_locate_framed(prefix, h, payload, suffix, id);
    lemma_framed_parts(prefix, h, payload, suffix);
}

/// Cutting out the first entry that carries an identifier leaves what
/// stood before it and what stood behind it, byte for byte, and makes the
/// container shorter by the length of the entry.
pub proof fn lemma_remove_framed(
    prefix: Seq<u8>,
    h: HeaderView,
    payload: Seq<u8>,
    suffix: Seq<u8>,
    id: Seq<char>,
)
    requires
        holds_first(prefix, h, payload, suffix, id),
    ensures
        remove_spec(framed(prefix, h, payload, suffix), id) == Ok::<Seq<u8>, Error>(
            prefix + suffix,
        ),
        (prefix + suffix).len() == framed(prefix, h, payload, suffix).len() - entry_bytes(
            h,
            payload,
        ).len(),
{
    lemma_locate_framed(prefix, h, payload, suffix, id);
    lemma_framed_parts(prefix, h, payload, suffix);
}

/// What `ResourceHead::new` makes for a payload of `stored` is a header
/// under which that payload is found again.
pub proof fn lemma_new_header_holds(
    container: Seq<u8>,
    stored: Seq<u8>,
    name: Seq<char>,
    id: Seq<char>,
    mode: CompressMode,
    suffix: Seq<u8>,
)
    requires
        within_limits(id, name),
        stored.len() <= u64::MAX,
        no_match_before(
            appended(container, stored, name, id, mode) + suffix,
            id,
            container.len() as int,
        ),
    ensures
        ({
            let h = new_header(id, stored.len(), stored.len(), name, mode);
            &&& appended(container, stored, name, id, mode) + suffix == framed(
                container,
                h,
                stored,
                suffix,
            )
            &&& holds_first(container, h, stored, suffix, id)
            &&& recorded_size(h) == Some(stored.len())
        }),
{
    let n = stored.len();
    lemma_new_header_fits(id, n, n, name, mode);
    lemma_supported_version();
    lemma_padded_reads_back(n, SIZE_FIELD_WIDTH as nat);
}

/// Append, then extract: a payload that was appended as it is comes out
/// byte for byte. This holds whatever is appended later, as long as no
/// earlier entry carries the identifier.
pub proof fn lemma_append_then_export(
    container: Seq<u8>,
    payload: Seq<u8>,
    name: Seq<char>,
    id: Seq<char>,
    suffix: Seq<u8>,
)
    requires
        within_limits(id, name),
        payload.len() <= u64::MAX,
        no_match_before(
            appended(container, payload, name, id, CompressMode::Plain) + suffix,
            id,
            container.len() as int,
        ),
    ensures
        append_spec(container, payload, name, id, CompressMode::Plain) == Ok::<Seq<u8>, Error>(
            appended(container, payload, name, id, CompressMode::Plain),
        ),
        export_spec(appended(container, payload, name, id, CompressMode::Plain) + suffix, id)
            == Ok::<Seq<u8>, Error>(payload),
{
    let h = new_header(id, payload.len(), payload.len(), name, CompressMode::Plain);
    lemma_new_header_holds(container, payload, name, id, CompressMode::Plain, suffix);
    lemma_export_framed(container, h, payload, suffix, id);
}

/// Add with compression, then extract: a payload that was added at one of
/// the levels 1 to 9 is stored as the gzip stream made of it, and comes out
/// byte for byte as it was before it was compressed. This holds wherever
/// the decoder expands the stream to the payload, and whatever is appended
/// later, as long as no earlier entry carries the identifier.
pub proof fn lemma_add_packed_then_export(
    container: Seq<u8>,
    source: Seq<u8>,
    stream: Seq<u8>,
    level: u32,
    name: Seq<char>,
    id: Seq<char>,
    suffix: Seq<u8>,
)
    requires
        within_limits(id, name),
        level != 0,
        gzip_encoding(source, level) == Some(stream),
        gzip_decoding(stream) == Some(source),
        stream.len() <= u64::MAX,
        no_match_before(
            appended(container, stream, name, id, CompressMode::Compress) + suffix,
            id,
            container.len() as int,
        ),
    ensures
        add_spec(container, source, name, id, Some(level)) == Ok::<Seq<u8>, Error>(
            appended(container, stream, name, id, CompressMode::Compress),
        ),
        export_spec(appended(container, stream, name, id, CompressMode::Compress) + suffix, id)
            == Ok::<Seq<u8>, Error>(source),
{
    let h = new_header(id, stream.len(), stream.len(), name, CompressMode::Compress);
    lemma_new_header_holds(container, stream, name, id, CompressMode::Compress, suffix);
    lemma_export_framed(container, h, stream, suffix, id);
}

/// Level 0 stores the payload as it is: adding at level 0 gives what
/// adding without a level gives, an entry that is not compressed.
pub proof fn lemma_level_zero_stores(
    container: Seq<u8>,
    source: Seq<u8>,
    name: Seq<char>,
    id: Seq<char>,
)
    ensures
        add_spec(container, source, name, id, Some(0)) == add_spec(
            container,
            source,
            name,
            id,
            None,
        ),
        add_spec(container, source, name, id, Some(0)) == append_spec(
            container,
            source,
            name,
            id,
            CompressMode::Plain,
        ),
{
}

/// An identifier or a name over the limit is refused whatever else is
/// asked for, and before anything is compressed.
pub proof fn lemma_limits_come_first(
    container: Seq<u8>,
    source: Seq<u8>,
    name: Seq<char>,
    id: Seq<char>,
    grade: Option<u32>,
)
    requires
        !within_limits(id, name),
    ensures
        add_spec(container, source, name, id, grade) == Err::<Seq<u8>, Error>(Error::Validation),
{
}

/// Append, then remove: the container is as it was before, byte for byte,
/// and shorter than the one with the entry by the length of the entry:
/// sentinel, header, stored bytes, sentinel. What was appended later stays
/// as it is.
pub proof fn lemma_append_then_remove(
    container: Seq<u8>,
    stored: Seq<u8>,
    name: Seq<char>,
    id: Seq<char>,
    mode: CompressMode,
    suffix: Seq<u8>,
)
    requires
        within_limits(id, name),
        stored.len() <= u64::MAX,
        no_match_before(
            appended(container, stored, name, id, mode) + suffix,
            id,
            container.len() as int,
        ),
    ensures
        remove_spec(appended(container, stored, name, id, mode) + suffix, id) == Ok::<
            Seq<u8>,
            Error,
        >(container + suffix),
        (container + suffix).len() == (appended(container, stored, name, id, mode)
            + suffix).len() - (MAGIC_LEN + header_wire(
            new_header(id, stored.len(), stored.len(), name, mode),
        ).len() + stored.len() + END_LEN),
{
    let h = new_header(id, stored.len(), stored.len(), name, mode);
    lemma_new_header_holds(container, stored, name, id, mode, suffix);
    lemma_remove_framed(container, h, stored, suffix, id);
}

/// Two entries under one identifier: appending the second is not refused,
/// and extracting and removing work on the first.
pub proof fn lemma_duplicate_id(
    container: Seq<u8>,
    first: Seq<u8>,
    second: Seq<u8>,
    name: Seq<char>,
    id: Seq<char>,
)
    requires
        within_limits(id, name),
        first.len() <= u64::MAX,
        second.len() <= u64::MAX,
        no_match_before(
            appended(
                appended(container, first, name, id, CompressMode::Plain),
                second,
                name,
                id,
                CompressMode::Plain,
            ),
            id,
            container.len() as int,
        ),
    ensures
        ({
            let one = appended(container, first, name, id, CompressMode::Plain);
            let two = appended(one, second, name, id, CompressMode::Plain);
            &&& append_spec(one, second, name, id, CompressMode::Plain) == Ok::<Seq<u8>, Error>(
                two,
            )
            &&& export_spec(two, id) == Ok::<Seq<u8>, Error>(first)
            &&& remove_spec(two, id) == Ok::<Seq<u8>, Error>(
                appended(container, second, name, id, CompressMode::Plain),
            )
        }),
{
    let later = entry_bytes(
        new_header(id, second.len(), second.len(), name, CompressMode::Plain),
        second,
    );
    lemma_append_then_export(container, first, name, id, later);
    lemma_append_then_remove(container, first, name, id, CompressMode::Plain, later);
}

/// A container that is cut off just before the end sentinel of the entry
/// asked for: extracting and removing fail with an integrity error.
pub proof fn lemma_cut_before_end(
    container: Seq<u8>,
    stored: Seq<u8>,
    name: Seq<char>,
    id: Seq<char>,
    mode: CompressMode,
)
    requires
        within_limits(id, name),
        stored.len() <= u64::MAX,
        no_match_before(
            container + magic() + header_wire(
                new_header(id, stored.len(), stored.len(), name, mode),
            ) + stored,
            id,
            container.len() as int,
        ),
    ensures
        ({
            let whole = appended(container, stored, name, id, mode);
            let cut = whole.subrange(0, whole.len() - END_LEN);
            &&& locate_spec(cut, id) == Err::<(Span, HeaderView), Error>(
                Error::Integrity(Damage::Bounds),
            )
            &&& export_spec(cut, id) == Err::<Seq<u8>, Error>(Error::Integrity(Damage::Bounds))
            &&& remove_spec(cut, id) == Err::<Seq<u8>, Error>(Error::Integrity(Damage::Bounds))
        }),
{
    let n = stored.len();
    let h = new_header(id, n, n, name, mode);
    let whole = appended(container, stored, name, id, mode);
    let cut = whole.subrange(0, whole.len() - END_LEN);
    let at = container.len() as int;
    lemma_new_header_fits(id, n, n, name, mode);
    lemma_supported_version();
    lemma_padded_reads_back(n, SIZE_FIELD_WIDTH as nat);
    assert(cut =~= container + magic() + header_wire(h) + stored);
    assert(cut.subrange(at, at + MAGIC_LEN) =~= magic());
    assert(cut.subrange(at + MAGIC_LEN, at + MAGIC_LEN + header_wire(h).len()) =~= header_wire(
        h,
    ));
    lemma_header_behind_sentinel(cut, at, h);
    lemma_first_entry_decides(cut, at, h, id);
}

/// An entry whose end sentinel is not where its header puts it:
/// extracting and removing fail with an integrity error.
pub proof fn lemma_wrong_end_marker(data: Seq<u8>, at: int, h: HeaderView, id: Seq<char>)
    requires
        0 <= at < data.len(),
        header_at(data, at) == Some(h),
        id_matches(h, id),
        no_match_before(data, id, at),
        span_of(data.len() as int, at, h) is Ok,
        ({
            let span = span_of(data.len() as int, at, h)->Ok_0;
            data.subrange(span.marker(), span.end) != end_marker()
        }),
    ensures
        export_spec(data, id) == Err::<Seq<u8>, Error>(Error::Integrity(Damage::EndMarker)),
        remove_spec(data, id) == Err::<Seq<u8>, Error>(Error::Integrity(Damage::EndMarker)),
{
    lemma_first_entry_decides(data, at, h, id);
}

/// The version gate: where the first entry that carries the identifier
/// was written for a version that does not compare equal to the supported
/// one, extracting fails with `VersionMismatch`, however sound the entry
/// is otherwise. So does removing.
pub proof fn lemma_other_version(data: Seq<u8>, at: int, h: HeaderView, id: Seq<char>)
    requires
        0 <= at < data.len(),
        header_at(data, at) == Some(h),
        id_matches(h, id),
        no_match_before(data, id, at),
        !version_supported(h.version),
    ensures
        export_spec(data, id) == Err::<Seq<u8>, Error>(Error::VersionMismatch),
        remove_spec(data, id) == Err::<Seq<u8>, Error>(Error::VersionMismatch),
{
    lemma_first_entry_decides(data, at, h, id);
}

/// A host in which no start sentinel stands holds no entry, whatever is
/// appended to it: the sentinel cannot begin in the host and end in what
/// follows, because its first byte occurs nowhere else in it.
pub proof fn lemma_host_holds_no_entry(host: Seq<u8>, rest: Seq<u8>, id: Seq<char>)
    requires
        forall|p: int| !occurs_at(host, magic(), p),
        rest.len() == 0 || (rest.len() >= MAGIC_LEN && rest.subrange(0, MAGIC_LEN as int)
            == magic()),
    ensures
        no_match_before(host + rest, id, host.len() as int),
{
    let data = host + rest;
    assert forall|p: int| 0 <= p < host.len() implies !occurs_at(data, magic(), p) by {
        if occurs_at(data, magic(), p) {
            let found = data.subrange(p, p + MAGIC_LEN);
            if p + MAGIC_LEN <= host.len() {
                assert(host.subrange(p, p + MAGIC_LEN) =~= found);
                assert(occurs_at(host, magic(), p));
            } else {
                // The first byte of `rest` would have to be both the first
                // byte of the sentinel and a later one.
                let k = host.len() - p;
                assert(found[k] == rest[0]);
                assert(magic()[k] != magic()[0]);
            }
        }
    }
    assert forall|p: int| 0 <= p < host.len() implies header_at(data, p) is None by {}
}

/// An entry is an entry by its own bytes alone: wherever the bytes of its
/// start sentinel and of its header stand, an entry with that header
/// starts.
pub proof fn lemma_header_by_own_bytes(
    data: Seq<u8>,
    at: int,
    other: Seq<u8>,
    place: int,
    h: HeaderView,
)
    requires
        header_at(data, at) == Some(h),
        0 <= place,
        place + MAGIC_LEN + header_wire(h).len() <= other.len(),
        other.subrange(place, place + MAGIC_LEN + header_wire(h).len()) == data.subrange(
            at,
            at + MAGIC_LEN + header_wire(h).len(),
        ),
    ensures
        header_at(other, place) == Some(h),
{
    let len = header_wire(h).len() as int;
    lemma_parse_header_prefix(probe(data, at));
    let own = data.subrange(at, at + MAGIC_LEN + len);
    assert(own.subrange(0, MAGIC_LEN as int) =~= data.subrange(at, at + MAGIC_LEN));
    assert(own.subrange(0, MAGIC_LEN as int) =~= other.subrange(place, place + MAGIC_LEN));
    assert(own.subrange(MAGIC_LEN as int, MAGIC_LEN + len) =~= probe(data, at).subrange(0, len));
    assert(own.subrange(MAGIC_LEN as int, MAGIC_LEN + len) =~= other.subrange(
        place + MAGIC_LEN,
        place + MAGIC_LEN + len,
    ));
    lemma_header_behind_sentinel(other, place, h);
}

/// Appending leaves every entry of the container an entry, at its place
/// and with its header.
pub proof fn lemma_append_keeps_entries(
    container: Seq<u8>,
    added: Seq<u8>,
    at: int,
    h: HeaderView,
)
    requires
        header_at(container, at) == Some(h),
    ensures
        header_at(container + added, at) == Some(h),
{
    let len = header_wire(h).len() as int;
    lemma_parse_header_prefix(probe(container, at));
    assert((container + added).subrange(at, at + MAGIC_LEN + len) =~= container.subrange(
        at,
        at + MAGIC_LEN + len,
    ));
    lemma_header_by_own_bytes(container, at, container + added, at, h);
}

/// Cutting a range out of a container leaves the entries before it and
/// behind it entries, with their headers and in their order: one whose
/// sentinel and header end before the range stays at its place, one that
/// starts behind the range moves forward by the length of the range.
pub proof fn lemma_cut_keeps_entries(
    data: Seq<u8>,
    start: int,
    end: int,
    at: int,
    h: HeaderView,
)
    requires
        0 <= start <= end <= data.len(),
        header_at(data, at) == Some(h),
        at + MAGIC_LEN + header_wire(h).len() <= start || end <= at,
    ensures
        header_at(
            data.subrange(0, start) + data.subrange(end, data.len() as int),
            if end <= at {
                at - (end - start)
            } else {
                at
            },
        ) == Some(h),
{
    let len = header_wire(h).len() as int;
    let rest = data.subrange(0, start) + data.subrange(end, data.len() as int);
    let place = if end <= at {
        at - (end - start)
    } else {
        at
    };
    lemma_parse_header_prefix(probe(data, at));
    assert(rest.subrange(place, place + MAGIC_LEN + len) =~= data.subrange(
        at,
        at + MAGIC_LEN + len,
    ));
    lemma_header_by_own_bytes(data, at, rest, place, h);
}

} // verus!
