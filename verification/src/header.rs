//! The header of an entry and its form on the wire.

use crate::decimal::{
    all_digits, is_digit, lemma_padded_len, lemma_padded_reads_back, pad_decimal, zero_padded,
};
use crate::entry::{magic, magic_slice};
use crate::error::Error;
use crate::text::{same_trimmed, to_chars, trim};
use vstd::bytes::*;
use vstd::prelude::*;
use vstd::string::*;
use vstd::utf8::*;

verus! {

/// Largest number of characters in an identifier.
pub const MAX_ID_LENGTH: usize = 64;

/// Largest number of characters in a name.
pub const MAX_NAME_LENGTH: usize = 255;

/// Largest payload the format is laid out for (1024 GiB).
pub const MAX_LENGTH_SIZE: u64 = 1024 * 1024 * 1024 * 1024;

/// Largest number of bytes that are read for one header. No header whose
/// identifier and name are within their limits comes near it.
pub const MAX_HEADER_SIZE: usize = 4096;

/// Number of characters of the two size fields: as many as
/// `MAX_LENGTH_SIZE` has digits.
pub const SIZE_FIELD_WIDTH: usize = 13;

/// The version of the format that this library writes and accepts.
pub open spec fn supported_version() -> Seq<char> {
    "1.0.0"@
}

/// Whether a payload is stored as it is or compressed.
#[derive(Debug, Clone, Copy, PartialEq, Eq, Structural)]
pub enum CompressMode {
    /// The payload is stored as it is.
    Plain,
    /// The payload is stored compressed.
    Compress,
}

/// A header as mathematics sees it: five texts and a mode.
pub struct HeaderView {
    /// The version of the format that the entry was written for.
    pub version: Seq<char>,
    /// The identifier of the payload.
    pub id: Seq<char>,
    /// The name of the payload.
    pub name: Seq<char>,
    /// The number of stored bytes, in decimal.
    pub length: Seq<char>,
    /// The size of the payload, in decimal.
    pub size: Seq<char>,
    /// How the payload is stored.
    pub compress: CompressMode,
}

/// The number that stands for a mode on the wire.
pub open spec fn mode_index(mode: CompressMode) -> u32 {
    match mode {
        CompressMode::Plain => 0,
        CompressMode::Compress => 1,
    }
}

/// A text on the wire: the length of its UTF-8 form in eight little-endian
/// bytes, then that form.
pub open spec fn text_wire(text: Seq<char>) -> Seq<u8> {
    spec_u64_to_le_bytes(encode_utf8(text).len() as u64) + encode_utf8(text)
}

/// Five texts and a number on the wire, one after the other.
pub open spec fn record_wire(
    version: Seq<char>,
    id: Seq<char>,
    name: Seq<char>,
    length: Seq<char>,
    size: Seq<char>,
    mode: u32,
) -> Seq<u8> {
    text_wire(version) + text_wire(id) + text_wire(name) + text_wire(length) + text_wire(size)
        + spec_u32_to_le_bytes(mode)
}

/// A header on the wire.
pub open spec fn header_wire(h: HeaderView) -> Seq<u8> {
    record_wire(h.version, h.id, h.name, h.length, h.size, mode_index(h.compress))
}

/// The text that opens `bytes`, and the number of bytes it takes there: the
/// eight bytes of its length, and as many bytes of well-formed UTF-8.
pub open spec fn parse_text(bytes: Seq<u8>) -> Option<(Seq<char>, int)> {
    if bytes.len() < 8 {
        None
    } else {
        let n = spec_u64_from_le_bytes(bytes.subrange(0, 8)) as int;
        if n > bytes.len() - 8 || !valid_utf8(bytes.subrange(8, 8 + n)) {
            None
        } else {
            Some((decode_utf8(bytes.subrange(8, 8 + n)), 8 + n))
        }
    }
}

/// The five texts and the number that open `bytes`. What follows them is
/// not looked at.
pub open spec fn parse_record(bytes: Seq<u8>) -> Option<
    (Seq<char>, Seq<char>, Seq<char>, Seq<char>, Seq<char>, u32),
> {
    match parse_text(bytes) {
        None => None,
        Some((version, a)) => match parse_text(bytes.skip(a)) {
            None => None,
            Some((id, b)) => match parse_text(bytes.skip(a + b)) {
                None => None,
                Some((name, c)) => match parse_text(bytes.skip(a + b + c)) {
                    None => None,
                    Some((length, d)) => match parse_text(bytes.skip(a + b + c + d)) {
                        None => None,
                        Some((size, e)) => {
                            let rest = bytes.skip(a + b + c + d + e);
                            if rest.len() < 4 {
                                None
                            } else {
                                Some(
                                    (
                                        version,
                                        id,
                                        name,
                                        length,
                                        size,
                                        spec_u32_from_le_bytes(rest.subrange(0, 4)),
                                    ),
                                )
                            }
                        },
                    },
                },
            },
        },
    }
}

/// The header that opens `bytes`, where there is one.
pub open spec fn parse_header(bytes: Seq<u8>) -> Option<HeaderView> {
    match parse_record(bytes) {
        None => None,
        Some((version, id, name, length, size, mode)) => if mode == 0 {
            Some(HeaderView { version, id, name, length, size, compress: CompressMode::Plain })
        } else if mode == 1 {
            Some(HeaderView { version, id, name, length, size, compress: CompressMode::Compress })
        } else {
            None
        },
    }
}

/// `bincode::serialize` on a tuple of five strings and a `u32`: each string
/// as the `u64` count of its bytes and then the bytes, the number in four
/// bytes, all little-endian and in order. It writes to a `Vec` with no byte
/// limit, which leaves it no step that can fail. Trusted, not proved.
#[verifier::external_body]
fn encode_record(
    version: &str,
    id: &str,
    name: &str,
    length: &str,
    size: &str,
    mode: u32,
) -> (bytes: Option<Vec<u8>>)
    ensures
        bytes is Some,
        bytes->0@ == record_wire(version@, id@, name@, length@, size@, mode),
{
    bincode::serialize(&(version, id, name, length, size, mode)).ok()
}

/// `bincode::deserialize` to a tuple of five strings and a `u32`: it reads
/// what `parse_record` describes from the front of `bytes`, allows bytes
/// to follow, and fails where a length is cut short, reaches past the end
/// or counts bytes that are not UTF-8. Trusted, not proved.
#[verifier::external_body]
fn decode_record(bytes: &[u8]) -> (record: Option<(String, String, String, String, String, u32)>)
    ensures
        match record {
            Some(r) => parse_record(bytes@) == Some((r.0@, r.1@, r.2@, r.3@, r.4@, r.5)),
            None => parse_record(bytes@) is None,
        },
{
    bincode::deserialize(bytes).ok()
}

/// The header of an entry: what the payload is called, how many bytes of
/// it are stored and how.
#[derive(Debug, Clone)]
pub struct ResourceHead {
    version: String,
    id: String,
    name: String,
    length: String,
    size: String,
    compress: CompressMode,
}

impl View for ResourceHead {
    type V = HeaderView;

    closed spec fn view(&self) -> HeaderView {
        HeaderView {
            version: self.version@,
            id: self.id@,
            name: self.name@,
            length: self.length@,
            size: self.size@,
            compress: self.compress,
        }
    }
}

/// The header that `ResourceHead::new` makes of its arguments.
pub open spec fn new_header(
    id: Seq<char>,
    length: nat,
    size: nat,
    name: Seq<char>,
    compress: CompressMode,
) -> HeaderView {
    HeaderView {
        version: supported_version(),
        id,
        name,
        length: zero_padded(length, SIZE_FIELD_WIDTH as nat),
        size: zero_padded(size, SIZE_FIELD_WIDTH as nat),
        compress,
    }
}

/// Whether identifier and name are within the lengths that the format
/// allows, counted in characters.
pub open spec fn within_limits(id: Seq<char>, name: Seq<char>) -> bool {
    id.len() <= MAX_ID_LENGTH && name.len() <= MAX_NAME_LENGTH
}

/// What a check of identifier and name against their limits gives.
pub open spec fn limits_check(id: Seq<char>, name: Seq<char>) -> Result<(), Error> {
    if within_limits(id, name) {
        Ok(())
    } else {
        Err(Error::Validation)
    }
}

/// Checks that `id` has at most 64 characters and `name` at most 255.
pub fn check_limits(id: &str, name: &str) -> (checked: Result<(), Error>)
    ensures
        checked == limits_check(id@, name@),
{
    if id.unicode_len() > MAX_ID_LENGTH || name.unicode_len() > MAX_NAME_LENGTH {
        Err(Error::Validation)
    } else {
        Ok(())
    }
}

/// Whether a header carries the identifier `id`: the two are compared with
/// the white space at their ends set aside.
pub open spec fn id_matches(h: HeaderView, id: Seq<char>) -> bool {
    trim(h.id) == trim(id)
}

/// What encoding a header gives: its wire form, unless identifier or name
/// are over their limits.
pub open spec fn encode_spec(h: HeaderView) -> Result<Seq<u8>, Error> {
    if within_limits(h.id, h.name) {
        Ok(header_wire(h))
    } else {
        Err(Error::Validation)
    }
}

/// What decoding bytes gives: the header that opens them, if one does.
pub open spec fn decode_spec(bytes: Seq<u8>) -> Result<HeaderView, Error> {
    match parse_header(bytes) {
        Some(h) => Ok(h),
        None => Err(Error::Format),
    }
}

impl ResourceHead {
    /// The header of an empty, unnamed payload.
    pub fn default() -> (head: ResourceHead)
        ensures
            head@ == new_header(Seq::empty(), 0, 0, Seq::empty(), CompressMode::Plain),
    {
        ResourceHead {
            version: "1.0.0".to_owned(),
            id: String::new(),
            name: String::new(),
            length: pad_decimal(0, SIZE_FIELD_WIDTH),
            size: pad_decimal(0, SIZE_FIELD_WIDTH),
            compress: CompressMode::Plain,
        }
    }

    /// The start sentinel that stands in front of every header.
    pub fn get_head(&self) -> (sentinel: &'static [u8])
        ensures
            sentinel@ == magic(),
    {
        magic_slice()
    }

    /// A header of the supported version for a payload of `length` stored
    /// bytes. An identifier of more than 64 characters or a name of more
    /// than 255 is refused.
    pub fn new(id: &str, length: u64, size: u64, name: &str, compress: CompressMode) -> (made:
        Result<ResourceHead, Error>)
        ensures
            match made {
                Ok(head) => within_limits(id@, name@) && head@ == new_header(
                    id@,
                    length as nat,
                    size as nat,
                    name@,
                    compress,
                ),
                Err(e) => !within_limits(id@, name@) && e == Error::Validation,
            },
    {
        if let Err(e) = check_limits(id, name) {
            return Err(e);
        }
        Ok(
            ResourceHead {
                version: "1.0.0".to_owned(),
                id: id.to_owned(),
                name: name.to_owned(),
                length: pad_decimal(length, SIZE_FIELD_WIDTH),
                size: pad_decimal(size, SIZE_FIELD_WIDTH),
                compress,
            },
        )
    }

    /// The number that stands for the mode on the wire.
    fn mode_number(&self) -> (n: u32)
        ensures
            n == mode_index(self@.compress),
    {
        match self.compress {
            CompressMode::Plain => 0,
            CompressMode::Compress => 1,
        }
    }

    /// Number of bytes that the header takes on the wire.
    pub fn get_len(&self) -> (len: usize)
        ensures
            len == header_wire(self@).len(),
    {
        let bytes = encode_record(
            self.version.as_str(),
            self.id.as_str(),
            self.name.as_str(),
            self.length.as_str(),
            self.size.as_str(),
            self.mode_number(),
        );
        bytes.unwrap().len()
    }

    /// The header on the wire. One whose identifier or name is over the
    /// limit is refused.
    pub fn to_bytes(&self) -> (encoded: Result<Vec<u8>, Error>)
        ensures
            match encoded {
                Ok(bytes) => encode_spec(self@) == Ok::<Seq<u8>, Error>(bytes@),
                Err(e) => encode_spec(self@) == Err::<Seq<u8>, Error>(e),
            },
    {
        if let Err(e) = check_limits(self.id.as_str(), self.name.as_str()) {
            return Err(e);
        }
        let bytes = encode_record(
            self.version.as_str(),
            self.id.as_str(),
            self.name.as_str(),
            self.length.as_str(),
            self.size.as_str(),
            self.mode_number(),
        );
        Ok(bytes.unwrap())
    }

    /// The header that opens `data`. Bytes may follow it.
    pub fn from(data: &[u8]) -> (decoded: Result<ResourceHead, Error>)
        ensures
            match decoded {
                Ok(head) => decode_spec(data@) == Ok::<HeaderView, Error>(head@),
                Err(e) => decode_spec(data@) == Err::<HeaderView, Error>(e),
            },
    {
        match decode_record(data) {
            None => Err(Error::Format),
            Some((version, id, name, length, size, mode)) => {
                if mode == 0 {
                    Ok(
                        ResourceHead {
                            version,
                            id,
                            name,
                            length,
                            size,
                            compress: CompressMode::Plain,
                        },
                    )
                } else if mode == 1 {
                    Ok(
                        ResourceHead {
                            version,
                            id,
                            name,
                            length,
                            size,
                            compress: CompressMode::Compress,
                        },
                    )
                } else {
                    Err(Error::Format)
                }
            },
        }
    }

    /// Whether the header carries the identifier written in `id`.
    pub fn has_id(&self, id: &[char]) -> (same: bool)
        ensures
            same == id_matches(self@, id@),
    {
        let own = to_chars(self.id.as_str());
        same_trimmed(own.as_slice(), id)
    }

    /// The version of the format that the header was written for.
    pub fn version(&self) -> (text: &str)
        ensures
            text@ == self@.version,
    {
        self.version.as_str()
    }

    /// The identifier of the payload.
    pub fn id(&self) -> (text: &str)
        ensures
            text@ == self@.id,
    {
        self.id.as_str()
    }

    /// The name of the payload.
    pub fn name(&self) -> (text: &str)
        ensures
            text@ == self@.name,
    {
        self.name.as_str()
    }

    /// The number of stored bytes, in decimal.
    pub fn length(&self) -> (text: &str)
        ensures
            text@ == self@.length,
    {
        self.length.as_str()
    }

    /// The size of the payload, in decimal.
    pub fn size(&self) -> (text: &str)
        ensures
            text@ == self@.size,
    {
        self.size.as_str()
    }

    /// How the payload is stored.
    pub fn compress(&self) -> (mode: CompressMode)
        ensures
            mode == self@.compress,
    {
        self.compress
    }
}

/// Whether the wire can hold `text`: its length must fit the eight bytes
/// that announce it.
pub open spec fn fits_wire(text: Seq<char>) -> bool {
    encode_utf8(text).len() <= u64::MAX
}

impl HeaderView {
    /// Every text of the header fits the wire. This holds of every header
    /// that the machine can store.
    pub open spec fn wf(self) -> bool {
        &&& fits_wire(self.version)
        &&& fits_wire(self.id)
        &&& fits_wire(self.name)
        &&& fits_wire(self.length)
        &&& fits_wire(self.size)
    }
}

/// A text that is followed on the wire by anything at all is read back as
/// it was written.
pub proof fn lemma_parse_text_wire(text: Seq<char>, rest: Seq<u8>)
    requires
        fits_wire(text),
    ensures
        parse_text(text_wire(text) + rest) == Some((text, text_wire(text).len() as int)),
{
    let utf8 = encode_utf8(text);
    let bytes = text_wire(text) + rest;
    lemma_auto_spec_u64_to_from_le_bytes();
    encode_utf8_valid_utf8(text);
    encode_utf8_decode_utf8(text);
    assert(bytes.subrange(0, 8) =~= spec_u64_to_le_bytes(utf8.len() as u64));
    assert(bytes.subrange(8, 8 + utf8.len() as int) =~= utf8);
}

/// Where a text is read from bytes, the bytes it took are its wire form.
pub proof fn lemma_parse_text_prefix(bytes: Seq<u8>)
    requires
        parse_text(bytes) is Some,
    ensures
        ({
            let (text, used) = parse_text(bytes)->0;
            &&& 8 <= used <= bytes.len()
            &&& fits_wire(text)
            &&& text_wire(text) == bytes.subrange(0, used)
        }),
{
    let n = spec_u64_from_le_bytes(bytes.subrange(0, 8)) as int;
    let utf8 = bytes.subrange(8, 8 + n);
    lemma_auto_spec_u64_to_from_le_bytes();
    decode_utf8_encode_utf8(utf8);
}

/// What stands behind a first part is the second part.
proof fn lemma_skip_first(first: Seq<u8>, second: Seq<u8>)
    ensures
        (first + second).skip(first.len() as int) == second,
{
}

/// Skipping twice is skipping once, by the sum.
proof fn lemma_skip_skip(bytes: Seq<u8>, a: int, b: int)
    requires
        0 <= a,
        0 <= b,
        a + b <= bytes.len(),
    ensures
        bytes.skip(a).skip(b) == bytes.skip(a + b),
{
}

/// Seven parts in a row may be read from the right as well as from the left.
proof fn lemma_regroup(
    a: Seq<u8>,
    b: Seq<u8>,
    c: Seq<u8>,
    d: Seq<u8>,
    e: Seq<u8>,
    f: Seq<u8>,
    g: Seq<u8>,
)
    ensures
        a + b + c + d + e + f + g == a + (b + (c + (d + (e + (f + g))))),
{
}

/// A record that is followed on the wire by anything at all is read back
/// as it was written.
pub proof fn lemma_parse_record_wire(
    version: Seq<char>,
    id: Seq<char>,
    name: Seq<char>,
    length: Seq<char>,
    size: Seq<char>,
    mode: u32,
    rest: Seq<u8>,
)
    requires
        fits_wire(version),
        fits_wire(id),
        fits_wire(name),
        fits_wire(length),
        fits_wire(size),
    ensures
        parse_record(record_wire(version, id, name, length, size, mode) + rest) == Some(
            (version, id, name, length, size, mode),
        ),
{
    let w1 = text_wire(version);
    let w2 = text_wire(id);
    let w3 = text_wire(name);
    let w4 = text_wire(length);
    let w5 = text_wire(size);
    let m = spec_u32_to_le_bytes(mode);
    let bytes = record_wire(version, id, name, length, size, mode) + rest;
    let a = w1.len() as int;
    let b = w2.len() as int;
    let c = w3.len() as int;
    let d = w4.len() as int;
    let e = w5.len() as int;
    let t5 = m + rest;
    let t4 = w5 + t5;
    let t3 = w4 + t4;
    let t2 = w3 + t3;
    let t1 = w2 + t2;
    lemma_regroup(w1, w2, w3, w4, w5, m, rest);

    lemma_parse_text_wire(version, t1);
    lemma_skip_first(w1, t1);

    lemma_parse_text_wire(id, t2);
    lemma_skip_first(w2, t2);
    lemma_skip_skip(bytes, a, b);

    lemma_parse_text_wire(name, t3);
    lemma_skip_first(w3, t3);
    lemma_skip_skip(bytes, a + b, c);

    lemma_parse_text_wire(length, t4);
    lemma_skip_first(w4, t4);
    lemma_skip_skip(bytes, a + b + c, d);

    lemma_parse_text_wire(size, t5);
    lemma_skip_first(w5, t5);
    lemma_skip_skip(bytes, a + b + c + d, e);

    assert(t5.subrange(0, 4) == m && t5.len() >= 4) by {
        lemma_auto_spec_u32_to_from_le_bytes();
    }
    assert(spec_u32_from_le_bytes(m) == mode) by {
        lemma_auto_spec_u32_to_from_le_bytes();
    }
}

/// Where a record is read from bytes, its wire form is what stands at
/// their front, and each of its texts fits the wire.
pub proof fn lemma_parse_record_prefix(bytes: Seq<u8>)
    requires
        parse_record(bytes) is Some,
    ensures
        ({
            let (version, id, name, length, size, mode) = parse_record(bytes)->0;
            let wire = record_wire(version, id, name, length, size, mode);
            &&& fits_wire(version)
            &&& fits_wire(id)
            &&& fits_wire(name)
            &&& fits_wire(length)
            &&& fits_wire(size)
            &&& wire.len() <= bytes.len()
            &&& wire == bytes.subrange(0, wire.len() as int)
        }),
{
    let (version, a) = parse_text(bytes)->0;
    lemma_parse_text_prefix(bytes);
    let (id, b) = parse_text(bytes.skip(a))->0;
    lemma_parse_text_prefix(bytes.skip(a));
    let (name, c) = parse_text(bytes.skip(a + b))->0;
    lemma_parse_text_prefix(bytes.skip(a + b));
    let (length, d) = parse_text(bytes.skip(a + b + c))->0;
    lemma_parse_text_prefix(bytes.skip(a + b + c));
    let (size, e) = parse_text(bytes.skip(a + b + c + d))->0;
    lemma_parse_text_prefix(bytes.skip(a + b + c + d));
    lemma_auto_spec_u32_to_from_le_bytes();
}

/// Decoding what encoding gives returns the header that was encoded, for
/// every header whose identifier and name are within their limits.
pub proof fn lemma_decode_encode(h: HeaderView)
    requires
        h.wf(),
        within_limits(h.id, h.name),
    ensures
        encode_spec(h) is Ok,
        decode_spec(encode_spec(h)->Ok_0) == Ok::<HeaderView, Error>(h),
{
    lemma_parse_header_wire(h, Seq::empty());
}

/// A header that is followed by anything at all is read back as it was
/// written.
pub proof fn lemma_parse_header_wire(h: HeaderView, rest: Seq<u8>)
    requires
        h.wf(),
    ensures
        parse_header(header_wire(h) + rest) == Some(h),
{
    lemma_parse_record_wire(
        h.version,
        h.id,
        h.name,
        h.length,
        h.size,
        mode_index(h.compress),
        rest,
    );
}

/// Where a header is read from bytes, its wire form is what stands at
/// their front.
pub proof fn lemma_parse_header_prefix(bytes: Seq<u8>)
    requires
        parse_header(bytes) is Some,
    ensures
        ({
            let h = parse_header(bytes)->0;
            &&& h.wf()
            &&& header_wire(h).len() <= bytes.len()
            &&& header_wire(h) == bytes.subrange(0, header_wire(h).len() as int)
        }),
{
    lemma_parse_record_prefix(bytes);
}

/// The width of the size fields is the number of digits of the largest
/// payload that the format is laid out for.
pub proof fn lemma_size_field_width()
    ensures
        crate::decimal::decimal(MAX_LENGTH_SIZE as nat).len() == SIZE_FIELD_WIDTH,
{
    reveal_with_fuel(crate::decimal::decimal, 14);
}

/// A character takes at most four bytes in UTF-8.
pub proof fn lemma_utf8_len(text: Seq<char>)
    ensures
        encode_utf8(text).len() <= 4 * text.len(),
    decreases text.len(),
{
    if text.len() > 0 {
        lemma_utf8_len(text.drop_first());
    }
}

/// A text of digits takes one byte for each.
pub proof fn lemma_digits_utf8_len(text: Seq<char>)
    requires
        all_digits(text),
    ensures
        encode_utf8(text).len() == text.len(),
    decreases text.len(),
{
    if text.len() > 0 {
        let rest = text.drop_first();
        assert forall|i: int| 0 <= i < rest.len() implies is_digit(#[trigger] rest[i]) by {}
        lemma_digits_utf8_len(rest);
    }
}

/// A header made by `ResourceHead::new` fits the wire and stays far below
/// the number of bytes that are read for a header.
pub proof fn lemma_new_header_fits(
    id: Seq<char>,
    length: nat,
    size: nat,
    name: Seq<char>,
    compress: CompressMode,
)
    requires
        within_limits(id, name),
        length <= u64::MAX,
        size <= u64::MAX,
    ensures
        new_header(id, length, size, name, compress).wf(),
        header_wire(new_header(id, length, size, name, compress)).len() <= MAX_HEADER_SIZE,
{
    let h = new_header(id, length, size, name, compress);
    lemma_utf8_len(id);
    lemma_utf8_len(name);
    lemma_utf8_len(h.version);
    reveal_strlit("1.0.0");
    lemma_padded_len(length, SIZE_FIELD_WIDTH as nat);
    lemma_padded_len(size, SIZE_FIELD_WIDTH as nat);
    lemma_padded_reads_back(length, SIZE_FIELD_WIDTH as nat);
    lemma_padded_reads_back(size, SIZE_FIELD_WIDTH as nat);
    lemma_digits_utf8_len(h.length);
    lemma_digits_utf8_len(h.size);
    lemma_auto_spec_u64_to_from_le_bytes();
    lemma_auto_spec_u32_to_from_le_bytes();
}

} // verus!
