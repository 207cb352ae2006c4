//! The entries of a log and their encoding as Protocol Buffers messages.

use vstd::prelude::*;
use vstd::slice::{slice_subrange, slice_to_vec};
use vstd::utf8::*;

use crate::text::string_from_utf8;
use crate::wire::{
    delimited, encoded_delimited, encoded_key, encoded_varint, key, lemma_delimited_round_trip,
    lemma_key_round_trip, lemma_varint, lemma_varint_round_trip, read_delimited, read_key,
    read_varint, skip_field, skipped, varint, write_delimited, write_key, write_varint, Key,
    WireType, RECURSION_LIMIT,
};

verus! {

/// What the engine tells of an entry that is one part of a longer line.
#[derive(Debug)]
pub struct PartialLogEntryMetadata {
    pub last: bool,
    pub id: String,
    pub ordinal: i32,
}

/// One record of a container's log, as the engine writes it.
#[derive(Debug)]
pub struct LogEntry {
    pub source: String,
    pub time_nano: i64,
    pub line: Vec<u8>,
    pub partial: bool,
    pub partial_log_metadata: Option<PartialLogEntryMetadata>,
}

/// The error of decoding: the bytes are not the bytes of an entry.
#[derive(Debug, Clone, Copy, PartialEq, Eq, Structural)]
pub struct DecodeError;

/// The mathematical content of a [`PartialLogEntryMetadata`].
pub struct MetadataView {
    pub last: bool,
    pub id: Seq<char>,
    pub ordinal: i32,
}

/// The mathematical content of a [`LogEntry`].
pub struct LogEntryView {
    pub source: Seq<char>,
    pub time_nano: i64,
    pub line: Seq<u8>,
    pub partial: bool,
    pub partial_log_metadata: Option<MetadataView>,
}

impl View for PartialLogEntryMetadata {
    type V = MetadataView;

    open spec fn view(&self) -> MetadataView {
        MetadataView { last: self.last, id: self.id@, ordinal: self.ordinal }
    }
}

/// The mathematical content of metadata that may be absent.
pub open spec fn optional_metadata(metadata: Option<PartialLogEntryMetadata>) -> Option<
    MetadataView,
> {
    match metadata {
        Some(m) => Some(m@),
        None => None,
    }
}

impl View for LogEntry {
    type V = LogEntryView;

    open spec fn view(&self) -> LogEntryView {
        LogEntryView {
            source: self.source@,
            time_nano: self.time_nano,
            line: self.line@,
            partial: self.partial,
            partial_log_metadata: optional_metadata(self.partial_log_metadata),
        }
    }
}

/// The metadata of which no field is set.
pub open spec fn empty_metadata() -> MetadataView {
    MetadataView { last: false, id: Seq::empty(), ordinal: 0 }
}

/// The entry of which no field is set.
pub open spec fn empty_entry() -> LogEntryView {
    LogEntryView {
        source: Seq::empty(),
        time_nano: 0,
        line: Seq::empty(),
        partial: false,
        partial_log_metadata: None,
    }
}

/// The signed number that 64 bits stand for in two's complement.
pub open spec fn signed_64(value: nat) -> i64 {
    if value <= i64::MAX {
        value as i64
    } else {
        (value - 0x1_0000_0000_0000_0000) as i64
    }
}

/// The signed number that the lower 32 bits stand for in two's complement.
pub open spec fn signed_32(value: nat) -> i32 {
    if value % 0x1_0000_0000 <= i32::MAX {
        (value % 0x1_0000_0000) as i32
    } else {
        (value % 0x1_0000_0000 - 0x1_0000_0000) as i32
    }
}

/// The text of a length-delimited body at the start of `bytes` that is
/// UTF-8, and the length of the body with its prefix.
pub open spec fn text_field(bytes: Seq<u8>) -> Option<(Seq<char>, nat)> {
    match delimited(bytes) {
        Some((body, n)) => if valid_utf8(body) {
            Some((decode_utf8(body), n))
        } else {
            None
        },
        None => None,
    }
}

/// The metadata after the field with head `key` and body at the start of
/// `bytes` has been read into `acc`, and the length of the body. A field
/// that metadata does not have is passed over.
pub open spec fn metadata_field(bytes: Seq<u8>, key: Key, acc: MetadataView) -> Option<
    (MetadataView, nat),
> {
    if key.tag == 1 {
        match varint(bytes) {
            Some((value, n)) if key.wire == WireType::Varint => Some(
                (MetadataView { last: value != 0, id: acc.id, ordinal: acc.ordinal }, n),
            ),
            _ => None,
        }
    } else if key.tag == 2 {
        match text_field(bytes) {
            Some((id, n)) if key.wire == WireType::LengthDelimited => Some(
                (MetadataView { last: acc.last, id, ordinal: acc.ordinal }, n),
            ),
            _ => None,
        }
    } else if key.tag == 3 {
        match varint(bytes) {
            Some((value, n)) if key.wire == WireType::Varint => Some(
                (MetadataView { last: acc.last, id: acc.id, ordinal: signed_32(value) }, n),
            ),
            _ => None,
        }
    } else {
        match skipped(bytes, key, (RECURSION_LIMIT - 1) as nat) {
            Some(n) => Some((acc, n)),
            None => None,
        }
    }
}

/// The metadata after all fields in `bytes` have been read into `acc`, one
/// after the other. There is none where the bytes are not a sequence of
/// fields.
pub open spec fn merged_metadata(bytes: Seq<u8>, acc: MetadataView) -> Option<MetadataView>
    decreases bytes.len(),
{
    if bytes.len() == 0 {
        Some(acc)
    } else {
        match key(bytes) {
            Some((head, n)) if 1 <= n <= bytes.len() => match metadata_field(
                bytes.skip(n as int),
                head,
                acc,
            ) {
                Some((next, m)) if m <= bytes.len() - n => merged_metadata(
                    bytes.skip((n + m) as int),
                    next,
                ),
                _ => None,
            },
            _ => None,
        }
    }
}

/// The entry after the field with head `key` and body at the start of
/// `bytes` has been read into `acc`, and the length of the body. A field
/// that an entry does not have is passed over.
pub open spec fn entry_field(bytes: Seq<u8>, key: Key, acc: LogEntryView) -> Option<
    (LogEntryView, nat),
> {
    if key.tag == 1 {
        match text_field(bytes) {
            Some((source, n)) if key.wire == WireType::LengthDelimited => Some(
                (
                    LogEntryView {
                        source,
                        time_nano: acc.time_nano,
                        line: acc.line,
                        partial: acc.partial,
                        partial_log_metadata: acc.partial_log_metadata,
                    },
                    n,
                ),
            ),
            _ => None,
        }
    } else if key.tag == 2 {
        match varint(bytes) {
            Some((value, n)) if key.wire == WireType::Varint => Some(
                (
                    LogEntryView {
                        source: acc.source,
                        time_nano: signed_64(value),
                        line: acc.line,
                        partial: acc.partial,
                        partial_log_metadata: acc.partial_log_metadata,
                    },
                    n,
                ),
            ),
            _ => None,
        }
    } else if key.tag == 3 {
        match delimited(bytes) {
            Some((line, n)) if key.wire == WireType::LengthDelimited => Some(
                (
                    LogEntryView {
                        source: acc.source,
                        time_nano: acc.time_nano,
                        line,
                        partial: acc.partial,
                        partial_log_metadata: acc.partial_log_metadata,
                    },
                    n,
                ),
            ),
            _ => None,
        }
    } else if key.tag == 4 {
        match varint(bytes) {
            Some((value, n)) if key.wire == WireType::Varint => Some(
                (
                    LogEntryView {
                        source: acc.source,
                        time_nano: acc.time_nano,
                        line: acc.line,
                        partial: value != 0,
                        partial_log_metadata: acc.partial_log_metadata,
                    },
                    n,
                ),
            ),
            _ => None,
        }
    } else if key.tag == 5 {
        match delimited(bytes) {
            Some((body, n)) if key.wire == WireType::LengthDelimited => match merged_metadata(
                body,
                match acc.partial_log_metadata {
                    Some(before) => before,
                    None => empty_metadata(),
                },
            ) {
                Some(metadata) => Some(
                    (
                        LogEntryView {
                            source: acc.source,
                            time_nano: acc.time_nano,
                            line: acc.line,
                            partial: acc.partial,
                            partial_log_metadata: Some(metadata),
                        },
                        n,
                    ),
                ),
                None => None,
            },
            _ => None,
        }
    } else {
        match skipped(bytes, key, RECURSION_LIMIT as nat) {
            Some(n) => Some((acc, n)),
            None => None,
        }
    }
}

/// The entry after all fields in `bytes` have been read into `acc`, one
/// after the other. There is none where the bytes are not a sequence of
/// fields.
pub open spec fn merged_entry(bytes: Seq<u8>, acc: LogEntryView) -> Option<LogEntryView>
    decreases bytes.len(),
{
    if bytes.len() == 0 {
        Some(acc)
    } else {
        match key(bytes) {
            Some((head, n)) if 1 <= n <= bytes.len() => match entry_field(
                bytes.skip(n as int),
                head,
                acc,
            ) {
                Some((next, m)) if m <= bytes.len() - n => merged_entry(
                    bytes.skip((n + m) as int),
                    next,
                ),
                _ => None,
            },
            _ => None,
        }
    }
}

/// The entry that `bytes` encode: its fields in any order, each a head and
/// a body; of a field that occurs again the last occurrence counts, but
/// for the metadata, whose occurrences are read into one another; a field
/// that does not occur is not set. There is none where the bytes are not a
/// sequence of fields.
pub open spec fn decoded_entry(bytes: Seq<u8>) -> Option<LogEntryView> {
    merged_entry(bytes, empty_entry())
}

/// The 64 bits that stand for a signed number in two's complement.
pub open spec fn unsigned_64(value: int) -> nat {
    if value >= 0 {
        value as nat
    } else {
        (value + 0x1_0000_0000_0000_0000) as nat
    }
}

/// The head of the field with number `tag` and a body of one integer.
pub open spec fn varint_key(tag: u32) -> Key {
    Key { tag, wire: WireType::Varint }
}

/// The head of the field with number `tag` and a length-delimited body.
pub open spec fn delimited_key(tag: u32) -> Key {
    Key { tag, wire: WireType::LengthDelimited }
}

/// The bytes of a field of one integer. A field that is zero has none.
pub open spec fn encoded_integer(tag: u32, value: nat) -> Seq<u8> {
    if value == 0 {
        Seq::empty()
    } else {
        encoded_key(varint_key(tag)) + encoded_varint(value)
    }
}

/// The bytes of a field of bytes. A field that is empty has none.
pub open spec fn encoded_bytes(tag: u32, body: Seq<u8>) -> Seq<u8> {
    if body.len() == 0 {
        Seq::empty()
    } else {
        encoded_key(delimited_key(tag)) + encoded_delimited(body)
    }
}

/// The bytes of metadata: its fields in the order of their numbers.
pub open spec fn encoded_metadata(metadata: MetadataView) -> Seq<u8> {
    encoded_integer(1, if metadata.last { 1 } else { 0 })
        + encoded_bytes(2, encode_utf8(metadata.id))
        + encoded_integer(3, unsigned_64(metadata.ordinal as int))
}

/// The bytes of the metadata of an entry, which is a field of its own
/// where there is metadata, whether any of its fields is set or not.
pub open spec fn encoded_optional_metadata(metadata: Option<MetadataView>) -> Seq<u8> {
    match metadata {
        Some(m) => encoded_key(delimited_key(5)) + encoded_delimited(encoded_metadata(m)),
        None => Seq::empty(),
    }
}

/// The bytes of an entry: its fields in the order of their numbers.
pub open spec fn encoded_entry(entry: LogEntryView) -> Seq<u8> {
    encoded_bytes(1, encode_utf8(entry.source))
        + encoded_integer(2, unsigned_64(entry.time_nano as int))
        + encoded_bytes(3, entry.line)
        + encoded_integer(4, if entry.partial { 1 } else { 0 })
        + encoded_optional_metadata(entry.partial_log_metadata)
}

/// Reads 64 bits as a signed number in two's complement.
fn to_signed_64(value: u64) -> (res: i64)
    ensures
        res == signed_64(value as nat),
{
    if value <= 0x7fff_ffff_ffff_ffff {
        value as i64
    } else {
        let below: u64 = 0xffff_ffff_ffff_ffff - value;
        -(below as i64) - 1
    }
}

/// Reads the lower 32 bits as a signed number in two's complement.
fn to_signed_32(value: u64) -> (res: i32)
    ensures
        res == signed_32(value as nat),
{
    let low: u64 = value % 0x1_0000_0000;
    if low <= 0x7fff_ffff {
        low as i32
    } else {
        let below: u64 = 0xffff_ffff - low;
        -(below as i32) - 1
    }
}

/// The 64 bits that stand for a signed number in two's complement.
fn to_unsigned_64(value: i64) -> (res: u64)
    ensures
        res == unsigned_64(value as int),
{
    if value >= 0 {
        value as u64
    } else {
        (value + 0x7fff_ffff_ffff_ffff + 1) as u64 + 0x8000_0000_0000_0000
    }
}

/// Writes a field of one integer behind the bytes of `out`.
fn write_integer(out: &mut Vec<u8>, tag: u32, value: u64)
    requires
        tag <= 0x1fff_ffff,
    ensures
        final(out)@ == old(out)@ + encoded_integer(tag, value as nat),
{
    if value != 0 {
        write_key(out, Key { tag, wire: WireType::Varint });
        write_varint(out, value);
        assert(out@ == old(out)@ + encoded_integer(tag, value as nat));
    } else {
        assert(out@ == old(out)@ + encoded_integer(tag, value as nat));
    }
}

/// Writes a field of bytes behind the bytes of `out`.
fn write_bytes(out: &mut Vec<u8>, tag: u32, body: &[u8])
    requires
        tag <= 0x1fff_ffff,
    ensures
        final(out)@ == old(out)@ + encoded_bytes(tag, body@),
{
    if body.len() != 0 {
        write_key(out, Key { tag, wire: WireType::LengthDelimited });
        write_delimited(out, body);
        assert(out@ == old(out)@ + encoded_bytes(tag, body@));
    } else {
        assert(out@ == old(out)@ + encoded_bytes(tag, body@));
    }
}

/// Reads the text of a length-delimited body at the start of `bytes`.
fn read_text(bytes: &[u8]) -> (res: Option<(String, usize)>)
    ensures
        match res {
            Some((text, n)) => text_field(bytes@) == Some((text@, n as nat)),
            None => text_field(bytes@) is None,
        },
{
    match read_delimited(bytes) {
        Some((body, n)) => match string_from_utf8(slice_to_vec(body)) {
            Some(text) => Some((text, n)),
            None => None,
        },
        None => None,
    }
}

impl PartialLogEntryMetadata {
    /// The metadata of which no field is set.
    pub fn new() -> (res: Self)
        ensures
            res@ == empty_metadata(),
    {
        PartialLogEntryMetadata { last: false, id: String::new(), ordinal: 0 }
    }

    /// Reads the body of the field with head `key` into the metadata and
    /// gives the length of the body.
    fn merge_field(&mut self, bytes: &[u8], key: Key) -> (res: Option<usize>)
        ensures
            match res {
                Some(n) => metadata_field(bytes@, key, old(self)@) == Some(
                    (final(self)@, n as nat),
                ),
                None => metadata_field(bytes@, key, old(self)@) is None,
            },
    {
        if key.tag == 1 {
            match read_varint(bytes) {
                Some((value, n)) => {
                    if key.wire == WireType::Varint {
                        self.last = value != 0;
                        Some(n)
                    } else {
                        None
                    }
                },
                None => None,
            }
        } else if key.tag == 2 {
            match read_text(bytes) {
                Some((id, n)) => {
                    if key.wire == WireType::LengthDelimited {
                        self.id = id;
                        Some(n)
                    } else {
                        None
                    }
                },
                None => None,
            }
        } else if key.tag == 3 {
            match read_varint(bytes) {
                Some((value, n)) => {
                    if key.wire == WireType::Varint {
                        self.ordinal = to_signed_32(value);
                        Some(n)
                    } else {
                        None
                    }
                },
                None => None,
            }
        } else {
            skip_field(bytes, key, RECURSION_LIMIT - 1)
        }
    }

    /// The bytes of the metadata.
    fn to_bytes(&self) -> (res: Vec<u8>)
        ensures
            res@ == encoded_metadata(self@),
            metadata_fits(self@),
    {
        let mut out: Vec<u8> = Vec::new();
        write_integer(&mut out, 1, if self.last { 1 } else { 0 });
        let id = self.id.as_str().as_bytes();
        assert(id@.len() == id.len());
        write_bytes(&mut out, 2, id);
        write_integer(&mut out, 3, to_unsigned_64(self.ordinal as i64));
        assert(out@ == encoded_metadata(self@));
        out
    }

    /// Reads all fields in `bytes` into the metadata.
    fn merge(self, bytes: &[u8]) -> (res: Option<Self>)
        ensures
            optional_metadata(res) == merged_metadata(bytes@, self@),
    {
        let mut acc = self;
        let mut rest = bytes;
        while rest.len() > 0
            invariant
                merged_metadata(rest@, acc@) == merged_metadata(bytes@, self@),
            decreases rest@.len(),
        {
            let (head, n) = match read_key(rest) {
                Some(found) => found,
                None => {
                    return None;
                },
            };
            proof {
                lemma_varint(rest@);
            }
            let body = slice_subrange(rest, n, rest.len());
            assert(body@ == rest@.skip(n as int));
            let m = match acc.merge_field(body, head) {
                Some(m) => m,
                None => {
                    return None;
                },
            };
            if m > rest.len() - n {
                return None;
            }
            let next = slice_subrange(rest, n + m, rest.len());
            assert(next@ == rest@.skip((n + m) as int));
            rest = next;
        }
        Some(acc)
    }
}

impl LogEntry {
    /// The entry of which no field is set.
    pub fn new() -> (res: Self)
        ensures
            res@ == empty_entry(),
    {
        LogEntry {
            source: String::new(),
            time_nano: 0,
            line: Vec::new(),
            partial: false,
            partial_log_metadata: None,
        }
    }

    /// Reads the body of the field with head `key` into the entry and
    /// gives the length of the body.
    fn merge_field(&mut self, bytes: &[u8], key: Key) -> (res: Option<usize>)
        ensures
            match res {
                Some(n) => entry_field(bytes@, key, old(self)@) == Some((final(self)@, n as nat)),
                None => entry_field(bytes@, key, old(self)@) is None,
            },
    {
        if key.tag == 1 {
            match read_text(bytes) {
                Some((source, n)) => {
                    if key.wire == WireType::LengthDelimited {
                        self.source = source;
                        Some(n)
                    } else {
                        None
                    }
                },
                None => None,
            }
        } else if key.tag == 2 {
            match read_varint(bytes) {
                Some((value, n)) => {
                    if key.wire == WireType::Varint {
                        self.time_nano = to_signed_64(value);
                        Some(n)
                    } else {
                        None
                    }
                },
                None => None,
            }
        } else if key.tag == 3 {
            match read_delimited(bytes) {
                Some((line, n)) => {
                    if key.wire == WireType::LengthDelimited {
                        self.line = slice_to_vec(line);
                        Some(n)
                    } else {
                        None
                    }
                },
                None => None,
            }
        } else if key.tag == 4 {
            match read_varint(bytes) {
                Some((value, n)) => {
                    if key.wire == WireType::Varint {
                        self.partial = value != 0;
                        Some(n)
                    } else {
                        None
                    }
                },
                None => None,
            }
        } else if key.tag == 5 {
            match read_delimited(bytes) {
                Some((body, n)) => {
                    if key.wire == WireType::LengthDelimited {
                        let before = match self.partial_log_metadata.take() {
                            Some(before) => before,
                            None => PartialLogEntryMetadata::new(),
                        };
                        match before.merge(body) {
                            Some(metadata) => {
                                self.partial_log_metadata = Some(metadata);
                                Some(n)
                            },
                            None => None,
                        }
                    } else {
                        None
                    }
                },
                None => None,
            }
        } else {
            skip_field(bytes, key, RECURSION_LIMIT)
        }
    }

    /// Encodes the entry as the bytes of one record. Every entry has
    /// them, and they decode to the entry again.
    pub fn to_bytes(&self) -> (res: Vec<u8>)
        ensures
            res@ == encoded_entry(self@),
            decoded_entry(res@) == Some(self@),
    {
        let mut out: Vec<u8> = Vec::new();
        let source = self.source.as_str().as_bytes();
        assert(source@.len() == source.len());
        write_bytes(&mut out, 1, source);
        write_integer(&mut out, 2, to_unsigned_64(self.time_nano));
        let line = self.line.as_slice();
        assert(line@.len() == line.len());
        write_bytes(&mut out, 3, line);
        write_integer(&mut out, 4, if self.partial { 1 } else { 0 });
        match &self.partial_log_metadata {
            Some(metadata) => {
                let body = metadata.to_bytes();
                assert(body@.len() == body.len());
                write_key(&mut out, Key { tag: 5, wire: WireType::LengthDelimited });
                write_delimited(&mut out, body.as_slice());
            },
            None => {},
        }
        assert(out@ == encoded_entry(self@));
        proof {
            lemma_entry_round_trip(self@);
        }
        out
    }

    /// Decodes an entry from the bytes of one record.
    pub fn from_bytes(bytes: &[u8]) -> (res: Result<LogEntry, DecodeError>)
        ensures
            match res {
                Ok(entry) => decoded_entry(bytes@) == Some(entry@),
                Err(_) => decoded_entry(bytes@) is None,
            },
    {
        let mut acc = LogEntry::new();
        let mut rest = bytes;
        while rest.len() > 0
            invariant
                merged_entry(rest@, acc@) == decoded_entry(bytes@),
            decreases rest@.len(),
        {
            let (head, n) = match read_key(rest) {
                Some(found) => found,
                None => {
                    return Err(DecodeError);
                },
            };
            proof {
                lemma_varint(rest@);
            }
            let body = slice_subrange(rest, n, rest.len());
            assert(body@ == rest@.skip(n as int));
            let m = match acc.merge_field(body, head) {
                Some(m) => m,
                None => {
                    return Err(DecodeError);
                },
            };
            if m > rest.len() - n {
                return Err(DecodeError);
            }
            let next = slice_subrange(rest, n + m, rest.len());
            assert(next@ == rest@.skip((n + m) as int));
            rest = next;
        }
        Ok(acc)
    }
}

/// Whether the lengths of metadata can be written: each fits 64 bits.
pub open spec fn metadata_fits(metadata: MetadataView) -> bool {
    encode_utf8(metadata.id).len() <= u64::MAX
}

/// Whether the lengths of an entry can be written: each fits 64 bits.
pub open spec fn entry_fits(entry: LogEntryView) -> bool {
    &&& encode_utf8(entry.source).len() <= u64::MAX
    &&& entry.line.len() <= u64::MAX
    &&& entry.partial_log_metadata matches Some(metadata) ==> metadata_fits(metadata)
        && encoded_metadata(metadata).len() <= u64::MAX
}

/// A text whose bytes are none is the empty text.
proof fn lemma_no_bytes_no_text(text: Seq<char>)
    requires
        encode_utf8(text).len() == 0,
    ensures
        text == Seq::<char>::empty(),
{
    encode_utf8_decode_utf8(text);
    assert(encode_utf8(text) == Seq::<u8>::empty());
    assert(decode_utf8(Seq::<u8>::empty()) == Seq::<char>::empty());
}

/// A signed number that is written as 64 bits and read again is the same.
proof fn lemma_signed_round_trip(value: i64, small: i32)
    ensures
        unsigned_64(value as int) <= u64::MAX,
        signed_64(unsigned_64(value as int)) == value,
        unsigned_64(value as int) == 0 <==> value == 0,
        unsigned_64(small as int) <= u64::MAX,
        signed_32(unsigned_64(small as int)) == small,
        unsigned_64(small as int) == 0 <==> small == 0,
{
}

/// A field that has been read leaves what follows it to be read into
/// the entry.
proof fn lemma_entry_step(
    field: Seq<u8>,
    rest: Seq<u8>,
    acc: LogEntryView,
    head: Key,
    n: nat,
    next: LogEntryView,
    m: nat,
)
    requires
        1 <= n,
        n + m == field.len(),
        key(field + rest) == Some((head, n)),
        entry_field((field + rest).skip(n as int), head, acc) == Some((next, m)),
    ensures
        merged_entry(field + rest, acc) == merged_entry(rest, next),
{
    assert((field + rest).skip((n + m) as int) == rest);
}

/// A field that has been read leaves what follows it to be read into
/// the metadata.
proof fn lemma_metadata_step(
    field: Seq<u8>,
    rest: Seq<u8>,
    acc: MetadataView,
    head: Key,
    n: nat,
    next: MetadataView,
    m: nat,
)
    requires
        1 <= n,
        n + m == field.len(),
        key(field + rest) == Some((head, n)),
        metadata_field((field + rest).skip(n as int), head, acc) == Some((next, m)),
    ensures
        merged_metadata(field + rest, acc) == merged_metadata(rest, next),
{
    assert((field + rest).skip((n + m) as int) == rest);
}

/// A text that is written as a length-delimited body and read again is
/// the same text.
proof fn lemma_text_round_trip(text: Seq<char>, rest: Seq<u8>)
    requires
        encode_utf8(text).len() <= u64::MAX,
    ensures
        text_field(encoded_delimited(encode_utf8(text)) + rest) == Some(
            (text, encoded_delimited(encode_utf8(text)).len()),
        ),
{
    lemma_delimited_round_trip(encode_utf8(text), rest);
    encode_utf8_valid_utf8(text);
    encode_utf8_decode_utf8(text);
}

/// Reading the bytes of an integer field of metadata sets the field.
proof fn lemma_metadata_integer(tag: u32, value: nat, rest: Seq<u8>, acc: MetadataView)
    requires
        tag == 1 || tag == 3,
        0 < value <= u64::MAX,
    ensures
        merged_metadata(encoded_integer(tag, value) + rest, acc) == merged_metadata(
            rest,
            if tag == 1 {
                MetadataView { last: true, id: acc.id, ordinal: acc.ordinal }
            } else {
                MetadataView { last: acc.last, id: acc.id, ordinal: signed_32(value) }
            },
        ),
{
    let head = varint_key(tag);
    let body = encoded_varint(value);
    let field = encoded_integer(tag, value);
    assert(field + rest == encoded_key(head) + (body + rest));
    lemma_key_round_trip(head, body + rest);
    lemma_varint_round_trip(value, rest);
    let next = if tag == 1 {
        MetadataView { last: true, id: acc.id, ordinal: acc.ordinal }
    } else {
        MetadataView { last: acc.last, id: acc.id, ordinal: signed_32(value) }
    };
    lemma_metadata_step(field, rest, acc, head, encoded_key(head).len(), next, body.len());
}

/// Reading the bytes of the text field of metadata sets the field.
proof fn lemma_metadata_text(id: Seq<char>, rest: Seq<u8>, acc: MetadataView)
    requires
        0 < encode_utf8(id).len() <= u64::MAX,
    ensures
        merged_metadata(encoded_bytes(2, encode_utf8(id)) + rest, acc) == merged_metadata(
            rest,
            MetadataView { last: acc.last, id, ordinal: acc.ordinal },
        ),
{
    let head = delimited_key(2);
    let body = encoded_delimited(encode_utf8(id));
    let field = encoded_bytes(2, encode_utf8(id));
    assert(field + rest == encoded_key(head) + (body + rest));
    lemma_key_round_trip(head, body + rest);
    lemma_text_round_trip(id, rest);
    let next = MetadataView { last: acc.last, id, ordinal: acc.ordinal };
    lemma_metadata_step(field, rest, acc, head, encoded_key(head).len(), next, body.len());
}

/// Metadata that is written and read again is the same metadata.
pub proof fn lemma_metadata_round_trip(metadata: MetadataView)
    requires
        metadata_fits(metadata),
    ensures
        merged_metadata(encoded_metadata(metadata), empty_metadata()) == Some(metadata),
{
    let none = Seq::<u8>::empty();
    let last = encoded_integer(1, if metadata.last { 1 } else { 0 });
    let id = encoded_bytes(2, encode_utf8(metadata.id));
    let ordinal = encoded_integer(3, unsigned_64(metadata.ordinal as int));
    lemma_signed_round_trip(0, metadata.ordinal);
    let first = empty_metadata();
    let second = MetadataView { last: metadata.last, id: first.id, ordinal: first.ordinal };
    let third = MetadataView { last: metadata.last, id: metadata.id, ordinal: first.ordinal };
    assert(encoded_metadata(metadata) == last + (id + (ordinal + none)));
    assert(merged_metadata(last + (id + (ordinal + none)), first) == merged_metadata(
        id + (ordinal + none),
        second,
    )) by {
        if metadata.last {
            lemma_metadata_integer(1, 1, id + (ordinal + none), first);
        } else {
            assert(last + (id + (ordinal + none)) == id + (ordinal + none));
        }
    }
    assert(merged_metadata(id + (ordinal + none), second) == merged_metadata(
        ordinal + none,
        third,
    )) by {
        if encode_utf8(metadata.id).len() > 0 {
            lemma_metadata_text(metadata.id, ordinal + none, second);
        } else {
            lemma_no_bytes_no_text(metadata.id);
            assert(id + (ordinal + none) == ordinal + none);
        }
    }
    assert(merged_metadata(ordinal + none, third) == merged_metadata(none, metadata)) by {
        if metadata.ordinal != 0 {
            lemma_metadata_integer(3, unsigned_64(metadata.ordinal as int), none, third);
        } else {
            assert(ordinal + none == none);
        }
    }
}

/// Reading the bytes of an integer field of an entry sets the field.
proof fn lemma_entry_integer(tag: u32, value: nat, rest: Seq<u8>, acc: LogEntryView)
    requires
        tag == 2 || tag == 4,
        0 < value <= u64::MAX,
    ensures
        merged_entry(encoded_integer(tag, value) + rest, acc) == merged_entry(
            rest,
            LogEntryView {
                source: acc.source,
                time_nano: if tag == 2 {
                    signed_64(value)
                } else {
                    acc.time_nano
                },
                line: acc.line,
                partial: if tag == 4 {
                    true
                } else {
                    acc.partial
                },
                partial_log_metadata: acc.partial_log_metadata,
            },
        ),
{
    let head = varint_key(tag);
    let body = encoded_varint(value);
    let field = encoded_integer(tag, value);
    assert(field + rest == encoded_key(head) + (body + rest));
    lemma_key_round_trip(head, body + rest);
    lemma_varint_round_trip(value, rest);
    let next = LogEntryView {
        source: acc.source,
        time_nano: if tag == 2 {
            signed_64(value)
        } else {
            acc.time_nano
        },
        line: acc.line,
        partial: if tag == 4 {
            true
        } else {
            acc.partial
        },
        partial_log_metadata: acc.partial_log_metadata,
    };
    lemma_entry_step(field, rest, acc, head, encoded_key(head).len(), next, body.len());
}

/// Reading the bytes of the source of an entry sets the source.
proof fn lemma_entry_source(source: Seq<char>, rest: Seq<u8>, acc: LogEntryView)
    requires
        0 < encode_utf8(source).len() <= u64::MAX,
    ensures
        merged_entry(encoded_bytes(1, encode_utf8(source)) + rest, acc) == merged_entry(
            rest,
            LogEntryView {
                source,
                time_nano: acc.time_nano,
                line: acc.line,
                partial: acc.partial,
                partial_log_metadata: acc.partial_log_metadata,
            },
        ),
{
    let head = delimited_key(1);
    let body = encoded_delimited(encode_utf8(source));
    let field = encoded_bytes(1, encode_utf8(source));
    assert(field + rest == encoded_key(head) + (body + rest));
    lemma_key_round_trip(head, body + rest);
    lemma_text_round_trip(source, rest);
    let next = LogEntryView {
        source,
        time_nano: acc.time_nano,
        line: acc.line,
        partial: acc.partial,
        partial_log_metadata: acc.partial_log_metadata,
    };
    lemma_entry_step(field, rest, acc, head, encoded_key(head).len(), next, body.len());
}

/// Reading the bytes of the line of an entry sets the line.
proof fn lemma_entry_line(line: Seq<u8>, rest: Seq<u8>, acc: LogEntryView)
    requires
        0 < line.len() <= u64::MAX,
    ensures
        merged_entry(encoded_bytes(3, line) + rest, acc) == merged_entry(
            rest,
            LogEntryView {
                source: acc.source,
                time_nano: acc.time_nano,
                line,
                partial: acc.partial,
                partial_log_metadata: acc.partial_log_metadata,
            },
        ),
{
    let head = delimited_key(3);
    let body = encoded_delimited(line);
    let field = encoded_bytes(3, line);
    assert(field + rest == encoded_key(head) + (body + rest));
    lemma_key_round_trip(head, body + rest);
    lemma_delimited_round_trip(line, rest);
    let next = LogEntryView {
        source: acc.source,
        time_nano: acc.time_nano,
        line,
        partial: acc.partial,
        partial_log_metadata: acc.partial_log_metadata,
    };
    lemma_entry_step(field, rest, acc, head, encoded_key(head).len(), next, body.len());
}

/// Reading the bytes of the metadata of an entry that has none yet sets
/// the metadata.
proof fn lemma_entry_metadata(metadata: MetadataView, rest: Seq<u8>, acc: LogEntryView)
    requires
        metadata_fits(metadata),
        encoded_metadata(metadata).len() <= u64::MAX,
        acc.partial_log_metadata is None,
    ensures
        merged_entry(encoded_optional_metadata(Some(metadata)) + rest, acc) == merged_entry(
            rest,
            LogEntryView {
                source: acc.source,
                time_nano: acc.time_nano,
                line: acc.line,
                partial: acc.partial,
                partial_log_metadata: Some(metadata),
            },
        ),
{
    let head = delimited_key(5);
    let body = encoded_delimited(encoded_metadata(metadata));
    let field = encoded_optional_metadata(Some(metadata));
    assert(field + rest == encoded_key(head) + (body + rest));
    lemma_key_round_trip(head, body + rest);
    lemma_delimited_round_trip(encoded_metadata(metadata), rest);
    lemma_metadata_round_trip(metadata);
    let next = LogEntryView {
        source: acc.source,
        time_nano: acc.time_nano,
        line: acc.line,
        partial: acc.partial,
        partial_log_metadata: Some(metadata),
    };
    lemma_entry_step(field, rest, acc, head, encoded_key(head).len(), next, body.len());
}

/// An entry that is written and read again is the same entry.
pub proof fn lemma_entry_round_trip(entry: LogEntryView)
    requires
        entry_fits(entry),
    ensures
        decoded_entry(encoded_entry(entry)) == Some(entry),
{
    let none = Seq::<u8>::empty();
    let source = encoded_bytes(1, encode_utf8(entry.source));
    let time = encoded_integer(2, unsigned_64(entry.time_nano as int));
    let line = encoded_bytes(3, entry.line);
    let partial = encoded_integer(4, if entry.partial { 1 } else { 0 });
    let metadata = encoded_optional_metadata(entry.partial_log_metadata);
    lemma_signed_round_trip(entry.time_nano, 0);
    let first = empty_entry();
    let second = LogEntryView {
        source: entry.source,
        time_nano: 0,
        line: Seq::empty(),
        partial: false,
        partial_log_metadata: None,
    };
    let third = LogEntryView {
        source: entry.source,
        time_nano: entry.time_nano,
        line: Seq::empty(),
        partial: false,
        partial_log_metadata: None,
    };
    let fourth = LogEntryView {
        source: entry.source,
        time_nano: entry.time_nano,
        line: entry.line,
        partial: false,
        partial_log_metadata: None,
    };
    let fifth = LogEntryView {
        source: entry.source,
        time_nano: entry.time_nano,
        line: entry.line,
        partial: entry.partial,
        partial_log_metadata: None,
    };
    let after_source = time + (line + (partial + (metadata + none)));
    let after_time = line + (partial + (metadata + none));
    let after_line = partial + (metadata + none);
    let after_partial = metadata + none;
    assert(encoded_entry(entry) == source + after_source);
    assert(merged_entry(source + after_source, first) == merged_entry(after_source, second)) by {
        if encode_utf8(entry.source).len() > 0 {
            lemma_entry_source(entry.source, after_source, first);
        } else {
            lemma_no_bytes_no_text(entry.source);
            assert(source + after_source == after_source);
        }
    }
    assert(merged_entry(after_source, second) == merged_entry(after_time, third)) by {
        if entry.time_nano != 0 {
            lemma_entry_integer(2, unsigned_64(entry.time_nano as int), after_time, second);
        } else {
            assert(time + after_time == after_time);
        }
    }
    assert(merged_entry(after_time, third) == merged_entry(after_line, fourth)) by {
        if entry.line.len() > 0 {
            lemma_entry_line(entry.line, after_line, third);
        } else {
            assert(entry.line == Seq::<u8>::empty());
            assert(line + after_line == after_line);
        }
    }
    assert(merged_entry(after_line, fourth) == merged_entry(after_partial, fifth)) by {
        if entry.partial {
            lemma_entry_integer(4, 1, after_partial, fourth);
        } else {
            assert(partial + after_partial == after_partial);
        }
    }
    assert(merged_entry(after_partial, fifth) == merged_entry(none, entry)) by {
        match entry.partial_log_metadata {
            Some(m) => {
                lemma_entry_metadata(m, none, fifth);
            },
            None => {
                assert(metadata + none == none);
            },
        }
    }
}

} // verus!
