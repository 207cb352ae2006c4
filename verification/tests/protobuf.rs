use docker_log_driver::protobuf::{LogEntry, PartialLogEntryMetadata};
use prost::bytes::{Buf, BufMut};
use prost::encoding::{self, DecodeContext, WireType};
use prost::{DecodeError, Message};

/// The metadata message, with the field handling that `prost` derives for
/// it written out by hand.
#[derive(Debug, Default, Clone, PartialEq)]
struct WireMetadata {
    last: bool,
    id: String,
    ordinal: i32,
}

impl Message for WireMetadata {
    fn encode_raw<B>(&self, buf: &mut B)
    where
        B: BufMut,
        Self: Sized,
    {
        if self.last {
            encoding::bool::encode(1, &self.last, buf);
        }
        if !self.id.is_empty() {
            encoding::string::encode(2, &self.id, buf);
        }
        if self.ordinal != 0 {
            encoding::int32::encode(3, &self.ordinal, buf);
        }
    }

    fn merge_field<B>(
        &mut self,
        tag: u32,
        wire_type: WireType,
        buf: &mut B,
        ctx: DecodeContext,
    ) -> Result<(), DecodeError>
    where
        B: Buf,
        Self: Sized,
    {
        match tag {
            1 => encoding::bool::merge(wire_type, &mut self.last, buf, ctx),
            2 => encoding::string::merge(wire_type, &mut self.id, buf, ctx),
            3 => encoding::int32::merge(wire_type, &mut self.ordinal, buf, ctx),
            _ => encoding::skip_field(wire_type, tag, buf, ctx),
        }
    }

    fn encoded_len(&self) -> usize {
        let mut len = 0;
        if self.last {
            len += encoding::bool::encoded_len(1, &self.last);
        }
        if !self.id.is_empty() {
            len += encoding::string::encoded_len(2, &self.id);
        }
        if self.ordinal != 0 {
            len += encoding::int32::encoded_len(3, &self.ordinal);
        }
        len
    }

    fn clear(&mut self) {
        *self = WireMetadata::default();
    }
}

/// The entry message, with the field handling that `prost` derives for it
/// written out by hand.
#[derive(Debug, Default, Clone, PartialEq)]
struct WireEntry {
    source: String,
    time_nano: i64,
    line: Vec<u8>,
    partial: bool,
    partial_log_metadata: Option<WireMetadata>,
}

impl Message for WireEntry {
    fn encode_raw<B>(&self, buf: &mut B)
    where
        B: BufMut,
        Self: Sized,
    {
        if !self.source.is_empty() {
            encoding::string::encode(1, &self.source, buf);
        }
        if self.time_nano != 0 {
            encoding::int64::encode(2, &self.time_nano, buf);
        }
        if !self.line.is_empty() {
            encoding::bytes::encode(3, &self.line, buf);
        }
        if self.partial {
            encoding::bool::encode(4, &self.partial, buf);
        }
        if let Some(metadata) = &self.partial_log_metadata {
            encoding::message::encode(5, metadata, buf);
        }
    }

    fn merge_field<B>(
        &mut self,
        tag: u32,
        wire_type: WireType,
        buf: &mut B,
        ctx: DecodeContext,
    ) -> Result<(), DecodeError>
    where
        B: Buf,
        Self: Sized,
    {
        match tag {
            1 => encoding::string::merge(wire_type, &mut self.source, buf, ctx),
            2 => encoding::int64::merge(wire_type, &mut self.time_nano, buf, ctx),
            3 => encoding::bytes::merge(wire_type, &mut self.line, buf, ctx),
            4 => encoding::bool::merge(wire_type, &mut self.partial, buf, ctx),
            5 => encoding::message::merge(
                wire_type,
                self.partial_log_metadata.get_or_insert_with(WireMetadata::default),
                buf,
                ctx,
            ),
            _ => encoding::skip_field(wire_type, tag, buf, ctx),
        }
    }

    fn encoded_len(&self) -> usize {
        let mut len = 0;
        if !self.source.is_empty() {
            len += encoding::string::encoded_len(1, &self.source);
        }
        if self.time_nano != 0 {
            len += encoding::int64::encoded_len(2, &self.time_nano);
        }
        if !self.line.is_empty() {
            len += encoding::bytes::encoded_len(3, &self.line);
        }
        if self.partial {
            len += encoding::bool::encoded_len(4, &self.partial);
        }
        if let Some(metadata) = &self.partial_log_metadata {
            len += encoding::message::encoded_len(5, metadata);
        }
        len
    }

    fn clear(&mut self) {
        *self = WireEntry::default();
    }
}

fn to_wire(entry: &LogEntry) -> WireEntry {
    WireEntry {
        source: entry.source.clone(),
        time_nano: entry.time_nano,
        line: entry.line.clone(),
        partial: entry.partial,
        partial_log_metadata: entry.partial_log_metadata.as_ref().map(|m| WireMetadata {
            last: m.last,
            id: m.id.clone(),
            ordinal: m.ordinal,
        }),
    }
}

fn from_wire(entry: &WireEntry) -> LogEntry {
    LogEntry {
        source: entry.source.clone(),
        time_nano: entry.time_nano,
        line: entry.line.clone(),
        partial: entry.partial,
        partial_log_metadata: entry.partial_log_metadata.as_ref().map(|m| {
            PartialLogEntryMetadata { last: m.last, id: m.id.clone(), ordinal: m.ordinal }
        }),
    }
}

/// What the library reads from `bytes`, in the shape of the `prost`
/// message, so that the two can be compared.
fn library_decode(bytes: &[u8]) -> Option<WireEntry> {
    LogEntry::from_bytes(bytes).ok().map(|entry| to_wire(&entry))
}

fn prost_decode(bytes: &[u8]) -> Option<WireEntry> {
    WireEntry::decode(bytes).ok()
}

/// A small generator of numbers that gives the same sequence every time.
struct Numbers(u64);

impl Numbers {
    fn next(&mut self) -> u64 {
        self.0 = self.0.wrapping_mul(6364136223846793005).wrapping_add(1442695040888963407);
        self.0 >> 33
    }

    fn below(&mut self, bound: u64) -> u64 {
        self.next() % bound
    }
}

fn sample_entries() -> Vec<WireEntry> {
    let metadata = |last: bool, id: &str, ordinal: i32| {
        Some(WireMetadata { last, id: id.to_string(), ordinal })
    };
    vec![
        WireEntry::default(),
        WireEntry {
            source: "stdout".to_string(),
            time_nano: 1620000000000,
            line: b"hello".to_vec(),
            partial: false,
            partial_log_metadata: None,
        },
        WireEntry {
            source: "stderr".to_string(),
            time_nano: -1,
            line: vec![0xff, 0x00, 0x80],
            partial: true,
            partial_log_metadata: metadata(true, "abc", 7),
        },
        WireEntry {
            source: "\u{1F980} caf\u{e9}".to_string(),
            time_nano: i64::MIN,
            line: vec![b'x'; 300],
            partial: false,
            partial_log_metadata: metadata(false, "", 0),
        },
        WireEntry {
            source: String::new(),
            time_nano: i64::MAX,
            line: Vec::new(),
            partial: true,
            partial_log_metadata: metadata(false, "id", i32::MIN),
        },
        WireEntry {
            source: "s".repeat(20000),
            time_nano: 127,
            line: vec![7; 70000],
            partial: false,
            partial_log_metadata: metadata(true, &"i".repeat(200), i32::MAX),
        },
        WireEntry {
            source: "a".to_string(),
            time_nano: 128,
            line: b"{}".to_vec(),
            partial: false,
            partial_log_metadata: metadata(false, "x", -1),
        },
    ]
}

#[test]
fn decodes_what_prost_encodes() {
    for entry in sample_entries() {
        let bytes = entry.encode_to_vec();
        assert_eq!(library_decode(&bytes), Some(entry));
    }
}

#[test]
fn encodes_as_prost_does() {
    for entry in sample_entries() {
        let bytes = from_wire(&entry).to_bytes();
        assert_eq!(bytes, entry.encode_to_vec());
    }
}

#[test]
fn decoding_gives_back_what_was_encoded() {
    for entry in sample_entries() {
        let bytes = from_wire(&entry).to_bytes();
        assert_eq!(library_decode(&bytes), Some(entry));
    }
}

#[test]
fn empty_bytes_are_the_empty_entry() {
    let entry = LogEntry::from_bytes(&[]).unwrap();
    assert_eq!(entry.source, "");
    assert_eq!(entry.time_nano, 0);
    assert_eq!(entry.line, Vec::<u8>::new());
    assert!(!entry.partial);
    assert!(entry.partial_log_metadata.is_none());
    assert_eq!(LogEntry::new().to_bytes(), Vec::<u8>::new());
}

#[test]
fn exact_bytes_of_a_small_entry() {
    let entry = LogEntry {
        source: "ab".to_string(),
        time_nano: 300,
        line: vec![1, 2, 3],
        partial: true,
        partial_log_metadata: Some(PartialLogEntryMetadata {
            last: true,
            id: "z".to_string(),
            ordinal: -1,
        }),
    };
    let expected: Vec<u8> = vec![
        0x0a, 0x02, b'a', b'b', // source
        0x10, 0xac, 0x02, // time_nano = 300
        0x1a, 0x03, 1, 2, 3, // line
        0x20, 0x01, // partial
        0x2a, 0x10, // metadata, 16 bytes
        0x08, 0x01, // last
        0x12, 0x01, b'z', // id
        0x18, 0xff, 0xff, 0xff, 0xff, 0xff, 0xff, 0xff, 0xff, 0xff, 0x01, // ordinal = -1
    ];
    assert_eq!(entry.to_bytes(), expected);
    let back = LogEntry::from_bytes(&expected).unwrap();
    assert_eq!(to_wire(&back), to_wire(&entry));
}

#[test]
fn last_occurrence_of_a_field_counts() {
    // source = "a", then source = "bc"; time_nano = 1, then time_nano = 2
    let bytes = [0x0a, 0x01, b'a', 0x10, 0x01, 0x0a, 0x02, b'b', b'c', 0x10, 0x02];
    let entry = LogEntry::from_bytes(&bytes).unwrap();
    assert_eq!(entry.source, "bc");
    assert_eq!(entry.time_nano, 2);
    assert_eq!(library_decode(&bytes), prost_decode(&bytes));
}

#[test]
fn metadata_occurrences_are_read_into_one_another() {
    // metadata { last = true, id = "x" }, then metadata { ordinal = 5 }
    let bytes = [0x2a, 0x05, 0x08, 0x01, 0x12, 0x01, b'x', 0x2a, 0x02, 0x18, 0x05];
    let entry = LogEntry::from_bytes(&bytes).unwrap();
    let metadata = entry.partial_log_metadata.unwrap();
    assert!(metadata.last);
    assert_eq!(metadata.id, "x");
    assert_eq!(metadata.ordinal, 5);
    assert_eq!(library_decode(&bytes), prost_decode(&bytes));
}

#[test]
fn unknown_fields_are_passed_over() {
    // field 9 varint, field 10 fixed64, field 11 bytes, field 12 fixed32,
    // field 13 group holding a varint field and a nested group, then source
    let bytes = [
        0x48, 0x96, 0x01, // 9: varint 150
        0x51, 1, 2, 3, 4, 5, 6, 7, 8, // 10: eight bytes
        0x5a, 0x02, 0xaa, 0xbb, // 11: two bytes
        0x65, 9, 9, 9, 9, // 12: four bytes
        0x6b, 0x08, 0x01, 0x73, 0x74, 0x6c, // 13: group { 1: 1, group 14 {} }
        0x0a, 0x01, b'k', // source
    ];
    let entry = LogEntry::from_bytes(&bytes).unwrap();
    assert_eq!(entry.source, "k");
    assert_eq!(library_decode(&bytes), prost_decode(&bytes));
}

#[test]
fn malformed_records_are_refused() {
    let cases: Vec<Vec<u8>> = vec![
        vec![0x0a],                   // no length
        vec![0x0a, 0x05, b'a'],       // text shorter than its length
        vec![0x0a, 0x01, 0xff],       // text that is not UTF-8
        vec![0x08, 0x01],             // source as an integer
        vec![0x12, 0x01, 0x00],       // time_nano as bytes
        vec![0x00, 0x00],             // field number zero
        vec![0x0e],                   // layout 6
        vec![0x0f],                   // layout 7
        vec![0x4c],                   // end of a group that never began
        vec![0x4b, 0x54],             // group 9 ended as group 10
        vec![0x4b],                   // group without end
        vec![0x80],                   // integer without end
        vec![0x10, 0xff, 0xff, 0xff, 0xff, 0xff, 0xff, 0xff, 0xff, 0xff, 0x02], // too large
        vec![0x10, 0x80, 0x80, 0x80, 0x80, 0x80, 0x80, 0x80, 0x80, 0x80, 0x80, 0x01], // too long
        vec![0x80, 0x80, 0x80, 0x80, 0x10], // head beyond 32 bits
        vec![0x2a, 0x03, 0x12, 0x05, b'a'], // metadata field beyond the metadata
        vec![0x2a, 0x02, 0x08],       // metadata that ends within a field
        vec![0x51, 1, 2, 3],          // eight bytes announced, three there
        vec![0x65, 1, 2, 3],          // four bytes announced, three there
    ];
    for bytes in cases {
        assert!(LogEntry::from_bytes(&bytes).is_err(), "{:?}", bytes);
        assert!(prost_decode(&bytes).is_none(), "{:?}", bytes);
    }
}

#[test]
fn integers_of_ten_bytes() {
    // time_nano with all 64 bits set is -1; an eleventh byte or a tenth
    // byte above one is refused
    let ok = [0x10, 0xff, 0xff, 0xff, 0xff, 0xff, 0xff, 0xff, 0xff, 0xff, 0x01];
    assert_eq!(LogEntry::from_bytes(&ok).unwrap().time_nano, -1);
    // zero written with more bytes than needed is still zero
    let padded = [0x10, 0x80, 0x80, 0x00];
    assert_eq!(LogEntry::from_bytes(&padded).unwrap().time_nano, 0);
    assert_eq!(library_decode(&padded), prost_decode(&padded));
    // the ordinal keeps the lower 32 bits
    let ordinal = [0x2a, 0x06, 0x18, 0x80, 0x80, 0x80, 0x80, 0x18];
    let entry = LogEntry::from_bytes(&ordinal).unwrap();
    assert_eq!(entry.partial_log_metadata.unwrap().ordinal, i32::MIN);
    assert_eq!(library_decode(&ordinal), prost_decode(&ordinal));
}

#[test]
fn groups_may_stand_inside_one_another_up_to_the_limit() {
    // field 9 as a group, nested to a depth that is just allowed
    let nest = |depth: usize| {
        let mut bytes = Vec::new();
        for _ in 0..depth {
            bytes.push(0x4b);
        }
        for _ in 0..depth {
            bytes.push(0x4c);
        }
        bytes
    };
    for depth in [1usize, 2, 50, 99, 100, 101, 102, 150] {
        let bytes = nest(depth);
        assert_eq!(
            LogEntry::from_bytes(&bytes).is_ok(),
            prost_decode(&bytes).is_some(),
            "depth {}",
            depth
        );
        // the same inside the metadata, where one level is used up already
        let mut inner = vec![0x2a, (2 * depth) as u8];
        if 2 * depth < 128 {
            inner.extend_from_slice(&bytes);
            assert_eq!(
                LogEntry::from_bytes(&inner).is_ok(),
                prost_decode(&inner).is_some(),
                "depth {} in metadata",
                depth
            );
        }
    }
    assert!(LogEntry::from_bytes(&nest(100)).is_ok());
    assert!(LogEntry::from_bytes(&nest(101)).is_err());
}

#[test]
fn agrees_with_prost_on_arbitrary_bytes() {
    let mut numbers = Numbers(1);
    let mut accepted = 0;
    for _ in 0..60000 {
        let len = numbers.below(24) as usize;
        let mut bytes = Vec::with_capacity(len);
        for _ in 0..len {
            // small values make heads and lengths that are likely to fit
            let byte = match numbers.below(4) {
                0 => numbers.below(256) as u8,
                1 => numbers.below(8) as u8,
                _ => numbers.below(48) as u8,
            };
            bytes.push(byte);
        }
        let ours = library_decode(&bytes);
        let theirs = prost_decode(&bytes);
        assert_eq!(ours, theirs, "{:?}", bytes);
        if ours.is_some() {
            accepted += 1;
        }
    }
    assert!(accepted > 100);
}

/// Appends a field that is well formed most of the time.
fn push_some_field(numbers: &mut Numbers, bytes: &mut Vec<u8>, depth: u32) {
    let tag = match numbers.below(3) {
        0 => 1 + numbers.below(5) as u32,
        1 => 1 + numbers.below(16) as u32,
        _ => 1 + numbers.below(3000) as u32,
    };
    let wire = match numbers.below(8) {
        0 | 1 => 0u32,
        2 | 3 | 4 => 2,
        5 => 1,
        6 => 5,
        _ => 3,
    };
    let wire = if wire == 3 && depth == 0 { 0 } else { wire };
    encoding::encode_varint(u64::from((tag << 3) | wire), bytes);
    match wire {
        0 => {
            let value = match numbers.below(3) {
                0 => numbers.below(2),
                1 => numbers.below(1 << 20),
                _ => numbers.next() << 31 | numbers.next(),
            };
            encoding::encode_varint(value, bytes);
        }
        1 => {
            for _ in 0..8 {
                bytes.push(numbers.below(256) as u8);
            }
        }
        5 => {
            for _ in 0..4 {
                bytes.push(numbers.below(256) as u8);
            }
        }
        2 => {
            let mut body = Vec::new();
            if tag == 5 && depth > 0 {
                for _ in 0..numbers.below(4) {
                    push_some_field(numbers, &mut body, depth - 1);
                }
            } else {
                for _ in 0..numbers.below(6) {
                    let byte = if numbers.below(10) == 0 {
                        numbers.below(256) as u8
                    } else {
                        b'a' + numbers.below(26) as u8
                    };
                    body.push(byte);
                }
            }
            encoding::encode_varint(body.len() as u64, bytes);
            bytes.extend_from_slice(&body);
        }
        _ => {
            for _ in 0..numbers.below(3) {
                push_some_field(numbers, bytes, depth - 1);
            }
            let end_tag = if numbers.below(12) == 0 { tag + 1 } else { tag };
            encoding::encode_varint(u64::from((end_tag << 3) | 4), bytes);
        }
    }
}

#[test]
fn agrees_with_prost_on_sequences_of_fields() {
    let mut numbers = Numbers(7);
    let mut accepted = 0;
    let mut refused = 0;
    for _ in 0..20000 {
        let mut bytes = Vec::new();
        for _ in 0..numbers.below(6) {
            push_some_field(&mut numbers, &mut bytes, 3);
        }
        if numbers.below(10) == 0 && !bytes.is_empty() {
            let cut = numbers.below(bytes.len() as u64) as usize;
            bytes.truncate(cut);
        }
        let ours = library_decode(&bytes);
        let theirs = prost_decode(&bytes);
        assert_eq!(ours, theirs, "{:?}", bytes);
        if ours.is_some() {
            accepted += 1;
        } else {
            refused += 1;
        }
    }
    assert!(accepted > 1000);
    assert!(refused > 1000);
}
