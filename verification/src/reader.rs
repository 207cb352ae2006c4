//! The stream of records that the engine writes: each record stands
//! behind its length, which is four bytes, the highest first.

use vstd::prelude::*;
use vstd::slice::slice_subrange;
use vstd::string::StringExecFns;

use crate::protobuf::{decoded_entry, DecodeError, LogEntry};

verus! {

/// The number of bytes of the length that stands before every record.
pub const HEADER_LEN: usize = 4;

/// Why reading a log ends before its end.
#[derive(Debug)]
pub enum ReaderError {
    /// Reading the bytes failed; the string says how.
    Io(String),
    /// The bytes of a record are no record.
    Protobuf(DecodeError),
}

/// The mathematical content of a [`ReaderError`].
pub enum ReaderErrorView {
    Io(Seq<char>),
    Protobuf,
}

impl View for ReaderError {
    type V = ReaderErrorView;

    open spec fn view(&self) -> ReaderErrorView {
        match self {
            ReaderError::Io(text) => ReaderErrorView::Io(text@),
            ReaderError::Protobuf(_) => ReaderErrorView::Protobuf,
        }
    }
}

impl ReaderError {
    /// The words that describe the error.
    pub open spec fn spec_message(&self) -> Seq<char> {
        match self {
            ReaderError::Io(text) => "IO error: "@ + text@,
            ReaderError::Protobuf(_) => "Protobuf error: failed to decode Protobuf message"@,
        }
    }

    /// The words that describe the error.
    pub fn message(&self) -> (res: String)
        ensures
            res@ == self.spec_message(),
    {
        match self {
            ReaderError::Io(text) => "IO error: ".to_owned().concat(text.as_str()),
            ReaderError::Protobuf(_) => "Protobuf error: failed to decode Protobuf message".to_owned(),
        }
    }
}

/// The length that the first four bytes of a stream give, the highest byte
/// first.
pub open spec fn frame_len(stream: Seq<u8>) -> int {
    (stream[0] as int) * 0x100_0000 + (stream[1] as int) * 0x1_0000 + (stream[2] as int) * 0x100
        + (stream[3] as int)
}

/// The bytes of the first record of a stream: those that follow the
/// length, as many as it says. There is none where the stream ends within
/// the length or within the record.
pub open spec fn next_frame(stream: Seq<u8>) -> Option<Seq<u8>> {
    if stream.len() >= 4 && stream.len() - 4 >= frame_len(stream) {
        Some(stream.subrange(4, 4 + frame_len(stream)))
    } else {
        None
    }
}

/// What is left of a stream behind its first record.
pub open spec fn after_frame(stream: Seq<u8>) -> Seq<u8> {
    stream.skip(4 + frame_len(stream))
}

/// The four bytes that stand for a length, the highest byte first.
#[verifier::opaque]
pub open spec fn header(len: int) -> Seq<u8> {
    seq![
        (len / 0x100_0000) as u8,
        (len / 0x1_0000 % 0x100) as u8,
        (len / 0x100 % 0x100) as u8,
        (len % 0x100) as u8,
    ]
}

/// A record as it stands in a stream: its length, then its bytes.
pub open spec fn framed(payload: Seq<u8>) -> Seq<u8> {
    header(payload.len() as int) + payload
}

/// The records of a stream, from the first to the last that is whole.
pub open spec fn frames(stream: Seq<u8>) -> Seq<Seq<u8>>
    decreases stream.len(),
{
    match next_frame(stream) {
        Some(payload) => seq![payload] + frames(after_frame(stream)),
        None => Seq::empty(),
    }
}

/// A stream that ends before its first record does has no first record:
/// the empty stream, one that ends within the length, and one that ends
/// within the bytes that the length announces.
pub proof fn lemma_truncated_stream(stream: Seq<u8>)
    ensures
        stream.len() == 0 ==> next_frame(stream) is None,
        stream.len() < 4 ==> next_frame(stream) is None,
        stream.len() >= 4 && stream.len() < 4 + frame_len(stream) ==> next_frame(stream) is None,
        next_frame(stream) is None ==> frames(stream) == Seq::<Seq<u8>>::empty(),
{
}

/// A stream that starts with a record as it is written has that record as
/// its first, whatever follows, and goes on behind it.
pub proof fn lemma_framed_first(payload: Seq<u8>, rest: Seq<u8>)
    requires
        payload.len() <= u32::MAX,
    ensures
        next_frame(framed(payload) + rest) == Some(payload),
        after_frame(framed(payload) + rest) == rest,
        frames(framed(payload) + rest) == seq![payload] + frames(rest),
{
    reveal(header);
    let stream = framed(payload) + rest;
    let len = payload.len() as int;
    assert(stream[0] == (len / 0x100_0000) as u8);
    assert(stream[1] == (len / 0x1_0000 % 0x100) as u8);
    assert(stream[2] == (len / 0x100 % 0x100) as u8);
    assert(stream[3] == (len % 0x100) as u8);
    assert(frame_len(stream) == len);
    assert(stream.subrange(4, 4 + len) == payload);
    assert(stream.skip(4 + len) == rest);
}

/// The stream in which the given records stand one after the other, each
/// as it is written.
pub open spec fn stream_of(payloads: Seq<Seq<u8>>) -> Seq<u8>
    decreases payloads.len(),
{
    if payloads.len() == 0 {
        Seq::empty()
    } else {
        framed(payloads.first()) + stream_of(payloads.drop_first())
    }
}

/// The records but the first of a sequence of records that fit their
/// length prefix fit it as well.
proof fn lemma_others_fit(payloads: Seq<Seq<u8>>)
    requires
        payloads.len() > 0,
        forall|i: int| 0 <= i < payloads.len() ==> (#[trigger] payloads[i]).len() <= u32::MAX,
    ensures
        payloads.first().len() <= u32::MAX,
        forall|i: int|
            0 <= i < payloads.drop_first().len() ==> (#[trigger] payloads.drop_first()[i]).len()
                <= u32::MAX,
{
    assert(payloads.first() == payloads[0]);
    assert forall|i: int| 0 <= i < payloads.drop_first().len() implies (
    #[trigger] payloads.drop_first()[i]).len() <= u32::MAX by {
        assert(payloads.drop_first()[i] == payloads[i + 1]);
    }
}

/// The records of a stream are those that were written to it, whether the
/// stream ends behind the last of them or within one more.
#[verifier::rlimit(50)]
pub proof fn lemma_frames_of_stream(payloads: Seq<Seq<u8>>, tail: Seq<u8>)
    requires
        forall|i: int| 0 <= i < payloads.len() ==> (#[trigger] payloads[i]).len() <= u32::MAX,
        next_frame(tail) is None,
    ensures
        frames(stream_of(payloads) + tail) == payloads,
    decreases payloads.len(),
{
    if payloads.len() == 0 {
        assert(stream_of(payloads) + tail == tail);
        lemma_truncated_stream(tail);
    } else {
        let first = payloads.first();
        let others = payloads.drop_first();
        let behind = stream_of(others) + tail;
        lemma_others_fit(payloads);
        lemma_frames_of_stream(others, tail);
        lemma_framed_first(first, behind);
        assert(stream_of(payloads) + tail == framed(first) + behind);
        assert(frames(framed(first) + behind) == seq![first] + others);
        assert(seq![first] + others == payloads);
    }
}

/// The reader of a stream of records. It holds the bytes that have come
/// and have not been read as records yet.
pub struct Reader {
    buffer: Vec<u8>,
}

impl View for Reader {
    type V = Seq<u8>;

    /// The bytes that have come and have not been read yet.
    closed spec fn view(&self) -> Seq<u8> {
        self.buffer@
    }
}

impl Reader {
    /// A reader of the stream that starts with `data`.
    pub fn new(data: Vec<u8>) -> (res: Self)
        ensures
            res@ == data@,
    {
        Reader { buffer: data }
    }

    /// The number of bytes that have come and have not been read yet.
    pub fn buffered(&self) -> (res: usize)
        ensures
            res == self@.len(),
    {
        self.buffer.len()
    }

    /// Takes the bytes that the stream goes on with.
    pub fn feed(&mut self, chunk: &[u8])
        requires
            old(self)@.len() + chunk@.len() <= usize::MAX,
        ensures
            final(self)@ == old(self)@ + chunk@,
    {
        self.buffer.extend_from_slice(chunk);
    }

    /// Reads the next record. Where the bytes that have come do not hold a
    /// whole record, there is none, and nothing is read: the stream has
    /// ended, or has to go on first.
    pub fn next(&mut self) -> (res: Result<Option<LogEntry>, ReaderError>)
        ensures
            match next_frame(old(self)@) {
                Some(payload) => {
                    &&& final(self)@ == after_frame(old(self)@)
                    &&& match decoded_entry(payload) {
                        Some(entry) => res matches Ok(Some(found)) && found@ == entry,
                        None => res matches Err(ReaderError::Protobuf(_)),
                    }
                },
                None => final(self)@ == old(self)@ && res matches Ok(None),
            },
    {
        let available = self.buffer.len();
        if available < HEADER_LEN {
            return Ok(None);
        }
        let len: u32 = (self.buffer[0] as u32) * 0x100_0000 + (self.buffer[1] as u32) * 0x1_0000 + (
        self.buffer[2] as u32) * 0x100 + (self.buffer[3] as u32);
        if ((available - HEADER_LEN) as u64) < len as u64 {
            return Ok(None);
        }
        let end: usize = HEADER_LEN + len as usize;
        let decoded = LogEntry::from_bytes(slice_subrange(self.buffer.as_slice(), HEADER_LEN, end));
        let rest = self.buffer.split_off(end);
        self.buffer = rest;
        match decoded {
            Ok(entry) => Ok(Some(entry)),
            Err(error) => Err(ReaderError::Protobuf(error)),
        }
    }
}

} // verus!
