//! The wire format of Protocol Buffers: variable-length integers, the
//! heads of fields, length-delimited bodies, and fields that are passed
//! over.

use vstd::prelude::*;
use vstd::slice::slice_subrange;

verus! {

/// How the body of a field is laid out.
#[derive(Debug, Clone, Copy, PartialEq, Eq, Structural)]
pub enum WireType {
    Varint,
    SixtyFourBit,
    LengthDelimited,
    StartGroup,
    EndGroup,
    ThirtyTwoBit,
}

/// The head of a field: its number and the layout of its body.
#[derive(Debug, Clone, Copy, PartialEq, Eq, Structural)]
pub struct Key {
    pub tag: u32,
    pub wire: WireType,
}

/// The number of groups and messages that may stand inside one another.
pub const RECURSION_LIMIT: u32 = 100;

/// The variable-length integer at the start of `bytes` and its length,
/// where it takes at most `budget` bytes. Each byte but the last has its
/// top bit set, and carries seven bits, the lowest first. The tenth byte of
/// an integer can only be zero or one.
pub open spec fn varint_within(bytes: Seq<u8>, budget: nat) -> Option<(nat, nat)>
    decreases budget,
{
    if budget == 0 || bytes.len() == 0 {
        None
    } else if bytes[0] < 0x80 {
        if budget == 1 && bytes[0] >= 2 {
            None
        } else {
            Some((bytes[0] as nat, 1nat))
        }
    } else {
        match varint_within(bytes.skip(1), (budget - 1) as nat) {
            Some((high, n)) => Some((((bytes[0] - 0x80) + 128 * high) as nat, n + 1)),
            None => None,
        }
    }
}

/// The variable-length integer at the start of `bytes` and its length.
pub open spec fn varint(bytes: Seq<u8>) -> Option<(nat, nat)> {
    varint_within(bytes, 10)
}

/// What an integer of at most `budget` last bytes stays below.
pub open spec fn varint_bound(budget: nat) -> nat
    decreases budget,
{
    if budget == 0 {
        1
    } else if budget == 1 {
        2
    } else {
        128 * varint_bound((budget - 1) as nat)
    }
}

/// An integer of ten bytes fits 64 bits, and shorter ones fit as well.
pub proof fn lemma_varint_bound(budget: nat)
    requires
        budget <= 10,
    ensures
        varint_bound(budget) <= 0x1_0000_0000_0000_0000,
        budget >= 1 ==> varint_bound(budget) >= 2,
        budget == 10 ==> varint_bound(budget) == 0x1_0000_0000_0000_0000,
{
    reveal_with_fuel(varint_bound, 11);
}

/// A variable-length integer takes at least one byte and no more than
/// there are, and stays below its bound.
pub proof fn lemma_varint_within(bytes: Seq<u8>, budget: nat)
    requires
        budget <= 10,
    ensures
        varint_within(bytes, budget) matches Some((value, n)) ==> 1 <= n <= bytes.len() && n
            <= budget && value < varint_bound(budget),
    decreases budget,
{
    if budget > 0 && bytes.len() > 0 {
        lemma_varint_bound((budget - 1) as nat);
        if bytes[0] >= 0x80 {
            lemma_varint_within(bytes.skip(1), (budget - 1) as nat);
        }
    }
}

/// A variable-length integer takes from one to ten bytes, no more than
/// there are, and fits 64 bits.
pub proof fn lemma_varint(bytes: Seq<u8>)
    ensures
        varint(bytes) matches Some((value, n)) ==> 1 <= n <= bytes.len() && n <= 10 && value
            <= u64::MAX,
{
    lemma_varint_within(bytes, 10);
    lemma_varint_bound(10);
}

/// The layout that a number from zero to five stands for.
pub open spec fn wire_of(number: nat) -> WireType {
    if number == 0 {
        WireType::Varint
    } else if number == 1 {
        WireType::SixtyFourBit
    } else if number == 2 {
        WireType::LengthDelimited
    } else if number == 3 {
        WireType::StartGroup
    } else if number == 4 {
        WireType::EndGroup
    } else {
        WireType::ThirtyTwoBit
    }
}

/// The head of the field at the start of `bytes` and its length: a
/// variable-length integer of at most 32 bits, whose three lowest bits are
/// the layout and whose other bits are the number of the field, which is
/// not zero.
pub open spec fn key(bytes: Seq<u8>) -> Option<(Key, nat)> {
    match varint(bytes) {
        Some((value, n)) => if value <= u32::MAX && value % 8 <= 5 && value / 8 >= 1 {
            Some((Key { tag: (value / 8) as u32, wire: wire_of(value % 8) }, n))
        } else {
            None
        },
        None => None,
    }
}

/// The bytes of the length-delimited body at the start of `bytes`, and the
/// length of the body with its length prefix.
pub open spec fn delimited(bytes: Seq<u8>) -> Option<(Seq<u8>, nat)> {
    match varint(bytes) {
        Some((len, n)) => if len <= bytes.len() - n {
            Some((bytes.subrange(n as int, (n + len) as int), n + len))
        } else {
            None
        },
        None => None,
    }
}

/// The length of the body of a field that is passed over, where `depth`
/// more levels of groups may be entered.
pub open spec fn skipped(bytes: Seq<u8>, key: Key, depth: nat) -> Option<nat>
    decreases bytes.len(), 1nat,
{
    if depth == 0 {
        None
    } else {
        match key.wire {
            WireType::Varint => match varint(bytes) {
                Some((_, n)) => Some(n),
                None => None,
            },
            WireType::SixtyFourBit => if bytes.len() >= 8 {
                Some(8nat)
            } else {
                None
            },
            WireType::ThirtyTwoBit => if bytes.len() >= 4 {
                Some(4nat)
            } else {
                None
            },
            WireType::LengthDelimited => match delimited(bytes) {
                Some((_, n)) => Some(n),
                None => None,
            },
            WireType::StartGroup => skipped_group(bytes, key.tag, depth),
            WireType::EndGroup => None,
        }
    }
}

/// The length of what is left of a group that is passed over: its fields,
/// and the head that ends it, which has the number of the group.
pub open spec fn skipped_group(bytes: Seq<u8>, tag: u32, depth: nat) -> Option<nat>
    decreases bytes.len(), 0nat,
{
    match key(bytes) {
        Some((inner, n)) => if inner.wire == WireType::EndGroup {
            if inner.tag == tag {
                Some(n)
            } else {
                None
            }
        } else if 1 <= n <= bytes.len() && depth >= 1 {
            match skipped(bytes.skip(n as int), inner, (depth - 1) as nat) {
                Some(m) => if m <= bytes.len() - n {
                    match skipped_group(bytes.skip((n + m) as int), tag, depth) {
                        Some(rest) => Some(n + m + rest),
                        None => None,
                    }
                } else {
                    None
                },
                None => None,
            }
        } else {
            None
        },
        None => None,
    }
}

/// What is passed over lies within the bytes.
pub proof fn lemma_skipped(bytes: Seq<u8>, key: Key, depth: nat)
    ensures
        skipped(bytes, key, depth) matches Some(n) ==> n <= bytes.len(),
    decreases bytes.len(), 1nat,
{
    lemma_varint(bytes);
    if depth > 0 && key.wire == WireType::StartGroup {
        lemma_skipped_group(bytes, key.tag, depth);
    }
}

/// What is left of a group lies within the bytes, and is not empty.
pub proof fn lemma_skipped_group(bytes: Seq<u8>, tag: u32, depth: nat)
    ensures
        skipped_group(bytes, tag, depth) matches Some(n) ==> 1 <= n <= bytes.len(),
    decreases bytes.len(), 0nat,
{
    lemma_varint(bytes);
    match key(bytes) {
        Some((inner, n)) => {
            if inner.wire != WireType::EndGroup && 1 <= n <= bytes.len() && depth >= 1 {
                lemma_skipped(bytes.skip(n as int), inner, (depth - 1) as nat);
                match skipped(bytes.skip(n as int), inner, (depth - 1) as nat) {
                    Some(m) => {
                        if m <= bytes.len() - n {
                            lemma_skipped_group(bytes.skip((n + m) as int), tag, depth);
                        }
                    },
                    None => {},
                }
            }
        },
        None => {},
    }
}

/// The number that stands for a layout in the head of a field.
pub open spec fn wire_number(wire: WireType) -> nat {
    match wire {
        WireType::Varint => 0,
        WireType::SixtyFourBit => 1,
        WireType::LengthDelimited => 2,
        WireType::StartGroup => 3,
        WireType::EndGroup => 4,
        WireType::ThirtyTwoBit => 5,
    }
}

/// The bytes of a variable-length integer: seven bits in each byte, the
/// lowest first, and the top bit set in each byte but the last.
pub open spec fn encoded_varint(value: nat) -> Seq<u8>
    decreases value,
{
    if value < 0x80 {
        seq![value as u8]
    } else {
        seq![(value % 0x80 + 0x80) as u8] + encoded_varint(value / 0x80)
    }
}

/// The bytes of the head of a field.
pub open spec fn encoded_key(key: Key) -> Seq<u8> {
    encoded_varint(key.tag as nat * 8 + wire_number(key.wire))
}

/// The bytes of a length-delimited body: its length, then the body.
pub open spec fn encoded_delimited(body: Seq<u8>) -> Seq<u8> {
    encoded_varint(body.len()) + body
}

/// Reads the variable-length integer at the start of `bytes`, where it
/// takes at most `budget` bytes.
fn read_varint_within(bytes: &[u8], budget: usize) -> (res: Option<(u64, usize)>)
    requires
        budget <= 10,
    ensures
        match res {
            Some((value, n)) => varint_within(bytes@, budget as nat) == Some(
                (value as nat, n as nat),
            ),
            None => varint_within(bytes@, budget as nat) is None,
        },
    decreases budget,
{
    if budget == 0 || bytes.len() == 0 {
        return None;
    }
    let first = bytes[0];
    if first < 0x80 {
        if budget == 1 && first >= 2 {
            None
        } else {
            Some((first as u64, 1))
        }
    } else {
        let rest = slice_subrange(bytes, 1, bytes.len());
        assert(rest@ == bytes@.skip(1));
        match read_varint_within(rest, budget - 1) {
            Some((high, n)) => {
                proof {
                    lemma_varint_within(rest@, (budget - 1) as nat);
                    lemma_varint_bound((budget - 1) as nat);
                    lemma_varint_bound(budget as nat);
                }
                Some(((first - 0x80) as u64 + 128 * high, n + 1))
            },
            None => None,
        }
    }
}

/// Reads the variable-length integer at the start of `bytes`.
pub fn read_varint(bytes: &[u8]) -> (res: Option<(u64, usize)>)
    ensures
        match res {
            Some((value, n)) => varint(bytes@) == Some((value as nat, n as nat)),
            None => varint(bytes@) is None,
        },
{
    read_varint_within(bytes, 10)
}

/// Reads the head of the field at the start of `bytes`.
pub fn read_key(bytes: &[u8]) -> (res: Option<(Key, usize)>)
    ensures
        match res {
            Some((found, n)) => key(bytes@) == Some((found, n as nat)),
            None => key(bytes@) is None,
        },
{
    match read_varint(bytes) {
        Some((value, n)) => {
            if value > 0xffff_ffff {
                return None;
            }
            let number = value % 8;
            let tag = (value / 8) as u32;
            if tag < 1 {
                return None;
            }
            let wire = if number == 0 {
                WireType::Varint
            } else if number == 1 {
                WireType::SixtyFourBit
            } else if number == 2 {
                WireType::LengthDelimited
            } else if number == 3 {
                WireType::StartGroup
            } else if number == 4 {
                WireType::EndGroup
            } else if number == 5 {
                WireType::ThirtyTwoBit
            } else {
                return None;
            };
            Some((Key { tag, wire }, n))
        },
        None => None,
    }
}

/// Reads the length-delimited body at the start of `bytes`.
pub fn read_delimited(bytes: &[u8]) -> (res: Option<(&[u8], usize)>)
    ensures
        match res {
            Some((body, n)) => delimited(bytes@) == Some((body@, n as nat)),
            None => delimited(bytes@) is None,
        },
{
    match read_varint(bytes) {
        Some((len, n)) => {
            proof {
                lemma_varint(bytes@);
            }
            if len > (bytes.len() - n) as u64 {
                return None;
            }
            let end = n + len as usize;
            Some((slice_subrange(bytes, n, end), end))
        },
        None => None,
    }
}

/// Passes over the body of a field at the start of `bytes`, where `depth`
/// more levels of groups may be entered, and gives its length.
pub fn skip_field(bytes: &[u8], key: Key, depth: u32) -> (res: Option<usize>)
    ensures
        match res {
            Some(n) => skipped(bytes@, key, depth as nat) == Some(n as nat),
            None => skipped(bytes@, key, depth as nat) is None,
        },
    decreases bytes@.len(), 1nat,
{
    if depth == 0 {
        return None;
    }
    match key.wire {
        WireType::Varint => match read_varint(bytes) {
            Some((_, n)) => Some(n),
            None => None,
        },
        WireType::SixtyFourBit => if bytes.len() >= 8 {
            Some(8)
        } else {
            None
        },
        WireType::ThirtyTwoBit => if bytes.len() >= 4 {
            Some(4)
        } else {
            None
        },
        WireType::LengthDelimited => match read_delimited(bytes) {
            Some((_, n)) => Some(n),
            None => None,
        },
        WireType::StartGroup => skip_group(bytes, key.tag, depth),
        WireType::EndGroup => None,
    }
}

/// Passes over what is left of a group at the start of `bytes` and gives
/// its length.
fn skip_group(bytes: &[u8], tag: u32, depth: u32) -> (res: Option<usize>)
    requires
        depth >= 1,
    ensures
        match res {
            Some(n) => skipped_group(bytes@, tag, depth as nat) == Some(n as nat),
            None => skipped_group(bytes@, tag, depth as nat) is None,
        },
    decreases bytes@.len(), 0nat,
{
    match read_key(bytes) {
        Some((inner, n)) => {
            proof {
                lemma_varint(bytes@);
            }
            if inner.wire == WireType::EndGroup {
                if inner.tag == tag {
                    Some(n)
                } else {
                    None
                }
            } else {
                let body = slice_subrange(bytes, n, bytes.len());
                assert(body@ == bytes@.skip(n as int));
                match skip_field(body, inner, depth - 1) {
                    Some(m) => {
                        proof {
                            lemma_skipped(body@, inner, (depth - 1) as nat);
                        }
                        let rest = slice_subrange(bytes, n + m, bytes.len());
                        assert(rest@ == bytes@.skip((n + m) as int));
                        match skip_group(rest, tag, depth) {
                            Some(more) => {
                                proof {
                                    lemma_skipped_group(rest@, tag, depth as nat);
                                }
                                Some(n + m + more)
                            },
                            None => None,
                        }
                    },
                    None => None,
                }
            }
        },
        None => None,
    }
}

/// Writes a variable-length integer behind the bytes of `out`.
pub fn write_varint(out: &mut Vec<u8>, value: u64)
    ensures
        final(out)@ == old(out)@ + encoded_varint(value as nat),
{
    let mut left = value;
    while left >= 0x80
        invariant
            out@ + encoded_varint(left as nat) == old(out)@ + encoded_varint(value as nat),
        decreases left,
    {
        let ghost before = out@;
        out.push((left % 0x80 + 0x80) as u8);
        assert(before + encoded_varint(left as nat) == out@ + encoded_varint((left / 0x80) as nat));
        left = left / 0x80;
    }
    let ghost before = out@;
    out.push(left as u8);
    assert(out@ == before + encoded_varint(left as nat));
}

/// Writes the head of a field behind the bytes of `out`.
pub fn write_key(out: &mut Vec<u8>, key: Key)
    requires
        key.tag <= 0x1fff_ffff,
    ensures
        final(out)@ == old(out)@ + encoded_key(key),
{
    let number: u64 = match key.wire {
        WireType::Varint => 0,
        WireType::SixtyFourBit => 1,
        WireType::LengthDelimited => 2,
        WireType::StartGroup => 3,
        WireType::EndGroup => 4,
        WireType::ThirtyTwoBit => 5,
    };
    write_varint(out, key.tag as u64 * 8 + number);
}

/// Writes a length-delimited body behind the bytes of `out`.
pub fn write_delimited(out: &mut Vec<u8>, body: &[u8])
    ensures
        final(out)@ == old(out)@ + encoded_delimited(body@),
{
    write_varint(out, body.len() as u64);
    out.extend_from_slice(body);
    assert(out@ == old(out)@ + encoded_delimited(body@));
}

/// An integer that is written and read again within the bytes that it
/// may take is the same integer, whatever follows it.
pub proof fn lemma_varint_within_round_trip(value: nat, budget: nat, rest: Seq<u8>)
    requires
        1 <= budget <= 10,
        value < varint_bound(budget),
    ensures
        varint_within(encoded_varint(value) + rest, budget) == Some(
            (value, encoded_varint(value).len()),
        ),
    decreases budget,
{
    let bytes = encoded_varint(value) + rest;
    if value < 0x80 {
        assert(bytes[0] == value as u8);
    } else {
        let tail = encoded_varint(value / 0x80);
        assert(bytes[0] == (value % 0x80 + 0x80) as u8);
        assert(bytes.skip(1) == tail + rest);
        lemma_varint_within_round_trip(value / 0x80, (budget - 1) as nat, rest);
    }
}

/// An integer of 64 bits that is written and read again is the same
/// integer, whatever follows it.
pub proof fn lemma_varint_round_trip(value: nat, rest: Seq<u8>)
    requires
        value <= u64::MAX,
    ensures
        varint(encoded_varint(value) + rest) == Some((value, encoded_varint(value).len())),
        (encoded_varint(value) + rest).skip(encoded_varint(value).len() as int) == rest,
{
    lemma_varint_bound(10);
    lemma_varint_within_round_trip(value, 10, rest);
    assert((encoded_varint(value) + rest).skip(encoded_varint(value).len() as int) == rest);
}

/// The head of a field that is written and read again is the same head,
/// whatever follows it.
pub proof fn lemma_key_round_trip(head: Key, rest: Seq<u8>)
    requires
        1 <= head.tag <= 0x1fff_ffff,
    ensures
        key(encoded_key(head) + rest) == Some((head, encoded_key(head).len())),
        (encoded_key(head) + rest).skip(encoded_key(head).len() as int) == rest,
        1 <= encoded_key(head).len(),
{
    let value = head.tag as nat * 8 + wire_number(head.wire);
    lemma_varint_round_trip(value, rest);
    lemma_varint(encoded_key(head) + rest);
    assert(value % 8 == wire_number(head.wire));
    assert(value / 8 == head.tag);
    assert(wire_of(wire_number(head.wire)) == head.wire);
}

/// A length-delimited body that is written and read again is the same
/// body, whatever follows it.
pub proof fn lemma_delimited_round_trip(body: Seq<u8>, rest: Seq<u8>)
    requires
        body.len() <= u64::MAX,
    ensures
        delimited(encoded_delimited(body) + rest) == Some((body, encoded_delimited(body).len())),
        (encoded_delimited(body) + rest).skip(encoded_delimited(body).len() as int) == rest,
{
    let prefix = encoded_varint(body.len());
    let bytes = encoded_delimited(body) + rest;
    assert(bytes == prefix + (body + rest));
    lemma_varint_round_trip(body.len(), body + rest);
    assert(bytes.subrange(prefix.len() as int, (prefix.len() + body.len()) as int) == body);
    assert(bytes.skip(encoded_delimited(body).len() as int) == rest);
}

} // verus!
