//! The wire format of a patch: an eight-byte little-endian index field
//! followed by a forty-byte payload.
//!
//! Index zero marks a control record, whose payload begins with the object
//! count. Any other index is a slot number plus one, and the payload is the
//! slot's particle: four eight-byte words for position and velocity, three
//! colour bytes, and five bytes of padding.

use vstd::prelude::*;
use vstd::bytes::{
    lemma_auto_spec_u64_to_from_le_bytes, spec_u64_from_le_bytes, spec_u64_to_le_bytes,
};
use vstd::slice::slice_subrange;
use zerocopy::FromBytes;
use zerocopy::byteorder::little_endian::U64;
use crate::object::{lemma_object_ext, Object};

verus! {

/// Width of the index field.
pub const INDEX_LEN: usize = 8;

/// Width of the payload.
pub const PAYLOAD_LEN: usize = 40;

/// Width of a whole record.
pub const RECORD_LEN: usize = 48;

/// One message of the patch protocol.
#[derive(Clone, Copy, Debug, PartialEq, Eq)]
pub enum PatchRecord {
    /// The sender's table holds `count` objects.
    Control { count: u64 },
    /// Slot `slot` of the sender's table holds `obj`.
    Slot { slot: u64, obj: Object },
}

/// Why a message was not accepted.
#[derive(Clone, Copy, Debug, PartialEq, Eq)]
pub enum DecodeError {
    /// The message is `len` bytes long, not one record.
    Length { len: usize },
    /// The announced object count is beyond what this machine can index.
    Count { count: u64 },
}

/// The payload of a slot record.
pub open spec fn object_bytes(obj: Object) -> Seq<u8> {
    spec_u64_to_le_bytes(obj.pos[0]) + spec_u64_to_le_bytes(obj.pos[1]) + spec_u64_to_le_bytes(
        obj.velo[0],
    ) + spec_u64_to_le_bytes(obj.velo[1]) + obj.color@ + seq![0u8, 0u8, 0u8, 0u8, 0u8]
}

/// The bytes of a record.
pub open spec fn record_bytes(record: PatchRecord) -> Seq<u8> {
    match record {
        PatchRecord::Control { count } => spec_u64_to_le_bytes(0) + spec_u64_to_le_bytes(count)
            + Seq::new(32, |i: int| 0u8),
        PatchRecord::Slot { slot, obj } => spec_u64_to_le_bytes((slot + 1) as u64) + object_bytes(
            obj,
        ),
    }
}

/// The little-endian word that begins at offset `at`.
pub open spec fn word_at(bytes: Seq<u8>, at: int) -> u64 {
    spec_u64_from_le_bytes(bytes.subrange(at, at + 8))
}

/// The particle whose payload begins at offset `at`; padding is ignored.
pub open spec fn object_at(bytes: Seq<u8>, at: int) -> Object {
    Object {
        pos: [word_at(bytes, at), word_at(bytes, at + 8)],
        velo: [word_at(bytes, at + 16), word_at(bytes, at + 24)],
        color: [bytes[at + 32], bytes[at + 33], bytes[at + 34]],
    }
}

/// The record that a message of one record's length stands for.
pub open spec fn parse_record(bytes: Seq<u8>) -> PatchRecord {
    if word_at(bytes, 0) == 0 {
        PatchRecord::Control { count: word_at(bytes, 8) }
    } else {
        PatchRecord::Slot { slot: (word_at(bytes, 0) - 1) as u64, obj: object_at(bytes, 8) }
    }
}

/// `zerocopy::byteorder::U64::new` for the little-endian byte order, and the
/// `From` impl that hands out the bytes it stores: the eight bytes of
/// `value`, least significant first.
#[verifier::external_body]
fn word_bytes(value: u64) -> (bytes: [u8; 8])
    ensures
        bytes@ == spec_u64_to_le_bytes(value),
{
    U64::new(value).into()
}

/// `zerocopy::FromBytes::read_from` on the little-endian `U64`, and its
/// `get`: `None` unless `bytes` is exactly eight bytes long, and then the
/// value whose little-endian bytes they are.
#[verifier::external_body]
fn word_value(bytes: &[u8]) -> (value: Option<u64>)
    ensures
        value == if bytes@.len() == 8 {
            Some(spec_u64_from_le_bytes(bytes@))
        } else {
            None
        },
{
    match U64::read_from(bytes) {
        Some(word) => Some(word.get()),
        None => None,
    }
}

/// Appends the little-endian bytes of `value`.
fn push_word(out: &mut Vec<u8>, value: u64)
    ensures
        final(out)@ == old(out)@ + spec_u64_to_le_bytes(value),
{
    let bytes = word_bytes(value);
    out.extend_from_slice(bytes.as_slice());
    assert(out@ =~= old(out)@ + spec_u64_to_le_bytes(value));
}

/// Reads the little-endian word at offset `at`.
fn read_word(bytes: &[u8], at: usize) -> (value: u64)
    requires
        at + 8 <= bytes@.len(),
    ensures
        value == word_at(bytes@, at as int),
{
    assert(bytes@.len() == bytes.len());
    word_value(slice_subrange(bytes, at, at + 8)).unwrap()
}

impl PatchRecord {
    /// The index field can hold the slot number plus one.
    pub open spec fn encodable(&self) -> bool {
        match *self {
            PatchRecord::Control { .. } => true,
            PatchRecord::Slot { slot, .. } => slot < u64::MAX,
        }
    }

    /// The message that carries this record.
    pub fn encode(&self) -> (message: Vec<u8>)
        requires
            self.encodable(),
        ensures
            message@ == record_bytes(*self),
            message@.len() == RECORD_LEN,
    {
        proof {
            lemma_auto_spec_u64_to_from_le_bytes();
        }
        let mut message: Vec<u8> = Vec::with_capacity(RECORD_LEN);
        match self {
            PatchRecord::Control { count } => {
                push_word(&mut message, 0);
                push_word(&mut message, *count);
                let ghost head = message@;
                let mut k: usize = 0;
                while k < 32
                    invariant
                        k <= 32,
                        message@ == head + Seq::new(k as nat, |i: int| 0u8),
                    decreases 32 - k,
                {
                    message.push(0);
                    k += 1;
                    assert(message@ =~= head + Seq::new(k as nat, |i: int| 0u8));
                }
            },
            PatchRecord::Slot { slot, obj } => {
                push_word(&mut message, *slot + 1);
                push_word(&mut message, obj.pos[0]);
                push_word(&mut message, obj.pos[1]);
                push_word(&mut message, obj.velo[0]);
                push_word(&mut message, obj.velo[1]);
                message.push(obj.color[0]);
                message.push(obj.color[1]);
                message.push(obj.color[2]);
                let mut k: usize = 0;
                let ghost head = message@;
                while k < 5
                    invariant
                        k <= 5,
                        message@ == head + Seq::new(k as nat, |i: int| 0u8),
                    decreases 5 - k,
                {
                    message.push(0);
                    k += 1;
                    assert(message@ =~= head + Seq::new(k as nat, |i: int| 0u8));
                }
                assert(message@ =~= record_bytes(*self));
            },
        }
        message
    }

    /// The record that `bytes` carries: any message of one record's length
    /// carries one, and no other message does.
    pub fn decode(bytes: &[u8]) -> (decoded: Result<PatchRecord, DecodeError>)
        ensures
            decoded == if bytes@.len() == RECORD_LEN {
                Ok::<PatchRecord, DecodeError>(parse_record(bytes@))
            } else {
                Err(DecodeError::Length { len: bytes@.len() as usize })
            },
    {
        if bytes.len() != RECORD_LEN {
            return Err(DecodeError::Length { len: bytes.len() });
        }
        let index = read_word(bytes, 0);
        if index == 0 {
            Ok(PatchRecord::Control { count: read_word(bytes, 8) })
        } else {
            let obj = Object {
                pos: [read_word(bytes, 8), read_word(bytes, 16)],
                velo: [read_word(bytes, 24), read_word(bytes, 32)],
                color: [bytes[40], bytes[41], bytes[42]],
            };
            proof {
                lemma_object_ext(obj, object_at(bytes@, 8));
            }
            Ok(PatchRecord::Slot { slot: index - 1, obj })
        }
    }
}

/// Decoding undoes encoding: the message of an encodable record is one
/// record long and carries that record.
pub proof fn lemma_decode_encode(record: PatchRecord)
    requires
        record.encodable(),
    ensures
        record_bytes(record).len() == RECORD_LEN,
        parse_record(record_bytes(record)) == record,
{
    lemma_auto_spec_u64_to_from_le_bytes();
    let bytes = record_bytes(record);
    match record {
        PatchRecord::Control { count } => {
            assert(bytes.subrange(0, 8) =~= spec_u64_to_le_bytes(0));
            assert(bytes.subrange(8, 16) =~= spec_u64_to_le_bytes(count));
        },
        PatchRecord::Slot { slot, obj } => {
            assert(bytes.subrange(0, 8) =~= spec_u64_to_le_bytes((slot + 1) as u64));
            assert(bytes.subrange(8, 16) =~= spec_u64_to_le_bytes(obj.pos[0]));
            assert(bytes.subrange(16, 24) =~= spec_u64_to_le_bytes(obj.pos[1]));
            assert(bytes.subrange(24, 32) =~= spec_u64_to_le_bytes(obj.velo[0]));
            assert(bytes.subrange(32, 40) =~= spec_u64_to_le_bytes(obj.velo[1]));
            assert(bytes[40] == obj.color[0]);
            assert(bytes[41] == obj.color[1]);
            assert(bytes[42] == obj.color[2]);
            lemma_object_ext(object_at(bytes, 8), obj);
        },
    }
}

} // verus!
