//! Messages emitted by addressable entities during execution, and their checksums.

use vstd::prelude::*;
use vstd::string::*;
use vstd::utf8::*;
use crate::bytesrepr::{
    field_bytes, read_field, read_raw, read_u32, read_u64, starts_with_field, string_from_utf8,
    to_array32, u32_le_bytes, u64_le_bytes, write_field, write_raw, write_u32, write_u64,
    BytesReprError,
};
use crate::crypto::{blake2b, blake2b_256};
use crate::hex::{accepted_checksummed, decode_checksummed, encode_lower, hex_decoded, hex_lower};

verus! {

/// The length of a message checksum, in bytes.
pub const MESSAGE_CHECKSUM_LENGTH: usize = 32;

/// Tag of a payload that holds a human-readable string.
pub const MESSAGE_PAYLOAD_STRING_TAG: u8 = 0;

/// Tag of a payload that holds raw bytes.
pub const MESSAGE_PAYLOAD_BYTES_TAG: u8 = 1;

/// The text in front of a formatted checksum.
pub open spec fn checksum_prefix() -> Seq<char> {
    "message-checksum-"@
}

/// The bytes of `checksum_prefix`.
pub open spec fn checksum_prefix_bytes() -> Seq<u8> {
    seq![109u8, 101u8, 115u8, 115u8, 97u8, 103u8, 101u8, 45u8, 99u8, 104u8, 101u8, 99u8, 107u8, 115u8, 117u8, 109u8, 45u8]
}

/// Why a formatted checksum could not be read.
#[derive(Debug, Clone, Copy, PartialEq, Eq, Structural)]
pub enum FromStrError {
    /// The text does not start with the checksum prefix.
    InvalidPrefix,
    /// What follows the prefix is not base-16 text.
    Hex,
    /// What follows the prefix does not stand for 32 bytes.
    Length,
}

/// The hash of a message that was emitted.
#[derive(Default, PartialOrd, Ord, PartialEq, Eq, Clone, Copy, Debug, Hash)]
pub struct MessageChecksum(pub [u8; 32]);

impl MessageChecksum {
    /// The bytes of the checksum.
    pub fn value(&self) -> (r: [u8; 32])
        ensures
            r == self.0,
    {
        self.0
    }

    /// The checksum as text: the prefix, then its bytes in lower-case base 16.
    pub fn to_formatted_string(self) -> (r: String)
        ensures
            r@ == checksum_prefix() + hex_lower(self.0@),
    {
        let digits = encode_lower(self.0.as_slice());
        let mut s = String::from_str("message-checksum-");
        s.append(digits.as_str());
        s
    }

    /// Reads a checksum written as by `to_formatted_string`. The digits may be all lower case,
    /// all upper case, or of mixed case that carries the checksum of `decode_checksummed`.
    pub fn from_formatted_str(input: &str) -> (r: Result<Self, FromStrError>)
        ensures
            ({
                let b = input.spec_bytes();
                let digits = b.subrange(17, b.len() as int);
                &&& (b.len() < 17 || b.subrange(0, 17) != checksum_prefix_bytes())
                    ==> r == Err::<Self, FromStrError>(FromStrError::InvalidPrefix)
                &&& (b.len() >= 17 && b.subrange(0, 17) == checksum_prefix_bytes() && !accepted_checksummed(digits))
                    ==> r == Err::<Self, FromStrError>(FromStrError::Hex)
                &&& (b.len() >= 17 && b.subrange(0, 17) == checksum_prefix_bytes() && accepted_checksummed(digits)
                    && digits.len() != 64) ==> r == Err::<Self, FromStrError>(FromStrError::Length)
                &&& (b.len() == 81 && b.subrange(0, 17) == checksum_prefix_bytes() && accepted_checksummed(digits))
                    ==> (r matches Ok(c) && c.0@ == hex_decoded(digits))
            }),
    {
        let bytes = input.as_bytes();
        if bytes.len() < 17 {
            return Err(FromStrError::InvalidPrefix);
        }
        let (head, digits) = bytes.split_at(17);
        let mut i: usize = 0;
        while i < 17
            invariant
                0 <= i <= 17,
                head@.len() == 17,
                bytes@.len() >= 17,
                head@ == bytes@.subrange(0, 17),
                digits@ == bytes@.subrange(17, bytes@.len() as int),
                bytes@ == input.spec_bytes(),
                forall|j: int| 0 <= j < i ==> head@[j] == checksum_prefix_bytes()[j],
            decreases 17 - i,
        {
            let expected: u8 = if i < 7 {
                if i == 0 { 109 } else if i == 1 { 101 } else if i == 2 { 115 } else if i == 3 { 115 }
                else if i == 4 { 97 } else if i == 5 { 103 } else { 101 }
            } else if i < 12 {
                if i == 7 { 45 } else if i == 8 { 99 } else if i == 9 { 104 } else if i == 10 { 101 } else { 99 }
            } else {
                if i == 12 { 107 } else if i == 13 { 115 } else if i == 14 { 117 } else if i == 15 { 109 } else { 45 }
            };
            assert(expected == checksum_prefix_bytes()[i as int]);
            if head[i] != expected {
                return Err(FromStrError::InvalidPrefix);
            }
            i = i + 1;
        }
        proof {
            assert(head@ =~= checksum_prefix_bytes());
        }
        let decoded = match decode_checksummed(digits) {
            Some(d) => d,
            None => return Err(FromStrError::Hex),
        };
        if decoded.len() != 32 {
            return Err(FromStrError::Length);
        }
        Ok(MessageChecksum(to_array32(decoded.as_slice())))
    }

    /// The encoding of the checksum: its bytes.
    pub fn to_bytes(&self) -> (r: Result<Vec<u8>, BytesReprError>)
        ensures
            r matches Ok(b) && b@ == self.0@,
    {
        let mut out: Vec<u8> = Vec::new();
        write_raw(&mut out, self.0.as_slice());
        Ok(out)
    }

    pub fn serialized_length(&self) -> (r: usize)
        ensures
            r == 32,
    {
        MESSAGE_CHECKSUM_LENGTH
    }

    /// Decodes a checksum from the front of `bytes`; returns it and what follows it.
    pub fn from_bytes(bytes: &[u8]) -> (r: Result<(Self, &[u8]), BytesReprError>)
        ensures
            bytes@.len() < 32 ==> r == Err::<(Self, &[u8]), BytesReprError>(BytesReprError::EarlyEndOfStream),
            bytes@.len() >= 32 ==> (r matches Ok((c, rest)) && bytes@ == c.0@ + rest@),
    {
        match read_raw(bytes, 32) {
            Ok((b, rest)) => {
                let c = MessageChecksum(to_array32(b));
                proof {
                    assert(bytes@ =~= c.0@ + rest@);
                }
                Ok((c, rest))
            },
            Err(e) => Err(e),
        }
    }
}

/// The payload of a message.
#[derive(Clone, Eq, PartialEq, Debug)]
pub enum MessagePayload {
    /// A human-readable string.
    String(String),
    /// Raw bytes.
    Bytes(Vec<u8>),
}

/// The bytes that a payload carries: the UTF-8 of a string, or the raw bytes.
pub open spec fn payload_content(p: MessagePayload) -> Seq<u8> {
    match p {
        MessagePayload::String(s) => encode_utf8(s@),
        MessagePayload::Bytes(b) => b@,
    }
}

/// The encoding of a payload: its tag, then its content as a byte field.
pub open spec fn payload_encoding(p: MessagePayload) -> Seq<u8> {
    match p {
        MessagePayload::String(_) => seq![MESSAGE_PAYLOAD_STRING_TAG] + field_bytes(payload_content(p)),
        MessagePayload::Bytes(_) => seq![MESSAGE_PAYLOAD_BYTES_TAG] + field_bytes(payload_content(p)),
    }
}

/// `bytes` is the encoding of `p`, whose string, if it holds one, is valid UTF-8, followed by
/// `rest`.
pub open spec fn encodes_payload(bytes: Seq<u8>, p: MessagePayload, rest: Seq<u8>) -> bool {
    &&& bytes == payload_encoding(p) + rest
    &&& payload_content(p).len() + 5 <= u32::MAX
    &&& (p is String ==> valid_utf8(payload_content(p)))
}

/// Two payloads of the same kind with the same content.
pub open spec fn same_payload(a: MessagePayload, b: MessagePayload) -> bool {
    &&& (a is String <==> b is String)
    &&& payload_content(a) == payload_content(b)
}

impl From<String> for MessagePayload {
    fn from(value: String) -> (r: Self) {
        MessagePayload::String(value)
    }
}

impl vstd::std_specs::convert::FromSpecImpl<String> for MessagePayload {
    open spec fn obeys_from_spec() -> bool {
        true
    }

    open spec fn from_spec(value: String) -> Self {
        MessagePayload::String(value)
    }
}

impl From<Vec<u8>> for MessagePayload {
    fn from(bytes: Vec<u8>) -> (r: Self) {
        MessagePayload::Bytes(bytes)
    }
}

impl vstd::std_specs::convert::FromSpecImpl<Vec<u8>> for MessagePayload {
    open spec fn obeys_from_spec() -> bool {
        true
    }

    open spec fn from_spec(bytes: Vec<u8>) -> Self {
        MessagePayload::Bytes(bytes)
    }
}

impl MessagePayload {
    /// The bytes that the payload carries.
    pub fn content(&self) -> (r: &[u8])
        ensures
            r@ == payload_content(*self),
    {
        match self {
            MessagePayload::String(s) => s.as_str().as_bytes(),
            MessagePayload::Bytes(b) => b.as_slice(),
        }
    }

    /// The length of the encoding.
    pub fn serialized_length(&self) -> (r: usize)
        requires
            payload_content(*self).len() + 5 <= usize::MAX,
        ensures
            r == payload_encoding(*self).len(),
    {
        1 + 4 + self.content().len()
    }

    /// The encoding of the payload; fails if it would be longer than allowed.
    pub fn to_bytes(&self) -> (r: Result<Vec<u8>, BytesReprError>)
        ensures
            payload_content(*self).len() + 5 > u32::MAX ==> r == Err::<Vec<u8>, BytesReprError>(BytesReprError::OutOfMemory),
            payload_content(*self).len() + 5 <= u32::MAX ==> (r matches Ok(b) && b@ == payload_encoding(*self)),
    {
        let content = self.content();
        if content.len() > 0xffff_fffa {
            return Err(BytesReprError::OutOfMemory);
        }
        let mut out: Vec<u8> = Vec::new();
        match self {
            MessagePayload::String(_) => out.push(MESSAGE_PAYLOAD_STRING_TAG),
            MessagePayload::Bytes(_) => out.push(MESSAGE_PAYLOAD_BYTES_TAG),
        }
        write_field(&mut out, content);
        proof {
            assert(out@ =~= payload_encoding(*self));
        }
        Ok(out)
    }

    /// Decodes a payload from the front of `bytes`; returns it and what follows it.
    pub fn from_bytes(bytes: &[u8]) -> (r: Result<(Self, &[u8]), BytesReprError>)
        ensures
            bytes@.len() == 0 ==> r == Err::<(Self, &[u8]), BytesReprError>(BytesReprError::EarlyEndOfStream),
            bytes@.len() > 0 && bytes@[0] != MESSAGE_PAYLOAD_STRING_TAG && bytes@[0] != MESSAGE_PAYLOAD_BYTES_TAG
                ==> r == Err::<(Self, &[u8]), BytesReprError>(BytesReprError::Formatting),
            bytes@.len() > 0 && (bytes@[0] == MESSAGE_PAYLOAD_STRING_TAG || bytes@[0] == MESSAGE_PAYLOAD_BYTES_TAG)
                && !starts_with_field(bytes@.drop_first())
                ==> r == Err::<(Self, &[u8]), BytesReprError>(BytesReprError::EarlyEndOfStream),
            r matches Ok((p, rest)) ==> bytes@ == payload_encoding(p) + rest@
                && payload_content(p).len() <= u32::MAX,
            r is Err ==> !exists|p: MessagePayload, rest: Seq<u8>| #[trigger] encodes_payload(bytes@, p, rest),
    {
        if bytes.len() == 0 {
            proof {
                assert forall|p: MessagePayload, rest: Seq<u8>| !#[trigger] encodes_payload(bytes@, p, rest) by {
                    assert((payload_encoding(p) + rest).len() > 0);
                }
            }
            return Err(BytesReprError::EarlyEndOfStream);
        }
        let tag = bytes[0];
        let (_, after_tag) = bytes.split_at(1);
        if tag != MESSAGE_PAYLOAD_STRING_TAG && tag != MESSAGE_PAYLOAD_BYTES_TAG {
            proof {
                assert forall|p: MessagePayload, rest: Seq<u8>| !#[trigger] encodes_payload(bytes@, p, rest) by {
                    if bytes@ == payload_encoding(p) + rest {
                        assert(bytes@[0] == payload_encoding(p)[0]);
                    }
                }
            }
            return Err(BytesReprError::Formatting);
        }
        proof {
            assert(after_tag@ == bytes@.drop_first());
        }
        let (content, rest) = match read_field(after_tag) {
            Ok(v) => v,
            Err(e) => {
                proof {
                    assert forall|p: MessagePayload, rest: Seq<u8>| !#[trigger] encodes_payload(bytes@, p, rest) by {
                        if bytes@ == payload_encoding(p) + rest {
                            let c = payload_content(p);
                            assert(after_tag@ == field_bytes(c) + rest);
                            assert(after_tag@.subrange(0, 4) == u32_le_bytes(c.len() as u32));
                            crate::bytesrepr::lemma_u32_from_le_bytes(after_tag@);
                            crate::bytesrepr::lemma_u32_le_bytes_injective(
                                crate::bytesrepr::u32_from_le(after_tag@),
                                c.len() as u32,
                            );
                        }
                    }
                }
                return Err(e);
            },
        };
        let mut raw: Vec<u8> = Vec::new();
        write_raw(&mut raw, content);
        proof {
            assert(raw@ =~= content@);
        }
        let payload = if tag == MESSAGE_PAYLOAD_STRING_TAG {
            match string_from_utf8(raw) {
                Some(s) => MessagePayload::String(s),
                None => {
                    proof {
                        assert forall|p: MessagePayload, r2: Seq<u8>| !#[trigger] encodes_payload(bytes@, p, r2) by {
                            if encodes_payload(bytes@, p, r2) {
                            let c = payload_content(p);
                            assert(bytes@[0] == payload_encoding(p)[0]);
                            assert(after_tag@ =~= field_bytes(c) + r2);
                            crate::bytesrepr::lemma_field_prefix_unique(after_tag@, content@, rest@, c, r2);
                            }
                        }
                    }
                    return Err(BytesReprError::Formatting);
                },
            }
        } else {
            MessagePayload::Bytes(raw)
        };
        proof {
            assert(bytes@ =~= seq![tag] + after_tag@);
            assert(payload_content(payload) == content@);
            assert(bytes@ =~= payload_encoding(payload) + rest@);
        }
        Ok((payload, rest))
    }
}

/// The address of an addressable entity: its kind and its 32-byte hash.
#[derive(Debug, Clone, Copy, PartialEq, Eq, PartialOrd, Ord, Hash)]
pub enum EntityAddr {
    System([u8; 32]),
    Account([u8; 32]),
    SmartContract([u8; 32]),
}

/// The encoding of an entity address: a tag for its kind, then its hash.
pub open spec fn entity_addr_encoding(a: EntityAddr) -> Seq<u8> {
    match a {
        EntityAddr::System(h) => seq![0u8] + h@,
        EntityAddr::Account(h) => seq![1u8] + h@,
        EntityAddr::SmartContract(h) => seq![2u8] + h@,
    }
}

impl EntityAddr {
    /// The encoding of the address.
    pub fn to_bytes(&self) -> (r: Vec<u8>)
        ensures
            r@ == entity_addr_encoding(*self),
    {
        let mut out: Vec<u8> = Vec::new();
        match self {
            EntityAddr::System(h) => {
                out.push(0u8);
                write_raw(&mut out, h.as_slice());
            },
            EntityAddr::Account(h) => {
                out.push(1u8);
                write_raw(&mut out, h.as_slice());
            },
            EntityAddr::SmartContract(h) => {
                out.push(2u8);
                write_raw(&mut out, h.as_slice());
            },
        }
        proof {
            assert(out@ =~= entity_addr_encoding(*self));
        }
        out
    }

    /// Decodes an address from the front of `bytes`; returns it and what follows it.
    pub fn from_bytes(bytes: &[u8]) -> (r: Result<(Self, &[u8]), BytesReprError>)
        ensures
            bytes@.len() < 33 ==> r == Err::<(Self, &[u8]), BytesReprError>(BytesReprError::EarlyEndOfStream),
            bytes@.len() >= 33 && bytes@[0] > 2 ==> r == Err::<(Self, &[u8]), BytesReprError>(BytesReprError::Formatting),
            bytes@.len() >= 33 && bytes@[0] <= 2 ==> (r matches Ok((a, rest))
                && bytes@ == entity_addr_encoding(a) + rest@),
    {
        if bytes.len() < 33 {
            return Err(BytesReprError::EarlyEndOfStream);
        }
        let tag = bytes[0];
        let (_, after_tag) = bytes.split_at(1);
        let (h, rest) = bytes.split_at(1).1.split_at(32);
        let hash = to_array32(h);
        let a = if tag == 0 {
            EntityAddr::System(hash)
        } else if tag == 1 {
            EntityAddr::Account(hash)
        } else if tag == 2 {
            EntityAddr::SmartContract(hash)
        } else {
            return Err(BytesReprError::Formatting);
        };
        proof {
            assert(after_tag@ =~= bytes@.drop_first());
            assert(bytes@ =~= entity_addr_encoding(a) + rest@);
        }
        Ok((a, rest))
    }
}

/// The hash of the name of a message topic.
#[derive(Debug, Clone, Copy, PartialEq, Eq, PartialOrd, Ord, Hash, Default)]
pub struct TopicNameHash(pub [u8; 32]);

/// The address of a message record, or, without an index, of a topic record.
#[derive(Debug, Clone, Copy, PartialEq, Eq, PartialOrd, Ord, Hash)]
pub struct MessageAddr {
    /// The entity that emitted the messages.
    pub entity_addr: EntityAddr,
    /// The hash of the topic's name.
    pub topic_name_hash: TopicNameHash,
    /// The index of the message in the topic; none for the topic itself.
    pub message_index: Option<u32>,
}

/// A key under which a record is stored in global state.
#[derive(Debug, Clone, Copy, PartialEq, Eq, PartialOrd, Ord, Hash)]
pub enum Key {
    /// The key of a message record or of a message topic record.
    Message(MessageAddr),
}

impl Key {
    /// The key of the record of message `index` of a topic.
    pub fn message(entity_addr: EntityAddr, topic_name_hash: TopicNameHash, index: u32) -> (r: Key)
        ensures
            r == Key::Message(MessageAddr { entity_addr, topic_name_hash, message_index: Some(index) }),
    {
        Key::Message(MessageAddr { entity_addr, topic_name_hash, message_index: Some(index) })
    }

    /// The key of the record of a topic.
    pub fn message_topic(entity_addr: EntityAddr, topic_name_hash: TopicNameHash) -> (r: Key)
        ensures
            r == Key::Message(MessageAddr { entity_addr, topic_name_hash, message_index: None }),
    {
        Key::Message(MessageAddr { entity_addr, topic_name_hash, message_index: None })
    }
}

/// A message emitted by an addressable entity during execution.
#[derive(Clone, Eq, PartialEq, Debug)]
pub struct Message {
    /// The entity that emitted the message.
    entity_hash: EntityAddr,
    /// The payload of the message.
    message: MessagePayload,
    /// The name of the topic the message was emitted on.
    topic_name: String,
    /// The hash of the name of the topic.
    topic_name_hash: TopicNameHash,
    /// The index of the message in the topic.
    topic_index: u32,
    /// The index of the message among those emitted in the block.
    block_index: u64,
}

/// A byte sequence starts with at most one payload encoding.
pub proof fn lemma_payload_encoding_unique(pa: MessagePayload, r1: Seq<u8>, pb: MessagePayload, r2: Seq<u8>)
    requires
        payload_encoding(pa) + r1 == payload_encoding(pb) + r2,
        payload_content(pa).len() <= u32::MAX,
        payload_content(pb).len() <= u32::MAX,
    ensures
        same_payload(pa, pb),
        r1 == r2,
{
    let s = payload_encoding(pa) + r1;
    assert(s[0] == payload_encoding(pa)[0]);
    assert(s[0] == payload_encoding(pb)[0]);
    assert(s.drop_first() =~= field_bytes(payload_content(pa)) + r1);
    assert(s.drop_first() =~= field_bytes(payload_content(pb)) + r2);
    crate::bytesrepr::lemma_field_prefix_unique(s.drop_first(), payload_content(pa), r1, payload_content(pb), r2);
}

/// Strings with the same UTF-8 are the same.
proof fn lemma_utf8_encoding_injective(a: Seq<char>, b: Seq<char>)
    requires
        encode_utf8(a) == encode_utf8(b),
    ensures
        a == b,
{
    encode_utf8_decode_utf8(a);
    encode_utf8_decode_utf8(b);
}

/// A byte sequence starts with at most one entity address encoding.
pub proof fn lemma_entity_addr_encoding_unique(a1: EntityAddr, r1: Seq<u8>, a2: EntityAddr, r2: Seq<u8>)
    requires
        entity_addr_encoding(a1) + r1 == entity_addr_encoding(a2) + r2,
    ensures
        a1 == a2,
        r1 == r2,
{
    let s = entity_addr_encoding(a1) + r1;
    assert(s[0] == entity_addr_encoding(a1)[0]);
    assert(s[0] == entity_addr_encoding(a2)[0]);
    assert(r1 =~= s.subrange(33, s.len() as int));
    assert(r2 =~= s.subrange(33, s.len() as int));
    match (a1, a2) {
        (EntityAddr::System(h1), EntityAddr::System(h2)) => {
            assert(h1@ =~= s.subrange(1, 33));
            assert(h2@ =~= s.subrange(1, 33));
            assert(h1 =~= h2);
        },
        (EntityAddr::Account(h1), EntityAddr::Account(h2)) => {
            assert(h1@ =~= s.subrange(1, 33));
            assert(h2@ =~= s.subrange(1, 33));
            assert(h1 =~= h2);
        },
        (EntityAddr::SmartContract(h1), EntityAddr::SmartContract(h2)) => {
            assert(h1@ =~= s.subrange(1, 33));
            assert(h2@ =~= s.subrange(1, 33));
            assert(h1 =~= h2);
        },
        _ => {},
    }
}

/// The bytes from which a message's checksum is computed: its block index, then the
/// encoding of its payload.
pub open spec fn checksum_input_bytes(block_index: u64, payload: MessagePayload) -> Seq<u8> {
    u64_le_bytes(block_index) + payload_encoding(payload)
}

/// The encoding of a message: its entity address, payload, topic name, topic name hash, topic
/// index and block index, in that order.
pub open spec fn message_encoding(m: Message) -> Seq<u8> {
    entity_addr_encoding(m.spec_entity_hash()) + payload_encoding(m.spec_payload()) + field_bytes(
        encode_utf8(m.spec_topic_name()@),
    ) + m.spec_topic_name_hash().0@ + u32_le_bytes(m.spec_topic_index()) + u64_le_bytes(m.spec_block_index())
}

/// The fields of `m` fit their length prefixes and the largest encoding allowed.
pub open spec fn message_encodable(m: Message) -> bool {
    payload_content(m.spec_payload()).len() + encode_utf8(m.spec_topic_name()@).len() + 86 <= u32::MAX
}

/// `bytes` is the encoding of `m` followed by `rest`.
pub open spec fn encodes_message(bytes: Seq<u8>, m: Message, rest: Seq<u8>) -> bool {
    &&& bytes == message_encoding(m) + rest
    &&& message_encodable(m)
}

/// `a` and `b` hold the same values.
pub open spec fn same_message(a: Message, b: Message) -> bool {
    &&& a.spec_entity_hash() == b.spec_entity_hash()
    &&& same_payload(a.spec_payload(), b.spec_payload())
    &&& a.spec_topic_name()@ == b.spec_topic_name()@
    &&& a.spec_topic_name_hash() == b.spec_topic_name_hash()
    &&& a.spec_topic_index() == b.spec_topic_index()
    &&& a.spec_block_index() == b.spec_block_index()
}

/// What follows the topic name in the encoding of `m`, and then `rest`.
pub open spec fn after_name(m: Message, rest: Seq<u8>) -> Seq<u8> {
    m.spec_topic_name_hash().0@ + (u32_le_bytes(m.spec_topic_index()) + (u64_le_bytes(m.spec_block_index()) + rest))
}

/// What follows the payload in the encoding of `m`, and then `rest`.
pub open spec fn after_payload(m: Message, rest: Seq<u8>) -> Seq<u8> {
    field_bytes(encode_utf8(m.spec_topic_name()@)) + after_name(m, rest)
}

/// What follows the entity address in the encoding of `m`, and then `rest`.
pub open spec fn after_entity(m: Message, rest: Seq<u8>) -> Seq<u8> {
    payload_encoding(m.spec_payload()) + after_payload(m, rest)
}

/// The encoding of `m` splits at each field.
pub proof fn lemma_message_encoding_parts(m: Message, rest: Seq<u8>)
    ensures
        message_encoding(m) + rest == entity_addr_encoding(m.spec_entity_hash()) + after_entity(m, rest),
{
    assert(message_encoding(m) + rest =~= entity_addr_encoding(m.spec_entity_hash()) + after_entity(m, rest));
}

proof fn lemma_payload_part_encodes(m: Message, rest: Seq<u8>)
    requires
        message_encodable(m),
    ensures
        encodes_payload(after_entity(m, rest), m.spec_payload(), after_payload(m, rest)),
{
    let p = m.spec_payload();
    if let MessagePayload::String(s) = p {
        encode_utf8_valid_utf8(s@);
    }
}

proof fn lemma_field_part_starts(s: Seq<u8>, c: Seq<u8>, rest: Seq<u8>)
    requires
        s == field_bytes(c) + rest,
        c.len() <= u32::MAX,
    ensures
        starts_with_field(s),
{
    assert(s.subrange(0, 4) =~= u32_le_bytes(c.len() as u32));
    crate::bytesrepr::lemma_u32_from_le_bytes(s);
    crate::bytesrepr::lemma_u32_le_bytes_injective(crate::bytesrepr::u32_from_le(s), c.len() as u32);
}

proof fn lemma_tail_unique(m1: Message, r1: Seq<u8>, m2: Message, r2: Seq<u8>)
    requires
        after_name(m1, r1) == after_name(m2, r2),
    ensures
        m1.spec_topic_name_hash() == m2.spec_topic_name_hash(),
        m1.spec_topic_index() == m2.spec_topic_index(),
        m1.spec_block_index() == m2.spec_block_index(),
        r1 == r2,
{
    let s = after_name(m1, r1);
    let (h1, h2) = (m1.spec_topic_name_hash().0, m2.spec_topic_name_hash().0);
    assert(h1@ =~= s.subrange(0, 32));
    assert(h2@ =~= s.subrange(0, 32));
    assert(h1 =~= h2);
    assert(u32_le_bytes(m1.spec_topic_index()) =~= s.subrange(32, 36));
    assert(u32_le_bytes(m2.spec_topic_index()) =~= s.subrange(32, 36));
    crate::bytesrepr::lemma_u32_le_bytes_injective(m1.spec_topic_index(), m2.spec_topic_index());
    assert(u64_le_bytes(m1.spec_block_index()) =~= s.subrange(36, 44));
    assert(u64_le_bytes(m2.spec_block_index()) =~= s.subrange(36, 44));
    crate::bytesrepr::lemma_u64_le_bytes_injective(m1.spec_block_index(), m2.spec_block_index());
    assert(r1 =~= s.subrange(44, s.len() as int));
    assert(r2 =~= s.subrange(44, s.len() as int));
}

impl Message {
    pub closed spec fn spec_entity_hash(&self) -> EntityAddr {
        self.entity_hash
    }

    pub closed spec fn spec_payload(&self) -> MessagePayload {
        self.message
    }

    pub closed spec fn spec_topic_name(&self) -> String {
        self.topic_name
    }

    pub closed spec fn spec_topic_name_hash(&self) -> TopicNameHash {
        self.topic_name_hash
    }

    pub closed spec fn spec_topic_index(&self) -> u32 {
        self.topic_index
    }

    pub closed spec fn spec_block_index(&self) -> u64 {
        self.block_index
    }

    pub fn new(
        source: EntityAddr,
        message: MessagePayload,
        topic_name: String,
        topic_name_hash: TopicNameHash,
        topic_index: u32,
        block_index: u64,
    ) -> (r: Self)
        ensures
            r.spec_entity_hash() == source,
            r.spec_payload() == message,
            r.spec_topic_name() == topic_name,
            r.spec_topic_name_hash() == topic_name_hash,
            r.spec_topic_index() == topic_index,
            r.spec_block_index() == block_index,
    {
        Message { entity_hash: source, message, topic_name, topic_name_hash, topic_index, block_index }
    }

    /// The entity that emitted the message.
    pub fn entity_hash(&self) -> (r: &EntityAddr)
        ensures
            *r == self.spec_entity_hash(),
    {
        &self.entity_hash
    }

    /// The payload of the message.
    pub fn payload(&self) -> (r: &MessagePayload)
        ensures
            *r == self.spec_payload(),
    {
        &self.message
    }

    /// The name of the topic the message was emitted on.
    pub fn topic_name(&self) -> (r: &String)
        ensures
            *r == self.spec_topic_name(),
    {
        &self.topic_name
    }

    /// The hash of the name of the topic.
    pub fn topic_name_hash(&self) -> (r: &TopicNameHash)
        ensures
            *r == self.spec_topic_name_hash(),
    {
        &self.topic_name_hash
    }

    /// The index of the message in the topic.
    pub fn topic_index(&self) -> (r: u32)
        ensures
            r == self.spec_topic_index(),
    {
        self.topic_index
    }

    /// The index of the message among those emitted in the block.
    pub fn block_index(&self) -> (r: u64)
        ensures
            r == self.spec_block_index(),
    {
        self.block_index
    }

    /// The key of the record that holds the message's checksum.
    pub fn message_key(&self) -> (r: Key)
        ensures
            r == Key::Message(MessageAddr {
                entity_addr: self.spec_entity_hash(),
                topic_name_hash: self.spec_topic_name_hash(),
                message_index: Some(self.spec_topic_index()),
            }),
    {
        Key::message(self.entity_hash, self.topic_name_hash, self.topic_index)
    }

    /// The key of the record of the message's topic.
    pub fn topic_key(&self) -> (r: Key)
        ensures
            r == Key::Message(MessageAddr {
                entity_addr: self.spec_entity_hash(),
                topic_name_hash: self.spec_topic_name_hash(),
                message_index: None,
            }),
    {
        Key::message_topic(self.entity_hash, self.topic_name_hash)
    }

    /// The bytes that the checksum is computed from; fails if they would be longer than
    /// allowed.
    pub fn checksum_input(&self) -> (r: Result<Vec<u8>, BytesReprError>)
        ensures
            payload_content(self.spec_payload()).len() + 13 > u32::MAX
                ==> r == Err::<Vec<u8>, BytesReprError>(BytesReprError::OutOfMemory),
            payload_content(self.spec_payload()).len() + 13 <= u32::MAX
                ==> (r matches Ok(b) && b@ == checksum_input_bytes(self.spec_block_index(), self.spec_payload())),
    {
        if self.message.content().len() > 0xffff_fff2 {
            return Err(BytesReprError::OutOfMemory);
        }
        let mut out: Vec<u8> = Vec::new();
        write_u64(&mut out, self.block_index);
        let payload_bytes = match self.message.to_bytes() {
            Ok(b) => b,
            Err(e) => return Err(e),
        };
        write_raw(&mut out, payload_bytes.as_slice());
        Ok(out)
    }

    /// The checksum of the message: the BLAKE2b digest of its checksum input.
    pub fn checksum(&self) -> (r: Result<MessageChecksum, BytesReprError>)
        ensures
            payload_content(self.spec_payload()).len() + 13 > u32::MAX
                ==> r == Err::<MessageChecksum, BytesReprError>(BytesReprError::OutOfMemory),
            payload_content(self.spec_payload()).len() + 13 <= u32::MAX
                ==> (r matches Ok(c) && c.0@ == blake2b_256(checksum_input_bytes(self.spec_block_index(), self.spec_payload()))),
    {
        let input = match self.checksum_input() {
            Ok(b) => b,
            Err(e) => return Err(e),
        };
        Ok(MessageChecksum(blake2b(input.as_slice())))
    }

    /// The length of the encoding of the message.
    pub fn serialized_length(&self) -> (r: usize)
        requires
            payload_content(self.spec_payload()).len() + encode_utf8(self.spec_topic_name()@).len() + 86 <= usize::MAX,
        ensures
            r == message_encoding(*self).len(),
    {
        self.message.content().len() + self.topic_name.as_str().as_bytes().len() + 86
    }

    /// The encoding of the message; fails if it would be longer than allowed.
    pub fn to_bytes(&self) -> (r: Result<Vec<u8>, BytesReprError>)
        ensures
            !message_encodable(*self) ==> r == Err::<Vec<u8>, BytesReprError>(BytesReprError::OutOfMemory),
            message_encodable(*self) ==> (r matches Ok(b) && b@ == message_encoding(*self)),
    {
        let payload_len = self.message.content().len();
        let name = self.topic_name.as_str().as_bytes();
        if payload_len > 0xffff_ffff - 86 || name.len() > 0xffff_ffff - 86 - payload_len {
            return Err(BytesReprError::OutOfMemory);
        }
        let mut out = self.entity_hash.to_bytes();
        let payload_bytes = match self.message.to_bytes() {
            Ok(b) => b,
            Err(e) => return Err(e),
        };
        write_raw(&mut out, payload_bytes.as_slice());
        write_field(&mut out, name);
        write_raw(&mut out, self.topic_name_hash.0.as_slice());
        write_u32(&mut out, self.topic_index);
        write_u64(&mut out, self.block_index);
        proof {
            assert(out@ =~= message_encoding(*self));
        }
        Ok(out)
    }

    /// Decodes a message from the front of `bytes`; returns it and what follows it. It
    /// succeeds exactly when `bytes` starts with the encoding of a message.
    pub fn from_bytes(bytes: &[u8]) -> (r: Result<(Self, &[u8]), BytesReprError>)
        ensures
            r matches Ok((m, rest)) ==> bytes@ == message_encoding(m) + rest@,
            forall|m: Message, rest: Seq<u8>| #[trigger] encodes_message(bytes@, m, rest)
                ==> (r matches Ok((m2, rest2)) && same_message(m, m2) && rest2@ == rest),
    {
        let (entity_hash, rem1) = match EntityAddr::from_bytes(bytes) {
            Ok(v) => v,
            Err(e) => {
                proof {
                    assert forall|m: Message, rest: Seq<u8>| !#[trigger] encodes_message(bytes@, m, rest) by {
                        if encodes_message(bytes@, m, rest) {
                            lemma_message_encoding_parts(m, rest);
                            assert(bytes@[0] == entity_addr_encoding(m.spec_entity_hash())[0]);
                        }
                    }
                }
                return Err(e);
            },
        };
        proof {
            assert forall|m: Message, rest: Seq<u8>| #[trigger] encodes_message(bytes@, m, rest)
                implies m.spec_entity_hash() == entity_hash && rem1@ == after_entity(m, rest) by {
                lemma_message_encoding_parts(m, rest);
                lemma_entity_addr_encoding_unique(m.spec_entity_hash(), after_entity(m, rest), entity_hash, rem1@);
            }
        }
        let (message, rem2) = match MessagePayload::from_bytes(rem1) {
            Ok(v) => v,
            Err(e) => {
                proof {
                    assert forall|m: Message, rest: Seq<u8>| !#[trigger] encodes_message(bytes@, m, rest) by {
                        if encodes_message(bytes@, m, rest) {
                            lemma_payload_part_encodes(m, rest);
                        }
                    }
                }
                return Err(e);
            },
        };
        proof {
            assert forall|m: Message, rest: Seq<u8>| #[trigger] encodes_message(bytes@, m, rest)
                implies same_payload(m.spec_payload(), message) && rem2@ == after_payload(m, rest) by {
                lemma_payload_encoding_unique(m.spec_payload(), after_payload(m, rest), message, rem2@);
            }
        }
        let (name_bytes, rem3) = match read_field(rem2) {
            Ok(v) => v,
            Err(e) => {
                proof {
                    assert forall|m: Message, rest: Seq<u8>| !#[trigger] encodes_message(bytes@, m, rest) by {
                        if encodes_message(bytes@, m, rest) {
                            lemma_field_part_starts(rem2@, encode_utf8(m.spec_topic_name()@), after_name(m, rest));
                        }
                    }
                }
                return Err(e);
            },
        };
        proof {
            assert forall|m: Message, rest: Seq<u8>| #[trigger] encodes_message(bytes@, m, rest)
                implies encode_utf8(m.spec_topic_name()@) == name_bytes@ && rem3@ == after_name(m, rest) by {
                crate::bytesrepr::lemma_field_prefix_unique(
                    rem2@,
                    encode_utf8(m.spec_topic_name()@),
                    after_name(m, rest),
                    name_bytes@,
                    rem3@,
                );
            }
        }
        let mut raw: Vec<u8> = Vec::new();
        write_raw(&mut raw, name_bytes);
        let topic_name = match string_from_utf8(raw) {
            Some(t) => t,
            None => {
                proof {
                    assert forall|m: Message, rest: Seq<u8>| !#[trigger] encodes_message(bytes@, m, rest) by {
                        if encodes_message(bytes@, m, rest) {
                            encode_utf8_valid_utf8(m.spec_topic_name()@);
                        }
                    }
                }
                return Err(BytesReprError::Formatting);
            },
        };
        let (hash_bytes, rem4) = match read_raw(rem3, 32) {
            Ok(v) => v,
            Err(e) => {
                proof {
                    assert forall|m: Message, rest: Seq<u8>| !#[trigger] encodes_message(bytes@, m, rest) by {
                        if encodes_message(bytes@, m, rest) {
                            assert(after_name(m, rest).len() >= 44);
                        }
                    }
                }
                return Err(e);
            },
        };
        let topic_name_hash = TopicNameHash(to_array32(hash_bytes));
        let (topic_index, rem5) = match read_u32(rem4) {
            Ok(v) => v,
            Err(e) => {
                proof {
                    assert forall|m: Message, rest: Seq<u8>| !#[trigger] encodes_message(bytes@, m, rest) by {
                        if encodes_message(bytes@, m, rest) {
                            assert(after_name(m, rest).len() >= 44);
                        }
                    }
                }
                return Err(e);
            },
        };
        let (block_index, rest) = match read_u64(rem5) {
            Ok(v) => v,
            Err(e) => {
                proof {
                    assert forall|m: Message, r: Seq<u8>| !#[trigger] encodes_message(bytes@, m, r) by {
                        if encodes_message(bytes@, m, r) {
                            assert(after_name(m, r).len() >= 44);
                        }
                    }
                }
                return Err(e);
            },
        };
        let m2 = Message { entity_hash, message, topic_name, topic_name_hash, topic_index, block_index };
        proof {
            assert(rem3@ =~= topic_name_hash.0@ + (u32_le_bytes(topic_index) + (u64_le_bytes(block_index) + rest@)));
            lemma_message_encoding_parts(m2, rest@);
            assert forall|m: Message, r: Seq<u8>| #[trigger] encodes_message(bytes@, m, r)
                implies same_message(m, m2) && rest@ == r by {
                lemma_tail_unique(m, r, m2, rest@);
                lemma_utf8_encoding_injective(m.spec_topic_name()@, topic_name@);
            }
        }
        Ok((m2, rest))
    }
}

} // verus!
