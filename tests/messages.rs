use casper_sim::bytesrepr::BytesReprError;
use casper_sim::contract_messages::{
    EntityAddr, FromStrError, Key, Message, MessageAddr, MessageChecksum, MessagePayload,
    TopicNameHash, MESSAGE_CHECKSUM_LENGTH,
};
use casper_sim::contract_runtime::Event;
use rand::distributions::{Alphanumeric, DistString};
use rand::{Rng, SeedableRng};
use rand_xorshift::XorShiftRng;

fn random_payload(rng: &mut XorShiftRng) -> MessagePayload {
    let count = rng.gen_range(16..128);
    if rng.gen() {
        MessagePayload::String(Alphanumeric.sample_string(rng, count))
    } else {
        MessagePayload::Bytes((0..count).map(|_| rng.gen()).collect())
    }
}

fn random_message(rng: &mut XorShiftRng) -> Message {
    let count = rng.gen_range(16..128);
    let entity = match rng.gen_range(0..3) {
        0 => EntityAddr::System(rng.gen()),
        1 => EntityAddr::Account(rng.gen()),
        _ => EntityAddr::SmartContract(rng.gen()),
    };
    let payload = random_payload(rng);
    let topic_name = Alphanumeric.sample_string(rng, count);
    Message::new(entity, payload, topic_name, TopicNameHash(rng.gen()), rng.gen(), rng.gen())
}

#[test]
fn serialization_roundtrip() {
    let rng = &mut XorShiftRng::from_seed(rand::random());

    let message_checksum = MessageChecksum([1; MESSAGE_CHECKSUM_LENGTH]);
    let bytes = message_checksum.to_bytes().unwrap();
    assert_eq!(bytes.len(), message_checksum.serialized_length());
    assert_eq!(MessageChecksum::from_bytes(&bytes), Ok((message_checksum, &[][..])));

    let message_payload = random_payload(rng);
    let bytes = message_payload.to_bytes().unwrap();
    assert_eq!(bytes.len(), message_payload.serialized_length());
    assert_eq!(MessagePayload::from_bytes(&bytes), Ok((message_payload, &[][..])));

    let message = random_message(rng);
    let bytes = message.to_bytes().unwrap();
    assert_eq!(bytes.len(), message.serialized_length());
    assert_eq!(Message::from_bytes(&bytes), Ok((message, &[][..])));
}

#[test]
fn payload_encoding_layout() {
    let p = MessagePayload::from(String::from("hi"));
    assert_eq!(p.to_bytes().unwrap(), vec![0, 2, 0, 0, 0, b'h', b'i']);
    let p = MessagePayload::from(vec![9u8, 8, 7]);
    assert_eq!(p.to_bytes().unwrap(), vec![1, 3, 0, 0, 0, 9, 8, 7]);
    let (decoded, rest) = MessagePayload::from_bytes(&[1, 1, 0, 0, 0, 5, 6]).unwrap();
    assert_eq!(decoded, MessagePayload::Bytes(vec![5]));
    assert_eq!(rest, &[6][..]);
}

#[test]
fn payload_decoding_errors() {
    assert_eq!(MessagePayload::from_bytes(&[]), Err(BytesReprError::EarlyEndOfStream));
    assert_eq!(MessagePayload::from_bytes(&[2, 0, 0, 0, 0]), Err(BytesReprError::Formatting));
    assert_eq!(MessagePayload::from_bytes(&[0, 3, 0, 0, 0, b'a']), Err(BytesReprError::EarlyEndOfStream));
    assert_eq!(MessagePayload::from_bytes(&[0, 1, 0]), Err(BytesReprError::EarlyEndOfStream));
    assert_eq!(MessagePayload::from_bytes(&[0, 1, 0, 0, 0, 0xff]), Err(BytesReprError::Formatting));
}

#[test]
fn message_decoding_rejects_truncation() {
    let rng = &mut XorShiftRng::from_seed([5u8; 16]);
    let message = random_message(rng);
    let mut bytes = message.to_bytes().unwrap();
    bytes.push(42);
    let (decoded, rest) = Message::from_bytes(&bytes).unwrap();
    assert_eq!(decoded, message);
    assert_eq!(rest, &[42][..]);
    bytes.pop();
    bytes.pop();
    assert_eq!(Message::from_bytes(&bytes), Err(BytesReprError::EarlyEndOfStream));
    let mut bad_tag = message.to_bytes().unwrap();
    bad_tag[0] = 3;
    assert_eq!(Message::from_bytes(&bad_tag), Err(BytesReprError::Formatting));
}

#[test]
fn checksum_formatting() {
    let mut bytes = [0u8; 32];
    bytes[0] = 0xab;
    bytes[31] = 0x01;
    let checksum = MessageChecksum(bytes);
    let text = checksum.to_formatted_string();
    assert_eq!(
        text,
        "message-checksum-ab00000000000000000000000000000000000000000000000000000000000001"
    );
    assert_eq!(MessageChecksum::from_formatted_str(&text), Ok(checksum));
    assert_eq!(MessageChecksum::from_formatted_str(&text.to_uppercase().replace("MESSAGE-CHECKSUM-", "message-checksum-")), Ok(checksum));
    assert_eq!(checksum.value(), bytes);
}

#[test]
fn checksum_parse_errors() {
    assert_eq!(MessageChecksum::from_formatted_str("checksum-00"), Err(FromStrError::InvalidPrefix));
    assert_eq!(MessageChecksum::from_formatted_str(""), Err(FromStrError::InvalidPrefix));
    assert_eq!(MessageChecksum::from_formatted_str("message-checksum-0g"), Err(FromStrError::Hex));
    assert_eq!(MessageChecksum::from_formatted_str("message-checksum-abc"), Err(FromStrError::Hex));
    assert_eq!(MessageChecksum::from_formatted_str("message-checksum-abcd"), Err(FromStrError::Length));
}

#[test]
fn checksum_of_message() {
    let message = Message::new(
        EntityAddr::Account([3; 32]),
        MessagePayload::from(String::from("hello")),
        String::from("topic"),
        TopicNameHash([4; 32]),
        2,
        7,
    );
    assert_eq!(
        message.checksum_input().unwrap(),
        vec![7, 0, 0, 0, 0, 0, 0, 0, 0, 5, 0, 0, 0, b'h', b'e', b'l', b'l', b'o']
    );
    let checksum = message.checksum().unwrap();
    assert_eq!(
        checksum.to_formatted_string(),
        "message-checksum-2f4a42026d5bdc805fd8d8720774c06fb66c43259fc3488932deb6d0edc308eb"
    );
}

#[test]
fn message_accessors_and_keys() {
    let entity = EntityAddr::SmartContract([8; 32]);
    let hash = TopicNameHash([6; 32]);
    let message = Message::new(entity, MessagePayload::Bytes(vec![1, 2]), String::from("t"), hash, 4, 9);
    assert_eq!(*message.entity_hash(), entity);
    assert_eq!(*message.payload(), MessagePayload::Bytes(vec![1, 2]));
    assert_eq!(message.topic_name(), "t");
    assert_eq!(*message.topic_name_hash(), hash);
    assert_eq!(message.topic_index(), 4);
    assert_eq!(message.block_index(), 9);
    assert_eq!(
        message.message_key(),
        Key::Message(MessageAddr { entity_addr: entity, topic_name_hash: hash, message_index: Some(4) })
    );
    assert_eq!(
        message.topic_key(),
        Key::Message(MessageAddr { entity_addr: entity, topic_name_hash: hash, message_index: None })
    );
    let mut encoded = vec![2u8];
    encoded.extend_from_slice(&[8; 32]);
    assert_eq!(entity.to_bytes(), encoded);
}

#[test]
fn event_names() {
    assert_eq!(Event::Foo.name(), "foo");
    assert_eq!(Event::Bar.name(), "bar");
}

#[test]
fn checksummed_mixed_case() {
    let bytes: Vec<u8> = (0xa0u8..0xc0).collect();
    let mut array = [0u8; 32];
    array.copy_from_slice(&bytes);
    let cased = "A0A1a2A3a4a5A6a7a8A9aaABaCaDaeAFb0B1B2B3b4b5B6b7b8b9BaBBBcBDbeBf";
    let text = format!("message-checksum-{}", cased);
    assert_eq!(MessageChecksum::from_formatted_str(&text), Ok(MessageChecksum(array)));
    // One letter in the wrong case breaks the checksum.
    let wrong = format!("message-checksum-a{}", &cased[1..]);
    assert_eq!(MessageChecksum::from_formatted_str(&wrong), Err(FromStrError::Hex));
    assert_eq!(casper_sim::hex::decode_checksummed(cased.as_bytes()), Some(bytes.clone()));
    assert_eq!(casper_sim::hex::decode_checksummed(&wrong.as_bytes()[17..]), None);
}

#[test]
fn checksum_casing_follows_hash_bits() {
    let bytes = [0xabu8, 0x1c];
    assert!(casper_sim::hex::matches_checksum(b"AB1C", &bytes, &[0xff; 32]));
    assert!(casper_sim::hex::matches_checksum(b"ab1c", &bytes, &[0x00; 32]));
    // Bits are read from the least significant end: letters a, b, c take bits 0, 1, 2.
    assert!(casper_sim::hex::matches_checksum(b"aB1C", &bytes, &[0b0000_0110; 32]));
    assert!(!casper_sim::hex::matches_checksum(b"AB1C", &bytes, &[0x00; 32]));
    assert!(!casper_sim::hex::matches_checksum(b"AB1", &bytes, &[0xff; 32]));
    assert!(casper_sim::hex::is_same_case(b"ab12"));
    assert!(casper_sim::hex::is_same_case(b"1234"));
    assert!(!casper_sim::hex::is_same_case(b"aB12"));
}
