use casper_sim::deploy::{
    DeployHash, DeployHeader, Digest, InvalidDeploy, PublicKey, TimeDiff, Timestamp,
    TransactionConfig,
};
use casper_sim::deploy_info::{AccountHash, DeployInfo, TransferAddr, URef, U512};

fn header(ttl: u64, timestamp: u64, dependencies: Vec<DeployHash>) -> DeployHeader {
    DeployHeader::new(
        PublicKey::Ed25519([1; 32]),
        Timestamp::from_millis(timestamp),
        TimeDiff::from_millis(ttl),
        3,
        Digest([2; 32]),
        dependencies,
        String::from("casper-test"),
    )
}

#[test]
fn accessors() {
    let h = header(100, 1_000, vec![]);
    assert_eq!(*h.account(), PublicKey::Ed25519([1; 32]));
    assert_eq!(h.timestamp(), Timestamp(1_000));
    assert_eq!(h.ttl(), TimeDiff(100));
    assert_eq!(h.gas_price(), 3);
    assert_eq!(*h.body_hash(), Digest([2; 32]));
    assert!(h.dependencies().is_empty());
    assert_eq!(h.chain_name(), "casper-test");
}

#[test]
fn expiry() {
    let h = header(100, 1_000, vec![]);
    assert_eq!(h.expires(), Timestamp(1_100));
    assert!(!h.expired(Timestamp(1_100)));
    assert!(h.expired(Timestamp(1_101)));
    let late = header(10, u64::MAX - 5, vec![]);
    assert_eq!(late.expires(), Timestamp(u64::MAX));
    assert!(!late.expired(Timestamp(u64::MAX)));
}

#[test]
fn validity() {
    let config = TransactionConfig { max_ttl: TimeDiff(500) };
    let hash = DeployHash(Digest([0; 32]));
    let leeway = TimeDiff(10);
    assert_eq!(header(500, 1_010, vec![]).is_valid(&config, leeway, Timestamp(1_000), &hash), Ok(()));
    assert_eq!(
        header(100, 0, vec![hash]).is_valid(&config, leeway, Timestamp(1_000), &hash),
        Err(InvalidDeploy::DependenciesNoLongerSupported)
    );
    assert_eq!(
        header(501, 0, vec![]).is_valid(&config, leeway, Timestamp(1_000), &hash),
        Err(InvalidDeploy::ExcessiveTimeToLive { max_ttl: TimeDiff(500), got: TimeDiff(501) })
    );
    assert_eq!(
        header(100, 1_011, vec![]).is_valid(&config, leeway, Timestamp(1_000), &hash),
        Err(InvalidDeploy::TimestampInFuture {
            validation_timestamp: Timestamp(1_000),
            timestamp_leeway: leeway,
            got: Timestamp(1_011),
        })
    );
}

#[test]
fn invalidate_clears_chain_name() {
    let mut h = header(100, 1_000, vec![]);
    h.invalidate();
    assert_eq!(h.chain_name(), "");
    assert_eq!(h.ttl(), TimeDiff(100));
}

#[test]
fn deploy_info_copies_transfers() {
    let transfers = [TransferAddr([1; 32]), TransferAddr([2; 32])];
    let source = URef { addr: [5; 32], access_rights: 7 };
    let info = DeployInfo::new(DeployHash(Digest([9; 32])), &transfers, AccountHash([4; 32]), source, U512([1, 0, 0, 0, 0, 0, 0, 0]));
    assert_eq!(info.transfers, transfers.to_vec());
    assert_eq!(info.deploy_hash, DeployHash(Digest([9; 32])));
    assert_eq!(info.from, AccountHash([4; 32]));
    assert_eq!(info.source, source);
    assert_eq!(info.gas, U512([1, 0, 0, 0, 0, 0, 0, 0]));
}

#[test]
fn header_encoding_roundtrip() {
    let h = DeployHeader::new(
        PublicKey::Secp256k1([7; 33]),
        Timestamp(0x0102),
        TimeDiff(3),
        4,
        Digest([5; 32]),
        vec![DeployHash(Digest([6; 32])), DeployHash(Digest([8; 32]))],
        String::from("net"),
    );
    let bytes = h.to_bytes().unwrap();
    assert_eq!(bytes.len(), h.serialized_length());
    assert_eq!(bytes.len(), 34 + 24 + 32 + 4 + 64 + 4 + 3);
    assert_eq!(bytes[0], 2);
    assert_eq!(&bytes[34..42], &[2, 1, 0, 0, 0, 0, 0, 0]);
    assert_eq!(&bytes[90..94], &[2, 0, 0, 0]);
    assert_eq!(&bytes[bytes.len() - 7..], &[3, 0, 0, 0, b'n', b'e', b't']);
    let mut with_tail = bytes.clone();
    with_tail.push(99);
    let (decoded, rest) = DeployHeader::from_bytes(&with_tail).unwrap();
    assert_eq!(decoded, h);
    assert_eq!(rest, &[99][..]);
    let mut written = vec![1u8];
    assert_eq!(h.write_bytes(&mut written), Ok(()));
    assert_eq!(&written[1..], &bytes[..]);
}

#[test]
fn header_decoding_errors() {
    assert_eq!(DeployHeader::from_bytes(&[]), Err(casper_sim::bytesrepr::BytesReprError::EarlyEndOfStream));
    assert_eq!(DeployHeader::from_bytes(&[3]), Err(casper_sim::bytesrepr::BytesReprError::Formatting));
    let h = DeployHeader::new(PublicKey::System, Timestamp(1), TimeDiff(2), 3, Digest([0; 32]), vec![], String::from("a"));
    let bytes = h.to_bytes().unwrap();
    assert_eq!(bytes.len(), 1 + 24 + 32 + 4 + 4 + 1);
    assert_eq!(
        DeployHeader::from_bytes(&bytes[..bytes.len() - 1]),
        Err(casper_sim::bytesrepr::BytesReprError::EarlyEndOfStream)
    );
    let mut bad_utf8 = bytes.clone();
    let last = bad_utf8.len() - 1;
    bad_utf8[last] = 0xff;
    assert_eq!(DeployHeader::from_bytes(&bad_utf8), Err(casper_sim::bytesrepr::BytesReprError::Formatting));
}

#[test]
fn gas_encoding() {
    assert_eq!(U512([0; 8]).to_bytes(), vec![0]);
    assert_eq!(U512([0x1234, 0, 0, 0, 0, 0, 0, 0]).to_bytes(), vec![2, 0x34, 0x12]);
    assert_eq!(U512([0, 1, 0, 0, 0, 0, 0, 0]).to_bytes(), vec![9, 0, 0, 0, 0, 0, 0, 0, 0, 1]);
    let max = U512([u64::MAX; 8]);
    let bytes = max.to_bytes();
    assert_eq!(bytes.len(), 65);
    assert_eq!(U512::from_bytes(&bytes), Ok((max, &[][..])));
    // Zeros at the end are accepted.
    assert_eq!(U512::from_bytes(&[3, 5, 0, 0, 7]), Ok((U512([5, 0, 0, 0, 0, 0, 0, 0]), &[7][..])));
    assert_eq!(U512::from_bytes(&[65]), Err(casper_sim::bytesrepr::BytesReprError::Formatting));
    assert_eq!(U512::from_bytes(&[2, 1]), Err(casper_sim::bytesrepr::BytesReprError::EarlyEndOfStream));
}

#[test]
fn deploy_info_encoding_roundtrip() {
    let transfers = [TransferAddr([1; 32]), TransferAddr([2; 32])];
    let source = URef { addr: [5; 32], access_rights: 7 };
    let info = DeployInfo::new(DeployHash(Digest([9; 32])), &transfers, AccountHash([4; 32]), source, U512([300, 0, 0, 0, 0, 0, 0, 0]));
    let bytes = info.to_bytes().unwrap();
    assert_eq!(bytes.len(), info.serialized_length());
    assert_eq!(bytes.len(), 32 + 4 + 64 + 32 + 33 + 3);
    assert_eq!(&bytes[32..36], &[2, 0, 0, 0]);
    assert_eq!(&bytes[bytes.len() - 3..], &[2, 0x2c, 0x01]);
    let (decoded, rest) = DeployInfo::from_bytes(&bytes).unwrap();
    assert_eq!(decoded, info);
    assert!(rest.is_empty());
    assert_eq!(
        DeployInfo::from_bytes(&bytes[..bytes.len() - 1]),
        Err(casper_sim::bytesrepr::BytesReprError::EarlyEndOfStream)
    );
}
