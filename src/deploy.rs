//! The header of a deploy, and its validity rules.

use vstd::prelude::*;
use vstd::string::*;
use vstd::utf8::*;
use crate::bytesrepr::{
    encodes_string, field_bytes, read_raw, read_string, read_u32, read_u64, to_array32, u32_le_bytes,
    u64_le_bytes, write_field, write_raw, write_u32, write_u64, BytesReprError,
};

verus! {

/// A point in time, in milliseconds since the Unix epoch.
#[derive(Debug, Clone, Copy, PartialEq, Eq, Structural, PartialOrd, Ord, Hash, Default)]
pub struct Timestamp(pub u64);

/// A span of time, in milliseconds.
#[derive(Debug, Clone, Copy, PartialEq, Eq, Structural, PartialOrd, Ord, Hash, Default)]
pub struct TimeDiff(pub u64);

impl Timestamp {
    pub fn from_millis(millis: u64) -> (r: Timestamp)
        ensures
            r.0 == millis,
    {
        Timestamp(millis)
    }

    pub fn millis(&self) -> (r: u64)
        ensures
            r == self.0,
    {
        self.0
    }

    /// `self` moved forward by `diff`, or the largest timestamp if that is past it.
    pub fn saturating_add(self, diff: TimeDiff) -> (r: Timestamp)
        ensures
            r.0 == if self.0 + diff.0 > u64::MAX { u64::MAX as int } else { self.0 + diff.0 },
    {
        if diff.0 > u64::MAX - self.0 {
            Timestamp(u64::MAX)
        } else {
            Timestamp(self.0 + diff.0)
        }
    }
}

impl TimeDiff {
    pub fn from_millis(millis: u64) -> (r: TimeDiff)
        ensures
            r.0 == millis,
    {
        TimeDiff(millis)
    }

    pub fn millis(&self) -> (r: u64)
        ensures
            r == self.0,
    {
        self.0
    }
}

/// A 32-byte BLAKE2b digest.
#[derive(Debug, Clone, Copy, PartialEq, Eq, PartialOrd, Ord, Hash, Default)]
pub struct Digest(pub [u8; 32]);

/// The hash of a deploy.
#[derive(Debug, Clone, Copy, PartialEq, Eq, PartialOrd, Ord, Hash, Default)]
pub struct DeployHash(pub Digest);

/// The public key of an account.
#[derive(Debug, Clone, Copy, PartialEq, Eq, PartialOrd, Ord, Hash)]
pub enum PublicKey {
    /// The system account.
    System,
    /// An Ed25519 key.
    Ed25519([u8; 32]),
    /// A compressed secp256k1 key.
    Secp256k1([u8; 33]),
}

/// The encoding of a public key: a tag for its kind, then its bytes.
pub open spec fn public_key_encoding(k: PublicKey) -> Seq<u8> {
    match k {
        PublicKey::System => seq![0u8],
        PublicKey::Ed25519(b) => seq![1u8] + b@,
        PublicKey::Secp256k1(b) => seq![2u8] + b@,
    }
}

/// The bytes of the hashes `hs`, one after the other.
pub open spec fn hashes_bytes(hs: Seq<DeployHash>) -> Seq<u8>
    decreases hs.len(),
{
    if hs.len() == 0 {
        Seq::empty()
    } else {
        hashes_bytes(hs.drop_last()) + hs.last().0.0@
    }
}

/// The encoding of a list of deploy hashes: their number as a `u32`, then their bytes.
pub open spec fn hashes_encoding(hs: Seq<DeployHash>) -> Seq<u8> {
    u32_le_bytes(hs.len() as u32) + hashes_bytes(hs)
}

proof fn lemma_hashes_bytes_len(hs: Seq<DeployHash>)
    ensures
        hashes_bytes(hs).len() == 32 * hs.len(),
    decreases hs.len(),
{
    if hs.len() > 0 {
        lemma_hashes_bytes_len(hs.drop_last());
    }
}

/// `bytes` is the encoding of `k` followed by `rest`.
pub open spec fn encodes_key(bytes: Seq<u8>, k: PublicKey, rest: Seq<u8>) -> bool {
    bytes == public_key_encoding(k) + rest
}

/// The hash bytes of `a + b` are those of `a`, then those of `b`.
proof fn lemma_hashes_bytes_append(a: Seq<DeployHash>, b: Seq<DeployHash>)
    ensures
        hashes_bytes(a + b) == hashes_bytes(a) + hashes_bytes(b),
    decreases b.len(),
{
    if b.len() == 0 {
        assert(a + b =~= a);
        assert(hashes_bytes(a) + hashes_bytes(b) =~= hashes_bytes(a));
    } else {
        lemma_hashes_bytes_append(a, b.drop_last());
        assert((a + b).drop_last() =~= a + b.drop_last());
        assert(hashes_bytes(a) + hashes_bytes(b) =~= hashes_bytes(a) + hashes_bytes(b.drop_last()) + b.last().0.0@);
    }
}

/// `bytes` is the encoding of the hashes `hs` followed by `rest`.
pub open spec fn encodes_hashes(bytes: Seq<u8>, hs: Seq<DeployHash>, rest: Seq<u8>) -> bool {
    &&& bytes == hashes_encoding(hs) + rest
    &&& hs.len() <= u32::MAX
}

/// Appends the encoding of the hashes `hs` to `out`.
fn write_hashes(out: &mut Vec<u8>, hs: &Vec<DeployHash>)
    requires
        hs@.len() <= u32::MAX,
    ensures
        final(out)@ == old(out)@ + hashes_encoding(hs@),
{
    write_u32(out, hs.len() as u32);
    let ghost start = out@;
    let mut i: usize = 0;
    while i < hs.len()
        invariant
            0 <= i <= hs@.len(),
            out@ == start + hashes_bytes(hs@.subrange(0, i as int)),
        decreases hs@.len() - i,
    {
        write_raw(out, hs[i].0.0.as_slice());
        proof {
            assert(hs@.subrange(0, i + 1).drop_last() =~= hs@.subrange(0, i as int));
        }
        i = i + 1;
    }
    proof {
        assert(hs@.subrange(0, i as int) =~= hs@);
        assert(out@ =~= old(out)@ + hashes_encoding(hs@));
    }
}

/// Decodes a list of deploy hashes from the front of `bytes`; returns it and what follows.
fn read_hashes(bytes: &[u8]) -> (r: Result<(Vec<DeployHash>, &[u8]), BytesReprError>)
    ensures
        r matches Ok((hs, rest)) ==> bytes@ == hashes_encoding(hs@) + rest@ && hs@.len() <= u32::MAX,
        forall|hs: Seq<DeployHash>, rest: Seq<u8>| #[trigger] encodes_hashes(bytes@, hs, rest)
            ==> (r matches Ok((hs2, r2)) && hs2@ == hs && r2@ == rest),
{
    let (count, mut stream) = match read_u32(bytes) {
        Ok(v) => v,
        Err(e) => return Err(e),
    };
    proof {
        assert forall|hs: Seq<DeployHash>, rest: Seq<u8>| #[trigger] encodes_hashes(bytes@, hs, rest)
            implies hs.len() == count && stream@ == hashes_bytes(hs) + rest by {
            assert(u32_le_bytes(hs.len() as u32) =~= bytes@.subrange(0, 4));
            crate::bytesrepr::lemma_u32_le_bytes_injective(hs.len() as u32, count);
            assert(stream@ =~= hashes_bytes(hs) + rest);
            assert(hs.subrange(0, hs.len() as int) =~= hs);
        }
    }
    let mut result: Vec<DeployHash> = Vec::new();
    proof {
        assert(hashes_bytes(result@) =~= Seq::<u8>::empty());
        assert(bytes@ =~= u32_le_bytes(count) + hashes_bytes(result@) + stream@);
        assert forall|hs: Seq<DeployHash>, rest: Seq<u8>| #[trigger] encodes_hashes(bytes@, hs, rest)
            implies hs.len() == count && result@ == hs.subrange(0, 0)
                && stream@ == hashes_bytes(hs.subrange(0, hs.len() as int)) + rest by {
            assert(result@ =~= hs.subrange(0, 0));
            assert(hs.subrange(0, hs.len() as int) =~= hs);
        }
    }
    let mut i: u32 = 0;
    while i < count
        invariant
            0 <= i <= count,
            result@.len() == i,
            bytes@ == u32_le_bytes(count) + hashes_bytes(result@) + stream@,
            forall|hs: Seq<DeployHash>, rest: Seq<u8>| #[trigger] encodes_hashes(bytes@, hs, rest)
                ==> hs.len() == count && result@ == hs.subrange(0, i as int)
                    && stream@ == hashes_bytes(hs.subrange(i as int, hs.len() as int)) + rest,
        decreases count - i,
    {
        let (h, rem) = match read_raw(stream, 32) {
            Ok(v) => v,
            Err(e) => {
                proof {
                    assert forall|hs: Seq<DeployHash>, rest: Seq<u8>| !#[trigger] encodes_hashes(bytes@, hs, rest) by {
                        if encodes_hashes(bytes@, hs, rest) {
                            let tail = hs.subrange(i as int, hs.len() as int);
                            lemma_hashes_bytes_len(tail);
                        }
                    }
                }
                return Err(e);
            },
        };
        let a = to_array32(h);
        let dh = DeployHash(Digest(a));
        let ghost old_result = result@;
        let ghost old_stream = stream@;
        result.push(dh);
        stream = rem;
        proof {
            assert(result@.drop_last() =~= old_result);
            assert(old_stream =~= dh.0.0@ + stream@);
            assert(bytes@ =~= u32_le_bytes(count) + hashes_bytes(result@) + stream@);
            assert forall|hs: Seq<DeployHash>, rest: Seq<u8>| #[trigger] encodes_hashes(bytes@, hs, rest)
                implies hs.len() == count && result@ == hs.subrange(0, i + 1)
                    && stream@ == hashes_bytes(hs.subrange(i + 1, hs.len() as int)) + rest by {
                let tail = hs.subrange(i as int, hs.len() as int);
                let first = seq![hs[i as int]];
                let later = hs.subrange(i + 1, hs.len() as int);
                assert(tail =~= first + later);
                lemma_hashes_bytes_append(first, later);
                assert(first.drop_last() =~= Seq::<DeployHash>::empty());
                assert(hashes_bytes(first.drop_last()) =~= Seq::<u8>::empty());
                assert(hashes_bytes(first) =~= hs[i as int].0.0@);
                assert(old_stream =~= hs[i as int].0.0@ + (hashes_bytes(later) + rest));
                assert(hs[i as int].0.0@ =~= old_stream.subrange(0, 32));
                assert(a@ =~= old_stream.subrange(0, 32));
                assert(hs[i as int].0.0 =~= a);
                assert(stream@ =~= old_stream.subrange(32, old_stream.len() as int));
                assert(hashes_bytes(later) + rest =~= old_stream.subrange(32, old_stream.len() as int));
                assert(result@ =~= hs.subrange(0, i + 1));
            }
        }
        i = i + 1;
    }
    proof {
        assert forall|hs: Seq<DeployHash>, rest: Seq<u8>| #[trigger] encodes_hashes(bytes@, hs, rest)
            implies result@ == hs && stream@ == rest by {
            assert(hs.subrange(0, i as int) =~= hs);
            assert(hs.subrange(i as int, hs.len() as int) =~= Seq::<DeployHash>::empty());
            assert(hashes_bytes(Seq::<DeployHash>::empty()) + rest =~= rest);
        }
        assert(bytes@ =~= hashes_encoding(result@) + stream@);
    }
    Ok((result, stream))
}

impl PublicKey {
    /// The encoding of the key.
    pub fn to_bytes(&self) -> (r: Vec<u8>)
        ensures
            r@ == public_key_encoding(*self),
    {
        let mut out: Vec<u8> = Vec::new();
        match self {
            PublicKey::System => out.push(0u8),
            PublicKey::Ed25519(b) => {
                out.push(1u8);
                write_raw(&mut out, b.as_slice());
            },
            PublicKey::Secp256k1(b) => {
                out.push(2u8);
                write_raw(&mut out, b.as_slice());
            },
        }
        proof {
            assert(out@ =~= public_key_encoding(*self));
        }
        out
    }

    /// Decodes a key from the front of `bytes`; returns it and what follows it.
    pub fn from_bytes(bytes: &[u8]) -> (r: Result<(Self, &[u8]), BytesReprError>)
        ensures
            r matches Ok((k, rest)) ==> bytes@ == public_key_encoding(k) + rest@,
            forall|k: PublicKey, rest: Seq<u8>| #[trigger] encodes_key(bytes@, k, rest)
                ==> (r matches Ok((k2, r2)) && k2 == k && r2@ == rest),
    {
        if bytes.len() == 0 {
            return Err(BytesReprError::EarlyEndOfStream);
        }
        let tag = bytes[0];
        let (_, after_tag) = bytes.split_at(1);
        proof {
            assert(after_tag@ =~= bytes@.drop_first());
        }
        if tag == 0 {
            proof {
                assert(bytes@ =~= public_key_encoding(PublicKey::System) + after_tag@);
                assert forall|k: PublicKey, rest: Seq<u8>| #[trigger] encodes_key(bytes@, k, rest)
                    implies k == PublicKey::System && rest == after_tag@ by {
                    assert(bytes@[0] == public_key_encoding(k)[0]);
                    assert(rest =~= bytes@.drop_first());
                }
            }
            Ok((PublicKey::System, after_tag))
        } else if tag == 1 {
            match read_raw(after_tag, 32) {
                Ok((b, rest)) => {
                    let a = to_array32(b);
                    let k = PublicKey::Ed25519(a);
                    proof {
                        assert(bytes@ =~= public_key_encoding(k) + rest@);
                        assert forall|k2: PublicKey, r2: Seq<u8>| #[trigger] encodes_key(bytes@, k2, r2)
                            implies k2 == k && r2 == rest@ by {
                            assert(bytes@[0] == public_key_encoding(k2)[0]);
                            if let PublicKey::Ed25519(b2) = k2 {
                                assert(b2@ =~= bytes@.subrange(1, 33));
                                assert(b2 =~= a);
                            }
                            assert(r2 =~= bytes@.subrange(33, bytes@.len() as int));
                        }
                    }
                    Ok((k, rest))
                },
                Err(e) => {
                    proof {
                        assert forall|k: PublicKey, rest: Seq<u8>| !#[trigger] encodes_key(bytes@, k, rest) by {
                            if bytes@ == public_key_encoding(k) + rest {
                                assert(bytes@[0] == public_key_encoding(k)[0]);
                            }
                        }
                    }
                    Err(e)
                },
            }
        } else if tag == 2 {
            match read_raw(after_tag, 33) {
                Ok((b, rest)) => {
                    let mut a = [0u8; 33];
                    let mut i: usize = 0;
                    while i < 33
                        invariant
                            0 <= i <= 33,
                            b@.len() == 33,
                            forall|j: int| 0 <= j < i ==> a@[j] == b@[j],
                        decreases 33 - i,
                    {
                        a[i] = b[i];
                        i = i + 1;
                    }
                    let k = PublicKey::Secp256k1(a);
                    proof {
                        assert(a@ =~= b@);
                        assert(bytes@ =~= public_key_encoding(k) + rest@);
                        assert forall|k2: PublicKey, r2: Seq<u8>| #[trigger] encodes_key(bytes@, k2, r2)
                            implies k2 == k && r2 == rest@ by {
                            assert(bytes@[0] == public_key_encoding(k2)[0]);
                            if let PublicKey::Secp256k1(b2) = k2 {
                                assert(b2@ =~= bytes@.subrange(1, 34));
                                assert(b2 =~= a);
                            }
                            assert(r2 =~= bytes@.subrange(34, bytes@.len() as int));
                        }
                    }
                    Ok((k, rest))
                },
                Err(e) => {
                    proof {
                        assert forall|k: PublicKey, rest: Seq<u8>| !#[trigger] encodes_key(bytes@, k, rest) by {
                            if bytes@ == public_key_encoding(k) + rest {
                                assert(bytes@[0] == public_key_encoding(k)[0]);
                            }
                        }
                    }
                    Err(e)
                },
            }
        } else {
            proof {
                assert forall|k: PublicKey, rest: Seq<u8>| !#[trigger] encodes_key(bytes@, k, rest) by {
                    if bytes@ == public_key_encoding(k) + rest {
                        assert(bytes@[0] == public_key_encoding(k)[0]);
                    }
                }
            }
            Err(BytesReprError::Formatting)
        }
    }
}

/// The limits that deploys are held to.
#[derive(Debug, Clone, Copy, PartialEq, Eq, Structural)]
pub struct TransactionConfig {
    /// The longest time to live a deploy may have.
    pub max_ttl: TimeDiff,
}

/// Why a deploy is invalid.
#[derive(Debug, Clone, Copy, PartialEq, Eq, Structural)]
pub enum InvalidDeploy {
    /// The deploy names dependencies, which are no longer supported.
    DependenciesNoLongerSupported,
    /// The deploy's time to live is longer than allowed.
    ExcessiveTimeToLive { max_ttl: TimeDiff, got: TimeDiff },
    /// The deploy's timestamp is later than the validation time plus the leeway.
    TimestampInFuture { validation_timestamp: Timestamp, timestamp_leeway: TimeDiff, got: Timestamp },
}

/// The header of a deploy.
#[derive(Clone, PartialEq, Eq, Debug)]
pub struct DeployHeader {
    account: PublicKey,
    timestamp: Timestamp,
    ttl: TimeDiff,
    gas_price: u64,
    body_hash: Digest,
    dependencies: Vec<DeployHash>,
    chain_name: String,
}

/// When a deploy created at `timestamp` with time to live `ttl` expires: their sum, at most
/// the largest timestamp.
pub open spec fn expiry(timestamp: Timestamp, ttl: TimeDiff) -> u64 {
    if timestamp.0 + ttl.0 > u64::MAX { u64::MAX } else { (timestamp.0 + ttl.0) as u64 }
}

/// What follows the account in the encoding of `h`, and then `rest`.
pub open spec fn header_after_account(h: DeployHeader, rest: Seq<u8>) -> Seq<u8> {
    u64_le_bytes(h.spec_timestamp().0) + (u64_le_bytes(h.spec_ttl().0) + (u64_le_bytes(h.spec_gas_price())
        + (h.spec_body_hash().0@ + header_after_body(h, rest))))
}

/// What follows the body hash in the encoding of `h`, and then `rest`.
pub open spec fn header_after_body(h: DeployHeader, rest: Seq<u8>) -> Seq<u8> {
    hashes_encoding(h.spec_dependencies()) + header_after_dependencies(h, rest)
}

/// What follows the dependencies in the encoding of `h`, and then `rest`.
pub open spec fn header_after_dependencies(h: DeployHeader, rest: Seq<u8>) -> Seq<u8> {
    field_bytes(encode_utf8(h.spec_chain_name())) + rest
}

/// The encoding of a deploy header: account, timestamp, time to live, gas price, body hash,
/// dependencies and chain name, in that order.
pub open spec fn header_encoding(h: DeployHeader) -> Seq<u8> {
    public_key_encoding(h.spec_account()) + u64_le_bytes(h.spec_timestamp().0) + u64_le_bytes(h.spec_ttl().0)
        + u64_le_bytes(h.spec_gas_price()) + h.spec_body_hash().0@ + hashes_encoding(h.spec_dependencies())
        + field_bytes(encode_utf8(h.spec_chain_name()))
}

/// The length of the encoding of `h`.
pub open spec fn header_encoded_len(h: DeployHeader) -> int {
    (public_key_encoding(h.spec_account()).len() + 60 + 32 * h.spec_dependencies().len() + 4
        + encode_utf8(h.spec_chain_name()).len()) as int
}

/// `bytes` is the encoding of `h`, which fits the largest encoding allowed, followed by `rest`.
pub open spec fn encodes_header(bytes: Seq<u8>, h: DeployHeader, rest: Seq<u8>) -> bool {
    &&& bytes == header_encoding(h) + rest
    &&& header_encoded_len(h) <= u32::MAX
}

/// `a` and `b` hold the same values.
pub open spec fn same_header(a: DeployHeader, b: DeployHeader) -> bool {
    &&& a.spec_account() == b.spec_account()
    &&& a.spec_timestamp() == b.spec_timestamp()
    &&& a.spec_ttl() == b.spec_ttl()
    &&& a.spec_gas_price() == b.spec_gas_price()
    &&& a.spec_body_hash() == b.spec_body_hash()
    &&& a.spec_dependencies() == b.spec_dependencies()
    &&& a.spec_chain_name() == b.spec_chain_name()
}

proof fn lemma_header_encoding_parts(h: DeployHeader, rest: Seq<u8>)
    ensures
        header_encoding(h) + rest == public_key_encoding(h.spec_account()) + header_after_account(h, rest),
        header_encoding(h).len() == header_encoded_len(h),
{
    assert(header_encoding(h) + rest =~= public_key_encoding(h.spec_account()) + header_after_account(h, rest));
    lemma_hashes_bytes_len(h.spec_dependencies());
}

proof fn lemma_header_fixed_unique(h: DeployHeader, rest: Seq<u8>, ts: u64, ttl: u64, gas: u64, body: [u8; 32], r: Seq<u8>)
    requires
        header_after_account(h, rest) == u64_le_bytes(ts) + (u64_le_bytes(ttl) + (u64_le_bytes(gas) + (body@ + r))),
    ensures
        h.spec_timestamp().0 == ts,
        h.spec_ttl().0 == ttl,
        h.spec_gas_price() == gas,
        h.spec_body_hash() == Digest(body),
        header_after_body(h, rest) == r,
{
    let s = header_after_account(h, rest);
    assert(u64_le_bytes(h.spec_timestamp().0) =~= s.subrange(0, 8));
    assert(u64_le_bytes(ts) =~= s.subrange(0, 8));
    crate::bytesrepr::lemma_u64_le_bytes_injective(h.spec_timestamp().0, ts);
    assert(u64_le_bytes(h.spec_ttl().0) =~= s.subrange(8, 16));
    assert(u64_le_bytes(ttl) =~= s.subrange(8, 16));
    crate::bytesrepr::lemma_u64_le_bytes_injective(h.spec_ttl().0, ttl);
    assert(u64_le_bytes(h.spec_gas_price()) =~= s.subrange(16, 24));
    assert(u64_le_bytes(gas) =~= s.subrange(16, 24));
    crate::bytesrepr::lemma_u64_le_bytes_injective(h.spec_gas_price(), gas);
    let b1 = h.spec_body_hash().0;
    assert(b1@ =~= s.subrange(24, 56));
    assert(body@ =~= s.subrange(24, 56));
    assert(b1 =~= body);
    assert(header_after_body(h, rest) =~= s.subrange(56, s.len() as int));
    assert(r =~= s.subrange(56, s.len() as int));
}

/// Decodes three `u64`s and 32 bytes from the front of `bytes`; returns them and what follows.
fn read_fixed_fields(bytes: &[u8]) -> (r: Result<((u64, u64, u64, [u8; 32]), &[u8]), BytesReprError>)
    ensures
        bytes@.len() < 56 ==> r is Err,
        r matches Ok(((a, b, c, d), rest)) ==> bytes@ == u64_le_bytes(a) + (u64_le_bytes(b) + (u64_le_bytes(c) + (d@ + rest@))),
        bytes@.len() >= 56 ==> r is Ok,
{
    let (a, rem1) = match read_u64(bytes) {
        Ok(v) => v,
        Err(e) => return Err(e),
    };
    let (b, rem2) = match read_u64(rem1) {
        Ok(v) => v,
        Err(e) => return Err(e),
    };
    let (c, rem3) = match read_u64(rem2) {
        Ok(v) => v,
        Err(e) => return Err(e),
    };
    let (body, rest) = match read_raw(rem3, 32) {
        Ok(v) => v,
        Err(e) => return Err(e),
    };
    let d = to_array32(body);
    proof {
        assert(bytes@ =~= u64_le_bytes(a) + (u64_le_bytes(b) + (u64_le_bytes(c) + (d@ + rest@))));
    }
    Ok(((a, b, c, d), rest))
}

impl DeployHeader {
    pub closed spec fn spec_account(&self) -> PublicKey {
        self.account
    }

    pub closed spec fn spec_timestamp(&self) -> Timestamp {
        self.timestamp
    }

    pub closed spec fn spec_ttl(&self) -> TimeDiff {
        self.ttl
    }

    pub closed spec fn spec_gas_price(&self) -> u64 {
        self.gas_price
    }

    pub closed spec fn spec_body_hash(&self) -> Digest {
        self.body_hash
    }

    pub closed spec fn spec_dependencies(&self) -> Seq<DeployHash> {
        self.dependencies@
    }

    pub closed spec fn spec_chain_name(&self) -> Seq<char> {
        self.chain_name@
    }

    pub fn new(
        account: PublicKey,
        timestamp: Timestamp,
        ttl: TimeDiff,
        gas_price: u64,
        body_hash: Digest,
        dependencies: Vec<DeployHash>,
        chain_name: String,
    ) -> (r: Self)
        ensures
            r.spec_account() == account,
            r.spec_timestamp() == timestamp,
            r.spec_ttl() == ttl,
            r.spec_gas_price() == gas_price,
            r.spec_body_hash() == body_hash,
            r.spec_dependencies() == dependencies@,
            r.spec_chain_name() == chain_name@,
    {
        DeployHeader { account, timestamp, ttl, gas_price, body_hash, dependencies, chain_name }
    }

    /// The public key of the account in whose context the deploy runs.
    pub fn account(&self) -> (r: &PublicKey)
        ensures
            *r == self.spec_account(),
    {
        &self.account
    }

    /// When the deploy was created.
    pub fn timestamp(&self) -> (r: Timestamp)
        ensures
            r == self.spec_timestamp(),
    {
        self.timestamp
    }

    /// How long after its creation the deploy stays valid.
    pub fn ttl(&self) -> (r: TimeDiff)
        ensures
            r == self.spec_ttl(),
    {
        self.ttl
    }

    /// Whether the deploy has expired at `current_instant`: its expiry is before it.
    pub fn expired(&self, current_instant: Timestamp) -> (r: bool)
        ensures
            r == (expiry(self.spec_timestamp(), self.spec_ttl()) < current_instant.0),
    {
        self.expires().0 < current_instant.0
    }

    /// The highest gas price at which the sender wants the deploy included in a block.
    pub fn gas_price(&self) -> (r: u64)
        ensures
            r == self.spec_gas_price(),
    {
        self.gas_price
    }

    /// The hash of the deploy's body.
    pub fn body_hash(&self) -> (r: &Digest)
        ensures
            *r == self.spec_body_hash(),
    {
        &self.body_hash
    }

    /// The deploys that have to be executed before this one.
    pub fn dependencies(&self) -> (r: &Vec<DeployHash>)
        ensures
            r@ == self.spec_dependencies(),
    {
        &self.dependencies
    }

    /// The name of the chain the deploy is meant for.
    pub fn chain_name(&self) -> (r: &str)
        ensures
            r@ == self.spec_chain_name(),
    {
        self.chain_name.as_str()
    }

    /// Checks the deploy, in this order: it names no dependencies, its time to live is at
    /// most the configured maximum, and its timestamp is not later than `at` plus
    /// `timestamp_leeway`. Expiry is not checked.
    pub fn is_valid(
        &self,
        config: &TransactionConfig,
        timestamp_leeway: TimeDiff,
        at: Timestamp,
        deploy_hash: &DeployHash,
    ) -> (r: Result<(), InvalidDeploy>)
        requires
            at.0 + timestamp_leeway.0 <= u64::MAX,
        ensures
            self.spec_dependencies().len() > 0
                ==> r == Err::<(), InvalidDeploy>(InvalidDeploy::DependenciesNoLongerSupported),
            self.spec_dependencies().len() == 0 && self.spec_ttl().0 > config.max_ttl.0
                ==> r == Err::<(), InvalidDeploy>(InvalidDeploy::ExcessiveTimeToLive { max_ttl: config.max_ttl, got: self.spec_ttl() }),
            self.spec_dependencies().len() == 0 && self.spec_ttl().0 <= config.max_ttl.0
                && self.spec_timestamp().0 > at.0 + timestamp_leeway.0
                ==> r == Err::<(), InvalidDeploy>(InvalidDeploy::TimestampInFuture {
                    validation_timestamp: at,
                    timestamp_leeway,
                    got: self.spec_timestamp(),
                }),
            self.spec_dependencies().len() == 0 && self.spec_ttl().0 <= config.max_ttl.0
                && self.spec_timestamp().0 <= at.0 + timestamp_leeway.0 ==> r is Ok,
    {
        if self.dependencies.len() != 0 {
            return Err(InvalidDeploy::DependenciesNoLongerSupported);
        }
        if self.ttl.0 > config.max_ttl.0 {
            return Err(InvalidDeploy::ExcessiveTimeToLive { max_ttl: config.max_ttl, got: self.ttl });
        }
        if self.timestamp.0 > at.0 + timestamp_leeway.0 {
            return Err(InvalidDeploy::TimestampInFuture {
                validation_timestamp: at,
                timestamp_leeway,
                got: self.timestamp,
            });
        }
        Ok(())
    }

    /// When the deploy expires: its timestamp plus its time to live, at most the largest
    /// timestamp.
    pub fn expires(&self) -> (r: Timestamp)
        ensures
            r.0 == expiry(self.spec_timestamp(), self.spec_ttl()),
    {
        self.timestamp.saturating_add(self.ttl)
    }

    /// Empties the chain name, which makes the deploy invalid for any chain.
    pub fn invalidate(&mut self)
        ensures
            final(self).spec_chain_name() == Seq::<char>::empty(),
            final(self).spec_account() == old(self).spec_account(),
            final(self).spec_timestamp() == old(self).spec_timestamp(),
            final(self).spec_ttl() == old(self).spec_ttl(),
            final(self).spec_gas_price() == old(self).spec_gas_price(),
            final(self).spec_body_hash() == old(self).spec_body_hash(),
            final(self).spec_dependencies() == old(self).spec_dependencies(),
    {
        self.chain_name = String::new();
    }

    /// The length of the encoding of the header.
    pub fn serialized_length(&self) -> (r: usize)
        requires
            header_encoded_len(*self) <= usize::MAX,
        ensures
            r == header_encoded_len(*self),
    {
        let key_len: usize = match self.account {
            PublicKey::System => 1,
            PublicKey::Ed25519(_) => 33,
            PublicKey::Secp256k1(_) => 34,
        };
        key_len + 60 + 32 * self.dependencies.len() + 4 + self.chain_name.as_str().as_bytes().len()
    }

    /// Appends the encoding of the header to `writer`; fails, writing nothing, if the number
    /// of dependencies or the length of the chain name does not fit a `u32`.
    pub fn write_bytes(&self, writer: &mut Vec<u8>) -> (r: Result<(), BytesReprError>)
        ensures
            self.spec_dependencies().len() <= u32::MAX && encode_utf8(self.spec_chain_name()).len() <= u32::MAX
                ==> r is Ok && final(writer)@ == old(writer)@ + header_encoding(*self),
            !(self.spec_dependencies().len() <= u32::MAX && encode_utf8(self.spec_chain_name()).len() <= u32::MAX)
                ==> r == Err::<(), BytesReprError>(BytesReprError::NotRepresentable) && final(writer)@ == old(writer)@,
    {
        let name = self.chain_name.as_str().as_bytes();
        if self.dependencies.len() > 0xffff_ffff || name.len() > 0xffff_ffff {
            return Err(BytesReprError::NotRepresentable);
        }
        let account = self.account.to_bytes();
        write_raw(writer, account.as_slice());
        write_u64(writer, self.timestamp.0);
        write_u64(writer, self.ttl.0);
        write_u64(writer, self.gas_price);
        write_raw(writer, self.body_hash.0.as_slice());
        write_hashes(writer, &self.dependencies);
        write_field(writer, name);
        proof {
            assert(final(writer)@ =~= old(writer)@ + header_encoding(*self));
        }
        Ok(())
    }

    /// The encoding of the header; fails if it would be longer than allowed.
    pub fn to_bytes(&self) -> (r: Result<Vec<u8>, BytesReprError>)
        ensures
            header_encoded_len(*self) > u32::MAX ==> r == Err::<Vec<u8>, BytesReprError>(BytesReprError::OutOfMemory),
            header_encoded_len(*self) <= u32::MAX ==> (r matches Ok(b) && b@ == header_encoding(*self)),
    {
        let n = self.dependencies.len();
        let name_len = self.chain_name.as_str().as_bytes().len();
        let key_len: u64 = match self.account {
            PublicKey::System => 1,
            PublicKey::Ed25519(_) => 33,
            PublicKey::Secp256k1(_) => 34,
        };
        if n > 0x07ff_ffff || name_len > 0xffff_ffff || key_len + 64 + 32 * (n as u64) + (name_len as u64) > 0xffff_ffff {
            proof {
                lemma_header_encoding_parts(*self, Seq::empty());
            }
            return Err(BytesReprError::OutOfMemory);
        }
        let mut out: Vec<u8> = Vec::new();
        match self.write_bytes(&mut out) {
            Ok(()) => {},
            Err(e) => return Err(e),
        }
        proof {
            lemma_header_encoding_parts(*self, Seq::empty());
            if header_encoded_len(*self) > u32::MAX {
                assert(false);
            }
        }
        Ok(out)
    }

    /// Decodes a header from the front of `bytes`; returns it and what follows it. It
    /// succeeds exactly when `bytes` starts with the encoding of a header.
    pub fn from_bytes(bytes: &[u8]) -> (r: Result<(Self, &[u8]), BytesReprError>)
        ensures
            r matches Ok((h, rest)) ==> bytes@ == header_encoding(h) + rest@,
            forall|h: DeployHeader, rest: Seq<u8>| #[trigger] encodes_header(bytes@, h, rest)
                ==> (r matches Ok((h2, r2)) && same_header(h, h2) && r2@ == rest),
    {
        proof {
            assert forall|h: DeployHeader, rest: Seq<u8>| #[trigger] encodes_header(bytes@, h, rest)
                implies encodes_key(bytes@, h.spec_account(), header_after_account(h, rest)) by {
                lemma_header_encoding_parts(h, rest);
            }
        }
        let (account, rem1) = match PublicKey::from_bytes(bytes) {
            Ok(v) => v,
            Err(e) => {
                proof {
                    assert forall|h: DeployHeader, rest: Seq<u8>| !#[trigger] encodes_header(bytes@, h, rest) by {
                        if encodes_header(bytes@, h, rest) {
                            assert(encodes_key(bytes@, h.spec_account(), header_after_account(h, rest)));
                        }
                    }
                }
                return Err(e);
            },
        };
        let ((timestamp, ttl, gas_price, body_hash), rem5) = match read_fixed_fields(rem1) {
            Ok(v) => v,
            Err(e) => {
                proof {
                    assert forall|h: DeployHeader, rest: Seq<u8>| !#[trigger] encodes_header(bytes@, h, rest) by {
                        if encodes_header(bytes@, h, rest) {
                            assert(encodes_key(bytes@, h.spec_account(), header_after_account(h, rest)));
                            assert(header_after_account(h, rest).len() >= 56);
                        }
                    }
                }
                return Err(e);
            },
        };
        proof {
            assert forall|h: DeployHeader, rest: Seq<u8>| #[trigger] encodes_header(bytes@, h, rest)
                implies h.spec_account() == account && h.spec_timestamp().0 == timestamp && h.spec_ttl().0 == ttl
                    && h.spec_gas_price() == gas_price && h.spec_body_hash() == Digest(body_hash)
                    && rem5@ == header_after_body(h, rest) by {
                assert(encodes_key(bytes@, h.spec_account(), header_after_account(h, rest)));
                lemma_header_fixed_unique(h, rest, timestamp, ttl, gas_price, body_hash, rem5@);
            }
        }
        let (dependencies, rem6) = match read_hashes(rem5) {
            Ok(v) => v,
            Err(e) => {
                proof {
                    assert forall|h: DeployHeader, rest: Seq<u8>| !#[trigger] encodes_header(bytes@, h, rest) by {
                        if encodes_header(bytes@, h, rest) {
                            lemma_header_encoding_parts(h, rest);
                            assert(encodes_hashes(rem5@, h.spec_dependencies(), header_after_dependencies(h, rest)));
                        }
                    }
                }
                return Err(e);
            },
        };
        proof {
            assert forall|h: DeployHeader, rest: Seq<u8>| #[trigger] encodes_header(bytes@, h, rest)
                implies h.spec_dependencies() == dependencies@ && rem6@ == header_after_dependencies(h, rest) by {
                lemma_header_encoding_parts(h, rest);
                assert(encodes_hashes(rem5@, h.spec_dependencies(), header_after_dependencies(h, rest)));
            }
        }
        let (chain_name, rest) = match read_string(rem6) {
            Ok(v) => v,
            Err(e) => {
                proof {
                    assert forall|h: DeployHeader, r: Seq<u8>| !#[trigger] encodes_header(bytes@, h, r) by {
                        if encodes_header(bytes@, h, r) {
                            lemma_header_encoding_parts(h, r);
                            assert(encodes_string(rem6@, h.spec_chain_name(), r));
                        }
                    }
                }
                return Err(e);
            },
        };
        let header = DeployHeader {
            account,
            timestamp: Timestamp(timestamp),
            ttl: TimeDiff(ttl),
            gas_price,
            body_hash: Digest(body_hash),
            dependencies,
            chain_name,
        };
        proof {
            assert(bytes@ =~= header_encoding(header) + rest@);
            assert forall|h: DeployHeader, r: Seq<u8>| #[trigger] encodes_header(bytes@, h, r)
                implies same_header(h, header) && rest@ == r by {
                lemma_header_encoding_parts(h, r);
                assert(encodes_string(rem6@, h.spec_chain_name(), r));
            }
        }
        Ok((header, rest))
    }
}

} // verus!
