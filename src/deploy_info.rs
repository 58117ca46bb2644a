//! What a deploy did when it was executed.

use vstd::prelude::*;
use crate::bytesrepr::{
    read_raw, read_u32, read_u64, to_array32, u32_le_bytes, u64_le_bytes, write_raw, write_u32,
    write_u64, BytesReprError,
};
use crate::deploy::{DeployHash, Digest};

verus! {

/// The address of a transfer.
#[derive(Debug, Clone, Copy, PartialEq, Eq, PartialOrd, Ord, Hash, Default)]
pub struct TransferAddr(pub [u8; 32]);

/// The hash that identifies an account.
#[derive(Debug, Clone, Copy, PartialEq, Eq, PartialOrd, Ord, Hash, Default)]
pub struct AccountHash(pub [u8; 32]);

/// An unforgeable reference to a value: its address and the access rights it grants.
#[derive(Debug, Clone, Copy, PartialEq, Eq, PartialOrd, Ord, Hash, Default)]
pub struct URef {
    pub addr: [u8; 32],
    pub access_rights: u8,
}

/// A 512-bit unsigned integer, as eight 64-bit limbs, the least significant first.
#[derive(Debug, Clone, Copy, PartialEq, Eq, PartialOrd, Ord, Hash, Default)]
pub struct U512(pub [u64; 8]);

/// The 64 little-endian bytes of `x`.
pub open spec fn u512_le_bytes(x: U512) -> Seq<u8> {
    u64_le_bytes(x.0[0]) + u64_le_bytes(x.0[1]) + u64_le_bytes(x.0[2]) + u64_le_bytes(x.0[3])
        + u64_le_bytes(x.0[4]) + u64_le_bytes(x.0[5]) + u64_le_bytes(x.0[6]) + u64_le_bytes(x.0[7])
}

/// The number of bytes of `s` up to and including its last non-zero one.
pub open spec fn significant_len(s: Seq<u8>) -> nat
    decreases s.len(),
{
    if s.len() == 0 {
        0
    } else if s.last() != 0 {
        s.len()
    } else {
        significant_len(s.drop_last())
    }
}

/// The encoding of `x`: the number of its significant bytes, then those bytes, least
/// significant first.
pub open spec fn u512_encoding(x: U512) -> Seq<u8> {
    let b = u512_le_bytes(x);
    let k = significant_len(b);
    seq![k as u8] + b.subrange(0, k as int)
}

proof fn lemma_significant_len(s: Seq<u8>)
    ensures
        significant_len(s) <= s.len(),
        forall|i: int| significant_len(s) <= i < s.len() ==> s[i] == 0,
    decreases s.len(),
{
    if s.len() > 0 && s.last() == 0 {
        lemma_significant_len(s.drop_last());
        assert forall|i: int| significant_len(s) <= i < s.len() implies s[i] == 0 by {
            if i < s.len() - 1 {
                assert(s.drop_last()[i] == s[i]);
            }
        }
    }
}

/// Different 64-byte sequences are different numbers.
proof fn lemma_u512_le_bytes_injective(x: U512, y: U512)
    requires
        u512_le_bytes(x) == u512_le_bytes(y),
    ensures
        x == y,
{
    let (s, t) = (u512_le_bytes(x), u512_le_bytes(y));
    assert forall|k: int| 0 <= k < 8 implies x.0[k] == y.0[k] by {
        assert(u64_le_bytes(x.0[k]) =~= s.subrange(8 * k, 8 * k + 8));
        assert(u64_le_bytes(y.0[k]) =~= t.subrange(8 * k, 8 * k + 8));
        crate::bytesrepr::lemma_u64_le_bytes_injective(x.0[k], y.0[k]);
    }
    assert(x.0 =~= y.0);
}

/// `bytes` is the encoding of `x` followed by `rest`.
pub open spec fn encodes_u512(bytes: Seq<u8>, x: U512, rest: Seq<u8>) -> bool {
    bytes == u512_encoding(x) + rest
}

proof fn lemma_u512_decoding_unique(bytes: Seq<u8>, k: int, x: U512, rest: Seq<u8>, y: U512, r2: Seq<u8>)
    requires
        0 <= k <= 64,
        bytes == seq![k as u8] + u512_le_bytes(x).subrange(0, k) + rest,
        forall|i: int| k <= i < 64 ==> #[trigger] u512_le_bytes(x)[i] == 0,
        encodes_u512(bytes, y, r2),
    ensures
        y == x,
        r2 == rest,
{
    let b = u512_le_bytes(x);
    let by = u512_le_bytes(y);
    let ky = significant_len(by);
    lemma_significant_len(by);
    assert(bytes[0] == u512_encoding(y)[0]);
    assert(ky == k);
    assert(by.subrange(0, k) =~= bytes.subrange(1, k + 1));
    assert(b.subrange(0, k) =~= bytes.subrange(1, k + 1));
    assert forall|i: int| 0 <= i < 64 implies by[i] == b[i] by {
        if i < k {
            assert(by[i] == by.subrange(0, k)[i]);
            assert(b[i] == b.subrange(0, k)[i]);
        }
    }
    assert(by =~= b);
    lemma_u512_le_bytes_injective(y, x);
    assert(r2 =~= bytes.subrange(k + 1, bytes.len() as int));
    assert(rest =~= bytes.subrange(k + 1, bytes.len() as int));
}

impl U512 {
    /// The encoding of the number.
    pub fn to_bytes(&self) -> (r: Vec<u8>)
        ensures
            r@ == u512_encoding(*self),
    {
        let mut le: Vec<u8> = Vec::new();
        let mut k: usize = 0;
        while k < 8
            invariant
                0 <= k <= 8,
                le@.len() == 8 * k,
                forall|j: int| 0 <= j < k ==> le@.subrange(8 * j, 8 * j + 8) == u64_le_bytes(self.0[j]),
            decreases 8 - k,
        {
            let ghost before = le@;
            write_u64(&mut le, self.0[k]);
            proof {
                assert forall|j: int| 0 <= j < k + 1 implies le@.subrange(8 * j, 8 * j + 8) == u64_le_bytes(self.0[j]) by {
                    if j < k {
                        assert(le@.subrange(8 * j, 8 * j + 8) =~= before.subrange(8 * j, 8 * j + 8));
                    } else {
                        assert(le@.subrange(8 * j, 8 * j + 8) =~= u64_le_bytes(self.0[j]));
                    }
                }
            }
            k = k + 1;
        }
        proof {
            let b = u512_le_bytes(*self);
            assert forall|i: int| 0 <= i < 64 implies le@[i] == b[i] by {
                let j = i / 8;
                assert(le@.subrange(8 * j, 8 * j + 8)[i - 8 * j] == le@[i]);
                assert(u64_le_bytes(self.0[j])[i - 8 * j] == b[i]);
            }
            assert(le@ =~= b);
        }
        let mut n: usize = 64;
        proof {
            assert(le@.subrange(0, 64) =~= le@);
        }
        while n > 0 && le[n - 1] == 0
            invariant
                0 <= n <= 64,
                le@.len() == 64,
                significant_len(le@) == significant_len(le@.subrange(0, n as int)),
            decreases n,
        {
            proof {
                assert(le@.subrange(0, n as int).drop_last() =~= le@.subrange(0, n - 1));
            }
            n = n - 1;
        }
        proof {
            if n > 0 {
                assert(le@.subrange(0, n as int).last() == le@[n - 1]);
            }
        }
        let mut out: Vec<u8> = Vec::new();
        out.push(n as u8);
        let (significant, _) = le.as_slice().split_at(n);
        write_raw(&mut out, significant);
        proof {
            assert(out@ =~= u512_encoding(*self));
        }
        out
    }

    /// The number whose least significant bytes are `value` and whose other bytes are zero.
    fn from_le_slice(value: &[u8]) -> (r: Self)
        requires
            value@.len() <= 64,
        ensures
            u512_le_bytes(r).subrange(0, value@.len() as int) == value@,
            forall|i: int| value@.len() <= i < 64 ==> #[trigger] u512_le_bytes(r)[i] == 0,
    {
        let k = value.len();
        let mut padded: Vec<u8> = Vec::new();
        write_raw(&mut padded, value);
        while padded.len() < 64
            invariant
                k as int <= padded@.len() <= 64,
                padded@.subrange(0, k as int) == value@,
                value@.len() == k,
                forall|i: int| k <= i < padded@.len() ==> padded@[i] == 0,
            decreases 64 - padded@.len(),
        {
            padded.push(0u8);
            proof {
                assert(padded@.subrange(0, k as int) =~= padded@.drop_last().subrange(0, k as int));
            }
        }
        let mut limbs = [0u64; 8];
        let mut j: usize = 0;
        while j < 8
            invariant
                0 <= j <= 8,
                padded@.len() == 64,
                forall|i: int| 0 <= i < j ==> u64_le_bytes(#[trigger] limbs[i]) == padded@.subrange(8 * i, 8 * i + 8),
            decreases 8 - j,
        {
            let (chunk, _) = padded.as_slice().split_at(8 * j + 8).0.split_at(8 * j).1.split_at(8);
            proof {
                assert(chunk@ =~= padded@.subrange(8 * j, 8 * j + 8));
            }
            match read_u64(chunk) {
                Ok((v, _)) => {
                    limbs[j] = v;
                    proof {
                        assert(chunk@.subrange(0, 8) =~= chunk@);
                    }
                },
                Err(_) => {},
            }
            j = j + 1;
        }
        let x = U512(limbs);
        proof {
            let b = u512_le_bytes(x);
            assert forall|i: int| 0 <= i < 64 implies padded@[i] == b[i] by {
                let q = i / 8;
                assert(u64_le_bytes(limbs[q]) == padded@.subrange(8 * q, 8 * q + 8));
                assert(padded@.subrange(8 * q, 8 * q + 8)[i - 8 * q] == padded@[i]);
                assert(u64_le_bytes(x.0[q])[i - 8 * q] == b[i]);
            }
            assert(padded@ =~= b);
        }
        x
    }

    /// Decodes a number from the front of `bytes`; returns it and what follows it. The
    /// number of bytes may be at most 64, and they may end in zeros.
    pub fn from_bytes(bytes: &[u8]) -> (r: Result<(Self, &[u8]), BytesReprError>)
        ensures
            r matches Ok((x, rest)) ==> bytes@[0] <= 64
                && bytes@ == seq![bytes@[0]] + u512_le_bytes(x).subrange(0, bytes@[0] as int) + rest@
                && (forall|i: int| bytes@[0] <= i < 64 ==> #[trigger] u512_le_bytes(x)[i] == 0),
            forall|x: U512, rest: Seq<u8>| #[trigger] encodes_u512(bytes@, x, rest)
                ==> (r matches Ok((y, r2)) && y == x && r2@ == rest),
    {
        if bytes.len() == 0 {
            return Err(BytesReprError::EarlyEndOfStream);
        }
        let k = bytes[0];
        if k > 64 {
            proof {
                assert forall|x: U512, rest: Seq<u8>| !#[trigger] encodes_u512(bytes@, x, rest) by {
                    if bytes@ == u512_encoding(x) + rest {
                        lemma_significant_len(u512_le_bytes(x));
                        assert(bytes@[0] == u512_encoding(x)[0]);
                    }
                }
            }
            return Err(BytesReprError::Formatting);
        }
        let (_, after) = bytes.split_at(1);
        let (value, rest) = match read_raw(after, k as usize) {
            Ok(v) => v,
            Err(e) => {
                proof {
                    assert forall|x: U512, rest: Seq<u8>| !#[trigger] encodes_u512(bytes@, x, rest) by {
                        if bytes@ == u512_encoding(x) + rest {
                            lemma_significant_len(u512_le_bytes(x));
                            assert(bytes@[0] == u512_encoding(x)[0]);
                        }
                    }
                }
                return Err(e);
            },
        };
        let x = Self::from_le_slice(value);
        proof {
            assert(after@ =~= bytes@.drop_first());
            assert(value@ =~= u512_le_bytes(x).subrange(0, k as int));
            assert(bytes@ =~= seq![k] + u512_le_bytes(x).subrange(0, k as int) + rest@);
            assert forall|y: U512, r2: Seq<u8>| #[trigger] encodes_u512(bytes@, y, r2)
                implies y == x && r2 == rest@ by {
                lemma_u512_decoding_unique(bytes@, k as int, x, rest@, y, r2);
            }
        }
        Ok((x, rest))
    }
}

/// The bytes of the transfer addresses `hs`, one after the other.
pub open spec fn transfers_bytes(hs: Seq<TransferAddr>) -> Seq<u8>
    decreases hs.len(),
{
    if hs.len() == 0 {
        Seq::empty()
    } else {
        transfers_bytes(hs.drop_last()) + hs.last().0@
    }
}

/// The encoding of a list of transfer addresses: their number as a `u32`, then their bytes.
pub open spec fn transfers_encoding(hs: Seq<TransferAddr>) -> Seq<u8> {
    u32_le_bytes(hs.len() as u32) + transfers_bytes(hs)
}

proof fn lemma_transfers_bytes_len(hs: Seq<TransferAddr>)
    ensures
        transfers_bytes(hs).len() == 32 * hs.len(),
    decreases hs.len(),
{
    if hs.len() > 0 {
        lemma_transfers_bytes_len(hs.drop_last());
    }
}

/// The address bytes of `a + b` are those of `a`, then those of `b`.
proof fn lemma_transfers_bytes_append(a: Seq<TransferAddr>, b: Seq<TransferAddr>)
    ensures
        transfers_bytes(a + b) == transfers_bytes(a) + transfers_bytes(b),
    decreases b.len(),
{
    if b.len() == 0 {
        assert(a + b =~= a);
        assert(transfers_bytes(a) + transfers_bytes(b) =~= transfers_bytes(a));
    } else {
        lemma_transfers_bytes_append(a, b.drop_last());
        assert((a + b).drop_last() =~= a + b.drop_last());
        assert(transfers_bytes(a) + transfers_bytes(b) =~= transfers_bytes(a) + transfers_bytes(b.drop_last()) + b.last().0@);
    }
}

/// `bytes` is the encoding of the transfer addresses `hs` followed by `rest`.
pub open spec fn encodes_transfers(bytes: Seq<u8>, hs: Seq<TransferAddr>, rest: Seq<u8>) -> bool {
    &&& bytes == transfers_encoding(hs) + rest
    &&& hs.len() <= u32::MAX
}

/// Appends the encoding of the transfer addresses `hs` to `out`.
fn write_transfers(out: &mut Vec<u8>, hs: &Vec<TransferAddr>)
    requires
        hs@.len() <= u32::MAX,
    ensures
        final(out)@ == old(out)@ + transfers_encoding(hs@),
{
    write_u32(out, hs.len() as u32);
    let ghost start = out@;
    let mut i: usize = 0;
    while i < hs.len()
        invariant
            0 <= i <= hs@.len(),
            out@ == start + transfers_bytes(hs@.subrange(0, i as int)),
        decreases hs@.len() - i,
    {
        write_raw(out, hs[i].0.as_slice());
        proof {
            assert(hs@.subrange(0, i + 1).drop_last() =~= hs@.subrange(0, i as int));
        }
        i = i + 1;
    }
    proof {
        assert(hs@.subrange(0, i as int) =~= hs@);
        assert(out@ =~= old(out)@ + transfers_encoding(hs@));
    }
}

/// Decodes a list of transfer addresses from the front of `bytes`; returns it and what follows.
fn read_transfers(bytes: &[u8]) -> (r: Result<(Vec<TransferAddr>, &[u8]), BytesReprError>)
    ensures
        r matches Ok((hs, rest)) ==> bytes@ == transfers_encoding(hs@) + rest@ && hs@.len() <= u32::MAX,
        forall|hs: Seq<TransferAddr>, rest: Seq<u8>| #[trigger] encodes_transfers(bytes@, hs, rest)
            ==> (r matches Ok((hs2, r2)) && hs2@ == hs && r2@ == rest),
{
    let (count, mut stream) = match read_u32(bytes) {
        Ok(v) => v,
        Err(e) => return Err(e),
    };
    proof {
        assert forall|hs: Seq<TransferAddr>, rest: Seq<u8>| #[trigger] encodes_transfers(bytes@, hs, rest)
            implies hs.len() == count && stream@ == transfers_bytes(hs) + rest by {
            assert(u32_le_bytes(hs.len() as u32) =~= bytes@.subrange(0, 4));
            crate::bytesrepr::lemma_u32_le_bytes_injective(hs.len() as u32, count);
            assert(stream@ =~= transfers_bytes(hs) + rest);
            assert(hs.subrange(0, hs.len() as int) =~= hs);
        }
    }
    let mut result: Vec<TransferAddr> = Vec::new();
    proof {
        assert(transfers_bytes(result@) =~= Seq::<u8>::empty());
        assert(bytes@ =~= u32_le_bytes(count) + transfers_bytes(result@) + stream@);
        assert forall|hs: Seq<TransferAddr>, rest: Seq<u8>| #[trigger] encodes_transfers(bytes@, hs, rest)
            implies hs.len() == count && result@ == hs.subrange(0, 0)
                && stream@ == transfers_bytes(hs.subrange(0, hs.len() as int)) + rest by {
            assert(result@ =~= hs.subrange(0, 0));
            assert(hs.subrange(0, hs.len() as int) =~= hs);
        }
    }
    let mut i: u32 = 0;
    while i < count
        invariant
            0 <= i <= count,
            result@.len() == i,
            bytes@ == u32_le_bytes(count) + transfers_bytes(result@) + stream@,
            forall|hs: Seq<TransferAddr>, rest: Seq<u8>| #[trigger] encodes_transfers(bytes@, hs, rest)
                ==> hs.len() == count && result@ == hs.subrange(0, i as int)
                    && stream@ == transfers_bytes(hs.subrange(i as int, hs.len() as int)) + rest,
        decreases count - i,
    {
        let (h, rem) = match read_raw(stream, 32) {
            Ok(v) => v,
            Err(e) => {
                proof {
                    assert forall|hs: Seq<TransferAddr>, rest: Seq<u8>| !#[trigger] encodes_transfers(bytes@, hs, rest) by {
                        if encodes_transfers(bytes@, hs, rest) {
                            let tail = hs.subrange(i as int, hs.len() as int);
                            lemma_transfers_bytes_len(tail);
                        }
                    }
                }
                return Err(e);
            },
        };
        let a = to_array32(h);
        let addr = TransferAddr(a);
        let ghost old_result = result@;
        let ghost old_stream = stream@;
        result.push(addr);
        stream = rem;
        proof {
            assert(result@.drop_last() =~= old_result);
            assert(old_stream =~= addr.0@ + stream@);
            assert(bytes@ =~= u32_le_bytes(count) + transfers_bytes(result@) + stream@);
            assert forall|hs: Seq<TransferAddr>, rest: Seq<u8>| #[trigger] encodes_transfers(bytes@, hs, rest)
                implies hs.len() == count && result@ == hs.subrange(0, i + 1)
                    && stream@ == transfers_bytes(hs.subrange(i + 1, hs.len() as int)) + rest by {
                let tail = hs.subrange(i as int, hs.len() as int);
                let first = seq![hs[i as int]];
                let later = hs.subrange(i + 1, hs.len() as int);
                assert(tail =~= first + later);
                lemma_transfers_bytes_append(first, later);
                assert(first.drop_last() =~= Seq::<TransferAddr>::empty());
                assert(transfers_bytes(first.drop_last()) =~= Seq::<u8>::empty());
                assert(transfers_bytes(first) =~= hs[i as int].0@);
                assert(old_stream =~= hs[i as int].0@ + (transfers_bytes(later) + rest));
                assert(hs[i as int].0@ =~= old_stream.subrange(0, 32));
                assert(a@ =~= old_stream.subrange(0, 32));
                assert(hs[i as int ].0 =~= a);
                assert(stream@ =~= old_stream.subrange(32, old_stream.len() as int));
                assert(transfers_bytes(later) + rest =~= old_stream.subrange(32, old_stream.len() as int));
                assert(result@ =~= hs.subrange(0, i + 1));
            }
        }
        i = i + 1;
    }
    proof {
        assert forall|hs: Seq<TransferAddr>, rest: Seq<u8>| #[trigger] encodes_transfers(bytes@, hs, rest)
            implies result@ == hs && stream@ == rest by {
            assert(hs.subrange(0, i as int) =~= hs);
            assert(hs.subrange(i as int, hs.len() as int) =~= Seq::<TransferAddr>::empty());
            assert(transfers_bytes(Seq::<TransferAddr>::empty()) + rest =~= rest);
        }
        assert(bytes@ =~= transfers_encoding(result@) + stream@);
    }
    Ok((result, stream))
}

/// Information about an executed deploy.
#[derive(Debug, Clone, PartialEq, Eq)]
pub struct DeployInfo {
    /// The deploy.
    pub deploy_hash: DeployHash,
    /// The transfers that the deploy made.
    pub transfers: Vec<TransferAddr>,
    /// The account that created the deploy.
    pub from: AccountHash,
    /// The purse that paid for the deploy.
    pub source: URef,
    /// The gas that executing the deploy cost.
    pub gas: U512,
}

/// What follows the transfers in the encoding of `d`, and then `rest`.
pub open spec fn info_after_transfers(d: DeployInfo, rest: Seq<u8>) -> Seq<u8> {
    d.from.0@ + (d.source.addr@ + (seq![d.source.access_rights] + (u512_encoding(d.gas) + rest)))
}

/// The encoding of deploy information but its gas: deploy hash, transfers, account and purse,
/// in that order.
pub open spec fn info_prefix(d: DeployInfo) -> Seq<u8> {
    d.deploy_hash.0.0@ + transfers_encoding(d.transfers@) + d.from.0@ + d.source.addr@
        + seq![d.source.access_rights]
}

/// The encoding of deploy information: `info_prefix`, then the gas.
pub open spec fn info_encoding(d: DeployInfo) -> Seq<u8> {
    info_prefix(d) + u512_encoding(d.gas)
}

/// `x` written with `k` bytes: `k`, then the `k` least significant bytes of `x`.
pub open spec fn u512_form(x: U512, k: u8) -> Seq<u8> {
    seq![k] + u512_le_bytes(x).subrange(0, k as int)
}

/// The length of the encoding of `d`.
pub open spec fn info_encoded_len(d: DeployInfo) -> int {
    (102 + 32 * d.transfers@.len() + significant_len(u512_le_bytes(d.gas))) as int
}

/// `bytes` is the encoding of `d` followed by `rest`.
pub open spec fn encodes_info(bytes: Seq<u8>, d: DeployInfo, rest: Seq<u8>) -> bool {
    &&& bytes == info_encoding(d) + rest
    &&& d.transfers@.len() <= u32::MAX
}

/// `a` and `b` hold the same values.
pub open spec fn same_info(a: DeployInfo, b: DeployInfo) -> bool {
    &&& a.deploy_hash == b.deploy_hash
    &&& a.transfers@ == b.transfers@
    &&& a.from == b.from
    &&& a.source == b.source
    &&& a.gas == b.gas
}

proof fn lemma_info_encoding_parts(d: DeployInfo, rest: Seq<u8>)
    ensures
        info_encoding(d) + rest == d.deploy_hash.0.0@ + (transfers_encoding(d.transfers@) + info_after_transfers(d, rest)),
        info_encoding(d).len() == info_encoded_len(d),
{
    assert(info_encoding(d) + rest =~= d.deploy_hash.0.0@ + (transfers_encoding(d.transfers@) + info_after_transfers(d, rest)));
    lemma_transfers_bytes_len(d.transfers@);
    lemma_significant_len(u512_le_bytes(d.gas));
}

/// Decodes an account hash and a purse from the front of `bytes`; returns them and what
/// follows.
fn read_account_and_purse(bytes: &[u8]) -> (r: Result<((AccountHash, URef), &[u8]), BytesReprError>)
    ensures
        bytes@.len() < 65 ==> r is Err,
        bytes@.len() >= 65 ==> (r matches Ok(((a, u), rest))
            && bytes@ == a.0@ + (u.addr@ + (seq![u.access_rights] + rest@))),
{
    let (a, rem) = match read_raw(bytes, 32) {
        Ok(v) => v,
        Err(e) => return Err(e),
    };
    let (u, rem2) = match read_raw(rem, 32) {
        Ok(v) => v,
        Err(e) => return Err(e),
    };
    let (rights, rest) = match read_raw(rem2, 1) {
        Ok(v) => v,
        Err(e) => return Err(e),
    };
    let account = AccountHash(to_array32(a));
    let purse = URef { addr: to_array32(u), access_rights: rights[0] };
    proof {
        assert(bytes@ =~= account.0@ + (purse.addr@ + (seq![purse.access_rights] + rest@)));
    }
    Ok(((account, purse), rest))
}

proof fn lemma_account_and_purse_unique(d: DeployInfo, rest: Seq<u8>, a: AccountHash, u: URef, r: Seq<u8>)
    requires
        info_after_transfers(d, rest) == a.0@ + (u.addr@ + (seq![u.access_rights] + r)),
    ensures
        d.from == a,
        d.source == u,
        u512_encoding(d.gas) + rest == r,
{
    let s = info_after_transfers(d, rest);
    assert(d.from.0@ =~= s.subrange(0, 32));
    assert(a.0@ =~= s.subrange(0, 32));
    assert(d.from.0 =~= a.0);
    assert(d.source.addr@ =~= s.subrange(32, 64));
    assert(u.addr@ =~= s.subrange(32, 64));
    assert(d.source.addr =~= u.addr);
    assert(s[64] == d.source.access_rights);
    assert(s[64] == u.access_rights);
    assert(u512_encoding(d.gas) + rest =~= s.subrange(65, s.len() as int));
    assert(r =~= s.subrange(65, s.len() as int));
}

impl DeployInfo {
    pub fn new(
        deploy_hash: DeployHash,
        transfers: &[TransferAddr],
        from: AccountHash,
        source: URef,
        gas: U512,
    ) -> (r: Self)
        ensures
            r.deploy_hash == deploy_hash,
            r.transfers@ == transfers@,
            r.from == from,
            r.source == source,
            r.gas == gas,
    {
        let transfers = vstd::slice::slice_to_vec(transfers);
        DeployInfo { deploy_hash, transfers, from, source, gas }
    }

    /// The length of the encoding.
    pub fn serialized_length(&self) -> (r: usize)
        requires
            167 + 32 * self.transfers@.len() <= usize::MAX,
        ensures
            r == info_encoded_len(*self),
    {
        let gas = self.gas.to_bytes();
        proof {
            lemma_significant_len(u512_le_bytes(self.gas));
        }
        32 + 4 + 32 * self.transfers.len() + 32 + 33 + gas.len()
    }

    /// Appends the encoding to `writer`; fails, writing nothing, if the number of transfers
    /// does not fit a `u32`.
    pub fn write_bytes(&self, writer: &mut Vec<u8>) -> (r: Result<(), BytesReprError>)
        ensures
            self.transfers@.len() <= u32::MAX ==> r is Ok && final(writer)@ == old(writer)@ + info_encoding(*self),
            self.transfers@.len() > u32::MAX ==> r == Err::<(), BytesReprError>(BytesReprError::NotRepresentable)
                && final(writer)@ == old(writer)@,
    {
        if self.transfers.len() > 0xffff_ffff {
            return Err(BytesReprError::NotRepresentable);
        }
        write_raw(writer, self.deploy_hash.0.0.as_slice());
        write_transfers(writer, &self.transfers);
        write_raw(writer, self.from.0.as_slice());
        write_raw(writer, self.source.addr.as_slice());
        writer.push(self.source.access_rights);
        let gas = self.gas.to_bytes();
        write_raw(writer, gas.as_slice());
        proof {
            assert(final(writer)@ =~= old(writer)@ + info_encoding(*self));
        }
        Ok(())
    }

    /// The encoding; fails if it would be longer than allowed.
    pub fn to_bytes(&self) -> (r: Result<Vec<u8>, BytesReprError>)
        ensures
            info_encoded_len(*self) > u32::MAX ==> r == Err::<Vec<u8>, BytesReprError>(BytesReprError::OutOfMemory),
            info_encoded_len(*self) <= u32::MAX ==> (r matches Ok(b) && b@ == info_encoding(*self)),
    {
        let n = self.transfers.len();
        let gas_len = self.gas.to_bytes().len();
        proof {
            lemma_significant_len(u512_le_bytes(self.gas));
            lemma_info_encoding_parts(*self, Seq::empty());
        }
        if n > 0x07ff_ffff || 101 + 32 * (n as u64) + (gas_len as u64) > 0xffff_ffff {
            return Err(BytesReprError::OutOfMemory);
        }
        let mut out: Vec<u8> = Vec::new();
        match self.write_bytes(&mut out) {
            Ok(()) => {},
            Err(e) => return Err(e),
        }
        Ok(out)
    }

    /// Decodes deploy information from the front of `bytes`; returns it and what follows it.
    /// It succeeds exactly when `bytes` starts with such an encoding.
    pub fn from_bytes(bytes: &[u8]) -> (r: Result<(Self, &[u8]), BytesReprError>)
        ensures
            r matches Ok((d, rest)) ==> bytes@ == info_prefix(d) + u512_form(d.gas, bytes@[info_prefix(d).len() as int]) + rest@,
            forall|d: DeployInfo, rest: Seq<u8>| #[trigger] encodes_info(bytes@, d, rest)
                ==> (r matches Ok((d2, r2)) && same_info(d, d2) && r2@ == rest),
    {
        let (hash_bytes, rem1) = match read_raw(bytes, 32) {
            Ok(v) => v,
            Err(e) => {
                proof {
                    assert forall|d: DeployInfo, rest: Seq<u8>| !#[trigger] encodes_info(bytes@, d, rest) by {
                        if encodes_info(bytes@, d, rest) {
                            lemma_info_encoding_parts(d, rest);
                        }
                    }
                }
                return Err(e);
            },
        };
        let deploy_hash = DeployHash(Digest(to_array32(hash_bytes)));
        proof {
            assert forall|d: DeployInfo, rest: Seq<u8>| #[trigger] encodes_info(bytes@, d, rest)
                implies d.deploy_hash == deploy_hash
                    && encodes_transfers(rem1@, d.transfers@, info_after_transfers(d, rest)) by {
                lemma_info_encoding_parts(d, rest);
                assert(d.deploy_hash.0.0@ =~= bytes@.subrange(0, 32));
                assert(d.deploy_hash.0.0 =~= deploy_hash.0.0);
                assert(rem1@ =~= transfers_encoding(d.transfers@) + info_after_transfers(d, rest));
            }
        }
        let (transfers, rem2) = match read_transfers(rem1) {
            Ok(v) => v,
            Err(e) => {
                proof {
                    assert forall|d: DeployInfo, rest: Seq<u8>| !#[trigger] encodes_info(bytes@, d, rest) by {
                        if encodes_info(bytes@, d, rest) {
                            assert(encodes_transfers(rem1@, d.transfers@, info_after_transfers(d, rest)));
                        }
                    }
                }
                return Err(e);
            },
        };
        let ((from, source), rem3) = match read_account_and_purse(rem2) {
            Ok(v) => v,
            Err(e) => {
                proof {
                    assert forall|d: DeployInfo, rest: Seq<u8>| !#[trigger] encodes_info(bytes@, d, rest) by {
                        if encodes_info(bytes@, d, rest) {
                            assert(encodes_transfers(rem1@, d.transfers@, info_after_transfers(d, rest)));
                            assert(info_after_transfers(d, rest).len() >= 65);
                        }
                    }
                }
                return Err(e);
            },
        };
        proof {
            assert forall|d: DeployInfo, rest: Seq<u8>| #[trigger] encodes_info(bytes@, d, rest)
                implies d.transfers@ == transfers@ && d.from == from && d.source == source
                    && encodes_u512(rem3@, d.gas, rest) by {
                assert(encodes_transfers(rem1@, d.transfers@, info_after_transfers(d, rest)));
                lemma_account_and_purse_unique(d, rest, from, source, rem3@);
            }
        }
        let (gas, rest) = match U512::from_bytes(rem3) {
            Ok(v) => v,
            Err(e) => {
                proof {
                    assert forall|d: DeployInfo, r: Seq<u8>| !#[trigger] encodes_info(bytes@, d, r) by {
                        if encodes_info(bytes@, d, r) {
                            assert(encodes_u512(rem3@, d.gas, r));
                        }
                    }
                }
                return Err(e);
            },
        };
        let info = DeployInfo { deploy_hash, transfers, from, source, gas };
        proof {
            assert forall|d: DeployInfo, r: Seq<u8>| #[trigger] encodes_info(bytes@, d, r)
                implies same_info(d, info) && rest@ == r by {
                assert(encodes_u512(rem3@, d.gas, r));
            }
            assert(rem3@ =~= u512_form(gas, rem3@[0]) + rest@);
            assert(bytes@ =~= hash_bytes@ + rem1@);
            assert(hash_bytes@ == info.deploy_hash.0.0@);
            assert(rem1@ == transfers_encoding(transfers@) + rem2@);
            assert(rem2@ == from.0@ + (source.addr@ + (seq![source.access_rights] + rem3@)));
            assert(bytes@ =~= info_prefix(info) + rem3@);
            assert(bytes@[info_prefix(info).len() as int] == rem3@[0]);
        }
        Ok((info, rest))
    }
}

} // verus!
