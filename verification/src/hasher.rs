//! The blob identifier: SHA-256 and BLAKE3 digests folded together by XOR,
//! a 32-bit checksum seeded with the blob length, and the length itself,
//! encoded to a 50-symbol printable identifier.

use vstd::prelude::*;
use crate::base64;
use sha2::Digest;

verus! {

/// What `sha2::Sha256` returns for a byte sequence.
pub uninterp spec fn sha256_of(data: Seq<u8>) -> Seq<u8>;

/// What `blake3::hash` returns for a byte sequence.
pub uninterp spec fn blake3_of(data: Seq<u8>) -> Seq<u8>;

/// Relies on `sha2::Sha256`: a 32-byte digest that depends on the input
/// bytes alone.
#[verifier::external_body]
pub fn sha256(data: &[u8]) -> (r: Vec<u8>)
    ensures
        r@ == sha256_of(data@),
        r@.len() == 32,
{
    sha2::Sha256::digest(data).to_vec()
}

/// Relies on `blake3::hash`: a 32-byte digest that depends on the input
/// bytes alone.
#[verifier::external_body]
pub fn blake3(data: &[u8]) -> (r: Vec<u8>)
    ensures
        r@ == blake3_of(data@),
        r@.len() == 32,
{
    ::blake3::hash(data).as_bytes().to_vec()
}

/// Bytewise exclusive or.
pub open spec fn xor_bytes(a: Seq<u8>, b: Seq<u8>) -> Seq<u8> {
    Seq::new(a.len(), |i: int| a[i] ^ b[i])
}

/// Bytewise exclusive or of two equally long byte strings.
pub fn xor(a: &[u8], b: &[u8]) -> (r: Vec<u8>)
    requires
        a@.len() == b@.len(),
    ensures
        r@ == xor_bytes(a@, b@),
{
    let n = a.len();
    let mut rv: Vec<u8> = Vec::new();
    let mut i: usize = 0;
    while i < n
        invariant
            i <= n,
            n == a@.len() == b@.len(),
            rv@ =~= xor_bytes(a@, b@).take(i as int),
        decreases n - i,
    {
        rv.push(a[i] ^ b[i]);
        i += 1;
    }
    proof {
        assert(rv@ =~= xor_bytes(a@, b@));
    }
    rv
}

/// One round of the rolling checksum: `h' = c + (h << 6) + (h << 16) - h`
/// in wrapping 32-bit arithmetic, which is `c + h * 65599 (mod 2^32)`.
pub open spec fn checksum_step(h: u32, c: u8) -> u32 {
    (((c as int) + (h as int) * 65599) % 0x100000000) as u32
}

/// The rolling checksum folded over a byte sequence from the left.
pub open spec fn checksum_fold(s: Seq<u8>, h: u32) -> u32
    decreases s.len(),
{
    if s.len() == 0 {
        h
    } else {
        checksum_fold(s.skip(1), checksum_step(h, s[0]))
    }
}

/// The checksum of a byte sequence, seeded with a length.
pub open spec fn checksum_of(s: Seq<u8>, length: u32) -> u32 {
    checksum_fold(s, length)
}

/// The rolling checksum as a native 32-bit value.
pub fn checksum_u32(data: &[u8], length: u32) -> (r: u32)
    ensures
        r == checksum_of(data@, length),
{
    let n = data.len();
    let mut h: u32 = length;
    let mut i: usize = 0;
    proof {
        assert(data@.skip(0) =~= data@);
    }
    while i < n
        invariant
            i <= n,
            n == data@.len(),
            checksum_of(data@, length) == checksum_fold(data@.skip(i as int), h),
        decreases n - i,
    {
        let c = data[i];
        let t: u64 = (c as u64) + (h as u64) * 65599;
        let h2: u32 = (t % 0x100000000) as u32;
        proof {
            let rem = data@.skip(i as int);
            assert(rem.len() > 0);
            assert(rem[0] == c);
            assert(rem.skip(1) =~= data@.skip(i as int + 1));
            assert(h2 == checksum_step(h, c));
        }
        h = h2;
        i += 1;
    }
    proof {
        assert(data@.skip(n as int).len() == 0);
    }
    h
}

/// The rolling checksum as four little-endian bytes.
pub fn checksum(data: &[u8], length: u32) -> (r: Vec<u8>)
    ensures
        r@ == crate::le::u32_le(checksum_of(data@, length)),
        r@.len() == 4,
{
    let h = checksum_u32(data, length);
    crate::le::u32_to_le(h)
}

/// A digest sequence forced to 32 bytes, so that the envelope below is
/// well formed whatever is known about the digest names.
pub open spec fn norm32(x: Seq<u8>) -> Seq<u8> {
    if x.len() == 32 {
        x
    } else {
        Seq::new(32, |i: int| 0u8)
    }
}

/// The 38-byte envelope of a blob: the folded digests, their checksum
/// seeded with the blob length, and the length, little-endian.
pub open spec fn envelope(s: Seq<u8>) -> Seq<u8> {
    let x = xor_bytes(norm32(sha256_of(s)), norm32(blake3_of(s)));
    x + crate::le::u32_le(checksum_of(x, s.len() as u32)) + crate::le::u16_le(s.len() as u16)
}

/// The 50-symbol identifier of a blob.
pub open spec fn hash_of(s: Seq<u8>) -> Seq<u8> {
    base64::encode64(envelope(s)).take(50)
}

/// The number of symbols the codec produces.
pub proof fn lemma_encode64_len(s: Seq<u8>)
    ensures
        base64::encode64(s).len() == (4 * s.len() + 2) / 3,
    decreases s.len(),
{
    if s.len() >= 3 {
        lemma_encode64_len(s.skip(3));
    }
}

/// The number of bytes the codec recovers.
pub proof fn lemma_decode64_len(s: Seq<u8>)
    ensures
        base64::decode64(s).len() == 3 * s.len() / 4,
    decreases s.len(),
{
    if s.len() >= 4 {
        lemma_decode64_len(s.skip(4));
    }
}

/// The identifier of a blob of at most 65535 bytes.
pub fn hash(data: &[u8]) -> (r: Vec<u8>)
    requires
        data@.len() <= 65535,
    ensures
        r@ == hash_of(data@),
        r@.len() == 50,
{
    let shasum = sha256(data);
    let blasum = blake3(data);
    let xored = xor(shasum.as_slice(), blasum.as_slice());
    let length: u16 = data.len() as u16;
    let cs = checksum(xored.as_slice(), length as u32);
    let lb = crate::le::u16_to_le(length);
    let mut vec: Vec<u8> = Vec::new();
    vec.extend_from_slice(xored.as_slice());
    vec.extend_from_slice(cs.as_slice());
    vec.extend_from_slice(lb.as_slice());
    proof {
        assert(norm32(sha256_of(data@)) == sha256_of(data@));
        assert(norm32(blake3_of(data@)) == blake3_of(data@));
        assert(vec@ =~= envelope(data@));
        lemma_encode64_len(vec@);
    }
    let encoded = base64::encode(vec.as_slice());
    let mut out: Vec<u8> = Vec::new();
    let mut i: usize = 0;
    while i < 50
        invariant
            i <= 50,
            encoded@.len() == 51,
            encoded@ == base64::encode64(envelope(data@)),
            out@ =~= encoded@.take(i as int),
        decreases 50 - i,
    {
        out.push(encoded[i]);
        i += 1;
    }
    proof {
        assert(out@ =~= hash_of(data@));
    }
    out
}

/// What the integrity check states of a 50-symbol identifier: the stored
/// checksum field matches the checksum recomputed from the decoded folded
/// digests and the decoded low length byte.
pub open spec fn verify_of(h: Seq<u8>) -> bool {
    let bytes = base64::decode64(h);
    let xored = bytes.subrange(0, 32);
    let length = bytes[36] as u32;
    bytes.subrange(32, 36) == crate::le::u32_le(checksum_of(xored, length))
}

/// A blob's identifier passes the integrity check, for every blob short
/// enough that its length survives the decoding of the 50-symbol prefix:
/// the low length byte is the whole length exactly when the blob is
/// shorter than 256 bytes.
pub proof fn lemma_verify_hash(s: Seq<u8>)
    requires
        s.len() < 256,
    ensures
        verify_of(hash_of(s)),
{
    let env = envelope(s);
    let x = xor_bytes(norm32(sha256_of(s)), norm32(blake3_of(s)));
    assert(env.len() == 38);
    lemma_encode64_len(env);
    assert(env.len() % 3 == 2);
    base64::lemma_decode_encode_prefix2(env);
    assert(hash_of(s) == base64::encode64(env).take(50));
    let bytes = base64::decode64(hash_of(s));
    assert(bytes == env.take(37));
    assert(bytes.subrange(0, 32) =~= x);
    assert(bytes[36] == env[36]);
    assert(env[36] == crate::le::u16_le(s.len() as u16)[0]);
    crate::le::lemma_u16_le_low_byte(s.len() as u16);
    assert(bytes[36] as u32 == s.len() as u32);
    assert(bytes.subrange(32, 36) =~= crate::le::u32_le(checksum_of(x, s.len() as u32)));
}

/// Recomputes the checksum inside an identifier and compares it with the
/// stored checksum field.
pub fn verify_hash_integrity(hash: &[u8]) -> (r: bool)
    requires
        hash@.len() == 50,
    ensures
        r == verify_of(hash@),
{
    proof {
        lemma_decode64_len(hash@);
    }
    let bytes = base64::decode(hash);
    let xored = &bytes.as_slice()[0..32];
    let length = bytes[36] as u32;
    let cs = checksum(xored, length);
    let mut i: usize = 0;
    while i < 4
        invariant
            i <= 4,
            bytes@.len() == 37,
            cs@.len() == 4,
            bytes@ == base64::decode64(hash@),
            cs@ == crate::le::u32_le(checksum_of(bytes@.subrange(0, 32), bytes@[36] as u32)),
            forall|j: int| 0 <= j < i ==> cs@[j] == bytes@[32 + j],
        decreases 4 - i,
    {
        if cs[i] != bytes[32 + i] {
            proof {
                assert(bytes@.subrange(32, 36)[i as int] != cs@[i as int]);
            }
            return false;
        }
        i += 1;
    }
    proof {
        assert(bytes@.subrange(32, 36) =~= cs@);
    }
    true
}

} // verus!
