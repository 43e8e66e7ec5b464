//! A Pedersen hasher over the Starkware curve's base field: byte strings are
//! chained through the two-argument Pedersen hash, 32 bytes at a time, with
//! the chunk count appended.

use vstd::prelude::*;

verus! {

use vstd::arithmetic::power::{lemma_pow0, lemma_pow1, lemma_pow_adds, pow};
use vstd::bytes::{spec_u64_to_le_bytes, u64_to_le_bytes};
use vstd::slice::slice_subrange;
use crate::hashing::ByteDigest;

/// The modulus of the Starkware base field: `2^251 + 17*2^192 + 1`.
pub open spec fn stark_prime() -> int {
    0x800000000000011000000000000000000000000000000000000000000000001int
}

/// The big-endian integer value of a byte string.
pub open spec fn be_val(s: Seq<u8>) -> int
    decreases s.len(),
{
    if s.len() == 0 {
        0
    } else {
        be_val(s.drop_last()) * 256 + s.last()
    }
}

/// The bytes of a 32-byte string, reversed.
pub open spec fn reverse32(s: Seq<u8>) -> Seq<u8> {
    Seq::new(32, |k: int| s[31 - k])
}

/// The `i`-th 32-byte chunk.
pub open spec fn chunk_of(bytes: Seq<u8>, i: int) -> Seq<u8> {
    bytes.subrange(32 * i, 32 * i + 32)
}

/// Thirty-two zero bytes: the chain's start.
pub open spec fn zeros32() -> Seq<u8> {
    Seq::new(32, |k: int| 0u8)
}

/// The 32-byte big-endian encoding of a 64-bit count.
pub open spec fn be32_of_u64(v: u64) -> Seq<u8> {
    Seq::new(
        32,
        |k: int|
            if 24 <= k < 32 {
                spec_u64_to_le_bytes(v)[31 - k]
            } else {
                0u8
            },
    )
}

/// What the curve's two-argument Pedersen hash returns on the big-endian
/// encodings of two field elements; a function of those bytes alone.
pub uninterp spec fn pedersen_of(a: Seq<u8>, b: Seq<u8>) -> Seq<u8>;

/// The running chain value after hashing the first `n` chunks.
pub open spec fn pedersen_chain(bytes: Seq<u8>, n: int) -> Seq<u8>
    decreases n,
{
    if n <= 0 {
        zeros32()
    } else {
        pedersen_of(pedersen_chain(bytes, n - 1), reverse32(chunk_of(bytes, n - 1)))
    }
}

/// The full digest: the chain over every chunk, the chunk count appended,
/// and the result's bytes reversed into little-endian order.
pub open spec fn pedersen_digest(bytes: Seq<u8>) -> Seq<u8> {
    let n = bytes.len() as int / 32;
    reverse32(pedersen_of(pedersen_chain(bytes, n), be32_of_u64(n as u64)))
}

/// A digest in the hasher's little-endian order stands for a canonical field
/// element: its byte-reversal encodes an integer below the modulus. Every
/// digest this module produces satisfies it, so digests can be chained into
/// `Pedersen_256::merge`.
pub open spec fn digest_canonical(d: Seq<u8>) -> bool {
    be_val(reverse32(d)) < stark_prime()
}

/// Every 32-byte chunk, read little-endian, is a canonical field element.
pub open spec fn chunks_canonical(bytes: Seq<u8>) -> bool {
    forall|i: int|
        0 <= i < bytes.len() as int / 32 ==> be_val(reverse32(#[trigger] chunk_of(bytes, i)))
            < stark_prime()
}

/// Relies on `starknet_crypto::pedersen_hash` and
/// `starknet_ff::FieldElement::{from_bytes_be, to_bytes_be}`: the hash of two
/// canonical big-endian field elements is a function of their bytes alone,
/// and its big-endian encoding is again canonical.
#[verifier::external_body]
fn pedersen_pair(a: &[u8; 32], b: &[u8; 32]) -> (r: [u8; 32])
    requires
        be_val(a@) < stark_prime(),
        be_val(b@) < stark_prime(),
    ensures
        r@ == pedersen_of(a@, b@),
        r@.len() == 32,
        0 <= be_val(r@) < stark_prime(),
{
    let fa = starknet_ff::FieldElement::from_bytes_be(a).unwrap();
    let fb = starknet_ff::FieldElement::from_bytes_be(b).unwrap();
    starknet_crypto::pedersen_hash(&fa, &fb).to_bytes_be()
}

/// A byte string of zeros stands for zero.
proof fn lemma_be_val_zeros(n: nat)
    ensures
        be_val(Seq::new(n, |k: int| 0u8)) == 0,
    decreases n,
{
    if n > 0 {
        lemma_be_val_zeros((n - 1) as nat);
        assert(Seq::new(n, |k: int| 0u8).drop_last() =~= Seq::new((n - 1) as nat, |k: int| 0u8));
    }
}

/// A byte string whose first `m` bytes are zero is smaller than
/// `256^(len - m)`.
proof fn lemma_be_val_zero_prefix(s: Seq<u8>, m: int)
    requires
        0 <= m <= s.len(),
        forall|k: int| 0 <= k < m ==> s[k] == 0,
    ensures
        0 <= be_val(s) < pow(256, (s.len() - m) as nat),
    decreases s.len(),
{
    if s.len() == 0 {
        lemma_pow0(256);
    } else if s.len() == m {
        lemma_be_val_zero_prefix(s.drop_last(), m - 1);
        lemma_pow0(256);
        assert(be_val(s.drop_last()) == 0);
        assert(s.last() == 0);
    } else {
        lemma_be_val_zero_prefix(s.drop_last(), m);
        let e = (s.len() - 1 - m) as nat;
        lemma_pow1(256);
        lemma_pow_adds(256, 1, e);
        assert(pow(256, (s.len() - m) as nat) == 256 * pow(256, e));
        assert(be_val(s.drop_last()) * 256 + s.last() < 256 * pow(256, e)) by (nonlinear_arith)
            requires
                0 <= be_val(s.drop_last()) < pow(256, e),
                0 <= s.last() < 256,
        ;
    }
}

/// The appended chunk count is a canonical field element.
proof fn lemma_be32_of_u64_canonical(v: u64)
    ensures
        0 <= be_val(be32_of_u64(v)) < stark_prime(),
{
    vstd::bytes::lemma_auto_spec_u64_to_from_le_bytes();
    lemma_be_val_zero_prefix(be32_of_u64(v), 24);
    assert(pow(256, 2) == 65536) by {
        lemma_pow1(256);
        lemma_pow_adds(256, 1, 1);
    };
    assert(pow(256, 4) == 0x1_0000_0000) by {
        lemma_pow_adds(256, 2, 2);
    };
    assert(pow(256, 8) == 0x1_0000_0000_0000_0000) by {
        lemma_pow_adds(256, 4, 4);
    };
}

/// Build the 32-byte big-endian encoding of a 64-bit value.
fn be32_bytes(value: u64) -> (r: [u8; 32])
    ensures
        r@ == be32_of_u64(value),
{
    let mut out = [0u8; 32];
    let le = u64_to_le_bytes(value);
    let mut j: usize = 0;
    while j < 8
        invariant
            le@ == spec_u64_to_le_bytes(value),
            le@.len() == 8,
            j <= 8,
            forall|k: int| 0 <= k < j ==> out@[31 - k] == le@[k],
            forall|k: int| 0 <= k < 32 - j ==> out@[k] == 0,
        decreases 8 - j,
    {
        out[31 - j] = le[j];
        j += 1;
    }
    proof {
        assert(out@ =~= be32_of_u64(value));
    }
    out
}

/// A canonical element of the Starkware base field, held as its 32-byte
/// big-endian encoding, always smaller than the modulus.
#[derive(Clone, Copy, PartialEq, Eq, Debug)]
pub struct Felt252 {
    bytes: [u8; 32],
}

impl View for Felt252 {
    type V = Seq<u8>;

    closed spec fn view(&self) -> Seq<u8> {
        self.bytes@
    }
}

impl Felt252 {
    #[verifier::type_invariant]
    spec fn canonical(self) -> bool {
        be_val(self.bytes@) < stark_prime()
    }

    /// The element standing for a 64-bit integer.
    pub fn from_u64(value: u64) -> (r: Felt252)
        ensures
            r@ == be32_of_u64(value),
    {
        let bytes = be32_bytes(value);
        proof {
            lemma_be32_of_u64_canonical(value);
        }
        Felt252 { bytes }
    }

    /// The element's big-endian bytes.
    pub fn to_bytes_be(&self) -> (r: [u8; 32])
        ensures
            r@ == self@,
    {
        self.bytes
    }
}

/// The little-endian encodings of a sequence of field elements, laid end to
/// end: the byte string `hash_elements` chains.
pub open spec fn elements_le_bytes(s: Seq<Felt252>) -> Seq<u8>
    decreases s.len(),
{
    if s.len() == 0 {
        Seq::empty()
    } else {
        elements_le_bytes(s.drop_last()) + reverse32(s.last()@)
    }
}

/// Copy `value` into the head of `out`, reversing the byte order; the rest
/// of `out` is untouched.
pub fn write_be_bytes(value: &[u8], out: &mut [u8; 32])
    requires
        value@.len() <= 32,
    ensures
        forall|k: int| 0 <= k < value@.len() ==> final(out)@[k] == value@[value@.len() - 1 - k],
        forall|k: int| value@.len() <= k < 32 ==> final(out)@[k] == old(out)@[k],
{
    let n = value.len();
    let mut i: usize = 0;
    while i < n
        invariant
            n == value@.len(),
            n <= 32,
            i <= n,
            forall|k: int| 0 <= k < i ==> out@[k] == value@[n - 1 - k],
            forall|k: int| i <= k < 32 ==> out@[k] == old(out)@[k],
        decreases n - i,
    {
        out[i] = value[n - 1 - i];
        i += 1;
    }
}

/// Hash a byte string of whole 32-byte little-endian chunks: chain every
/// chunk through the Pedersen hash, append the chunk count, and return the
/// digest in little-endian order.
pub fn pedersen_hash(bytes: &[u8]) -> (r: [u8; 32])
    requires
        bytes@.len() % 32 == 0,
        bytes@.len() <= 0xFFFF_FFFF,
        chunks_canonical(bytes@),
    ensures
        r@ == pedersen_digest(bytes@),
        digest_canonical(r@),
{
    let n = bytes.len() / 32;
    proof {
        vstd::arithmetic::div_mod::lemma_fundamental_div_mod(bytes@.len() as int, 32);
    }
    let mut hash = [0u8; 32];
    proof {
        lemma_be_val_zeros(32);
        assert(hash@ =~= zeros32());
        assert(hash@ == pedersen_chain(bytes@, 0));
    }
    let mut i: usize = 0;
    while i < n
        invariant
            n == bytes@.len() as int / 32,
            bytes@.len() % 32 == 0,
            bytes@.len() <= 0xFFFF_FFFF,
            chunks_canonical(bytes@),
            i <= n,
            32 * n == bytes@.len(),
            hash@ == pedersen_chain(bytes@, i as int),
            be_val(hash@) >= 0,
            be_val(hash@) < stark_prime(),
        decreases n - i,
    {
        proof {
            assert(32 * i + 32 <= 32 * n) by (nonlinear_arith)
                requires i < n,
            ;
        }
        let piece = slice_subrange(bytes, 32 * i, 32 * i + 32);
        let mut chunk = [0u8; 32];
        write_be_bytes(piece, &mut chunk);
        proof {
            assert(chunk@ =~= reverse32(chunk_of(bytes@, i as int)));
        }
        hash = pedersen_pair(&hash, &chunk);
        i += 1;
    }
    let mut len_be = [0u8; 32];
    let len_le = u64_to_le_bytes(n as u64);
    let mut j: usize = 0;
    while j < 8
        invariant
            len_le@ == spec_u64_to_le_bytes(n as u64),
            len_le@.len() == 8,
            j <= 8,
            forall|k: int| 0 <= k < j ==> len_be@[31 - k] == len_le@[k],
            forall|k: int| 0 <= k < 32 - j ==> len_be@[k] == 0,
        decreases 8 - j,
    {
        len_be[31 - j] = len_le[j];
        j += 1;
    }
    proof {
        vstd::bytes::lemma_auto_spec_u64_to_from_le_bytes();
        assert(len_be@ =~= be32_of_u64(n as u64));
        lemma_be32_of_u64_canonical(n as u64);
    }
    let sealed = pedersen_pair(&hash, &len_be);
    let mut digest = [0u8; 32];
    write_be_bytes(sealed.as_slice(), &mut digest);
    proof {
        assert(digest@ =~= reverse32(sealed@));
        assert(reverse32(digest@) =~= sealed@);
    }
    digest
}

/// A Pedersen-based hasher with 256-bit digests, for data whose 32-byte
/// chunks are canonical field elements in little-endian order.
pub struct Pedersen_256;

impl Pedersen_256 {
    /// The Pedersen digest of the byte string.
    pub fn hash(bytes: &[u8]) -> (r: ByteDigest)
        requires
            bytes@.len() % 32 == 0,
            bytes@.len() <= 0xFFFF_FFFF,
            chunks_canonical(bytes@),
        ensures
            r@ == pedersen_digest(bytes@),
            digest_canonical(r@),
    {
        ByteDigest(pedersen_hash(bytes))
    }

    /// Bind two digests into one.
    pub fn merge(values: &[ByteDigest; 2]) -> (r: ByteDigest)
        requires
            digest_canonical(values@[0]@),
            digest_canonical(values@[1]@),
        ensures
            r@ == pedersen_digest(values@[0]@ + values@[1]@),
            digest_canonical(r@),
    {
        let mut bytes: Vec<u8> = Vec::new();
        bytes.extend_from_slice(values[0].0.as_slice());
        bytes.extend_from_slice(values[1].0.as_slice());
        proof {
            assert(bytes@ =~= values@[0]@ + values@[1]@);
            assert(chunk_of(bytes@, 0) =~= values@[0]@);
            assert(chunk_of(bytes@, 1) =~= values@[1]@);
        }
        Pedersen_256::hash(bytes.as_slice())
    }

    /// Bind a digest and an integer, the integer laid out little-endian in a
    /// 32-byte chunk.
    pub fn merge_with_int(seed: ByteDigest, value: u64) -> (r: ByteDigest)
        requires
            digest_canonical(seed@),
        ensures
            r@ == pedersen_digest(seed@ + spec_u64_to_le_bytes(value) + Seq::new(24, |k: int| 0u8)),
            digest_canonical(r@),
    {
        let mut int_bytes = [0u8; 32];
        let le = u64_to_le_bytes(value);
        let mut j: usize = 0;
        while j < 8
            invariant
                le@ == spec_u64_to_le_bytes(value),
                le@.len() == 8,
                j <= 8,
                forall|k: int| 0 <= k < j ==> int_bytes@[k] == le@[k],
                forall|k: int| j <= k < 32 ==> int_bytes@[k] == 0,
            decreases 8 - j,
        {
            int_bytes[j] = le[j];
            j += 1;
        }
        let digest = ByteDigest(int_bytes);
        proof {
            vstd::bytes::lemma_auto_spec_u64_to_from_le_bytes();
            assert(reverse32(digest@) =~= be32_of_u64(value));
            lemma_be32_of_u64_canonical(value);
            assert(digest@ =~= spec_u64_to_le_bytes(value) + Seq::new(24, |k: int| 0u8));
        }
        let r = Pedersen_256::merge(&[seed, digest]);
        proof {
            assert(seed@ + digest@ =~= seed@ + spec_u64_to_le_bytes(value) + Seq::new(
                24,
                |k: int| 0u8,
            ));
        }
        r
    }

    /// Hash a sequence of field elements: chain their little-endian
    /// encodings, the element count appended.
    pub fn hash_elements(elements: &[Felt252]) -> (r: ByteDigest)
        requires
            elements@.len() <= 0x7_FFFF,
        ensures
            r@ == pedersen_digest(elements_le_bytes(elements@)),
            digest_canonical(r@),
    {
        let mut data: Vec<u8> = Vec::new();
        let mut i: usize = 0;
        while i < elements.len()
            invariant
                i <= elements@.len(),
                elements@.len() <= 0x7_FFFF,
                data@ == elements_le_bytes(elements@.take(i as int)),
                data@.len() == 32 * i,
                chunks_canonical(data@),
            decreases elements@.len() - i,
        {
            let e = elements[i];
            proof {
                use_type_invariant(e);
            }
            let mut chunk = [0u8; 32];
            write_be_bytes(e.to_bytes_be().as_slice(), &mut chunk);
            let ghost before = data@;
            data.extend_from_slice(chunk.as_slice());
            proof {
                assert(chunk@ =~= reverse32(e@));
                let t = elements@.take(i + 1);
                assert(t.drop_last() =~= elements@.take(i as int));
                assert(t.last() == elements@[i as int]);
                assert(data@ =~= elements_le_bytes(t));
                assert forall|c: int| 0 <= c < data@.len() as int / 32 implies be_val(
                    reverse32(#[trigger] chunk_of(data@, c)),
                ) < stark_prime() by {
                    if c < i {
                        assert(chunk_of(data@, c) =~= chunk_of(before, c));
                    } else {
                        assert(chunk_of(data@, c) =~= reverse32(e@));
                        assert(reverse32(reverse32(e@)) =~= e@);
                    }
                }
            }
            i += 1;
        }
        proof {
            assert(elements@.take(elements@.len() as int) =~= elements@);
        }
        Pedersen_256::hash(data.as_slice())
    }
}

} // verus!
