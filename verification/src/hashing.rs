//! Digests and the hash primitive that commits layers and drives the
//! Fiat-Shamir transcript.

use vstd::prelude::*;

use blake2::Blake2s256;
use blake2::Digest;

verus! {

use vstd::bytes::{spec_u64_to_le_bytes, u64_to_le_bytes};
use crate::field::Felt;

/// A 32-byte hash digest.
#[derive(Clone, Copy, PartialEq, Eq, Debug)]
pub struct ByteDigest(pub [u8; 32]);

impl View for ByteDigest {
    type V = Seq<u8>;

    open spec fn view(&self) -> Seq<u8> {
        self.0@
    }
}

/// What `blake2s` returns on the given bytes; a function of the bytes alone.
pub uninterp spec fn blake2s_of(bytes: Seq<u8>) -> Seq<u8>;

/// Relies on `blake2::Blake2s256` (one-shot digest): a 32-byte hash of the
/// input bytes, a function of those bytes alone.
#[verifier::external_body]
pub(crate) fn blake2s(bytes: &[u8]) -> (r: ByteDigest)
    ensures
        r@ == blake2s_of(bytes@),
        r@.len() == 32,
{
    let mut hasher = Blake2s256::new();
    hasher.update(bytes);
    let out = hasher.finalize();
    let mut d = [0u8; 32];
    d.copy_from_slice(&out);
    ByteDigest(d)
}

impl ByteDigest {
    /// Byte-for-byte equality of two digests.
    pub fn equals(&self, other: &ByteDigest) -> (r: bool)
        ensures
            r <==> self@ == other@,
    {
        let mut i: usize = 0;
        while i < 32
            invariant
                i <= 32,
                forall|j: int| 0 <= j < i ==> self.0@[j] == other.0@[j],
            decreases 32 - i,
        {
            if self.0[i] != other.0[i] {
                assert(self@[i as int] != other@[i as int]);
                return false;
            }
            i += 1;
        }
        proof {
            assert(self@ =~= other@);
        }
        true
    }
}

/// `blake2s` of the two digests laid end to end; binds a pair of child
/// commitments into their parent.
pub fn merge(a: &ByteDigest, b: &ByteDigest) -> (r: ByteDigest)
    ensures
        r@ == blake2s_of(a@ + b@),
{
    let mut bytes: Vec<u8> = Vec::new();
    bytes.extend_from_slice(a.0.as_slice());
    bytes.extend_from_slice(b.0.as_slice());
    proof {
        assert(bytes@ =~= a@ + b@);
    }
    blake2s(bytes.as_slice())
}

/// `blake2s` of the digest followed by the little-endian bytes of `value`;
/// domain-separates successive transcript draws.
pub fn merge_with_int(seed: &ByteDigest, value: u64) -> (r: ByteDigest)
    ensures
        r@ == blake2s_of(seed@ + spec_u64_to_le_bytes(value)),
{
    let mut bytes: Vec<u8> = Vec::new();
    bytes.extend_from_slice(seed.0.as_slice());
    let tail = u64_to_le_bytes(value);
    bytes.extend_from_slice(tail.as_slice());
    proof {
        assert(bytes@ =~= seed@ + spec_u64_to_le_bytes(value));
    }
    blake2s(bytes.as_slice())
}

/// The little-endian 8-byte encodings of a sequence of field elements, laid
/// end to end.
pub open spec fn felts_le_bytes(s: Seq<Felt>) -> Seq<u8>
    decreases s.len(),
{
    if s.len() == 0 {
        Seq::empty()
    } else {
        felts_le_bytes(s.drop_last()) + spec_u64_to_le_bytes(s.last().val() as u64)
    }
}

/// The same byte encoding, over the elements' integer values.
pub open spec fn vals_le_bytes(vs: Seq<int>) -> Seq<u8>
    decreases vs.len(),
{
    if vs.len() == 0 {
        Seq::empty()
    } else {
        vals_le_bytes(vs.drop_last()) + spec_u64_to_le_bytes(vs.last() as u64)
    }
}

/// The two encodings agree: the bytes of a sequence of elements are the bytes
/// of their values.
pub proof fn lemma_felts_le_bytes_vals(s: Seq<Felt>)
    ensures
        felts_le_bytes(s) == vals_le_bytes(s.map(|i: int, x: Felt| x.val())),
    decreases s.len(),
{
    let vs = s.map(|i: int, x: Felt| x.val());
    if s.len() == 0 {
    } else {
        lemma_felts_le_bytes_vals(s.drop_last());
        assert(s.drop_last().map(|i: int, x: Felt| x.val()) =~= vs.drop_last());
        assert(vs.last() == s.last().val());
    }
}

/// The byte encoding of a slice of field elements.
pub fn felts_to_bytes(values: &[Felt]) -> (r: Vec<u8>)
    ensures
        r@ == felts_le_bytes(values@),
{
    let mut bytes: Vec<u8> = Vec::new();
    let mut i: usize = 0;
    while i < values.len()
        invariant
            i <= values.len(),
            bytes@ == felts_le_bytes(values@.take(i as int)),
        decreases values.len() - i,
    {
        let word = u64_to_le_bytes(values[i].as_u64());
        bytes.extend_from_slice(word.as_slice());
        proof {
            let t = values@.take(i + 1);
            assert(t.drop_last() =~= values@.take(i as int));
            assert(t.last() == values@[i as int]);
        }
        i += 1;
    }
    proof {
        assert(values@.take(values@.len() as int) =~= values@);
    }
    bytes
}

/// The digest binding one coset of field elements: `blake2s` of their
/// little-endian byte encoding.
pub fn hash_felts(values: &[Felt]) -> (r: ByteDigest)
    ensures
        r@ == blake2s_of(felts_le_bytes(values@)),
{
    let bytes = felts_to_bytes(values);
    blake2s(bytes.as_slice())
}

} // verus!
