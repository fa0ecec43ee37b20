//! Hashes and the short ids derived from them.

use vstd::prelude::*;
use crate::order::Wire;
use crate::ser::{
    be_bytes, be_value, lemma_be_bound_monotone, lemma_be_bounds, lemma_be_bytes_len,
    lemma_bytes_of_value, Reader, SerError, SerializationMode, Writer,
};

verus! {

/// A 32-byte hash.
#[derive(Clone, Copy, Debug, PartialEq, Eq)]
pub struct Hash {
    pub bytes: [u8; 32],
}

impl View for Hash {
    type V = Seq<u8>;

    open spec fn view(&self) -> Seq<u8> {
        self.bytes@
    }
}

/// The bytes of the hash that stands for no data.
pub open spec fn zero_hash() -> Seq<u8> {
    Seq::new(32, |i: int| 0u8)
}

impl Hash {
    /// The hash that stands for no data.
    pub fn zero() -> (r: Hash)
        ensures
            r@ == zero_hash(),
            r@ == Seq::new(32, |i: int| 0u8),
    {
        let r = Hash { bytes: [0u8; 32] };
        assert(r@ =~= zero_hash());
        r
    }
}

/// The BLAKE2b hash of 32 bytes of `data`, without a key.
pub uninterp spec fn blake2b_256(data: Seq<u8>) -> Seq<u8>;

/// Calls `blake2_rfc::blake2b::blake2b` for 32 bytes and without a key. Trusted: the hash
/// depends on the data alone.
#[verifier::external_body]
pub(crate) fn hash_bytes(data: &Vec<u8>) -> (r: Hash)
    ensures
        r@ == blake2b_256(data@),
{
    let mut bytes = [0u8; 32];
    bytes.copy_from_slice(blake2_rfc::blake2b::blake2b(32, &[], data).as_bytes());
    Hash { bytes }
}

/// The SipHash-2-4 of `data` under the key of the halves `k0` and `k1`.
pub uninterp spec fn siphash_2_4(k0: u64, k1: u64, data: Seq<u8>) -> u64;

/// Feeds the data to a `siphasher::sip::SipHasher24`. Trusted: the hash depends on the key
/// and the data alone.
#[verifier::external_body]
fn sip_hash(k0: u64, k1: u64, data: &Hash) -> (r: u64)
    ensures
        r == siphash_2_4(k0, k1, data@),
{
    let mut hasher = siphasher::sip::SipHasher24::new_with_keys(k0, k1);
    std::hash::Hasher::write(&mut hasher, &data.bytes);
    std::hash::Hasher::finish(&hasher)
}

/// A short id, which tells apart the items of one block.
#[derive(Clone, Copy, Debug, PartialEq, Eq)]
pub struct ShortId {
    pub bytes: [u8; 6],
}

impl View for ShortId {
    type V = Seq<u8>;

    open spec fn view(&self) -> Seq<u8> {
        self.bytes@
    }
}

/// The number that eight bytes spell, least significant first.
pub open spec fn le_word(s: Seq<u8>) -> u64 {
    be_value(s.reverse()) as u64
}

/// The short id of the item with the hash `item` in the block that `block` is the hash of:
/// the six least significant bytes of the SipHash of `item`, keyed by the first two words
/// of `block`.
pub open spec fn short_id_of(item: Seq<u8>, block: Seq<u8>) -> Seq<u8> {
    let sip = siphash_2_4(le_word(block.subrange(0, 8)), le_word(block.subrange(8, 16)), item);
    be_bytes(sip as nat, 8).reverse().take(6)
}

fn word_at(bytes: &[u8; 32], at: usize) -> (r: u64)
    requires
        at <= 24,
    ensures
        r == le_word(bytes@.subrange(at as int, at + 8)),
{
    let ghost rev = bytes@.subrange(at as int, at + 8).reverse();
    let mut x: u64 = 0;
    let mut i: usize = 0;
    while i < 8
        invariant
            i <= 8,
            at <= 24,
            rev == bytes@.subrange(at as int, at + 8).reverse(),
            x == be_value(rev.take(i as int)),
        decreases 8 - i,
    {
        proof {
            let head = rev.take(i + 1);
            assert(head.drop_last() =~= rev.take(i as int));
            lemma_bytes_of_value(head);
            lemma_be_bound_monotone(i as nat + 1, 8);
            lemma_be_bounds();
        }
        x = x * 256 + bytes[at + 7 - i] as u64;
        i += 1;
    }
    assert(rev.take(8) =~= rev);
    x
}

impl ShortId {
    /// The short id of all zeros.
    pub fn zero() -> (r: ShortId)
        ensures
            r@ == Seq::new(6, |i: int| 0u8),
    {
        let r = ShortId { bytes: [0u8; 6] };
        assert(r@ =~= Seq::new(6, |i: int| 0u8));
        r
    }

    /// The six least significant bytes of `word`, least significant first.
    pub fn from_word(word: u64) -> (r: ShortId)
        ensures
            r@ == be_bytes(word as nat, 8).reverse().take(6),
    {
        let mut writer = Writer::new(SerializationMode::Full);
        writer.write_u64(word);
        let digits = writer.into_bytes();
        proof {
            lemma_be_bytes_len(word as nat, 8);
            assert(digits@ =~= be_bytes(word as nat, 8));
        }
        let mut bytes = [0u8; 6];
        let mut i: usize = 0;
        while i < 6
            invariant
                i <= 6,
                digits@.len() == 8,
                forall|k: int| 0 <= k < i ==> bytes@[k] == digits@[7 - k],
            decreases 6 - i,
        {
            bytes[i] = digits[7 - i];
            i += 1;
        }
        let r = ShortId { bytes };
        assert(r@ =~= digits@.reverse().take(6));
        r
    }

    /// The short id of the item with the hash `item` in the block that `block` is the hash of.
    pub fn derive(item: &Hash, block: &Hash) -> (r: ShortId)
        ensures
            r@ == short_id_of(item@, block@),
            r@ == be_bytes(
                siphash_2_4(
                    be_value(block@.subrange(0, 8).reverse()) as u64,
                    be_value(block@.subrange(8, 16).reverse()) as u64,
                    item@,
                ) as nat,
                8,
            ).reverse().take(6),
    {
        let sip: u64 = sip_hash(word_at(&block.bytes, 0), word_at(&block.bytes, 8), item);
        ShortId::from_word(sip)
    }
}

impl Wire for ShortId {
    open spec fn valid(v: Seq<u8>) -> bool {
        v.len() == 6
    }

    open spec fn encode(v: Seq<u8>) -> Seq<u8> {
        v
    }

    open spec fn parse(s: Seq<u8>) -> Result<(Seq<u8>, Seq<u8>), SerError> {
        if s.len() < 6 {
            Err(SerError::UnexpectedEof)
        } else {
            Ok((s.take(6), s.skip(6)))
        }
    }

    proof fn lemma_parse_of_encode(v: Seq<u8>, rest: Seq<u8>) {
        assert((v + rest).take(6) =~= v);
        assert((v + rest).skip(6) =~= rest);
    }

    proof fn lemma_encode_of_parse(s: Seq<u8>) {
        if s.len() >= 6 {
            assert(s =~= s.take(6) + s.skip(6));
        }
    }

    fn write(&self, writer: &mut Writer) {
        writer.write_fixed_bytes(self.bytes.as_slice());
    }

    fn read(reader: &mut Reader) -> (r: Result<ShortId, SerError>) {
        match reader.read_array::<6>() {
            Ok(bytes) => Ok(ShortId { bytes }),
            Err(e) => Err(e),
        }
    }

    fn duplicate(&self) -> (r: ShortId) {
        *self
    }
}

} // verus!
