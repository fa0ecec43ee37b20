//! Block headers.

use vstd::prelude::*;
use crate::hash::{blake2b_256, hash_bytes, zero_hash};
use crate::secp::{zero_factor, BlindingFactor};
use crate::ser::{
    be_bytes, be_value, from_twos_complement, lemma_be_bounds, lemma_be_bytes_len,
    lemma_bytes_of_value, lemma_next_bytes, lemma_value_of_bytes, twos_complement, Reader,
    SerError, SerializationMode, Writer,
};

verus! {

/// How much work a block stands for.
#[derive(Clone, Copy, Debug, PartialEq, Eq)]
pub struct Difficulty {
    pub num: u64,
}

impl Difficulty {
    /// The least difficulty.
    pub fn one() -> (r: Difficulty)
        ensures
            r.num == 1,
    {
        Difficulty { num: 1 }
    }

    /// The difficulty `num`.
    pub fn from_num(num: u64) -> (r: Difficulty)
        ensures
            r.num == num,
    {
        Difficulty { num }
    }

    /// The work of both together.
    pub fn plus(&self, other: &Difficulty) -> (r: Difficulty)
        requires
            self.num + other.num <= u64::MAX,
        ensures
            r.num == self.num + other.num,
    {
        Difficulty { num: self.num + other.num }
    }
}

/// A proof of work.
#[derive(Debug, PartialEq, Eq)]
pub struct Proof {
    pub nonces: Vec<u32>,
}

impl View for Proof {
    type V = Seq<u32>;

    open spec fn view(&self) -> Seq<u32> {
        self.nonces@
    }
}

/// The bytes of some nonces, one after the other.
pub open spec fn nonces_bytes(nonces: Seq<u32>) -> Seq<u8>
    decreases nonces.len(),
{
    if nonces.len() == 0 {
        Seq::empty()
    } else {
        nonces_bytes(nonces.drop_last()) + be_bytes(nonces.last() as nat, 4)
    }
}

/// The `n` nonces that `s` starts with.
pub open spec fn nonces_of(s: Seq<u8>, n: nat) -> Seq<u32> {
    Seq::new(n, |i: int| be_value(s.subrange(4 * i, 4 * i + 4)) as u32)
}

proof fn lemma_nonces_of_bytes(nonces: Seq<u32>, rest: Seq<u8>)
    ensures
        nonces_bytes(nonces).len() == 4 * nonces.len(),
        nonces_of(nonces_bytes(nonces) + rest, nonces.len()) == nonces,
    decreases nonces.len(),
{
    if nonces.len() > 0 {
        let front = nonces.drop_last();
        let last = be_bytes(nonces.last() as nat, 4);
        let s = nonces_bytes(nonces) + rest;
        lemma_nonces_of_bytes(front, last + rest);
        lemma_be_bytes_len(nonces.last() as nat, 4);
        lemma_be_bounds();
        lemma_value_of_bytes(nonces.last() as nat, 4);
        assert(s =~= nonces_bytes(front) + (last + rest));
        assert(s.subrange(4 * front.len() as int, 4 * front.len() as int + 4) =~= last);
        assert forall|i: int| 0 <= i < nonces.len() implies nonces_of(s, nonces.len())[i]
            == nonces[i] by {
            if i < front.len() {
                assert(nonces_of(s, front.len())[i] == front[i]);
            }
        }
    }
    assert(nonces_of(nonces_bytes(nonces) + rest, nonces.len()) =~= nonces);
}

proof fn lemma_bytes_of_nonces(s: Seq<u8>, n: nat)
    requires
        4 * n <= s.len(),
    ensures
        nonces_bytes(nonces_of(s, n)) == s.take(4 * n as int),
    decreases n,
{
    if n == 0 {
        assert(s.take(0) =~= Seq::empty());
    } else {
        let m = (n - 1) as nat;
        let all = nonces_of(s, n);
        lemma_bytes_of_nonces(s, m);
        assert(all.drop_last() =~= nonces_of(s, m));
        let last = s.subrange(4 * m as int, 4 * m as int + 4);
        lemma_be_bounds();
        lemma_bytes_of_value(last);
        assert(s.take(4 * n as int) =~= s.take(4 * m as int) + last);
    }
}

impl Proof {
    /// The proof of work with `size` nonces, all zero.
    pub fn zero(size: usize) -> (r: Proof)
        ensures
            r@ == Seq::new(size as nat, |i: int| 0u32),
    {
        let mut nonces: Vec<u32> = Vec::new();
        let mut i: usize = 0;
        while i < size
            invariant
                i <= size,
                nonces@ == Seq::new(i as nat, |i: int| 0u32),
            decreases size - i,
        {
            nonces.push(0);
            i += 1;
        }
        Proof { nonces }
    }

    /// Another proof of work with the same nonces.
    pub fn duplicate(&self) -> (r: Proof)
        ensures
            r@ == self@,
    {
        let mut nonces: Vec<u32> = Vec::new();
        let mut i: usize = 0;
        while i < self.nonces.len()
            invariant
                i <= self.nonces@.len(),
                nonces@ == self.nonces@.take(i as int),
            decreases self.nonces@.len() - i,
        {
            nonces.push(self.nonces[i]);
            i += 1;
        }
        assert(nonces@ =~= self.nonces@);
        Proof { nonces }
    }

    fn write(&self, writer: &mut Writer)
        ensures
            final(writer)@ == old(writer)@ + nonces_bytes(self@),
            final(writer).purpose() == old(writer).purpose(),
    {
        let mut i: usize = 0;
        assert(writer@ =~= writer@ + nonces_bytes(self@.take(0)));
        while i < self.nonces.len()
            invariant
                i <= self.nonces@.len(),
                writer@ == old(writer)@ + nonces_bytes(self@.take(i as int)),
                writer.purpose() == old(writer).purpose(),
            decreases self.nonces@.len() - i,
        {
            assert(self@.take(i + 1).drop_last() =~= self@.take(i as int));
            writer.write_u32(self.nonces[i]);
            i += 1;
            assert(writer@ =~= old(writer)@ + nonces_bytes(self@.take(i as int)));
        }
        assert(self@.take(i as int) =~= self@);
    }

    fn read(reader: &mut Reader, size: usize) -> (r: Result<Proof, SerError>)
        ensures
            match r {
                Ok(pow) => {
                    &&& old(reader)@.len() >= 4 * size
                    &&& pow@ == nonces_of(old(reader)@, size as nat)
                    &&& final(reader)@ == old(reader)@.skip(4 * size as int)
                },
                Err(e) => old(reader)@.len() < 4 * size && e == SerError::UnexpectedEof,
            },
    {
        let ghost s = reader@;
        let mut nonces: Vec<u32> = Vec::new();
        let mut i: usize = 0;
        assert(s =~= s.skip(0));
        while i < size
            invariant
                i <= size,
                s == old(reader)@,
                4 * i <= s.len(),
                reader@ == s.skip(4 * i as int),
                nonces@ == nonces_of(s, i as nat),
            decreases size - i,
        {
            match reader.read_u32() {
                Ok(x) => {
                    assert(s.skip(4 * i as int).take(4) =~= s.subrange(4 * i, 4 * i + 4));
                    assert(s.skip(4 * i as int).skip(4) =~= s.skip(4 * (i + 1)));
                    nonces.push(x);
                    assert(nonces@ =~= nonces_of(s, (i + 1) as nat));
                },
                Err(e) => return Err(e),
            }
            i += 1;
        }
        Ok(Proof { nonces })
    }
}

/// Block header, fairly standard compared to other blockchains.
#[derive(Debug, PartialEq)]
pub struct BlockHeader {
    /// Version of the block.
    pub version: u16,
    /// Height of this block since the genesis block (height 0).
    pub height: u64,
    /// Hash of the block previous to this in the chain.
    pub previous: crate::hash::Hash,
    /// Time at which the block was built, in seconds since the epoch.
    pub timestamp: i64,
    /// Merklish root of all the commitments in the UTXO set.
    pub utxo_root: crate::hash::Hash,
    /// Merklish root of all range proofs in the UTXO set.
    pub range_proof_root: crate::hash::Hash,
    /// Merklish root of all transaction kernels in the UTXO set.
    pub kernel_root: crate::hash::Hash,
    /// Nonce increment used to mine this block.
    pub nonce: u64,
    /// Proof of work data.
    pub pow: Proof,
    /// Difficulty used to mine the block.
    pub difficulty: Difficulty,
    /// Total accumulated difficulty since the genesis block.
    pub total_difficulty: Difficulty,
    /// The single aggregate "offset" that needs to be applied for all commitments to sum.
    pub kernel_offset: BlindingFactor,
}

/// What a [`BlockHeader`] holds.
pub struct HeaderData {
    pub version: u16,
    pub height: u64,
    pub previous: Seq<u8>,
    pub timestamp: i64,
    pub utxo_root: Seq<u8>,
    pub range_proof_root: Seq<u8>,
    pub kernel_root: Seq<u8>,
    pub nonce: u64,
    pub pow: Seq<u32>,
    pub difficulty: u64,
    pub total_difficulty: u64,
    pub kernel_offset: Seq<u8>,
}

impl View for BlockHeader {
    type V = HeaderData;

    open spec fn view(&self) -> HeaderData {
        HeaderData {
            version: self.version,
            height: self.height,
            previous: self.previous@,
            timestamp: self.timestamp,
            utxo_root: self.utxo_root@,
            range_proof_root: self.range_proof_root@,
            kernel_root: self.kernel_root@,
            nonce: self.nonce,
            pow: self.pow@,
            difficulty: self.difficulty.num,
            total_difficulty: self.total_difficulty.num,
            kernel_offset: self.kernel_offset@,
        }
    }
}

impl Clone for BlockHeader {
    fn clone(&self) -> (r: BlockHeader)
        ensures
            r@ == self@,
    {
        BlockHeader {
            version: self.version,
            height: self.height,
            previous: self.previous,
            timestamp: self.timestamp,
            utxo_root: self.utxo_root,
            range_proof_root: self.range_proof_root,
            kernel_root: self.kernel_root,
            nonce: self.nonce,
            pow: self.pow.duplicate(),
            difficulty: self.difficulty,
            total_difficulty: self.total_difficulty,
            kernel_offset: self.kernel_offset,
        }
    }
}

/// Whether `h` is the view of some header.
pub open spec fn valid_header(h: HeaderData) -> bool {
    &&& h.previous.len() == 32
    &&& h.utxo_root.len() == 32
    &&& h.range_proof_root.len() == 32
    &&& h.kernel_root.len() == 32
    &&& h.kernel_offset.len() == 32
}

/// The header of no block in particular.
pub open spec fn default_header(proof_size: nat) -> HeaderData {
    HeaderData {
        version: 1,
        height: 0,
        previous: zero_hash(),
        timestamp: 0,
        utxo_root: zero_hash(),
        range_proof_root: zero_hash(),
        kernel_root: zero_hash(),
        nonce: 0,
        pow: Seq::new(proof_size, |i: int| 0u32),
        difficulty: 1,
        total_difficulty: 1,
        kernel_offset: zero_factor(),
    }
}

/// How many bytes the part of a header takes that its hash is made of.
pub open spec fn header_size() -> int {
    202
}

/// The part of a header that its hash is made of: all but the proof of work.
pub open spec fn hashed_header(h: HeaderData) -> Seq<u8> {
    be_bytes(h.version as nat, 2) + be_bytes(h.height as nat, 8) + h.previous + be_bytes(
        twos_complement(h.timestamp),
        8,
    ) + h.utxo_root + h.range_proof_root + h.kernel_root + be_bytes(h.nonce as nat, 8) + be_bytes(
        h.difficulty as nat,
        8,
    ) + be_bytes(h.total_difficulty as nat, 8) + h.kernel_offset
}

/// The binary form of a header.
pub open spec fn header_bytes(h: HeaderData, mode: SerializationMode) -> Seq<u8> {
    match mode {
        SerializationMode::Hash => hashed_header(h),
        SerializationMode::Full => hashed_header(h) + nonces_bytes(h.pow),
    }
}

/// The header that `s` starts with, and what follows it.
pub open spec fn parse_header(s: Seq<u8>, proof_size: nat) -> Result<
    (HeaderData, Seq<u8>),
    SerError,
> {
    if s.len() < header_size() + 4 * proof_size {
        Err(SerError::UnexpectedEof)
    } else {
        Ok(
            (
                HeaderData {
                    version: be_value(s.subrange(0, 2)) as u16,
                    height: be_value(s.subrange(2, 10)) as u64,
                    previous: s.subrange(10, 42),
                    timestamp: from_twos_complement(be_value(s.subrange(42, 50))),
                    utxo_root: s.subrange(50, 82),
                    range_proof_root: s.subrange(82, 114),
                    kernel_root: s.subrange(114, 146),
                    nonce: be_value(s.subrange(146, 154)) as u64,
                    difficulty: be_value(s.subrange(154, 162)) as u64,
                    total_difficulty: be_value(s.subrange(162, 170)) as u64,
                    kernel_offset: s.subrange(170, 202),
                    pow: nonces_of(s.skip(header_size()), proof_size),
                },
                s.skip(header_size() + 4 * proof_size as int),
            ),
        )
    }
}

/// A header is read back from its binary form, whatever follows it.
pub proof fn lemma_parse_of_header(h: HeaderData, rest: Seq<u8>)
    requires
        valid_header(h),
    ensures
        parse_header(header_bytes(h, SerializationMode::Full) + rest, h.pow.len()) == Ok::<
            (HeaderData, Seq<u8>),
            SerError,
        >((h, rest)),
{
    let s = header_bytes(h, SerializationMode::Full) + rest;
    lemma_be_bounds();
    lemma_value_of_bytes(h.version as nat, 2);
    lemma_value_of_bytes(h.height as nat, 8);
    lemma_value_of_bytes(twos_complement(h.timestamp), 8);
    lemma_value_of_bytes(h.nonce as nat, 8);
    lemma_value_of_bytes(h.difficulty as nat, 8);
    lemma_value_of_bytes(h.total_difficulty as nat, 8);
    lemma_nonces_of_bytes(h.pow, rest);
    assert(s.subrange(0, 2) =~= be_bytes(h.version as nat, 2));
    assert(s.subrange(2, 10) =~= be_bytes(h.height as nat, 8));
    assert(s.subrange(10, 42) =~= h.previous);
    assert(s.subrange(42, 50) =~= be_bytes(twos_complement(h.timestamp), 8));
    assert(s.subrange(50, 82) =~= h.utxo_root);
    assert(s.subrange(82, 114) =~= h.range_proof_root);
    assert(s.subrange(114, 146) =~= h.kernel_root);
    assert(s.subrange(146, 154) =~= be_bytes(h.nonce as nat, 8));
    assert(s.subrange(154, 162) =~= be_bytes(h.difficulty as nat, 8));
    assert(s.subrange(162, 170) =~= be_bytes(h.total_difficulty as nat, 8));
    assert(s.subrange(170, 202) =~= h.kernel_offset);
    assert(s.skip(header_size()) =~= nonces_bytes(h.pow) + rest);
    assert(s.skip(header_size() + 4 * h.pow.len() as int) =~= rest);
}

/// A header that was read is written back as the same bytes.
pub proof fn lemma_header_of_parse(s: Seq<u8>, proof_size: nat)
    ensures
        parse_header(s, proof_size) matches Ok((h, rest)) ==> {
            &&& valid_header(h)
            &&& h.pow.len() == proof_size
            &&& s == header_bytes(h, SerializationMode::Full) + rest
        },
{
    match parse_header(s, proof_size) {
        Ok((h, rest)) => {
            lemma_be_bounds();
            lemma_bytes_of_value(s.subrange(0, 2));
            lemma_bytes_of_value(s.subrange(2, 10));
            lemma_bytes_of_value(s.subrange(42, 50));
            lemma_bytes_of_value(s.subrange(146, 154));
            lemma_bytes_of_value(s.subrange(154, 162));
            lemma_bytes_of_value(s.subrange(162, 170));
            lemma_bytes_of_nonces(s.skip(header_size()), proof_size);
            assert(hashed_header(h) =~= s.take(header_size()));
            assert(s =~= header_bytes(h, SerializationMode::Full) + rest);
        },
        Err(_) => {},
    }
}

impl BlockHeader {
    /// The header of no block in particular.
    pub fn default(proof_size: usize) -> (r: BlockHeader)
        ensures
            r@ == default_header(proof_size as nat),
            r@.version == 1,
            r@.height == 0,
            r@.timestamp == 0,
            r@.previous == Seq::new(32, |i: int| 0u8),
            r@.utxo_root == Seq::new(32, |i: int| 0u8),
            r@.range_proof_root == Seq::new(32, |i: int| 0u8),
            r@.kernel_root == Seq::new(32, |i: int| 0u8),
            r@.kernel_offset == Seq::new(32, |i: int| 0u8),
            r@.nonce == 0,
            r@.difficulty == 1,
            r@.total_difficulty == 1,
            r@.pow == Seq::new(proof_size as nat, |i: int| 0u32),
    {
        BlockHeader {
            version: 1,
            height: 0,
            previous: crate::hash::Hash::zero(),
            timestamp: 0,
            utxo_root: crate::hash::Hash::zero(),
            range_proof_root: crate::hash::Hash::zero(),
            kernel_root: crate::hash::Hash::zero(),
            nonce: 0,
            pow: Proof::zero(proof_size),
            difficulty: Difficulty::one(),
            total_difficulty: Difficulty::one(),
            kernel_offset: BlindingFactor::zero(),
        }
    }

    /// Appends the binary form. What a hash is made of leaves the proof of work out.
    pub fn write(&self, writer: &mut Writer)
        ensures
            final(writer)@ == old(writer)@ + header_bytes(self@, old(writer).purpose()),
            final(writer).purpose() == old(writer).purpose(),
    {
        writer.write_u16(self.version);
        writer.write_u64(self.height);
        writer.write_fixed_bytes(self.previous.bytes.as_slice());
        writer.write_i64(self.timestamp);
        writer.write_fixed_bytes(self.utxo_root.bytes.as_slice());
        writer.write_fixed_bytes(self.range_proof_root.bytes.as_slice());
        writer.write_fixed_bytes(self.kernel_root.bytes.as_slice());
        writer.write_u64(self.nonce);
        writer.write_u64(self.difficulty.num);
        writer.write_u64(self.total_difficulty.num);
        writer.write_fixed_bytes(self.kernel_offset.bytes.as_slice());
        assert(writer@ =~= old(writer)@ + hashed_header(self@));
        if writer.serialization_mode() != SerializationMode::Hash {
            self.pow.write(writer);
            assert(writer@ =~= old(writer)@ + header_bytes(self@, SerializationMode::Full));
        }
    }

    /// Takes a header from the front of what is still to be read.
    pub fn read(reader: &mut Reader, proof_size: usize) -> (r: Result<BlockHeader, SerError>)
        ensures
            match r {
                Ok(header) => parse_header(old(reader)@, proof_size as nat) == Ok::<
                    (HeaderData, Seq<u8>),
                    SerError,
                >((header@, final(reader)@)),
                Err(e) => parse_header(old(reader)@, proof_size as nat) == Err::<
                    (HeaderData, Seq<u8>),
                    SerError,
                >(e),
            },
    {
        let ghost s = reader@;
        let version: u16 = match reader.read_u16() {
            Ok(x) => x,
            Err(e) => return Err(e),
        };
        proof {
            assert(s.skip(0) =~= s);
            lemma_next_bytes(s, 0, 2);
        }
        let height: u64 = match reader.read_u64() {
            Ok(x) => x,
            Err(e) => return Err(e),
        };
        proof {
            lemma_next_bytes(s, 2, 8);
        }
        let previous = match reader.read_array::<32>() {
            Ok(bytes) => crate::hash::Hash { bytes },
            Err(e) => return Err(e),
        };
        proof {
            lemma_next_bytes(s, 10, 32);
        }
        let timestamp: i64 = match reader.read_i64() {
            Ok(x) => x,
            Err(e) => return Err(e),
        };
        proof {
            lemma_next_bytes(s, 42, 8);
        }
        let utxo_root = match reader.read_array::<32>() {
            Ok(bytes) => crate::hash::Hash { bytes },
            Err(e) => return Err(e),
        };
        proof {
            lemma_next_bytes(s, 50, 32);
        }
        let range_proof_root = match reader.read_array::<32>() {
            Ok(bytes) => crate::hash::Hash { bytes },
            Err(e) => return Err(e),
        };
        proof {
            lemma_next_bytes(s, 82, 32);
        }
        let kernel_root = match reader.read_array::<32>() {
            Ok(bytes) => crate::hash::Hash { bytes },
            Err(e) => return Err(e),
        };
        proof {
            lemma_next_bytes(s, 114, 32);
        }
        let nonce: u64 = match reader.read_u64() {
            Ok(x) => x,
            Err(e) => return Err(e),
        };
        proof {
            lemma_next_bytes(s, 146, 8);
        }
        let difficulty = match reader.read_u64() {
            Ok(num) => Difficulty { num },
            Err(e) => return Err(e),
        };
        proof {
            lemma_next_bytes(s, 154, 8);
        }
        let total_difficulty = match reader.read_u64() {
            Ok(num) => Difficulty { num },
            Err(e) => return Err(e),
        };
        proof {
            lemma_next_bytes(s, 162, 8);
        }
        let kernel_offset = match reader.read_array::<32>() {
            Ok(bytes) => BlindingFactor { bytes },
            Err(e) => return Err(e),
        };
        proof {
            lemma_next_bytes(s, 170, 32);
        }
        let pow = match Proof::read(reader, proof_size) {
            Ok(pow) => pow,
            Err(e) => return Err(e),
        };
        proof {
            lemma_next_bytes(s, 202, 4 * proof_size as int);
        }
        Ok(
            BlockHeader {
                version,
                height,
                previous,
                timestamp,
                utxo_root,
                range_proof_root,
                kernel_root,
                nonce,
                pow,
                difficulty,
                total_difficulty,
                kernel_offset,
            },
        )
    }

    /// The hash of the header.
    pub fn hash(&self) -> (r: crate::hash::Hash)
        ensures
            r@ == blake2b_256(hashed_header(self@)),
    {
        let mut writer = Writer::new(SerializationMode::Hash);
        self.write(&mut writer);
        let bytes = writer.into_bytes();
        assert(bytes@ =~= hashed_header(self@));
        hash_bytes(&bytes)
    }
}

} // verus!
