//! Reading and writing the binary form of chain data.

use vstd::prelude::*;
use vstd::slice::{slice_subrange, slice_to_vec};
use crate::consensus::ConsensusError;

verus! {

/// Why a value could not be read from its binary form.
#[derive(Clone, Copy, Debug, PartialEq, Eq)]
pub enum SerError {
    /// The data ends before the value does.
    UnexpectedEof,
    /// A field holds a value that its type does not have.
    CorruptedData,
    /// The data breaks a consensus rule on its arrangement.
    Consensus(ConsensusError),
}

/// What a value is written for.
#[derive(Clone, Copy, Debug, PartialEq, Eq, Structural)]
pub enum SerializationMode {
    /// Everything needed to read the value back.
    Full,
    /// The part that the hash of the value covers.
    Hash,
}

/// The number that `s` spells in base 256, most significant byte first.
pub open spec fn be_value(s: Seq<u8>) -> nat
    decreases s.len(),
{
    if s.len() == 0 {
        0
    } else {
        be_value(s.drop_last()) * 256 + s.last() as nat
    }
}

/// The last `width` base-256 digits of `n`, most significant first.
pub open spec fn be_bytes(n: nat, width: nat) -> Seq<u8>
    decreases width,
{
    if width == 0 {
        Seq::empty()
    } else {
        be_bytes(n / 256, (width - 1) as nat).push((n % 256) as u8)
    }
}

/// How many numbers have `width` base-256 digits.
pub open spec fn be_bound(width: nat) -> nat
    decreases width,
{
    if width == 0 {
        1
    } else {
        256 * be_bound((width - 1) as nat)
    }
}

/// The two's complement of `x`, read as an unsigned number.
pub open spec fn twos_complement(x: i64) -> nat {
    if x >= 0 {
        x as nat
    } else {
        (x + 0x1_0000_0000_0000_0000) as nat
    }
}

/// The signed number whose two's complement is `n`.
pub open spec fn from_twos_complement(n: nat) -> i64 {
    if n <= i64::MAX {
        n as i64
    } else {
        (n - 0x1_0000_0000_0000_0000) as i64
    }
}

pub proof fn lemma_be_bounds()
    ensures
        be_bound(1) == 0x100,
        be_bound(2) == 0x1_0000,
        be_bound(4) == 0x1_0000_0000,
        be_bound(8) == 0x1_0000_0000_0000_0000,
{
    reveal_with_fuel(be_bound, 9);
}

pub proof fn lemma_be_bytes_len(n: nat, width: nat)
    ensures
        be_bytes(n, width).len() == width,
    decreases width,
{
    if width > 0 {
        lemma_be_bytes_len(n / 256, (width - 1) as nat);
    }
}

/// A number that fits in `width` digits is read back from them.
pub proof fn lemma_value_of_bytes(n: nat, width: nat)
    requires
        n < be_bound(width),
    ensures
        be_value(be_bytes(n, width)) == n,
        be_bytes(n, width).len() == width,
    decreases width,
{
    lemma_be_bytes_len(n, width);
    if width > 0 {
        lemma_value_of_bytes(n / 256, (width - 1) as nat);
        let s = be_bytes(n, width);
        assert(s.drop_last() =~= be_bytes(n / 256, (width - 1) as nat));
    }
}

/// Digits are written back from the number that they spell.
pub proof fn lemma_bytes_of_value(s: Seq<u8>)
    ensures
        be_bytes(be_value(s), s.len()) == s,
        be_value(s) < be_bound(s.len()),
    decreases s.len(),
{
    if s.len() > 0 {
        let front = s.drop_last();
        lemma_bytes_of_value(front);
        let n = be_value(s);
        assert(n / 256 == be_value(front) && n % 256 == s.last() as nat);
        assert(be_bytes(n, s.len()) =~= s);
    } else {
        assert(be_bytes(0, 0) =~= s);
    }
}

/// What is next, and what is then left, after the first `start` bytes.
pub proof fn lemma_next_bytes(s: Seq<u8>, start: int, len: int)
    requires
        0 <= start,
        0 <= len,
        start + len <= s.len(),
    ensures
        s.skip(start).take(len) == s.subrange(start, start + len),
        s.skip(start).skip(len) == s.skip(start + len),
{
    assert(s.skip(start).take(len) =~= s.subrange(start, start + len));
    assert(s.skip(start).skip(len) =~= s.skip(start + len));
}

/// Zeros spell zero.
pub proof fn lemma_value_of_zeros(width: nat)
    ensures
        be_value(Seq::new(width, |i: int| 0u8)) == 0,
    decreases width,
{
    if width > 0 {
        let s = Seq::new(width, |i: int| 0u8);
        assert(s.drop_last() =~= Seq::new((width - 1) as nat, |i: int| 0u8));
        lemma_value_of_zeros((width - 1) as nat);
    }
}

/// Whether two byte strings are equal.
pub fn same_bytes(a: &[u8], b: &[u8]) -> (r: bool)
    ensures
        r == (a@ == b@),
{
    if a.len() != b.len() {
        return false;
    }
    let mut i: usize = 0;
    while i < a.len()
        invariant
            i <= a@.len(),
            a@.len() == b@.len(),
            forall|k: int| 0 <= k < i ==> a@[k] == b@[k],
        decreases a@.len() - i,
    {
        if a[i] != b[i] {
            return false;
        }
        i += 1;
    }
    assert(a@ =~= b@);
    true
}

/// A byte buffer that values are written to.
pub struct Writer {
    bytes: Vec<u8>,
    mode: SerializationMode,
}

impl View for Writer {
    type V = Seq<u8>;

    closed spec fn view(&self) -> Seq<u8> {
        self.bytes@
    }
}

impl Writer {
    /// What the values are written for.
    pub closed spec fn purpose(&self) -> SerializationMode {
        self.mode
    }

    /// An empty buffer.
    pub fn new(mode: SerializationMode) -> (w: Writer)
        ensures
            w@ == Seq::<u8>::empty(),
            w.purpose() == mode,
    {
        Writer { bytes: Vec::new(), mode }
    }

    /// What the values are written for.
    pub fn serialization_mode(&self) -> (mode: SerializationMode)
        ensures
            mode == self.purpose(),
    {
        self.mode
    }

    /// The bytes written so far.
    pub fn into_bytes(self) -> (bytes: Vec<u8>)
        ensures
            bytes@ == self@,
    {
        self.bytes
    }

    /// Appends one byte.
    pub fn write_u8(&mut self, x: u8)
        ensures
            final(self)@ == old(self)@.push(x),
            final(self).purpose() == old(self).purpose(),
    {
        self.bytes.push(x);
    }

    fn write_digits(&mut self, x: u64, width: usize)
        ensures
            final(self)@ == old(self)@ + be_bytes(x as nat, width as nat),
            final(self).purpose() == old(self).purpose(),
        decreases width,
    {
        if width > 0 {
            self.write_digits(x / 256, width - 1);
            self.bytes.push((x % 256) as u8);
        }
    }

    /// Appends `x` as two bytes, most significant first.
    pub fn write_u16(&mut self, x: u16)
        ensures
            final(self)@ == old(self)@ + be_bytes(x as nat, 2),
            final(self).purpose() == old(self).purpose(),
    {
        self.write_digits(x as u64, 2)
    }

    /// Appends `x` as four bytes, most significant first.
    pub fn write_u32(&mut self, x: u32)
        ensures
            final(self)@ == old(self)@ + be_bytes(x as nat, 4),
            final(self).purpose() == old(self).purpose(),
    {
        self.write_digits(x as u64, 4)
    }

    /// Appends `x` as eight bytes, most significant first.
    pub fn write_u64(&mut self, x: u64)
        ensures
            final(self)@ == old(self)@ + be_bytes(x as nat, 8),
            final(self).purpose() == old(self).purpose(),
    {
        self.write_digits(x, 8)
    }

    /// Appends the two's complement of `x` as eight bytes, most significant first.
    pub fn write_i64(&mut self, x: i64)
        ensures
            final(self)@ == old(self)@ + be_bytes(twos_complement(x), 8),
            final(self).purpose() == old(self).purpose(),
    {
        let bits: u64 = if x >= 0 {
            x as u64
        } else {
            u64::MAX - (-(x + 1)) as u64
        };
        self.write_digits(bits, 8)
    }

    /// Appends the given bytes, without their number.
    pub fn write_fixed_bytes(&mut self, data: &[u8])
        ensures
            final(self)@ == old(self)@ + data@,
            final(self).purpose() == old(self).purpose(),
    {
        let mut i: usize = 0;
        while i < data.len()
            invariant
                i <= data@.len(),
                self@ == old(self)@ + data@.take(i as int),
                self.purpose() == old(self).purpose(),
            decreases data@.len() - i,
        {
            self.bytes.push(data[i]);
            i += 1;
            assert(data@.take(i as int) =~= data@.take(i - 1).push(data@[i - 1]));
        }
        assert(data@.take(i as int) =~= data@);
    }

    /// Appends the number of the given bytes, then the bytes.
    pub fn write_bytes(&mut self, data: &[u8])
        ensures
            final(self)@ == old(self)@ + be_bytes(data@.len(), 8) + data@,
            final(self).purpose() == old(self).purpose(),
    {
        self.write_u64(data.len() as u64);
        self.write_fixed_bytes(data);
    }
}

/// The part of some binary data that is still to be read.
pub struct Reader<'a> {
    rest: &'a [u8],
}

impl<'a> View for Reader<'a> {
    type V = Seq<u8>;

    closed spec fn view(&self) -> Seq<u8> {
        self.rest@
    }
}

impl<'a> Reader<'a> {
    /// A reader at the start of `data`.
    pub fn new(data: &'a [u8]) -> (r: Reader<'a>)
        ensures
            r@ == data@,
    {
        Reader { rest: data }
    }

    /// How many bytes are still to be read.
    pub fn remaining(&self) -> (n: usize)
        ensures
            n == self@.len(),
    {
        self.rest.len()
    }

    /// Takes the next `n` bytes.
    pub fn read_fixed_bytes(&mut self, n: usize) -> (r: Result<Vec<u8>, SerError>)
        ensures
            r matches Ok(bytes) ==> {
                &&& n <= old(self)@.len()
                &&& bytes@ == old(self)@.take(n as int)
                &&& final(self)@ == old(self)@.skip(n as int)
            },
            r matches Err(e) ==> e == SerError::UnexpectedEof && n > old(self)@.len(),
    {
        if self.rest.len() < n {
            return Err(SerError::UnexpectedEof);
        }
        let bytes = slice_to_vec(slice_subrange(self.rest, 0, n));
        self.rest = slice_subrange(self.rest, n, self.rest.len());
        assert(old(self)@.subrange(0, n as int) =~= old(self)@.take(n as int));
        assert(old(self)@.subrange(n as int, old(self)@.len() as int) =~= old(self)@.skip(n as int));
        Ok(bytes)
    }

    /// Takes the next `N` bytes as an array.
    pub fn read_array<const N: usize>(&mut self) -> (r: Result<[u8; N], SerError>)
        ensures
            r matches Ok(bytes) ==> {
                &&& N <= old(self)@.len()
                &&& bytes@ == old(self)@.take(N as int)
                &&& final(self)@ == old(self)@.skip(N as int)
            },
            r matches Err(e) ==> e == SerError::UnexpectedEof && N > old(self)@.len(),
    {
        let bytes = match self.read_fixed_bytes(N) {
            Ok(bytes) => bytes,
            Err(e) => return Err(e),
        };
        let mut array = [0u8; N];
        let mut i: usize = 0;
        while i < N
            invariant
                i <= N,
                bytes@.len() == N,
                forall|k: int| 0 <= k < i ==> array@[k] == bytes@[k],
            decreases N - i,
        {
            array[i] = bytes[i];
            i += 1;
        }
        assert(array@ =~= bytes@);
        Ok(array)
    }

    /// Takes the next byte.
    pub fn read_u8(&mut self) -> (r: Result<u8, SerError>)
        ensures
            r matches Ok(x) ==> {
                &&& 1 <= old(self)@.len()
                &&& x == old(self)@[0]
                &&& final(self)@ == old(self)@.skip(1)
            },
            r matches Err(e) ==> e == SerError::UnexpectedEof && old(self)@.len() == 0,
    {
        match self.read_fixed_bytes(1) {
            Ok(bytes) => Ok(bytes[0]),
            Err(e) => Err(e),
        }
    }

    fn read_digits(&mut self, width: usize) -> (r: Result<u64, SerError>)
        requires
            width <= 8,
        ensures
            r matches Ok(x) ==> {
                &&& width <= old(self)@.len()
                &&& x == be_value(old(self)@.take(width as int))
                &&& x < be_bound(width as nat)
                &&& final(self)@ == old(self)@.skip(width as int)
            },
            r matches Err(e) ==> e == SerError::UnexpectedEof && width > old(self)@.len(),
    {
        let bytes = match self.read_fixed_bytes(width) {
            Ok(bytes) => bytes,
            Err(e) => return Err(e),
        };
        let mut x: u64 = 0;
        let mut i: usize = 0;
        while i < width
            invariant
                i <= width <= 8,
                bytes@.len() == width,
                x == be_value(bytes@.take(i as int)),
            decreases width - i,
        {
            proof {
                let head = bytes@.take(i + 1);
                assert(head.drop_last() =~= bytes@.take(i as int));
                lemma_bytes_of_value(head);
                lemma_be_bound_monotone(i as nat + 1, 8);
                lemma_be_bounds();
            }
            x = x * 256 + bytes[i] as u64;
            i += 1;
        }
        proof {
            assert(bytes@.take(i as int) =~= bytes@);
            lemma_bytes_of_value(bytes@);
        }
        Ok(x)
    }

    /// Takes two bytes as a number, most significant first.
    pub fn read_u16(&mut self) -> (r: Result<u16, SerError>)
        ensures
            r matches Ok(x) ==> {
                &&& 2 <= old(self)@.len()
                &&& x == be_value(old(self)@.take(2))
                &&& final(self)@ == old(self)@.skip(2)
            },
            r matches Err(e) ==> e == SerError::UnexpectedEof && old(self)@.len() < 2,
    {
        proof {
            lemma_be_bounds();
        }
        match self.read_digits(2) {
            Ok(x) => Ok(x as u16),
            Err(e) => Err(e),
        }
    }

    /// Takes four bytes as a number, most significant first.
    pub fn read_u32(&mut self) -> (r: Result<u32, SerError>)
        ensures
            r matches Ok(x) ==> {
                &&& 4 <= old(self)@.len()
                &&& x == be_value(old(self)@.take(4))
                &&& final(self)@ == old(self)@.skip(4)
            },
            r matches Err(e) ==> e == SerError::UnexpectedEof && old(self)@.len() < 4,
    {
        proof {
            lemma_be_bounds();
        }
        match self.read_digits(4) {
            Ok(x) => Ok(x as u32),
            Err(e) => Err(e),
        }
    }

    /// Takes eight bytes as a number, most significant first.
    pub fn read_u64(&mut self) -> (r: Result<u64, SerError>)
        ensures
            r matches Ok(x) ==> {
                &&& 8 <= old(self)@.len()
                &&& x == be_value(old(self)@.take(8))
                &&& final(self)@ == old(self)@.skip(8)
            },
            r matches Err(e) ==> e == SerError::UnexpectedEof && old(self)@.len() < 8,
    {
        self.read_digits(8)
    }

    /// Takes eight bytes as a number in two's complement, most significant first.
    pub fn read_i64(&mut self) -> (r: Result<i64, SerError>)
        ensures
            r matches Ok(x) ==> {
                &&& 8 <= old(self)@.len()
                &&& x == from_twos_complement(be_value(old(self)@.take(8)))
                &&& final(self)@ == old(self)@.skip(8)
            },
            r matches Err(e) ==> e == SerError::UnexpectedEof && old(self)@.len() < 8,
    {
        match self.read_digits(8) {
            Ok(bits) => {
                if bits <= i64::MAX as u64 {
                    Ok(bits as i64)
                } else {
                    Ok(-((u64::MAX - bits) as i64) - 1)
                }
            },
            Err(e) => Err(e),
        }
    }
}

pub proof fn lemma_be_bound_monotone(a: nat, b: nat)
    requires
        a <= b,
    ensures
        be_bound(a) <= be_bound(b),
        be_bound(b) >= 1,
    decreases b,
{
    if a < b {
        lemma_be_bound_monotone(a, (b - 1) as nat);
    } else if b > 0 {
        lemma_be_bound_monotone((b - 1) as nat, (b - 1) as nat);
    }
}

} // verus!
