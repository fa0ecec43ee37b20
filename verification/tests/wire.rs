use grin_block::block::Block;
use grin_block::compact::CompactBlock;
use grin_block::consensus::ConsensusError;
use grin_block::hash::ShortId;
use grin_block::header::{BlockHeader, Difficulty, Proof};
use grin_block::order::{among, bytes_le, sort, sort_distinct, verify_sort_order, wire_bytes, Wire};
use grin_block::secp::{BlindingFactor, Commitment, RangeProof, Signature};
use grin_block::ser::{Reader, SerError, SerializationMode, Writer};
use grin_block::transaction::{
    kernel_sig_msg, Input, KernelFeatures, Output, OutputFeatures, SwitchCommitHash, TxKernel,
};
use std::hash::Hasher;

const PROOF_SIZE: usize = 42;

fn input(n: u8) -> Input {
    Input { features: OutputFeatures::Plain, commit: Commitment { bytes: [n; 33] } }
}

fn output(features: OutputFeatures, n: u8, proof_len: usize) -> Output {
    Output {
        features,
        commit: Commitment { bytes: [n; 33] },
        switch_commit_hash: SwitchCommitHash { bytes: [n; 32] },
        proof: RangeProof::new(vec![n; proof_len]).unwrap(),
    }
}

fn kernel(features: KernelFeatures, n: u8) -> TxKernel {
    TxKernel {
        features,
        fee: 2,
        lock_height: 0,
        excess: Commitment { bytes: [n; 33] },
        excess_sig: Signature { bytes: [n; 64] },
    }
}

fn header() -> BlockHeader {
    let mut h = BlockHeader::default(PROOF_SIZE);
    h.version = 0x0102;
    h.height = 0x0304;
    h.previous = grin_block::hash::Hash { bytes: [5; 32] };
    h.timestamp = -2;
    h.utxo_root = grin_block::hash::Hash { bytes: [6; 32] };
    h.range_proof_root = grin_block::hash::Hash { bytes: [7; 32] };
    h.kernel_root = grin_block::hash::Hash { bytes: [8; 32] };
    h.nonce = 9;
    h.pow = Proof { nonces: (0..42).collect() };
    h.difficulty = Difficulty::from_num(10);
    h.total_difficulty = Difficulty::from_num(11);
    h.kernel_offset = BlindingFactor { bytes: [12; 32] };
    h
}

fn hashed_part() -> Vec<u8> {
    let mut bytes = vec![1, 2];
    bytes.extend([0, 0, 0, 0, 0, 0, 3, 4]);
    bytes.extend([5; 32]);
    bytes.extend([255, 255, 255, 255, 255, 255, 255, 254]);
    bytes.extend([6; 32]);
    bytes.extend([7; 32]);
    bytes.extend([8; 32]);
    bytes.extend([0, 0, 0, 0, 0, 0, 0, 9]);
    bytes.extend([0, 0, 0, 0, 0, 0, 0, 10]);
    bytes.extend([0, 0, 0, 0, 0, 0, 0, 11]);
    bytes.extend([12; 32]);
    bytes
}

fn block(inputs: &[u8], outputs: &[u8], kernels: &[u8]) -> Block {
    Block {
        header: header(),
        inputs: inputs.iter().map(|n| input(*n)).collect(),
        outputs: outputs.iter().map(|n| output(OutputFeatures::Plain, *n, 5)).collect(),
        kernels: kernels.iter().map(|n| kernel(KernelFeatures::Plain, *n)).collect(),
    }
}

fn full(b: &Block) -> Vec<u8> {
    let mut writer = Writer::new(SerializationMode::Full);
    b.write(&mut writer);
    writer.into_bytes()
}

fn blake2b(data: &[u8]) -> Vec<u8> {
    blake2_rfc::blake2b::blake2b(32, &[], data).as_bytes().to_vec()
}

#[test]
fn header_is_written_field_by_field() {
    let mut writer = Writer::new(SerializationMode::Hash);
    header().write(&mut writer);
    assert_eq!(writer.serialization_mode(), SerializationMode::Hash);
    assert_eq!(writer.into_bytes(), hashed_part());

    let mut expected = hashed_part();
    for n in 0..42 {
        expected.extend([0, 0, 0, n]);
    }
    let mut writer = Writer::new(SerializationMode::Full);
    header().write(&mut writer);
    let bytes = writer.into_bytes();
    assert_eq!(bytes, expected);
    assert_eq!(bytes.len(), 370);

    let mut reader = Reader::new(&bytes);
    assert_eq!(BlockHeader::read(&mut reader, PROOF_SIZE), Ok(header()));
    assert_eq!(reader.remaining(), 0);
}

#[test]
fn short_header_is_refused() {
    let mut writer = Writer::new(SerializationMode::Full);
    header().write(&mut writer);
    let bytes = writer.into_bytes();
    for len in [0, 1, 9, 41, 49, 169, 201, 202, 369] {
        let r = BlockHeader::read(&mut Reader::new(&bytes[..len]), PROOF_SIZE);
        assert_eq!(r, Err(SerError::UnexpectedEof));
    }
    let r = BlockHeader::read(&mut Reader::new(&bytes), PROOF_SIZE + 1);
    assert_eq!(r, Err(SerError::UnexpectedEof));
}

#[test]
fn default_header_is_zeroed_out() {
    let h = BlockHeader::default(3);
    assert_eq!(h.version, 1);
    assert_eq!(h.height, 0);
    assert_eq!(h.previous.bytes, [0; 32]);
    assert_eq!(h.timestamp, 0);
    assert_eq!(h.utxo_root.bytes, [0; 32]);
    assert_eq!(h.range_proof_root.bytes, [0; 32]);
    assert_eq!(h.kernel_root.bytes, [0; 32]);
    assert_eq!(h.nonce, 0);
    assert_eq!(h.pow.nonces, vec![0, 0, 0]);
    assert_eq!(h.difficulty, Difficulty::one());
    assert_eq!(h.total_difficulty.num, 1);
    assert_eq!(h.kernel_offset, BlindingFactor::zero());
    let b = Block::default(3);
    assert_eq!(b.header, h);
    assert!(b.inputs.is_empty() && b.outputs.is_empty() && b.kernels.is_empty());
}

#[test]
fn hash_of_a_block_is_that_of_its_header_without_proof_of_work() {
    let mut b = block(&[1], &[2], &[3]);
    let hash = b.hash();
    assert_eq!(hash.bytes.to_vec(), blake2b(&hashed_part()));
    assert_eq!(hash, b.header.hash());
    b.header.pow = Proof::zero(PROOF_SIZE);
    b.inputs.clear();
    assert_eq!(b.hash(), hash);
    let mut writer = Writer::new(SerializationMode::Hash);
    b.write(&mut writer);
    assert_eq!(writer.into_bytes(), hashed_part());
    b.header.nonce = 10;
    assert!(b.hash() != hash);
}

#[test]
fn hash_of_a_compact_block_is_that_of_header_and_nonce() {
    let b = block(&[1], &[2], &[3]);
    let cb = b.as_compact_block_with(0x0d0e);
    let mut bytes = hashed_part();
    bytes.extend([0, 0, 0, 0, 0, 0, 13, 14]);
    assert_eq!(cb.hash().bytes.to_vec(), blake2b(&bytes));
    assert_eq!(cb.hash(), b.hash_with_nonce(0x0d0e));
    assert_eq!(cb.nonce, 0x0d0e);
}

#[test]
fn short_id_is_part_of_the_keyed_hash() {
    let k = kernel(KernelFeatures::Plain, 3);
    let block = header().hash();
    let mut words = [0u64; 2];
    for i in 0..2 {
        for j in 0..8 {
            words[i] += (block.bytes[8 * i + j] as u64) << (8 * j);
        }
    }
    let mut hasher = siphasher::sip::SipHasher24::new_with_keys(words[0], words[1]);
    hasher.write(&blake2b(&wire_bytes(&k)));
    let sip = hasher.finish();
    let id = k.short_id(&block);
    for i in 0..6 {
        assert_eq!(id.bytes[i] as u64, (sip >> (8 * i)) & 255);
    }
    assert_eq!(k.hash().bytes.to_vec(), blake2b(&wire_bytes(&k)));
    assert_eq!(ShortId::from_word(0x0102030405060708).bytes, [8, 7, 6, 5, 4, 3]);
}

#[test]
fn items_are_written_field_by_field() {
    let mut expected = vec![0u8];
    expected.extend([9; 33]);
    assert_eq!(wire_bytes(&input(9)), expected);

    let mut expected = vec![1u8];
    expected.extend([9; 33]);
    expected.extend([9; 32]);
    expected.extend([0, 0, 0, 0, 0, 0, 0, 2, 9, 9]);
    assert_eq!(wire_bytes(&output(OutputFeatures::Coinbase, 9, 2)), expected);

    let mut expected = vec![1u8];
    expected.extend([0, 0, 0, 0, 0, 0, 0, 2]);
    expected.extend([0, 0, 0, 0, 0, 0, 0, 0]);
    expected.extend([9; 33]);
    expected.extend([9; 64]);
    assert_eq!(wire_bytes(&kernel(KernelFeatures::Coinbase, 9)), expected);
}

#[test]
fn items_are_read_back() {
    let o = output(OutputFeatures::Plain, 9, 674);
    let bytes = wire_bytes(&o);
    assert_eq!(Output::read(&mut Reader::new(&bytes)), Ok(o));
    assert_eq!(Output::read(&mut Reader::new(&bytes[..747])), Err(SerError::UnexpectedEof));
    let mut bad = bytes.clone();
    bad[0] = 2;
    assert_eq!(Output::read(&mut Reader::new(&bad)), Err(SerError::CorruptedData));
    let mut bad = bytes.clone();
    bad[66] = 1;
    assert_eq!(Output::read(&mut Reader::new(&bad)), Err(SerError::CorruptedData));

    let k = kernel(KernelFeatures::Coinbase, 9);
    let bytes = wire_bytes(&k);
    assert_eq!(TxKernel::read(&mut Reader::new(&bytes)), Ok(k));
    assert_eq!(TxKernel::read(&mut Reader::new(&bytes[..113])), Err(SerError::UnexpectedEof));
    let mut bad = bytes.clone();
    bad[0] = 255;
    assert_eq!(TxKernel::read(&mut Reader::new(&bad)), Err(SerError::CorruptedData));

    let bytes = wire_bytes(&input(9));
    assert_eq!(Input::read(&mut Reader::new(&bytes)), Ok(input(9)));
    assert_eq!(Input::read(&mut Reader::new(&[2])), Err(SerError::CorruptedData));
    assert_eq!(Input::read(&mut Reader::new(&[])), Err(SerError::UnexpectedEof));

    let c = Commitment { bytes: [4; 33] };
    assert_eq!(Commitment::read(&mut Reader::new(&wire_bytes(&c))), Ok(c));
    assert_eq!(Commitment::read(&mut Reader::new(&[4; 32])), Err(SerError::UnexpectedEof));
    let id = ShortId { bytes: [4; 6] };
    assert_eq!(ShortId::read(&mut Reader::new(&wire_bytes(&id))), Ok(id));
    assert_eq!(ShortId::read(&mut Reader::new(&[4; 5])), Err(SerError::UnexpectedEof));
}

#[test]
fn lists_are_written_in_order() {
    let mixed = block(&[3, 1, 2], &[6, 5], &[9, 8, 8]);
    let sorted = block(&[1, 2, 3], &[5, 6], &[8, 8, 9]);
    let bytes = full(&mixed);
    assert_eq!(bytes, full(&sorted));
    let mut reader = Reader::new(&bytes);
    let b = Block::read(&mut reader, PROOF_SIZE).unwrap();
    assert_eq!(reader.remaining(), 0);
    assert_eq!(b, sorted);
    assert_eq!(full(&b), bytes);
}

#[test]
fn what_follows_a_block_is_left() {
    let b = block(&[1], &[], &[2]);
    let mut bytes = full(&b);
    bytes.extend([77, 78]);
    let mut reader = Reader::new(&bytes);
    assert_eq!(Block::read(&mut reader, PROOF_SIZE), Ok(b));
    assert_eq!(reader.remaining(), 2);
    assert_eq!(reader.read_u16(), Ok(77 * 256 + 78));
    assert_eq!(reader.read_u8(), Err(SerError::UnexpectedEof));
}

#[test]
fn unsorted_or_short_blocks_are_refused() {
    let b = block(&[1, 2], &[], &[]);
    let bytes = full(&b);
    assert_eq!(bytes.len(), 370 + 24 + 2 * 34);
    let mut bad = bytes.clone();
    // the commitment of the first input
    bad[370 + 24 + 1] = 3;
    assert_eq!(
        Block::read(&mut Reader::new(&bad), PROOF_SIZE),
        Err(SerError::Consensus(ConsensusError::SortError))
    );
    for len in [0, 369, 370, 393, 394, 450, bytes.len() - 1] {
        assert_eq!(
            Block::read(&mut Reader::new(&bytes[..len]), PROOF_SIZE),
            Err(SerError::UnexpectedEof)
        );
    }
    // a count that nothing could hold
    let mut bad = bytes.clone();
    bad[370] = 255;
    assert_eq!(Block::read(&mut Reader::new(&bad), PROOF_SIZE), Err(SerError::UnexpectedEof));
}

#[test]
fn compact_block_is_read_back_in_order() {
    let cb = CompactBlock {
        header: header(),
        nonce: 5,
        out_full: vec![
            output(OutputFeatures::Coinbase, 2, 3),
            output(OutputFeatures::Coinbase, 1, 3),
        ],
        kern_full: vec![kernel(KernelFeatures::Coinbase, 4)],
        kern_ids: vec![ShortId { bytes: [9; 6] }, ShortId { bytes: [8; 6] }],
    };
    let mut writer = Writer::new(SerializationMode::Full);
    cb.write(&mut writer);
    let bytes = writer.into_bytes();
    assert_eq!(bytes.len(), 370 + 8 + 24 + 2 * 77 + 114 + 2 * 6);
    let read = CompactBlock::read(&mut Reader::new(&bytes), PROOF_SIZE).unwrap();
    assert_eq!(read.header, cb.header);
    assert_eq!(read.nonce, 5);
    assert_eq!(read.out_full[0], cb.out_full[1]);
    assert_eq!(read.out_full[1], cb.out_full[0]);
    assert_eq!(read.kern_full, cb.kern_full);
    assert_eq!(read.kern_ids, vec![cb.kern_ids[1], cb.kern_ids[0]]);
    let mut writer = Writer::new(SerializationMode::Full);
    read.clone().write(&mut writer);
    assert_eq!(writer.into_bytes(), bytes);
    for len in [370, 377, 378, 401, bytes.len() - 1] {
        assert_eq!(
            CompactBlock::read(&mut Reader::new(&bytes[..len]), PROOF_SIZE),
            Err(SerError::UnexpectedEof)
        );
    }
    let mut bad = bytes.clone();
    let last = bad.len() - 6;
    bad[last] = 7;
    assert_eq!(
        CompactBlock::read(&mut Reader::new(&bad), PROOF_SIZE),
        Err(SerError::Consensus(ConsensusError::SortError))
    );
}

#[test]
fn order_is_lexicographic() {
    assert!(bytes_le(&[], &[]));
    assert!(bytes_le(&[1], &[1, 0]));
    assert!(!bytes_le(&[1, 0], &[1]));
    assert!(bytes_le(&[1, 9], &[2]));
    assert!(!bytes_le(&[2], &[1, 9]));
    let items = vec![input(3), input(1), input(3), input(2)];
    assert_eq!(sort(&items), vec![input(1), input(2), input(3), input(3)]);
    assert_eq!(sort_distinct(&items), vec![input(1), input(2), input(3)]);
    assert_eq!(verify_sort_order(&items), Err(ConsensusError::SortError));
    assert_eq!(verify_sort_order(&sort(&items)), Ok(()));
    assert!(among(&sort(&items), &input(2)));
    assert!(!among(&sort(&items), &input(4)));
    assert!(!among(&sort(&items), &input(0)));
}

#[test]
fn numbers_are_written_most_significant_byte_first() {
    let mut writer = Writer::new(SerializationMode::Full);
    writer.write_u8(1);
    writer.write_u16(0x0203);
    writer.write_u32(0x04050607);
    writer.write_u64(0x08090a0b0c0d0e0f);
    writer.write_i64(i64::MIN);
    writer.write_i64(-1);
    writer.write_bytes(&[16, 17]);
    let bytes = writer.into_bytes();
    assert_eq!(bytes[..15], [1, 2, 3, 4, 5, 6, 7, 8, 9, 10, 11, 12, 13, 14, 15]);
    assert_eq!(bytes[15..23], [128, 0, 0, 0, 0, 0, 0, 0]);
    assert_eq!(bytes[23..31], [255; 8]);
    assert_eq!(bytes[31..], [0, 0, 0, 0, 0, 0, 0, 2, 16, 17]);
    let mut reader = Reader::new(&bytes);
    assert_eq!(reader.read_u8(), Ok(1));
    assert_eq!(reader.read_u16(), Ok(0x0203));
    assert_eq!(reader.read_u32(), Ok(0x04050607));
    assert_eq!(reader.read_u64(), Ok(0x08090a0b0c0d0e0f));
    assert_eq!(reader.read_i64(), Ok(i64::MIN));
    assert_eq!(reader.read_i64(), Ok(-1));
    assert_eq!(reader.read_fixed_bytes(8), Ok(vec![0, 0, 0, 0, 0, 0, 0, 2]));
    assert_eq!(reader.read_array::<2>(), Ok([16, 17]));
    assert_eq!(reader.read_u32(), Err(SerError::UnexpectedEof));
}

#[test]
fn kernel_message_holds_fee_and_lock_height() {
    let msg = kernel_sig_msg(0x0102, u64::MAX);
    let mut expected = [0u8; 32];
    expected[22] = 1;
    expected[23] = 2;
    for i in 24..32 {
        expected[i] = 255;
    }
    assert_eq!(msg, expected);
}

#[test]
fn compact_block_parts_the_kernels() {
    let mut b = block(&[], &[4], &[7, 6]);
    b.kernels.push(kernel(KernelFeatures::Coinbase, 2));
    b.kernels.push(kernel(KernelFeatures::Coinbase, 1));
    b.outputs.push(output(OutputFeatures::Coinbase, 8, 3));
    b.outputs.push(output(OutputFeatures::Coinbase, 7, 3));
    let cb = b.as_compact_block_with(1);
    assert_eq!(cb.header, b.header);
    assert_eq!(
        cb.out_full,
        vec![output(OutputFeatures::Coinbase, 7, 3), output(OutputFeatures::Coinbase, 8, 3)]
    );
    assert_eq!(
        cb.kern_full,
        vec![kernel(KernelFeatures::Coinbase, 1), kernel(KernelFeatures::Coinbase, 2)]
    );
    let hash = cb.hash();
    assert_eq!(sort(&b.coinbase_outputs()), cb.out_full);
    let (kern_full, kern_ids) = b.split_kernels(&hash);
    assert_eq!(sort(&kern_full), cb.kern_full);
    assert_eq!(sort(&kern_ids), cb.kern_ids);
    let ids = vec![b.kernels[0].short_id(&hash), b.kernels[1].short_id(&hash)];
    assert_eq!(cb.kern_ids, sort(&ids));
    assert!(cb.kern_ids[0] != cb.kern_ids[1]);
}

#[test]
fn proof_size_is_limited() {
    assert!(RangeProof::new(vec![0; 5134]).is_some());
    assert!(RangeProof::new(vec![0; 5135]).is_none());
}
