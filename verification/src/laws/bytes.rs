//! Where the parts of a binary form stand.

use vstd::prelude::*;
use vstd::arithmetic::power::pow;
use crate::block::{block_bytes, parse_block, BlockData};
use crate::compact::{compact_bytes, parse_compact, CompactData};
use crate::consensus::ConsensusError;
use crate::hash::{short_id_of, siphash_2_4, ShortId};
use crate::header::{header_bytes, lemma_parse_of_header, parse_header, valid_header, HeaderData};
use crate::order::{encode_all, lex_le, parse_all, parse_sorted, sorted_form, Wire};
use crate::secp::Commitment;
use crate::ser::{
    be_bytes, be_value, lemma_be_bounds, lemma_be_bytes_len, lemma_bytes_of_value,
    lemma_value_of_bytes, SerError, SerializationMode,
};
use crate::transaction::{
    Input, InputData, KernelData, KernelFeatures, Output, OutputData, OutputFeatures, TxKernel,
};

verus! {

/// Numbers are written in base 256, most significant digit first, in as many digits as asked for.
pub proof fn law_digits_of_a_number(n: nat, width: nat, i: int)
    requires
        0 <= i < width,
    ensures
        be_bytes(n, width).len() == width,
        be_bytes(n, width)[i] == (n as int / pow(256, (width - 1 - i) as nat)) % 256,
    decreases width,
{
    lemma_be_bytes_len(n, width);
    lemma_be_bytes_len(n / 256, (width - 1) as nat);
    if i == width - 1 {
        vstd::arithmetic::power::lemma_pow0(256);
    } else {
        let e = (width - 2 - i) as nat;
        law_digits_of_a_number(n / 256, (width - 1) as nat, i);
        reveal(pow);
        assert(pow(256, e + 1) == 256 * pow(256, e));
        vstd::arithmetic::power::lemma_pow_positive(256, e);
        vstd::arithmetic::div_mod::lemma_div_denominator(n as int, 256, pow(256, e));
    }
}

/// Bytes are read as a number in base 256, most significant digit first, however many they are.
pub proof fn law_number_of_digits(s: Seq<u8>)
    ensures
        be_value(s) == s.fold_left(0int, |n: int, b: u8| n * 256 + b),
    decreases s.len(),
{
    if s.len() > 0 {
        law_number_of_digits(s.drop_last());
    }
}

/// A short id is the six least significant bytes of a keyed hash of the item, least significant
/// first. The halves of the key are the first two words of the block hash, read least significant
/// byte first.
pub proof fn law_short_id(item: Seq<u8>, block: Seq<u8>)
    requires
        block.len() == 32,
    ensures
        ({
            let k0 = block.take(8).reverse().fold_left(0int, |n: int, b: u8| n * 256 + b);
            let k1 = block.subrange(8, 16).reverse().fold_left(0int, |n: int, b: u8| n * 256 + b);
            let sip = siphash_2_4(k0 as u64, k1 as u64, item);
            &&& 0 <= k0 <= u64::MAX
            &&& 0 <= k1 <= u64::MAX
            &&& short_id_of(item, block).len() == 6
            &&& forall|i: int|
                0 <= i < 6 ==> #[trigger] short_id_of(item, block)[i] == (sip as int / pow(
                    256,
                    i as nat,
                )) % 256
        }),
{
    let low = block.subrange(0, 8).reverse();
    let high = block.subrange(8, 16).reverse();
    assert(block.take(8) =~= block.subrange(0, 8));
    law_number_of_digits(low);
    law_number_of_digits(high);
    lemma_bytes_of_value(low);
    lemma_bytes_of_value(high);
    lemma_be_bounds();
    let sip = siphash_2_4(be_value(low) as u64, be_value(high) as u64, item);
    lemma_be_bytes_len(sip as nat, 8);
    assert forall|i: int| 0 <= i < 6 implies #[trigger] short_id_of(item, block)[i] == (sip as int
        / pow(256, i as nat)) % 256 by {
        law_digits_of_a_number(sip as nat, 8, 7 - i);
    }
}

/// Where the fields of a header stand in its binary form, whatever they hold. What a hash is made
/// of ends before the proof of work.
pub proof fn law_header_layout(h: HeaderData, mode: SerializationMode)
    requires
        valid_header(h),
    ensures
        ({
            let s = header_bytes(h, mode);
            &&& s.len() == 202 + (if mode == SerializationMode::Full {
                4 * h.pow.len()
            } else {
                0
            })
            &&& be_value(s.subrange(0, 2)) == h.version
            &&& be_value(s.subrange(2, 10)) == h.height
            &&& s.subrange(10, 42) == h.previous
            &&& be_value(s.subrange(42, 50)) == (if h.timestamp >= 0 {
                h.timestamp as int
            } else {
                h.timestamp + 0x1_0000_0000_0000_0000
            })
            &&& s.subrange(50, 82) == h.utxo_root
            &&& s.subrange(82, 114) == h.range_proof_root
            &&& s.subrange(114, 146) == h.kernel_root
            &&& be_value(s.subrange(146, 154)) == h.nonce
            &&& be_value(s.subrange(154, 162)) == h.difficulty
            &&& be_value(s.subrange(162, 170)) == h.total_difficulty
            &&& s.subrange(170, 202) == h.kernel_offset
            &&& mode == SerializationMode::Full ==> forall|i: int|
                0 <= i < h.pow.len() ==> be_value(s.subrange(202 + 4 * i, 206 + 4 * i))
                    == #[trigger] h.pow[i]
        }),
{
    let full = header_bytes(h, SerializationMode::Full);
    let s = header_bytes(h, mode);
    lemma_parse_of_header(h, Seq::empty());
    assert(full + Seq::<u8>::empty() =~= full);
    assert(full.skip(202 + 4 * h.pow.len() as int) =~= Seq::empty());
    lemma_be_bounds();
    lemma_value_of_bytes(h.version as nat, 2);
    lemma_value_of_bytes(h.height as nat, 8);
    lemma_value_of_bytes(crate::ser::twos_complement(h.timestamp), 8);
    lemma_value_of_bytes(h.nonce as nat, 8);
    lemma_value_of_bytes(h.difficulty as nat, 8);
    lemma_value_of_bytes(h.total_difficulty as nat, 8);
    lemma_be_bytes_len(h.version as nat, 2);
    lemma_be_bytes_len(h.height as nat, 8);
    lemma_be_bytes_len(crate::ser::twos_complement(h.timestamp), 8);
    lemma_be_bytes_len(h.nonce as nat, 8);
    lemma_be_bytes_len(h.difficulty as nat, 8);
    lemma_be_bytes_len(h.total_difficulty as nat, 8);
    assert(s.subrange(0, 2) =~= be_bytes(h.version as nat, 2));
    assert(s.subrange(2, 10) =~= be_bytes(h.height as nat, 8));
    assert(s.subrange(10, 42) =~= h.previous);
    assert(s.subrange(42, 50) =~= be_bytes(crate::ser::twos_complement(h.timestamp), 8));
    assert(s.subrange(50, 82) =~= h.utxo_root);
    assert(s.subrange(82, 114) =~= h.range_proof_root);
    assert(s.subrange(114, 146) =~= h.kernel_root);
    assert(s.subrange(146, 154) =~= be_bytes(h.nonce as nat, 8));
    assert(s.subrange(154, 162) =~= be_bytes(h.difficulty as nat, 8));
    assert(s.subrange(162, 170) =~= be_bytes(h.total_difficulty as nat, 8));
    assert(s.subrange(170, 202) =~= h.kernel_offset);
    if mode == SerializationMode::Full {
        assert forall|i: int| 0 <= i < h.pow.len() implies be_value(
            s.subrange(202 + 4 * i, 206 + 4 * i),
        ) == #[trigger] h.pow[i] by {
            let at = s.skip(202).subrange(4 * i, 4 * i + 4);
            assert(at =~= s.subrange(202 + 4 * i, 206 + 4 * i));
            lemma_bytes_of_value(at);
            assert(crate::header::nonces_of(s.skip(202), h.pow.len())[i] == h.pow[i]);
        }
    }
}

/// A header is read just where there are enough bytes for it, and takes no more of them.
pub proof fn law_header_read(s: Seq<u8>, proof_size: nat)
    ensures
        s.len() < 202 + 4 * proof_size ==> parse_header(s, proof_size) == Err::<
            (HeaderData, Seq<u8>),
            SerError,
        >(SerError::UnexpectedEof),
        s.len() >= 202 + 4 * proof_size ==> (parse_header(s, proof_size) matches Ok((h, rest)) && {
            &&& valid_header(h)
            &&& h.pow.len() == proof_size
            &&& s.take(202 + 4 * proof_size as int) == header_bytes(h, SerializationMode::Full)
            &&& rest == s.skip(202 + 4 * proof_size as int)
        }),
{
    crate::header::lemma_header_of_parse(s, proof_size);
    match parse_header(s, proof_size) {
        Ok((h, rest)) => {
            law_header_layout(h, SerializationMode::Full);
            assert(s.take(202 + 4 * proof_size as int) =~= header_bytes(
                h,
                SerializationMode::Full,
            ));
        },
        Err(_) => {},
    }
}

/// Where the fields of an input stand in its binary form.
pub proof fn law_input_layout(v: InputData)
    requires
        v.commit.len() == 33,
    ensures
        Input::encode(v).len() == 34,
        Input::encode(v)[0] == (if v.features == OutputFeatures::Coinbase {
            1
        } else {
            0int
        }),
        Input::encode(v).subrange(1, 34) == v.commit,
{
    assert(Input::encode(v).subrange(1, 34) =~= v.commit);
}

/// Where the fields of an output stand in its binary form.
pub proof fn law_output_layout(v: OutputData)
    requires
        Output::valid(v),
    ensures
        Output::encode(v).len() == 74 + v.proof.len(),
        Output::encode(v)[0] == (if v.features == OutputFeatures::Coinbase {
            1
        } else {
            0int
        }),
        Output::encode(v).subrange(1, 34) == v.commit,
        Output::encode(v).subrange(34, 66) == v.switch_commit_hash,
        be_value(Output::encode(v).subrange(66, 74)) == v.proof.len(),
        Output::encode(v).subrange(74, 74 + v.proof.len() as int) == v.proof,
{
    let s = Output::encode(v);
    lemma_be_bounds();
    lemma_be_bytes_len(v.proof.len(), 8);
    lemma_value_of_bytes(v.proof.len(), 8);
    assert(s.subrange(1, 34) =~= v.commit);
    assert(s.subrange(34, 66) =~= v.switch_commit_hash);
    assert(s.subrange(66, 74) =~= be_bytes(v.proof.len(), 8));
    assert(s.subrange(74, 74 + v.proof.len() as int) =~= v.proof);
}

/// Where the fields of a kernel stand in its binary form.
pub proof fn law_kernel_layout(v: KernelData)
    requires
        v.excess.len() == 33,
        v.excess_sig.len() == 64,
    ensures
        TxKernel::encode(v).len() == 114,
        TxKernel::encode(v)[0] == (if v.features == KernelFeatures::Coinbase {
            1
        } else {
            0int
        }),
        be_value(TxKernel::encode(v).subrange(1, 9)) == v.fee,
        be_value(TxKernel::encode(v).subrange(9, 17)) == v.lock_height,
        TxKernel::encode(v).subrange(17, 50) == v.excess,
        TxKernel::encode(v).subrange(50, 114) == v.excess_sig,
{
    let s = TxKernel::encode(v);
    lemma_be_bounds();
    lemma_be_bytes_len(v.fee as nat, 8);
    lemma_value_of_bytes(v.fee as nat, 8);
    lemma_be_bytes_len(v.lock_height as nat, 8);
    lemma_value_of_bytes(v.lock_height as nat, 8);
    assert(s.subrange(1, 9) =~= be_bytes(v.fee as nat, 8));
    assert(s.subrange(9, 17) =~= be_bytes(v.lock_height as nat, 8));
    assert(s.subrange(17, 50) =~= v.excess);
    assert(s.subrange(50, 114) =~= v.excess_sig);
}

/// Commitments and short ids are written as they are.
pub proof fn law_plain_layout(s: Seq<u8>)
    ensures
        Commitment::encode(s) == s,
        ShortId::encode(s) == s,
        s.len() < 6 ==> ShortId::parse(s) == Err::<(Seq<u8>, Seq<u8>), SerError>(
            SerError::UnexpectedEof,
        ),
        s.len() >= 6 ==> ShortId::parse(s) == Ok::<(Seq<u8>, Seq<u8>), SerError>(
            (s.take(6), s.skip(6)),
        ),
{
}

/// What items are refused: those whose first byte names no features, before anything that follows
/// is read; then those that are cut short; and outputs whose range proof is too long.
pub proof fn law_items_refused(s: Seq<u8>)
    ensures
        Input::parse(s) is Ok <==> s.len() >= 34 && s[0] <= 1,
        s.len() > 0 && s[0] > 1 ==> Input::parse(s) == Err::<(InputData, Seq<u8>), SerError>(
            SerError::CorruptedData,
        ),
        s.len() < 34 && (s.len() == 0 || s[0] <= 1) ==> Input::parse(s) == Err::<
            (InputData, Seq<u8>),
            SerError,
        >(SerError::UnexpectedEof),
        TxKernel::parse(s) is Ok <==> s.len() >= 114 && s[0] <= 1,
        s.len() > 0 && s[0] > 1 ==> TxKernel::parse(s) == Err::<(KernelData, Seq<u8>), SerError>(
            SerError::CorruptedData,
        ),
        s.len() < 114 && (s.len() == 0 || s[0] <= 1) ==> TxKernel::parse(s) == Err::<
            (KernelData, Seq<u8>),
            SerError,
        >(SerError::UnexpectedEof),
        s.len() > 0 && s[0] > 1 ==> Output::parse(s) == Err::<(OutputData, Seq<u8>), SerError>(
            SerError::CorruptedData,
        ),
        s.len() < 74 && (s.len() == 0 || s[0] <= 1) ==> Output::parse(s) == Err::<
            (OutputData, Seq<u8>),
            SerError,
        >(SerError::UnexpectedEof),
        s.len() >= 74 && s[0] <= 1 && be_value(s.subrange(66, 74)) > 5134 ==> Output::parse(s)
            == Err::<(OutputData, Seq<u8>), SerError>(SerError::CorruptedData),
        s.len() >= 74 && s[0] <= 1 && be_value(s.subrange(66, 74)) <= 5134 ==> (Output::parse(s)
            is Ok <==> s.len() >= 74 + be_value(s.subrange(66, 74))),
        s.len() >= 74 && s[0] <= 1 && be_value(s.subrange(66, 74)) <= 5134 && Output::parse(s)
            is Err ==> Output::parse(s) == Err::<(OutputData, Seq<u8>), SerError>(
            SerError::UnexpectedEof,
        ),
{
}

/// The binary forms of a list follow one another, however many there are.
pub proof fn law_list_layout<T: Wire>(s: Seq<T::V>)
    ensures
        encode_all::<T>(s) == s.fold_left(
            Seq::<u8>::empty(),
            (|all: Seq<u8>, v: T::V| all + T::encode(v)),
        ),
    decreases s.len(),
{
    if s.len() > 0 {
        law_list_layout::<T>(s.drop_last());
        crate::order::lemma_encode_all_push::<T>(s.drop_last(), s.last());
        assert(s =~= s.drop_last().push(s.last()));
    }
}

/// A list of any length is read item by item, and refused where two of its items are out of order.
pub proof fn law_list_read<T: Wire>(s: Seq<u8>, n: nat)
    ensures
        parse_all::<T>(s, 0) == Ok::<(Seq<T::V>, Seq<u8>), SerError>((Seq::empty(), s)),
        parse_all::<T>(s, n + 1) == (match T::parse(s) {
            Err(e) => Err::<(Seq<T::V>, Seq<u8>), SerError>(e),
            Ok((v, rest)) => match parse_all::<T>(rest, n) {
                Err(e) => Err(e),
                Ok((vs, end)) => Ok((seq![v] + vs, end)),
            },
        }),
        parse_all::<T>(s, n) is Err ==> parse_sorted::<T>(s, n) == parse_all::<T>(s, n),
        parse_all::<T>(s, n) matches Ok((vs, end)) ==> {
            &&& (forall|i: int, j: int|
                0 <= i < j < vs.len() ==> lex_le(
                    #[trigger] T::encode(vs[i]),
                    #[trigger] T::encode(vs[j]),
                )) ==> parse_sorted::<T>(s, n) == Ok::<(Seq<T::V>, Seq<u8>), SerError>((vs, end))
            &&& (exists|i: int, j: int|
                0 <= i < j < vs.len() && !lex_le(
                    #[trigger] T::encode(vs[i]),
                    #[trigger] T::encode(vs[j]),
                )) ==> parse_sorted::<T>(s, n) == Err::<(Seq<T::V>, Seq<u8>), SerError>(
                SerError::Consensus(ConsensusError::SortError),
            )
        },
{
}

/// A block is written as its header, three counts and its items in order, however many there are.
/// What a hash is made of is that of the header alone.
pub proof fn law_block_layout(b: BlockData)
    ensures
        block_bytes(b, SerializationMode::Hash) == header_bytes(b.header, SerializationMode::Hash),
        block_bytes(b, SerializationMode::Full) == header_bytes(b.header, SerializationMode::Full)
            + be_bytes(b.inputs.len(), 8) + be_bytes(b.outputs.len(), 8) + be_bytes(
            b.kernels.len(),
            8,
        ) + sorted_form::<Input>(b.inputs).fold_left(
            Seq::<u8>::empty(),
            (|all: Seq<u8>, v: InputData| all + Input::encode(v)),
        ) + sorted_form::<Output>(b.outputs).fold_left(
            Seq::<u8>::empty(),
            (|all: Seq<u8>, v: OutputData| all + Output::encode(v)),
        ) + sorted_form::<TxKernel>(b.kernels).fold_left(
            Seq::<u8>::empty(),
            (|all: Seq<u8>, v: KernelData| all + TxKernel::encode(v)),
        ),
{
    law_list_layout::<Input>(sorted_form::<Input>(b.inputs));
    law_list_layout::<Output>(sorted_form::<Output>(b.outputs));
    law_list_layout::<TxKernel>(sorted_form::<TxKernel>(b.kernels));
    assert(block_bytes(b, SerializationMode::Full) =~= header_bytes(
        b.header,
        SerializationMode::Full,
    ) + be_bytes(b.inputs.len(), 8) + be_bytes(b.outputs.len(), 8) + be_bytes(b.kernels.len(), 8)
        + encode_all::<Input>(sorted_form::<Input>(b.inputs)) + encode_all::<Output>(
        sorted_form::<Output>(b.outputs),
    ) + encode_all::<TxKernel>(sorted_form::<TxKernel>(b.kernels)));
}

/// A compact block is written as its header, the nonce, three counts and its items in order,
/// however many there are. What a hash is made of are the header and the nonce.
pub proof fn law_compact_layout(c: CompactData)
    ensures
        compact_bytes(c, SerializationMode::Hash) == header_bytes(
            c.header,
            SerializationMode::Hash,
        ) + be_bytes(c.nonce as nat, 8),
        compact_bytes(c, SerializationMode::Full) == header_bytes(
            c.header,
            SerializationMode::Full,
        ) + be_bytes(c.nonce as nat, 8) + be_bytes(c.out_full.len(), 8) + be_bytes(
            c.kern_full.len(),
            8,
        ) + be_bytes(c.kern_ids.len(), 8) + sorted_form::<Output>(c.out_full).fold_left(
            Seq::<u8>::empty(),
            (|all: Seq<u8>, v: OutputData| all + Output::encode(v)),
        ) + sorted_form::<TxKernel>(c.kern_full).fold_left(
            Seq::<u8>::empty(),
            (|all: Seq<u8>, v: KernelData| all + TxKernel::encode(v)),
        ) + sorted_form::<ShortId>(c.kern_ids).fold_left(
            Seq::<u8>::empty(),
            (|all: Seq<u8>, v: Seq<u8>| all + v),
        ),
{
    law_list_layout::<Output>(sorted_form::<Output>(c.out_full));
    law_list_layout::<TxKernel>(sorted_form::<TxKernel>(c.kern_full));
    let ids = sorted_form::<ShortId>(c.kern_ids);
    law_list_layout::<ShortId>(ids);
    lemma_same_fold(ids);
    assert(compact_bytes(c, SerializationMode::Full) =~= header_bytes(
        c.header,
        SerializationMode::Full,
    ) + be_bytes(c.nonce as nat, 8) + be_bytes(c.out_full.len(), 8) + be_bytes(
        c.kern_full.len(),
        8,
    ) + be_bytes(c.kern_ids.len(), 8) + encode_all::<Output>(sorted_form::<Output>(c.out_full))
        + encode_all::<TxKernel>(sorted_form::<TxKernel>(c.kern_full)) + encode_all::<ShortId>(
        ids,
    ));
}

proof fn lemma_same_fold(ids: Seq<Seq<u8>>)
    ensures
        ids.fold_left(
            Seq::<u8>::empty(),
            (|all: Seq<u8>, v: Seq<u8>| all + ShortId::encode(v)),
        ) == ids.fold_left(Seq::<u8>::empty(), (|all: Seq<u8>, v: Seq<u8>| all + v)),
    decreases ids.len(),
{
    if ids.len() > 0 {
        lemma_same_fold(ids.drop_last());
    }
}

/// A block is read as its header, three counts and as many items of each list, which have to be in
/// order; what comes first of that fails.
pub proof fn law_block_read(s: Seq<u8>, proof_size: nat)
    ensures
        parse_header(s, proof_size) matches Err(e) ==> parse_block(s, proof_size) == Err::<
            (BlockData, Seq<u8>),
            SerError,
        >(e),
        parse_header(s, proof_size) matches Ok((_, s1)) ==> {
            let a = be_value(s1.subrange(0, 8));
            let b = be_value(s1.subrange(8, 16));
            let c = be_value(s1.subrange(16, 24));
            let ins = parse_sorted::<Input>(s1.skip(24), a);
            let outs = parse_sorted::<Output>(ins->Ok_0.1, b);
            let kerns = parse_sorted::<TxKernel>(outs->Ok_0.1, c);
            &&& s1.len() < 24 ==> parse_block(s, proof_size) == Err::<
                (BlockData, Seq<u8>),
                SerError,
            >(SerError::UnexpectedEof)
            &&& s1.len() >= 24 && ins is Err ==> parse_block(s, proof_size) == Err::<
                (BlockData, Seq<u8>),
                SerError,
            >(ins->Err_0)
            &&& s1.len() >= 24 && ins is Ok && outs is Err ==> parse_block(s, proof_size) == Err::<
                (BlockData, Seq<u8>),
                SerError,
            >(outs->Err_0)
            &&& s1.len() >= 24 && ins is Ok && outs is Ok && kerns is Err ==> parse_block(
                s,
                proof_size,
            ) == Err::<(BlockData, Seq<u8>), SerError>(kerns->Err_0)
            &&& s1.len() >= 24 && ins is Ok && outs is Ok && kerns is Ok ==> (parse_block(
                s,
                proof_size,
            ) matches Ok((block, rest)) && {
                &&& block.header == parse_header(s, proof_size)->Ok_0.0
                &&& block.inputs == ins->Ok_0.0
                &&& block.outputs == outs->Ok_0.0
                &&& block.kernels == kerns->Ok_0.0
                &&& rest == kerns->Ok_0.1
            })
        },
{
}

/// A compact block is read as its header, the nonce, three counts and as many items of each list,
/// which have to be in order; what comes first of that fails.
pub proof fn law_compact_read(s: Seq<u8>, proof_size: nat)
    ensures
        parse_header(s, proof_size) matches Err(e) ==> parse_compact(s, proof_size) == Err::<
            (CompactData, Seq<u8>),
            SerError,
        >(e),
        parse_header(s, proof_size) matches Ok((_, s0)) ==> {
            let a = be_value(s0.subrange(8, 16));
            let b = be_value(s0.subrange(16, 24));
            let c = be_value(s0.subrange(24, 32));
            let outs = parse_sorted::<Output>(s0.skip(32), a);
            let kerns = parse_sorted::<TxKernel>(outs->Ok_0.1, b);
            let ids = parse_sorted::<ShortId>(kerns->Ok_0.1, c);
            &&& s0.len() < 32 ==> parse_compact(s, proof_size) == Err::<
                (CompactData, Seq<u8>),
                SerError,
            >(SerError::UnexpectedEof)
            &&& s0.len() >= 32 && outs is Err ==> parse_compact(s, proof_size) == Err::<
                (CompactData, Seq<u8>),
                SerError,
            >(outs->Err_0)
            &&& s0.len() >= 32 && outs is Ok && kerns is Err ==> parse_compact(s, proof_size)
                == Err::<(CompactData, Seq<u8>), SerError>(kerns->Err_0)
            &&& s0.len() >= 32 && outs is Ok && kerns is Ok && ids is Err ==> parse_compact(
                s,
                proof_size,
            ) == Err::<(CompactData, Seq<u8>), SerError>(ids->Err_0)
            &&& s0.len() >= 32 && outs is Ok && kerns is Ok && ids is Ok ==> (parse_compact(
                s,
                proof_size,
            ) matches Ok((block, rest)) && {
                &&& block.header == parse_header(s, proof_size)->Ok_0.0
                &&& block.nonce == be_value(s0.subrange(0, 8)) as u64
                &&& block.out_full == outs->Ok_0.0
                &&& block.kern_full == kerns->Ok_0.0
                &&& block.kern_ids == ids->Ok_0.0
                &&& rest == ids->Ok_0.1
            })
        },
{
    match parse_header(s, proof_size) {
        Ok((_, s0)) => {
            if s0.len() >= 32 {
                let s1 = s0.skip(8);
                assert(s1.subrange(0, 8) =~= s0.subrange(8, 16));
                assert(s1.subrange(8, 16) =~= s0.subrange(16, 24));
                assert(s1.subrange(16, 24) =~= s0.subrange(24, 32));
                assert(s1.skip(24) =~= s0.skip(32));
            }
        },
        Err(_) => {},
    }
}

} // verus!
