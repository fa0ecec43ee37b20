//! Reading and writing undo each other.

use vstd::prelude::*;
use crate::block::{block_bytes, counts_bytes, parse_block, valid_block, valid_items, BlockData};
use crate::compact::{compact_bytes, parse_compact, valid_compact, CompactData};
use crate::hash::ShortId;
use crate::header::{
    hashed_header, header_bytes, lemma_header_of_parse, lemma_parse_of_header, parse_header,
    HeaderData,
};
use crate::order::{
    all_valid, encode_all, lemma_encode_all_of_parse_all, lemma_is_the_sorted_form,
    lemma_parse_all_of_encode_all, lemma_sorted_form, parse_sorted, sorted, sorted_form, Wire,
};
use crate::ser::{
    be_bytes, be_value, lemma_be_bounds, lemma_be_bytes_len, lemma_bytes_of_value,
    lemma_value_of_bytes, SerError, SerializationMode,
};
use crate::transaction::{Input, Output, TxKernel};
use crate::validate::all_sorted;

verus! {

broadcast use vstd::seq_lib::group_to_multiset_ensures;

/// A block with all its lists in order.
pub open spec fn in_order(b: BlockData) -> BlockData {
    BlockData {
        header: b.header,
        inputs: sorted_form::<Input>(b.inputs),
        outputs: sorted_form::<Output>(b.outputs),
        kernels: sorted_form::<TxKernel>(b.kernels),
    }
}

/// A compact block with all its lists in order.
pub open spec fn compact_in_order(c: CompactData) -> CompactData {
    CompactData {
        header: c.header,
        nonce: c.nonce,
        out_full: sorted_form::<Output>(c.out_full),
        kern_full: sorted_form::<TxKernel>(c.kern_full),
        kern_ids: sorted_form::<ShortId>(c.kern_ids),
    }
}

/// Whether all lists of a block have lengths that can be written.
pub open spec fn lengths_fit(b: BlockData) -> bool {
    &&& b.inputs.len() <= u64::MAX
    &&& b.outputs.len() <= u64::MAX
    &&& b.kernels.len() <= u64::MAX
}

/// Whether all lists of a compact block have lengths that can be written.
pub open spec fn compact_lengths_fit(c: CompactData) -> bool {
    &&& c.out_full.len() <= u64::MAX
    &&& c.kern_full.len() <= u64::MAX
    &&& c.kern_ids.len() <= u64::MAX
}

/// Whether all lists of a compact block are in order.
pub open spec fn compact_sorted(c: CompactData) -> bool {
    &&& sorted::<Output>(c.out_full)
    &&& sorted::<TxKernel>(c.kern_full)
    &&& sorted::<ShortId>(c.kern_ids)
}

proof fn lemma_counts(a: nat, b: nat, c: nat, rest: Seq<u8>)
    requires
        a <= u64::MAX,
        b <= u64::MAX,
        c <= u64::MAX,
    ensures
        counts_bytes(a, b, c).len() == 24,
        be_value((counts_bytes(a, b, c) + rest).subrange(0, 8)) == a,
        be_value((counts_bytes(a, b, c) + rest).subrange(8, 16)) == b,
        be_value((counts_bytes(a, b, c) + rest).subrange(16, 24)) == c,
        (counts_bytes(a, b, c) + rest).skip(24) == rest,
{
    let s = counts_bytes(a, b, c) + rest;
    lemma_be_bounds();
    lemma_value_of_bytes(a, 8);
    lemma_value_of_bytes(b, 8);
    lemma_value_of_bytes(c, 8);
    lemma_be_bytes_len(a, 8);
    lemma_be_bytes_len(b, 8);
    lemma_be_bytes_len(c, 8);
    assert(s.subrange(0, 8) =~= be_bytes(a, 8));
    assert(s.subrange(8, 16) =~= be_bytes(b, 8));
    assert(s.subrange(16, 24) =~= be_bytes(c, 8));
    assert(s.skip(24) =~= rest);
}

proof fn lemma_counts_of(s: Seq<u8>)
    requires
        s.len() >= 24,
    ensures
        s.take(24) == counts_bytes(
            be_value(s.subrange(0, 8)),
            be_value(s.subrange(8, 16)),
            be_value(s.subrange(16, 24)),
        ),
        be_value(s.subrange(0, 8)) <= u64::MAX,
        be_value(s.subrange(8, 16)) <= u64::MAX,
        be_value(s.subrange(16, 24)) <= u64::MAX,
{
    lemma_be_bounds();
    lemma_bytes_of_value(s.subrange(0, 8));
    lemma_bytes_of_value(s.subrange(8, 16));
    lemma_bytes_of_value(s.subrange(16, 24));
    assert(s.take(24) =~= s.subrange(0, 8) + s.subrange(8, 16) + s.subrange(16, 24));
}

/// A list is read back in order from its written form.
proof fn lemma_parse_sorted<T: Wire>(s: Seq<T::V>, rest: Seq<u8>)
    requires
        all_valid::<T>(s),
    ensures
        parse_sorted::<T>(encode_all::<T>(sorted_form::<T>(s)) + rest, s.len()) == Ok::<
            (Seq<T::V>, Seq<u8>),
            SerError,
        >((sorted_form::<T>(s), rest)),
{
    lemma_sorted_form::<T>(s);
    lemma_parse_all_of_encode_all::<T>(sorted_form::<T>(s), rest);
}

/// A list that was read is written back as the same bytes.
proof fn lemma_of_parse_sorted<T: Wire>(s: Seq<u8>, n: nat)
    ensures
        parse_sorted::<T>(s, n) matches Ok((vs, rest)) ==> {
            &&& vs.len() == n
            &&& all_valid::<T>(vs)
            &&& sorted::<T>(vs)
            &&& sorted_form::<T>(vs) == vs
            &&& s == encode_all::<T>(sorted_form::<T>(vs)) + rest
        },
{
    lemma_encode_all_of_parse_all::<T>(s, n);
    match parse_sorted::<T>(s, n) {
        Ok((vs, rest)) => {
            lemma_is_the_sorted_form::<T>(vs, vs);
        },
        Err(_) => {},
    }
}

proof fn lemma_regroup(
    a: Seq<u8>,
    b: Seq<u8>,
    c: Seq<u8>,
    d: Seq<u8>,
    e: Seq<u8>,
    rest: Seq<u8>,
)
    ensures
        a + (b + (c + (d + (e + rest)))) == (a + b + c + d + e) + rest,
{
    assert(a + (b + (c + (d + (e + rest)))) =~= (a + b + c + d + e) + rest);
}

/// Reading what was written of a block gives back the block, with its lists in order, and
/// leaves what follows.
pub proof fn law_block_read_of_write(b: BlockData, rest: Seq<u8>)
    requires
        valid_block(b),
        lengths_fit(b),
    ensures
        parse_block(block_bytes(b, SerializationMode::Full) + rest, b.header.pow.len()) == Ok::<
            (BlockData, Seq<u8>),
            SerError,
        >((in_order(b), rest)),
        all_sorted(b) ==> in_order(b) == b,
        all_sorted(in_order(b)),
{
    let ins = encode_all::<Input>(sorted_form::<Input>(b.inputs));
    let outs = encode_all::<Output>(sorted_form::<Output>(b.outputs));
    let kerns = encode_all::<TxKernel>(sorted_form::<TxKernel>(b.kernels));
    let counts = counts_bytes(b.inputs.len(), b.outputs.len(), b.kernels.len());
    let s3 = kerns + rest;
    let s2 = outs + s3;
    let s1 = ins + s2;
    lemma_regroup(
        header_bytes(b.header, SerializationMode::Full),
        counts,
        ins,
        outs,
        kerns,
        rest,
    );
    lemma_parse_of_header(b.header, counts + s1);
    lemma_counts(b.inputs.len(), b.outputs.len(), b.kernels.len(), s1);
    lemma_parse_sorted::<Input>(b.inputs, s2);
    lemma_parse_sorted::<Output>(b.outputs, s3);
    lemma_parse_sorted::<TxKernel>(b.kernels, rest);
    lemma_sorted_form::<Input>(b.inputs);
    lemma_sorted_form::<Output>(b.outputs);
    lemma_sorted_form::<TxKernel>(b.kernels);
    if all_sorted(b) {
        lemma_is_the_sorted_form::<Input>(b.inputs, b.inputs);
        lemma_is_the_sorted_form::<Output>(b.outputs, b.outputs);
        lemma_is_the_sorted_form::<TxKernel>(b.kernels, b.kernels);
    }
}

/// A block that was read has its lists in order, and is written back as the bytes it was read
/// from.
pub proof fn law_block_write_of_read(s: Seq<u8>, proof_size: nat)
    ensures
        parse_block(s, proof_size) matches Ok((b, rest)) ==> {
            &&& valid_block(b)
            &&& lengths_fit(b)
            &&& all_sorted(b)
            &&& b.header.pow.len() == proof_size
            &&& s == block_bytes(b, SerializationMode::Full) + rest
        },
{
    match parse_block(s, proof_size) {
        Ok((b, rest)) => {
            lemma_header_of_parse(s, proof_size);
            let s1 = parse_header_rest(s, proof_size);
            lemma_counts_of(s1);
            let n_in = be_value(s1.subrange(0, 8));
            let n_out = be_value(s1.subrange(8, 16));
            let n_kern = be_value(s1.subrange(16, 24));
            lemma_of_parse_sorted::<Input>(s1.skip(24), n_in);
            let s2 = parse_sorted::<Input>(s1.skip(24), n_in)->Ok_0.1;
            lemma_of_parse_sorted::<Output>(s2, n_out);
            let s3 = parse_sorted::<Output>(s2, n_out)->Ok_0.1;
            lemma_of_parse_sorted::<TxKernel>(s3, n_kern);
            assert(s1 =~= s1.take(24) + s1.skip(24));
            lemma_regroup(
                header_bytes(b.header, SerializationMode::Full),
                s1.take(24),
                encode_all::<Input>(sorted_form::<Input>(b.inputs)),
                encode_all::<Output>(sorted_form::<Output>(b.outputs)),
                encode_all::<TxKernel>(sorted_form::<TxKernel>(b.kernels)),
                rest,
            );
        },
        Err(_) => {},
    }
}

/// What follows the header that `s` starts with.
spec fn parse_header_rest(s: Seq<u8>, proof_size: nat) -> Seq<u8> {
    match parse_header(s, proof_size) {
        Ok((_, rest)) => rest,
        Err(_) => Seq::empty(),
    }
}

/// Reading what was written of a compact block gives back the compact block, with its lists
/// in order, and leaves what follows.
pub proof fn law_compact_read_of_write(c: CompactData, rest: Seq<u8>)
    requires
        valid_compact(c),
        compact_lengths_fit(c),
    ensures
        parse_compact(compact_bytes(c, SerializationMode::Full) + rest, c.header.pow.len()) == Ok::<
            (CompactData, Seq<u8>),
            SerError,
        >((compact_in_order(c), rest)),
        compact_sorted(c) ==> compact_in_order(c) == c,
        compact_sorted(compact_in_order(c)),
{
    let outs = encode_all::<Output>(sorted_form::<Output>(c.out_full));
    let kerns = encode_all::<TxKernel>(sorted_form::<TxKernel>(c.kern_full));
    let ids = encode_all::<ShortId>(sorted_form::<ShortId>(c.kern_ids));
    let counts = counts_bytes(c.out_full.len(), c.kern_full.len(), c.kern_ids.len());
    let nonce = be_bytes(c.nonce as nat, 8);
    let s3 = ids + rest;
    let s2 = kerns + s3;
    let s1 = outs + s2;
    let s0 = nonce + (counts + s1);
    let header = header_bytes(c.header, SerializationMode::Full);
    lemma_regroup(header + nonce, counts, outs, kerns, ids, rest);
    assert((header + nonce) + (counts + s1) =~= header + s0);
    lemma_parse_of_header(c.header, s0);
    lemma_be_bounds();
    lemma_value_of_bytes(c.nonce as nat, 8);
    lemma_be_bytes_len(c.nonce as nat, 8);
    assert(s0.subrange(0, 8) =~= nonce);
    assert(s0.skip(8) =~= counts + s1);
    lemma_counts(c.out_full.len(), c.kern_full.len(), c.kern_ids.len(), s1);
    lemma_parse_sorted::<Output>(c.out_full, s2);
    lemma_parse_sorted::<TxKernel>(c.kern_full, s3);
    lemma_parse_sorted::<ShortId>(c.kern_ids, rest);
    lemma_sorted_form::<Output>(c.out_full);
    lemma_sorted_form::<TxKernel>(c.kern_full);
    lemma_sorted_form::<ShortId>(c.kern_ids);
    if compact_sorted(c) {
        lemma_is_the_sorted_form::<Output>(c.out_full, c.out_full);
        lemma_is_the_sorted_form::<TxKernel>(c.kern_full, c.kern_full);
        lemma_is_the_sorted_form::<ShortId>(c.kern_ids, c.kern_ids);
    }
}

/// A compact block that was read has its lists in order, and is written back as the bytes it
/// was read from.
pub proof fn law_compact_write_of_read(s: Seq<u8>, proof_size: nat)
    ensures
        parse_compact(s, proof_size) matches Ok((c, rest)) ==> {
            &&& valid_compact(c)
            &&& compact_lengths_fit(c)
            &&& compact_sorted(c)
            &&& c.header.pow.len() == proof_size
            &&& s == compact_bytes(c, SerializationMode::Full) + rest
        },
{
    match parse_compact(s, proof_size) {
        Ok((c, rest)) => {
            lemma_header_of_parse(s, proof_size);
            let s0 = parse_header_rest(s, proof_size);
            let s1 = s0.skip(8);
            lemma_be_bounds();
            lemma_bytes_of_value(s0.subrange(0, 8));
            lemma_counts_of(s1);
            let n_out = be_value(s1.subrange(0, 8));
            let n_kern = be_value(s1.subrange(8, 16));
            let n_id = be_value(s1.subrange(16, 24));
            lemma_of_parse_sorted::<Output>(s1.skip(24), n_out);
            let s2 = parse_sorted::<Output>(s1.skip(24), n_out)->Ok_0.1;
            lemma_of_parse_sorted::<TxKernel>(s2, n_kern);
            let s3 = parse_sorted::<TxKernel>(s2, n_kern)->Ok_0.1;
            lemma_of_parse_sorted::<ShortId>(s3, n_id);
            assert(s1 =~= s1.take(24) + s1.skip(24));
            assert(s0 =~= s0.subrange(0, 8) + s1);
            let header = header_bytes(c.header, SerializationMode::Full);
            assert(header + (s0.subrange(0, 8) + s1) =~= header + s0.subrange(0, 8) + s1);
            lemma_regroup(
                header + s0.subrange(0, 8),
                s1.take(24),
                encode_all::<Output>(sorted_form::<Output>(c.out_full)),
                encode_all::<TxKernel>(sorted_form::<TxKernel>(c.kern_full)),
                encode_all::<ShortId>(sorted_form::<ShortId>(c.kern_ids)),
                rest,
            );
        },
        Err(_) => {},
    }
}

/// Blocks with the same header and the same items, in whatever order, are written alike.
pub proof fn law_write_ignores_order(a: BlockData, b: BlockData, mode: SerializationMode)
    requires
        valid_items(a),
        a.header == b.header,
        a.inputs.to_multiset() == b.inputs.to_multiset(),
        a.outputs.to_multiset() == b.outputs.to_multiset(),
        a.kernels.to_multiset() == b.kernels.to_multiset(),
    ensures
        block_bytes(a, mode) == block_bytes(b, mode),
{
    lemma_sorted_form::<Input>(a.inputs);
    lemma_sorted_form::<Output>(a.outputs);
    lemma_sorted_form::<TxKernel>(a.kernels);
    lemma_same_sorted_form::<Input>(a.inputs, b.inputs);
    lemma_same_sorted_form::<Output>(a.outputs, b.outputs);
    lemma_same_sorted_form::<TxKernel>(a.kernels, b.kernels);
    assert(a.inputs.len() == a.inputs.to_multiset().len() == b.inputs.len());
    assert(a.outputs.len() == a.outputs.to_multiset().len() == b.outputs.len());
    assert(a.kernels.len() == a.kernels.to_multiset().len() == b.kernels.len());
}

/// Lists with the same items have the same sorted form.
pub proof fn lemma_same_sorted_form<T: Wire>(a: Seq<T::V>, b: Seq<T::V>)
    requires
        all_valid::<T>(a),
        a.to_multiset() == b.to_multiset(),
    ensures
        all_valid::<T>(b),
        sorted_form::<T>(a) == sorted_form::<T>(b),
{
    assert forall|i: int| 0 <= i < b.len() implies T::valid(#[trigger] b[i]) by {
        assert(b.contains(b[i]));
        assert(a.to_multiset().count(b[i]) > 0);
        assert(a.contains(b[i]));
        let k = choose|k: int| 0 <= k < a.len() && a[k] == b[i];
        assert(T::valid(a[k]));
    }
    lemma_sorted_form::<T>(a);
    lemma_is_the_sorted_form::<T>(b, sorted_form::<T>(a));
}

/// The hash of a block is made of all of its header but the proof of work, and of none of its
/// items.
pub proof fn law_hash_is_of_the_header(a: BlockData, b: BlockData)
    requires
        b.header == (HeaderData { pow: b.header.pow, ..a.header }),
    ensures
        block_bytes(a, SerializationMode::Hash) == block_bytes(b, SerializationMode::Hash),
        block_bytes(a, SerializationMode::Hash) == hashed_header(a.header),
{
}

} // verus!
