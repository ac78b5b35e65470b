//! Properties of the decompressor, stated over its specification.
use vstd::prelude::*;

use crate::bit_reader::{align_up, bit_at, bits_le, two_pow};
use crate::huffman::{decode_spec, lemma_decode_advances, nodes_wf, HuffmanNode};
use crate::inflate::{
    back_copy, block_spec, blocks_spec, end_bits, inflate_spec, read_lengths_spec, repeat,
    stored_spec, DecompressResult,
};

verus! {

/// The first five bytes of a stream whose first block is final and stored:
/// the block header byte, then `LEN` and `NLEN`, little endian.
pub open spec fn stored_header(len: u16, nlen: u16) -> Seq<u8> {
    seq![1u8, (len & 0xff) as u8, (len >> 8u16) as u8, (nlen & 0xff) as u8, (nlen >> 8u16) as u8]
}

proof fn lemma_low_bits_of_one()
    ensures
        bit_at(seq![1u8], 0) == 1,
        bit_at(seq![1u8], 1) == 0,
        bit_at(seq![1u8], 2) == 0,
{
    assert((1u8 >> 0u8) & 1u8 == 1) by (bit_vector);
    assert((1u8 >> 1u8) & 1u8 == 0) by (bit_vector);
    assert((1u8 >> 2u8) & 1u8 == 0) by (bit_vector);
}

/// A final stored block whose `NLEN` is the complement of `LEN` reproduces
/// exactly the `LEN` bytes that follow its header, whatever comes after them.
pub proof fn lemma_stored_block_exact(payload: Seq<u8>, rest: Seq<u8>)
    requires
        payload.len() <= 0xffff,
    ensures
        inflate_spec(
            stored_header(payload.len() as u16, !(payload.len() as u16)) + payload + rest,
        ) == Ok::<Seq<u8>, DecompressResult>(payload),
{
    let n = payload.len() as u16;
    let nn = !n;
    let data = stored_header(n, nn) + payload + rest;
    reveal_with_fuel(bits_le, 3);
    reveal_with_fuel(two_pow, 2);
    lemma_low_bits_of_one();
    assert(bit_at(data, 0) == bit_at(seq![1u8], 0));
    assert(bit_at(data, 1) == bit_at(seq![1u8], 1));
    assert(bit_at(data, 2) == bit_at(seq![1u8], 2));
    assert(bits_le(data, 0, 1) == 1);
    assert(bits_le(data, 1, 2) == 0);
    assert(align_up(3) == 8);
    assert((n & 0xff) as u8 + 256 * (n >> 8u16) as u8 == n) by (bit_vector);
    assert((nn & 0xff) as u8 + 256 * (nn >> 8u16) as u8 == nn) by (bit_vector);
    assert(n + nn == 0xffff) by (bit_vector)
        requires
            nn == !n,
    ;
    assert(data[1] == (n & 0xff) as u8);
    assert(data[2] == (n >> 8u16) as u8);
    assert(data[3] == (nn & 0xff) as u8);
    assert(data[4] == (nn >> 8u16) as u8);
    assert(data.subrange(5, 5 + n) =~= payload);
    assert(seq![] + payload =~= payload);
    assert(stored_spec(data, 3, seq![]) == Ok::<(Seq<u8>, int), DecompressResult>(
        (payload, (5 + n) * 8),
    ));
    assert(block_spec(data, 0, 3, seq![]) == stored_spec(data, 3, seq![]));
}

/// A final stored block whose `NLEN` is not the complement of `LEN` is rejected
/// with `UncompressedLengthMismatch`.
pub proof fn lemma_stored_block_mismatch(len: u16, nlen: u16, rest: Seq<u8>)
    requires
        nlen != !len,
    ensures
        inflate_spec(stored_header(len, nlen) + rest) == Err::<Seq<u8>, DecompressResult>(
            DecompressResult::UncompressedLengthMismatch,
        ),
{
    let data = stored_header(len, nlen) + rest;
    reveal_with_fuel(bits_le, 3);
    reveal_with_fuel(two_pow, 2);
    lemma_low_bits_of_one();
    assert(bit_at(data, 0) == bit_at(seq![1u8], 0));
    assert(bit_at(data, 1) == bit_at(seq![1u8], 1));
    assert(bit_at(data, 2) == bit_at(seq![1u8], 2));
    assert(align_up(3) == 8);
    assert((len & 0xff) as u8 + 256 * (len >> 8u16) as u8 == len) by (bit_vector);
    assert((nlen & 0xff) as u8 + 256 * (nlen >> 8u16) as u8 == nlen) by (bit_vector);
    assert(len + nlen != 0xffff) by (bit_vector)
        requires
            nlen != !len,
    ;
    assert(data[1] == (len & 0xff) as u8);
    assert(data[2] == (len >> 8u16) as u8);
    assert(data[3] == (nlen & 0xff) as u8);
    assert(data[4] == (nlen >> 8u16) as u8);
}

/// A stream whose first block has the reserved type 3 is rejected with
/// `IllegalBlockFormat`.
#[verifier::rlimit(30)]
pub proof fn lemma_reserved_block_type(data: Seq<u8>)
    requires
        data.len() >= 1,
        data[0] & 6u8 == 6u8,
    ensures
        inflate_spec(data) == Err::<Seq<u8>, DecompressResult>(
            DecompressResult::IllegalBlockFormat,
        ),
{
    let b = data[0];
    reveal_with_fuel(bits_le, 3);
    reveal_with_fuel(two_pow, 2);
    assert((b >> 1u8) & 1u8 == 1u8) by (bit_vector)
        requires
            b & 6u8 == 6u8,
    ;
    assert((b >> 2u8) & 1u8 == 1u8) by (bit_vector)
        requires
            b & 6u8 == 6u8,
    ;
    assert(bit_at(data, 1) == 1);
    assert(bit_at(data, 2) == 1);
    assert(bits_le(data, 1, 2) == 3);
    assert(block_spec(data, 3, 3, seq![]) == Err::<(Seq<u8>, int), DecompressResult>(
        DecompressResult::IllegalBlockFormat,
    ));
}

/// Each byte of a back-reference copy repeats the last `d` bytes of the output
/// as it stood before the copy: byte `k` of the copy is the byte at
/// `len - d + k % d`, also when the copy is longer than the distance.
pub proof fn lemma_back_copy_repeats(out: Seq<u8>, d: int, n: nat)
    requires
        1 <= d <= out.len(),
    ensures
        back_copy(out, d, n).len() == out.len() + n,
        back_copy(out, d, n).subrange(0, out.len() as int) == out,
        forall|k: int|
            0 <= k < n ==> #[trigger] back_copy(out, d, n)[out.len() + k] == out[out.len() - d
                + k % d],
    decreases n,
{
    if n > 0 {
        let m = (n - 1) as nat;
        lemma_back_copy_repeats(out, d, m);
        let o = back_copy(out, d, m);
        let r = back_copy(out, d, n);
        assert(r == o.push(o[o.len() - d]));
        assert(r.subrange(0, out.len() as int) =~= o.subrange(0, out.len() as int));
        assert forall|k: int| 0 <= k < n implies #[trigger] r[out.len() + k] == out[out.len() - d
            + k % d] by {
            if k < m {
                assert(r[out.len() + k] == o[out.len() + k]);
            } else {
                let j = out.len() + m - d;
                if m < d {
                    vstd::arithmetic::div_mod::lemma_small_mod(k as nat, d as nat);
                    assert(o[j] == o.subrange(0, out.len() as int)[j]);
                } else {
                    let k2 = m - d;
                    assert(o[j] == o[out.len() + k2]);
                    assert(k2 % d == k % d) by {
                        vstd::arithmetic::div_mod::lemma_mod_sub_multiples_vanish(k, d);
                    }
                }
            }
        }
    }
}

/// The number of extra bits after repeat symbol `sym` of the code-length
/// alphabet.
pub open spec fn repeat_extra_bits(sym: u16) -> nat {
    if sym == 16 {
        2
    } else if sym == 17 {
        3
    } else {
        7
    }
}

/// The shortest run that repeat symbol `sym` stands for.
pub open spec fn repeat_base(sym: u16) -> nat {
    if sym == 18 {
        11
    } else {
        3
    }
}

/// While code lengths are still missing, a repeat symbol of the code-length
/// alphabet appends exactly its run: 16 repeats the previous length
/// `3 + (2 extra bits)` times (and is rejected when there is none), 17 appends
/// `3 + (3 extra bits)` zeros and 18 appends `11 + (7 extra bits)` zeros;
/// decoding then goes on after the extra bits.
pub proof fn lemma_code_length_repeats(
    cl: Seq<HuffmanNode>,
    data: Seq<u8>,
    pos: int,
    acc: Seq<u16>,
    total: nat,
)
    requires
        nodes_wf(cl),
        0 <= pos,
        acc.len() < total,
        decode_spec(cl, data, pos) matches Ok((sym, _p)) && 16 <= sym <= 18,
    ensures
        ({
            let (sym, p) = decode_spec(cl, data, pos)->Ok_0;
            let n = repeat_extra_bits(sym);
            let run = if sym == 16 {
                repeat(acc.last(), repeat_base(sym) + bits_le(data, p, n))
            } else {
                repeat(0, repeat_base(sym) + bits_le(data, p, n))
            };
            read_lengths_spec(cl, data, pos, acc, total) == if sym == 16 && acc.len() == 0 {
                Err(DecompressResult::IllegalSmallTree)
            } else if p + n > end_bits(data) {
                Err(DecompressResult::UnexpectedEnd)
            } else {
                read_lengths_spec(cl, data, p + n, acc + run, total)
            }
        }),
{
    lemma_decode_advances(cl, 0, data, pos);
}

} // verus!