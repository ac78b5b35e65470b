//! Block decoding, the block loop and the zlib wrapper.
use vstd::prelude::*;

use crate::bit_reader::{align_up, bits_le, lemma_bytes_le_2, two_pow, Decoder};
use crate::huffman::{build_tree, decode_spec, HuffmanNode, HuffmanTree, MAX_CODE_LEN};

verus! {

/// Why a stream could not be decompressed.
#[derive(Clone, Copy, Debug, PartialEq, Eq, Structural)]
pub enum DecompressResult {
    /// The block type field holds the reserved value 3.
    IllegalBlockFormat,
    /// A stored block's `NLEN` is not the one's complement of its `LEN`.
    UncompressedLengthMismatch,
    /// A Huffman code walked to a missing branch, ran off the end of the input,
    /// or decoded a symbol that has no meaning at that place.
    TreeError,
    /// The code-length alphabet produced a symbol outside 0..=18, or a repeat of
    /// a previous length where there is none.
    IllegalSmallTree,
    /// A back-reference reaches before the start of the output.
    InvalidDistance,
    /// The input ended inside a header, a raw field or a stored block.
    UnexpectedEnd,
}

impl DecompressResult {
    /// The name of the error kind.
    pub open spec fn name_spec(&self) -> Seq<char> {
        match self {
            DecompressResult::IllegalBlockFormat => "IllegalBlockFormat"@,
            DecompressResult::UncompressedLengthMismatch => "UncompressedLengthMismatch"@,
            DecompressResult::TreeError => "TreeError"@,
            DecompressResult::IllegalSmallTree => "IllegalSmallTree"@,
            DecompressResult::InvalidDistance => "InvalidDistance"@,
            DecompressResult::UnexpectedEnd => "UnexpectedEnd"@,
        }
    }

    /// The name of the error kind, as a string.
    pub fn name(&self) -> (r: String)
        ensures
            r@ == self.name_spec(),
    {
        match self {
            DecompressResult::IllegalBlockFormat => "IllegalBlockFormat".to_owned(),
            DecompressResult::UncompressedLengthMismatch => "UncompressedLengthMismatch".to_owned(),
            DecompressResult::TreeError => "TreeError".to_owned(),
            DecompressResult::IllegalSmallTree => "IllegalSmallTree".to_owned(),
            DecompressResult::InvalidDistance => "InvalidDistance".to_owned(),
            DecompressResult::UnexpectedEnd => "UnexpectedEnd".to_owned(),
        }
    }
}

/// The order in which the code lengths of the code-length alphabet arrive.
pub const TABLE_CODE_LENGTH_ORDER: [u16; 19] = [
    16, 17, 18, 0, 8, 7, 9, 6, 10, 5, 11, 4, 12, 3, 13, 2, 14, 1, 15,
];

/// Extra bits of the length codes 257..=285.
pub const TABLE_LENGTH_EXTRA_BITS: [u32; 29] = [
    0, 0, 0, 0, 0, 0, 0, 0, 1, 1, 1, 1, 2, 2, 2, 2, 3, 3, 3, 3, 4, 4, 4, 4, 5, 5, 5, 5, 0,
];

/// Base lengths of the length codes 257..=285.
pub const TABLE_LENGTH_BASE: [u32; 29] = [
    3, 4, 5, 6, 7, 8, 9, 10, 11, 13, 15, 17, 19, 23, 27, 31, 35, 43, 51, 59, 67, 83, 99, 115,
    131, 163, 195, 227, 258,
];

/// Extra bits of the distance codes 0..=29.
pub const TABLE_DISTANCE_EXTRA_BITS: [u32; 30] = [
    0, 0, 0, 0, 1, 1, 2, 2, 3, 3, 4, 4, 5, 5, 6, 6, 7, 7, 8, 8, 9, 9, 10, 10, 11, 11, 12, 12, 13,
    13,
];

/// Base distances of the distance codes 0..=29.
pub const TABLE_DISTANCE_BASE: [u32; 30] = [
    1, 2, 3, 4, 5, 7, 9, 13, 17, 25, 33, 49, 65, 97, 129, 193, 257, 385, 513, 769, 1025, 1537,
    2049, 3073, 4097, 6145, 8193, 12289, 16385, 24577,
];

/// The number of bits in `data`.
pub open spec fn end_bits(data: Seq<u8>) -> int {
    data.len() * 8int
}

/// `out` followed by `n` bytes, each a copy of the byte `d` places before it;
/// when `d < n` the copy reads bytes that it wrote itself.
pub open spec fn back_copy(out: Seq<u8>, d: int, n: nat) -> Seq<u8>
    decreases n,
{
    if n == 0 {
        out
    } else {
        let o = back_copy(out, d, (n - 1) as nat);
        o.push(o[o.len() - d])
    }
}

/// `v` repeated `n` times.
pub open spec fn repeat(v: u16, n: nat) -> Seq<u16> {
    Seq::new(n, |_i: int| v)
}

/// The symbols `0..n`.
pub open spec fn identity_alphabet(n: nat) -> Seq<u16> {
    Seq::new(n, |i: int| i as u16)
}

/// Code lengths of the fixed literal/length tree.
pub open spec fn fixed_lit_lengths() -> Seq<u16> {
    Seq::new(
        288,
        |i: int|
            if i < 144 {
                8u16
            } else if i < 256 {
                9u16
            } else if i < 280 {
                7u16
            } else {
                8u16
            },
    )
}

/// Code lengths of the fixed distance tree.
pub open spec fn fixed_dist_lengths() -> Seq<u16> {
    Seq::new(30, |_i: int| 5u16)
}

/// A stored block whose header starts at bit `pos`: after aligning to a byte,
/// `LEN` and `NLEN` (little endian), then `LEN` raw bytes.
pub open spec fn stored_spec(data: Seq<u8>, pos: int, out: Seq<u8>) -> Result<
    (Seq<u8>, int),
    DecompressResult,
> {
    let start = align_up(pos) / 8;
    if start + 4 > data.len() {
        Err(DecompressResult::UnexpectedEnd)
    } else {
        let len = data[start] + 256 * data[start + 1];
        let nlen = data[start + 2] + 256 * data[start + 3];
        if len + nlen != 0xffff {
            Err(DecompressResult::UncompressedLengthMismatch)
        } else if start + 4 + len > data.len() {
            Err(DecompressResult::UnexpectedEnd)
        } else {
            Ok((out + data.subrange(start + 4, start + 4 + len), (start + 4 + len) * 8))
        }
    }
}

/// The length/distance pair announced by length symbol `sym`, whose extra bits
/// start at `pos`: the output grows by the copy.
pub open spec fn back_reference_spec(
    dist: Seq<HuffmanNode>,
    data: Seq<u8>,
    sym: u16,
    pos: int,
    out: Seq<u8>,
) -> Result<(Seq<u8>, int), DecompressResult> {
    let i = sym - 257;
    let eb = TABLE_LENGTH_EXTRA_BITS@[i] as nat;
    if pos + eb > end_bits(data) {
        Err(DecompressResult::UnexpectedEnd)
    } else {
        let length = TABLE_LENGTH_BASE@[i] + bits_le(data, pos, eb);
        match decode_spec(dist, data, pos + eb) {
            Err(e) => Err(e),
            Ok((dsym, p)) => {
                if dsym >= 30 {
                    Err(DecompressResult::TreeError)
                } else {
                    let deb = TABLE_DISTANCE_EXTRA_BITS@[dsym as int] as nat;
                    if p + deb > end_bits(data) {
                        Err(DecompressResult::UnexpectedEnd)
                    } else {
                        let distance = TABLE_DISTANCE_BASE@[dsym as int] + bits_le(data, p, deb);
                        if distance > out.len() {
                            Err(DecompressResult::InvalidDistance)
                        } else {
                            Ok((back_copy(out, distance, length as nat), p + deb))
                        }
                    }
                }
            },
        }
    }
}

/// The symbols of a Huffman-coded block from bit `pos` up to and including the
/// end-of-block symbol 256: literals are appended, length symbols copy earlier
/// output.
pub open spec fn codes_spec(
    lit: Seq<HuffmanNode>,
    dist: Seq<HuffmanNode>,
    data: Seq<u8>,
    pos: int,
    out: Seq<u8>,
) -> Result<(Seq<u8>, int), DecompressResult>
    decreases end_bits(data) - pos,
{
    match decode_spec(lit, data, pos) {
        Err(e) => Err(e),
        Ok((sym, p)) => {
            if !(pos < p <= end_bits(data)) {
                Err(DecompressResult::TreeError)
            } else if sym < 256 {
                codes_spec(lit, dist, data, p, out.push(sym as u8))
            } else if sym == 256 {
                Ok((out, p))
            } else if sym <= 285 {
                match back_reference_spec(dist, data, sym, p, out) {
                    Err(e) => Err(e),
                    Ok((o, q)) => if p <= q <= end_bits(data) {
                        codes_spec(lit, dist, data, q, o)
                    } else {
                        Err(DecompressResult::TreeError)
                    },
                }
            } else {
                Err(DecompressResult::TreeError)
            }
        },
    }
}

/// A block coded with the fixed trees.
pub open spec fn fixed_spec(data: Seq<u8>, pos: int, out: Seq<u8>) -> Result<
    (Seq<u8>, int),
    DecompressResult,
> {
    codes_spec(
        build_tree(fixed_lit_lengths(), identity_alphabet(288)),
        build_tree(fixed_dist_lengths(), identity_alphabet(30)),
        data,
        pos,
        out,
    )
}

/// The 19 code lengths of the code-length alphabet after the first `i` 3-bit
/// values, read from `pos`, were placed in their slots.
pub open spec fn cl_lengths_upto(data: Seq<u8>, pos: int, i: int) -> Seq<u16>
    decreases i,
{
    if i <= 0 {
        Seq::new(19, |_j: int| 0u16)
    } else {
        cl_lengths_upto(data, pos, i - 1).update(
            TABLE_CODE_LENGTH_ORDER@[i - 1] as int,
            bits_le(data, pos + 3 * (i - 1), 3) as u16,
        )
    }
}

/// Code lengths decoded with the code-length tree `cl`, appended to `acc` until
/// it holds at least `total` of them: 0..=15 stand for themselves, 16 repeats
/// the previous length 3..=6 times, 17 gives 3..=10 zeros, 18 gives 11..=138
/// zeros.
pub open spec fn read_lengths_spec(
    cl: Seq<HuffmanNode>,
    data: Seq<u8>,
    pos: int,
    acc: Seq<u16>,
    total: nat,
) -> Result<(Seq<u16>, int), DecompressResult>
    decreases end_bits(data) - pos,
{
    if acc.len() >= total {
        Ok((acc, pos))
    } else {
        match decode_spec(cl, data, pos) {
            Err(e) => Err(e),
            Ok((sym, p)) => {
                if !(pos < p <= end_bits(data)) {
                    Err(DecompressResult::TreeError)
                } else if sym <= 15 {
                    read_lengths_spec(cl, data, p, acc.push(sym), total)
                } else if sym == 16 {
                    if acc.len() == 0 {
                        Err(DecompressResult::IllegalSmallTree)
                    } else if p + 2 > end_bits(data) {
                        Err(DecompressResult::UnexpectedEnd)
                    } else {
                        read_lengths_spec(
                            cl,
                            data,
                            p + 2,
                            acc + repeat(acc.last(), 3 + bits_le(data, p, 2)),
                            total,
                        )
                    }
                } else if sym == 17 {
                    if p + 3 > end_bits(data) {
                        Err(DecompressResult::UnexpectedEnd)
                    } else {
                        read_lengths_spec(
                            cl,
                            data,
                            p + 3,
                            acc + repeat(0, 3 + bits_le(data, p, 3)),
                            total,
                        )
                    }
                } else if sym == 18 {
                    if p + 7 > end_bits(data) {
                        Err(DecompressResult::UnexpectedEnd)
                    } else {
                        read_lengths_spec(
                            cl,
                            data,
                            p + 7,
                            acc + repeat(0, 11 + bits_le(data, p, 7)),
                            total,
                        )
                    }
                } else {
                    Err(DecompressResult::IllegalSmallTree)
                }
            },
        }
    }
}

/// The code-length tree of a dynamic block whose `HCLEN` 3-bit values start at
/// `pos`.
pub open spec fn cl_tree_spec(data: Seq<u8>, pos: int, hclen: nat) -> Seq<HuffmanNode> {
    build_tree(cl_lengths_upto(data, pos, hclen as int), identity_alphabet(19))
}

/// The header of a dynamic block from bit `pos`: the literal/length tree, the
/// distance tree and the position after the header.
pub open spec fn trees_spec(data: Seq<u8>, pos: int) -> Result<
    (Seq<HuffmanNode>, Seq<HuffmanNode>, int),
    DecompressResult,
> {
    if pos + 14 > end_bits(data) {
        Err(DecompressResult::UnexpectedEnd)
    } else {
        let hlit = bits_le(data, pos, 5) + 257;
        let hdist = bits_le(data, pos + 5, 5) + 1;
        let hclen = bits_le(data, pos + 10, 4) + 4;
        let p = pos + 14;
        if p + 3 * hclen > end_bits(data) {
            Err(DecompressResult::UnexpectedEnd)
        } else {
            let cl = cl_tree_spec(data, p, hclen as nat);
            match read_lengths_spec(cl, data, p + 3 * hclen, seq![], (hlit + hdist) as nat) {
                Err(e) => Err(e),
                Ok((lens, q)) => Ok(
                    (
                        build_tree(lens.subrange(0, hlit as int), identity_alphabet(286)),
                        build_tree(lens.subrange(hlit as int, lens.len() as int), identity_alphabet(30)),
                        q,
                    ),
                ),
            }
        }
    }
}

/// A block coded with trees sent at its start.
pub open spec fn dynamic_spec(data: Seq<u8>, pos: int, out: Seq<u8>) -> Result<
    (Seq<u8>, int),
    DecompressResult,
> {
    match trees_spec(data, pos) {
        Err(e) => Err(e),
        Ok((lit, dist, p)) => codes_spec(lit, dist, data, p, out),
    }
}

/// The body of a block of type `btype` starting at bit `pos`.
pub open spec fn block_spec(data: Seq<u8>, btype: nat, pos: int, out: Seq<u8>) -> Result<
    (Seq<u8>, int),
    DecompressResult,
> {
    if btype == 0 {
        stored_spec(data, pos, out)
    } else if btype == 1 {
        fixed_spec(data, pos, out)
    } else if btype == 2 {
        dynamic_spec(data, pos, out)
    } else {
        Err(DecompressResult::IllegalBlockFormat)
    }
}

/// The blocks from bit `pos` on, each with a 1-bit final flag and a 2-bit type,
/// up to and including the first one marked final.
pub open spec fn blocks_spec(data: Seq<u8>, pos: int, out: Seq<u8>) -> Result<
    Seq<u8>,
    DecompressResult,
>
    decreases end_bits(data) - pos,
{
    if pos + 3 > end_bits(data) {
        Err(DecompressResult::UnexpectedEnd)
    } else {
        let bfinal = bits_le(data, pos, 1);
        let btype = bits_le(data, pos + 1, 2);
        match block_spec(data, btype, pos + 3, out) {
            Err(e) => Err(e),
            Ok((o, p)) => {
                if bfinal == 1 {
                    Ok(o)
                } else if pos < p <= end_bits(data) {
                    blocks_spec(data, p, o)
                } else {
                    Err(DecompressResult::UnexpectedEnd)
                }
            },
        }
    }
}

/// The decompressed content of a raw DEFLATE stream.
pub open spec fn inflate_spec(data: Seq<u8>) -> Result<Seq<u8>, DecompressResult> {
    blocks_spec(data, 0, seq![])
}

/// The number of bytes before the DEFLATE payload of a zlib stream: the 2-byte
/// header and, when the header's dictionary flag is set, a 4-byte dictionary id.
pub open spec fn zlib_skip(data: Seq<u8>) -> int {
    if (data[1] >> 5u8) & 1u8 == 1 {
        6
    } else {
        2
    }
}

/// The decompressed content of a zlib stream; the 4-byte trailer is not checked.
pub open spec fn zlib_spec(data: Seq<u8>) -> Result<Seq<u8>, DecompressResult> {
    if data.len() < 2 || data.len() < zlib_skip(data) + 4 {
        Err(DecompressResult::UnexpectedEnd)
    } else {
        inflate_spec(data.subrange(zlib_skip(data), data.len() - 4))
    }
}

/// `new` starts with `old`: output is only ever appended to.
pub open spec fn grows_from(old: Seq<u8>, new: Seq<u8>) -> bool {
    old.len() <= new.len() && new.subrange(0, old.len() as int) == old
}

/// A decoding step ended as the specification says: on success with output
/// `out` and the cursor at `pos`.
pub open spec fn step_matches(
    expected: Result<(Seq<u8>, int), DecompressResult>,
    r: Result<(), DecompressResult>,
    out: Seq<u8>,
    pos: int,
) -> bool {
    match expected {
        Ok((o, p)) => r is Ok && out == o && pos == p,
        Err(e) => r == Err::<(), DecompressResult>(e),
    }
}

/// A decompression result agrees with its specification.
pub open spec fn result_matches(
    r: Result<Vec<u8>, DecompressResult>,
    expected: Result<Seq<u8>, DecompressResult>,
) -> bool {
    match r {
        Ok(v) => expected == Ok::<Seq<u8>, DecompressResult>(v@),
        Err(e) => expected == Err::<Seq<u8>, DecompressResult>(e),
    }
}

/// The symbols `0..n` as a vector.
fn alphabet(n: u16) -> (r: Vec<u16>)
    ensures
        r@ == identity_alphabet(n as nat),
{
    let mut v: Vec<u16> = Vec::new();
    let mut i: u16 = 0;
    while i < n
        invariant
            i <= n,
            v@ == identity_alphabet(i as nat),
        decreases n - i,
    {
        v.push(i);
        i = i + 1;
        assert(v@ =~= identity_alphabet(i as nat));
    }
    v
}

/// Copies a stored block: the raw bytes after `LEN` and `NLEN`.
fn read_uncompressed(decoder: &mut Decoder, output: &mut Vec<u8>) -> (r: Result<
    (),
    DecompressResult,
>)
    requires
        old(decoder).wf(),
    ensures
        final(decoder).wf(),
        final(decoder).bytes() == old(decoder).bytes(),
        step_matches(
            stored_spec(old(decoder).bytes(), old(decoder).pos(), old(output)@),
            r,
            final(output)@,
            final(decoder).pos(),
        ),
        r is Ok ==> final(decoder).pos() >= old(decoder).pos(),
        r is Err ==> final(output)@ == old(output)@,
{
    let ghost data = decoder.bytes();
    let start = decoder.aligned_byte();
    let total = decoder.len_bytes();
    if total - start < 4 {
        return Err(DecompressResult::UnexpectedEnd);
    }
    let len = decoder.next_bytes_as_number(2);
    assert(decoder.pos() == (start + 2) * 8);
    assert(((start + 2) * 8) % 8 == 0);
    assert(align_up(decoder.pos()) / 8 == start + 2);
    let nlen = decoder.next_bytes_as_number(2);
    proof {
        let st = start as int;
        lemma_bytes_le_2(data, st);
        lemma_bytes_le_2(data, st + 2);
    }
    let len16 = len as u16;
    let nlen16 = nlen as u16;
    if len16 != !nlen16 {
        assert(len + nlen != 0xffff) by (bit_vector)
            requires
                len < 0x10000,
                nlen < 0x10000,
                len16 == len as u16,
                nlen16 == nlen as u16,
                len16 != !nlen16,
        ;
        return Err(DecompressResult::UncompressedLengthMismatch);
    }
    assert(len + nlen == 0xffff) by (bit_vector)
        requires
            len < 0x10000,
            nlen < 0x10000,
            len16 == len as u16,
            nlen16 == nlen as u16,
            len16 == !nlen16,
    ;
    if total - start - 4 < len as usize {
        return Err(DecompressResult::UnexpectedEnd);
    }
    let bytes = decoder.next_bytes_as_slice(len as usize);
    let ghost before = output@;
    let mut i: usize = 0;
    while i < bytes.len()
        invariant
            i <= bytes@.len(),
            output@ == before + bytes@.subrange(0, i as int),
        decreases bytes@.len() - i,
    {
        output.push(bytes[i]);
        i = i + 1;
        assert(output@ =~= before + bytes@.subrange(0, i as int));
    }
    assert(bytes@.subrange(0, i as int) =~= bytes@);
    Ok(())
}

/// Reads the extra bits of length symbol `sym` and the distance that follows,
/// and appends the copy to `output` one byte at a time.
fn decode_back_reference(
    decoder: &mut Decoder,
    distance_tree: &HuffmanTree,
    sym: u16,
    output: &mut Vec<u8>,
) -> (r: Result<(), DecompressResult>)
    requires
        old(decoder).wf(),
        distance_tree.wf(),
        257 <= sym <= 285,
    ensures
        final(decoder).wf(),
        final(decoder).bytes() == old(decoder).bytes(),
        step_matches(
            back_reference_spec(
                distance_tree@,
                old(decoder).bytes(),
                sym,
                old(decoder).pos(),
                old(output)@,
            ),
            r,
            final(output)@,
            final(decoder).pos(),
        ),
        r is Ok ==> final(decoder).pos() >= old(decoder).pos(),
        r is Err ==> final(output)@ == old(output)@,
        grows_from(old(output)@, final(output)@),
{
    assert(output@.subrange(0, output@.len() as int) =~= output@);
    let i = (sym - 257) as usize;
    let eb = TABLE_LENGTH_EXTRA_BITS[i];
    if !decoder.has_bits(eb as usize) {
        return Err(DecompressResult::UnexpectedEnd);
    }
    let length = decoder.next_bits(eb) + TABLE_LENGTH_BASE[i];
    let dsym = match distance_tree.decode_symbol(decoder) {
        Ok(s) => s,
        Err(e) => {
            return Err(e);
        },
    };
    if dsym >= 30 {
        return Err(DecompressResult::TreeError);
    }
    let deb = TABLE_DISTANCE_EXTRA_BITS[dsym as usize];
    if !decoder.has_bits(deb as usize) {
        return Err(DecompressResult::UnexpectedEnd);
    }
    let distance = decoder.next_bits(deb) + TABLE_DISTANCE_BASE[dsym as usize];
    if distance as usize > output.len() {
        return Err(DecompressResult::InvalidDistance);
    }
    let d = distance as usize;
    let ghost before = output@;
    let mut k: u32 = 0;
    while k < length
        invariant
            k <= length,
            1 <= d <= before.len(),
            output@ == back_copy(before, d as int, k as nat),
            output@.len() == before.len() + k,
            grows_from(before, output@),
        decreases length - k,
    {
        let byte = output[output.len() - d];
        output.push(byte);
        k = k + 1;
        assert(output@.subrange(0, before.len() as int) =~= before);
    }
    Ok(())
}

/// Decodes the symbols of a Huffman-coded block up to its end-of-block symbol.
fn decode_length_distance_pairs(
    decoder: &mut Decoder,
    literal_tree: &HuffmanTree,
    distance_tree: &HuffmanTree,
    output: &mut Vec<u8>,
) -> (r: Result<(), DecompressResult>)
    requires
        old(decoder).wf(),
        literal_tree.wf(),
        distance_tree.wf(),
    ensures
        final(decoder).wf(),
        final(decoder).bytes() == old(decoder).bytes(),
        step_matches(
            codes_spec(
                literal_tree@,
                distance_tree@,
                old(decoder).bytes(),
                old(decoder).pos(),
                old(output)@,
            ),
            r,
            final(output)@,
            final(decoder).pos(),
        ),
        r is Ok ==> final(decoder).pos() >= old(decoder).pos(),
        grows_from(old(output)@, final(output)@),
{
    let ghost data = decoder.bytes();
    assert(output@.subrange(0, output@.len() as int) =~= output@);
    let ghost target = codes_spec(literal_tree@, distance_tree@, data, decoder.pos(), output@);
    loop
        invariant
            decoder.wf(),
            decoder.bytes() == data,
            data == old(decoder).bytes(),
            decoder.pos() >= old(decoder).pos(),
            literal_tree.wf(),
            distance_tree.wf(),
            target == codes_spec(
                literal_tree@,
                distance_tree@,
                old(decoder).bytes(),
                old(decoder).pos(),
                old(output)@,
            ),
            codes_spec(literal_tree@, distance_tree@, data, decoder.pos(), output@) == target,
            grows_from(old(output)@, output@),
        decreases decoder.remaining(),
    {
        let ghost before = output@;
        let sym = match literal_tree.decode_symbol(decoder) {
            Ok(s) => s,
            Err(e) => {
                return Err(e);
            },
        };
        if sym < 256 {
            output.push(sym as u8);
            assert(output@.subrange(0, old(output)@.len() as int) =~= before.subrange(
                0,
                old(output)@.len() as int,
            ));
        } else if sym == 256 {
            return Ok(());
        } else if sym <= 285 {
            match decode_back_reference(decoder, distance_tree, sym, output) {
                Ok(()) => {
                    assert(output@.subrange(0, old(output)@.len() as int) =~= before.subrange(
                        0,
                        old(output)@.len() as int,
                    ));
                },
                Err(e) => {
                    return Err(e);
                },
            }
        } else {
            return Err(DecompressResult::TreeError);
        }
    }
}

/// The code lengths of the fixed literal/length tree.
fn fixed_literal_lengths() -> (r: Vec<u16>)
    ensures
        r@ == fixed_lit_lengths(),
{
    let mut v: Vec<u16> = Vec::new();
    let mut i: usize = 0;
    while i < 288
        invariant
            i <= 288,
            v@ == fixed_lit_lengths().subrange(0, i as int),
        decreases 288 - i,
    {
        let l: u16 = if i < 144 {
            8
        } else if i < 256 {
            9
        } else if i < 280 {
            7
        } else {
            8
        };
        v.push(l);
        i = i + 1;
        assert(v@ =~= fixed_lit_lengths().subrange(0, i as int));
    }
    assert(v@ =~= fixed_lit_lengths());
    v
}

/// Decodes a block coded with the fixed trees.
fn decompress_huffman_static(decoder: &mut Decoder, output: &mut Vec<u8>) -> (r: Result<
    (),
    DecompressResult,
>)
    requires
        old(decoder).wf(),
    ensures
        final(decoder).wf(),
        final(decoder).bytes() == old(decoder).bytes(),
        step_matches(
            fixed_spec(old(decoder).bytes(), old(decoder).pos(), old(output)@),
            r,
            final(output)@,
            final(decoder).pos(),
        ),
        r is Ok ==> final(decoder).pos() >= old(decoder).pos(),
        grows_from(old(output)@, final(output)@),
{
    let lit_lengths = fixed_literal_lengths();
    let lit_alphabet = alphabet(288);
    let literal_tree = HuffmanTree::from_bitlengths(lit_lengths.as_slice(), lit_alphabet.as_slice());
    let dist_lengths: Vec<u16> = vec![5u16; 30];
    assert(dist_lengths@ =~= fixed_dist_lengths());
    let dist_alphabet = alphabet(30);
    let distance_tree = HuffmanTree::from_bitlengths(
        dist_lengths.as_slice(),
        dist_alphabet.as_slice(),
    );
    decode_length_distance_pairs(decoder, &literal_tree, &distance_tree, output)
}

/// Reads code lengths with the code-length tree until at least `total` of them
/// are known.
fn read_code_lengths(decoder: &mut Decoder, code_length_tree: &HuffmanTree, total: usize) -> (r:
    Result<Vec<u16>, DecompressResult>)
    requires
        old(decoder).wf(),
        code_length_tree.wf(),
        total <= 320,
    ensures
        final(decoder).wf(),
        final(decoder).bytes() == old(decoder).bytes(),
        match read_lengths_spec(
            code_length_tree@,
            old(decoder).bytes(),
            old(decoder).pos(),
            seq![],
            total as nat,
        ) {
            Ok((lens, p)) => r is Ok && r->Ok_0@ == lens && final(decoder).pos() == p,
            Err(e) => r == Err::<Vec<u16>, DecompressResult>(e),
        },
        r is Ok ==> final(decoder).pos() >= old(decoder).pos(),
        r is Ok ==> total <= r->Ok_0@.len() < total + 138,
        r is Ok ==> forall|i: int| 0 <= i < r->Ok_0@.len() ==> r->Ok_0@[i] <= MAX_CODE_LEN,
{
    let ghost data = decoder.bytes();
    let ghost target = read_lengths_spec(code_length_tree@, data, decoder.pos(), seq![], total as nat);
    let mut lengths: Vec<u16> = Vec::new();
    while lengths.len() < total
        invariant
            decoder.wf(),
            decoder.bytes() == data,
            data == old(decoder).bytes(),
            decoder.pos() >= old(decoder).pos(),
            code_length_tree.wf(),
            total <= 320,
            target == read_lengths_spec(
                code_length_tree@,
                old(decoder).bytes(),
                old(decoder).pos(),
                seq![],
                total as nat,
            ),
            read_lengths_spec(code_length_tree@, data, decoder.pos(), lengths@, total as nat)
                == target,
            lengths@.len() < total + 138,
            forall|i: int| 0 <= i < lengths@.len() ==> lengths@[i] <= MAX_CODE_LEN,
        decreases decoder.remaining(),
    {
        let symbol = match code_length_tree.decode_symbol(decoder) {
            Ok(s) => s,
            Err(e) => {
                return Err(e);
            },
        };
        let ghost before = lengths@;
        if symbol <= 15 {
            lengths.push(symbol);
        } else if symbol <= 18 {
            let (value, nbits, base): (u16, u32, u32) = if symbol == 16 {
                if lengths.len() == 0 {
                    return Err(DecompressResult::IllegalSmallTree);
                }
                (lengths[lengths.len() - 1], 2, 3)
            } else if symbol == 17 {
                (0, 3, 3)
            } else {
                (0, 7, 11)
            };
            if !decoder.has_bits(nbits as usize) {
                return Err(DecompressResult::UnexpectedEnd);
            }
            let repeat_length = decoder.next_bits(nbits) + base;
            proof {
                reveal_with_fuel(two_pow, 8);
            }
            let mut k: u32 = 0;
            while k < repeat_length
                invariant
                    k <= repeat_length,
                    repeat_length <= 138,
                    value <= MAX_CODE_LEN,
                    before.len() < total,
                    lengths@ == before + repeat(value, k as nat),
                    forall|i: int| 0 <= i < before.len() ==> before[i] <= MAX_CODE_LEN,
                decreases repeat_length - k,
            {
                lengths.push(value);
                k = k + 1;
                assert(lengths@ =~= before + repeat(value, k as nat));
            }
            assert forall|i: int| 0 <= i < lengths@.len() implies lengths@[i] <= MAX_CODE_LEN by {
                if i >= before.len() {
                    assert(lengths@[i] == repeat(value, k as nat)[i - before.len()]);
                }
            }
        } else {
            return Err(DecompressResult::IllegalSmallTree);
        }
    }
    Ok(lengths)
}

/// Reads the header of a dynamic block and builds its two trees.
fn read_trees(decoder: &mut Decoder) -> (r: Result<(HuffmanTree, HuffmanTree), DecompressResult>)
    requires
        old(decoder).wf(),
    ensures
        final(decoder).wf(),
        final(decoder).bytes() == old(decoder).bytes(),
        match trees_spec(old(decoder).bytes(), old(decoder).pos()) {
            Ok((lit, dist, p)) => r is Ok && r->Ok_0.0@ == lit && r->Ok_0.1@ == dist
                && r->Ok_0.0.wf() && r->Ok_0.1.wf() && final(decoder).pos() == p,
            Err(e) => r == Err::<(HuffmanTree, HuffmanTree), DecompressResult>(e),
        },
        r is Ok ==> final(decoder).pos() >= old(decoder).pos(),
{
    let ghost data = decoder.bytes();
    let ghost pos = decoder.pos();
    if !decoder.has_bits(14) {
        return Err(DecompressResult::UnexpectedEnd);
    }
    let hlit = decoder.next_bits(5) + 257;
    let hdist = decoder.next_bits(5) + 1;
    let hclen = decoder.next_bits(4) + 4;
    proof {
        reveal_with_fuel(two_pow, 6);
    }
    if !decoder.has_bits(3 * hclen as usize) {
        return Err(DecompressResult::UnexpectedEnd);
    }
    let ghost p = decoder.pos();
    let mut code_length_tree_bitlengths: Vec<u16> = vec![0u16; 19];
    assert(code_length_tree_bitlengths@ =~= cl_lengths_upto(data, p, 0));
    let mut i: u32 = 0;
    while i < hclen
        invariant
            decoder.wf(),
            decoder.bytes() == data,
            i <= hclen <= 19,
            decoder.pos() == p + 3 * i,
            p + 3 * hclen <= data.len() * 8,
            code_length_tree_bitlengths@ == cl_lengths_upto(data, p, i as int),
            code_length_tree_bitlengths@.len() == 19,
            forall|j: int| 0 <= j < 19 ==> #[trigger] code_length_tree_bitlengths@[j] <= 7,
        decreases hclen - i,
    {
        let v = decoder.next_bits(3);
        proof {
            reveal_with_fuel(two_pow, 4);
        }
        code_length_tree_bitlengths.set(TABLE_CODE_LENGTH_ORDER[i as usize] as usize, v as u16);
        i = i + 1;
    }
    let cl_alphabet = alphabet(19);
    let code_length_tree = HuffmanTree::from_bitlengths(
        code_length_tree_bitlengths.as_slice(),
        cl_alphabet.as_slice(),
    );
    let total = (hlit + hdist) as usize;
    let lengths = match read_code_lengths(decoder, &code_length_tree, total) {
        Ok(v) => v,
        Err(e) => {
            return Err(e);
        },
    };
    let h = hlit as usize;
    let lit_lengths = vstd::slice::slice_subrange(lengths.as_slice(), 0, h);
    let dist_lengths = vstd::slice::slice_subrange(lengths.as_slice(), h, lengths.len());
    let lit_alphabet = alphabet(286);
    let dist_alphabet = alphabet(30);
    let literal_tree = HuffmanTree::from_bitlengths(lit_lengths, lit_alphabet.as_slice());
    let distance_tree = HuffmanTree::from_bitlengths(dist_lengths, dist_alphabet.as_slice());
    Ok((literal_tree, distance_tree))
}

/// Decodes a block coded with trees sent at its start.
fn decompress_huffman_dynamic(decoder: &mut Decoder, output: &mut Vec<u8>) -> (r: Result<
    (),
    DecompressResult,
>)
    requires
        old(decoder).wf(),
    ensures
        final(decoder).wf(),
        final(decoder).bytes() == old(decoder).bytes(),
        step_matches(
            dynamic_spec(old(decoder).bytes(), old(decoder).pos(), old(output)@),
            r,
            final(output)@,
            final(decoder).pos(),
        ),
        r is Ok ==> final(decoder).pos() >= old(decoder).pos(),
        grows_from(old(output)@, final(output)@),
{
    let (literal_tree, distance_tree) = match read_trees(decoder) {
        Ok(t) => t,
        Err(e) => {
            assert(output@.subrange(0, output@.len() as int) =~= output@);
            return Err(e);
        },
    };
    decode_length_distance_pairs(decoder, &literal_tree, &distance_tree, output)
}

/// Decompresses a raw DEFLATE stream.
pub fn decompress(data: &[u8]) -> (r: Result<Vec<u8>, DecompressResult>)
    ensures
        result_matches(r, inflate_spec(data@)),
{
    let mut decoder = Decoder::from_bytes(data);
    let mut output: Vec<u8> = Vec::new();
    loop
        invariant
            decoder.wf(),
            decoder.bytes() == data@,
            blocks_spec(data@, decoder.pos(), output@) == inflate_spec(data@),
        decreases decoder.remaining(),
    {
        if !decoder.has_bits(3) {
            return Err(DecompressResult::UnexpectedEnd);
        }
        let bfinal = decoder.next_bits(1);
        let btype = decoder.next_bits(2);
        let r = if btype == 0 {
            read_uncompressed(&mut decoder, &mut output)
        } else if btype == 1 {
            decompress_huffman_static(&mut decoder, &mut output)
        } else if btype == 2 {
            decompress_huffman_dynamic(&mut decoder, &mut output)
        } else {
            return Err(DecompressResult::IllegalBlockFormat);
        };
        match r {
            Ok(()) => {},
            Err(e) => {
                return Err(e);
            },
        }
        if bfinal != 0 {
            return Ok(output);
        }
    }
}

/// Decompresses a zlib stream: skips the 2-byte header (and the 4-byte
/// dictionary id when the header announces one), leaves the 4-byte trailer
/// unchecked, and decompresses what lies between.
pub fn decompress_zlib(data: &[u8]) -> (r: Result<Vec<u8>, DecompressResult>)
    ensures
        result_matches(r, zlib_spec(data@)),
{
    if data.len() < 2 {
        return Err(DecompressResult::UnexpectedEnd);
    }
    let flg = data[1];
    let fdict = (flg >> 5) & 1;
    let skip: usize = if fdict == 1 {
        6
    } else {
        2
    };
    if data.len() < skip + 4 {
        return Err(DecompressResult::UnexpectedEnd);
    }
    decompress(vstd::slice::slice_subrange(data, skip, data.len() - 4))
}

} // verus!
