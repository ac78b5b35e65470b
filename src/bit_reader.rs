//! A cursor over an immutable byte buffer that reads single bits, multi-bit
//! fields packed least-significant bit first, and byte-aligned fields.
use vstd::prelude::*;

verus! {

/// Two to the power `n`.
pub open spec fn two_pow(n: nat) -> nat
    decreases n,
{
    if n == 0 {
        1
    } else {
        2 * two_pow((n - 1) as nat)
    }
}

/// The bit at absolute bit position `pos`: within each byte the bits are taken
/// least-significant first.
pub open spec fn bit_at(data: Seq<u8>, pos: int) -> u8 {
    (data[pos / 8] >> ((pos % 8) as u8)) & 1u8
}

/// The `n` bits starting at `pos`, read as an unsigned number whose least
/// significant bit is the first bit read.
pub open spec fn bits_le(data: Seq<u8>, pos: int, n: nat) -> nat
    decreases n,
{
    if n == 0 {
        0
    } else {
        bits_le(data, pos, (n - 1) as nat) + two_pow((n - 1) as nat) * (bit_at(
            data,
            pos + n - 1,
        ) as nat)
    }
}

/// The `n` bytes starting at byte index `start`, read as a little-endian number.
pub open spec fn bytes_le(data: Seq<u8>, start: int, n: nat) -> nat
    decreases n,
{
    if n == 0 {
        0
    } else {
        bytes_le(data, start, (n - 1) as nat) + two_pow((8 * (n - 1)) as nat) * (data[start + n
            - 1] as nat)
    }
}

/// The first byte boundary at or after bit position `pos`.
pub open spec fn align_up(pos: int) -> int {
    if pos % 8 == 0 {
        pos
    } else {
        pos - pos % 8 + 8
    }
}

pub proof fn lemma_two_pow_bounds(n: nat)
    ensures
        two_pow(n) >= 1,
        n <= 32 ==> two_pow(n) <= 0x1_0000_0000,
    decreases n,
{
    if n > 0 {
        lemma_two_pow_bounds((n - 1) as nat);
    }
    if n <= 32 {
        lemma_two_pow_monotone(n, 32);
        reveal_with_fuel(two_pow, 33);
    }
}

pub proof fn lemma_two_pow_add(a: nat, b: nat)
    ensures
        two_pow(a + b) == two_pow(a) * two_pow(b),
    decreases b,
{
    if b > 0 {
        let c = (b - 1) as nat;
        lemma_two_pow_add(a, c);
        assert(a + b == (a + c) + 1);
        assert(two_pow(a + b) == 2 * two_pow(a + c));
        assert(two_pow(b) == 2 * two_pow(c));
        let x = two_pow(a);
        let y = two_pow(c);
        assert(x * (2 * y) == 2 * (x * y)) by (nonlinear_arith);
        assert(two_pow(a + b) == 2 * (x * y));
        assert(x * two_pow(b) == x * (2 * y));
    } else {
        assert(two_pow(b) == 1);
        assert(a + b == a);
    }
}

pub proof fn lemma_two_pow_monotone(a: nat, b: nat)
    requires
        a <= b,
    ensures
        two_pow(a) <= two_pow(b),
    decreases b,
{
    if a < b {
        lemma_two_pow_monotone(a, (b - 1) as nat);
    }
}

pub proof fn lemma_bytes_le_2(data: Seq<u8>, s: int)
    ensures
        bytes_le(data, s, 2) == data[s] + 256 * data[s + 1],
{
    reveal_with_fuel(two_pow, 9);
    assert(bytes_le(data, s, 0) == 0);
    assert(bytes_le(data, s, 1) == data[s]);
}

pub proof fn lemma_bytes_le_4(data: Seq<u8>, s: int)
    ensures
        bytes_le(data, s, 4) == data[s] + 0x100 * data[s + 1] + 0x1_0000 * data[s + 2]
            + 0x100_0000 * data[s + 3],
{
    reveal_with_fuel(two_pow, 25);
    lemma_bytes_le_2(data, s);
    assert(bytes_le(data, s, 3) == bytes_le(data, s, 2) + 0x1_0000 * data[s + 2]);
}

/// Reads a byte buffer as a bit stream.
///
/// The position is a bit index into the buffer: `byte * 8 + bit`.
pub struct Decoder<'a> {
    data: &'a [u8],
    byte: usize,
    bit: u8,
}

impl<'a> Decoder<'a> {
    /// The buffer being read.
    pub closed spec fn bytes(&self) -> Seq<u8> {
        self.data@
    }

    /// The number of bits consumed so far.
    pub closed spec fn pos(&self) -> int {
        self.byte * 8 + self.bit
    }

    pub closed spec fn cursor_ok(&self) -> bool {
        self.bit < 8
    }

    /// The cursor lies within the buffer.
    pub open spec fn wf(&self) -> bool {
        &&& self.cursor_ok()
        &&& 0 <= self.pos() <= self.bytes().len() * 8
    }

    /// The number of bits not yet consumed.
    pub open spec fn remaining(&self) -> int {
        self.bytes().len() * 8 - self.pos()
    }

    pub fn from_bytes(data: &'a [u8]) -> (r: Self)
        ensures
            r.wf(),
            r.bytes() == data@,
            r.pos() == 0,
    {
        Decoder { data, byte: 0, bit: 0 }
    }

    /// Whether `n` more bits can be read.
    pub(crate) fn has_bits(&self, n: usize) -> (r: bool)
        requires
            self.wf(),
        ensures
            r == (self.pos() + n <= self.bytes().len() * 8),
    {
        let len = self.data.len();
        assert(self.byte <= len);
        let avail_bytes = len - self.byte;
        let extra = (n % 8 + self.bit as usize + 7) / 8;
        avail_bytes >= n / 8 + extra
    }

    /// The current position rounded up to a byte boundary, as a byte index.
    pub(crate) fn aligned_byte(&self) -> (r: usize)
        requires
            self.wf(),
        ensures
            r * 8 == align_up(self.pos()),
            r <= self.bytes().len(),
    {
        let len = self.data.len();
        if self.bit > 0 {
            assert(self.byte < len);
            self.byte + 1
        } else {
            self.byte
        }
    }

    /// Skips the rest of the current byte when the cursor is inside one.
    fn align(&mut self)
        requires
            old(self).wf(),
        ensures
            final(self).wf(),
            final(self).bytes() == old(self).bytes(),
            final(self).pos() == align_up(old(self).pos()),
            final(self).bit == 0,
    {
        let len = self.data.len();
        if self.bit > 0 {
            assert(self.byte < len);
            self.byte = self.byte + 1;
            self.bit = 0;
        }
    }

    /// Returns the next `n` bytes, skipping any unread bits of the current byte.
    pub fn next_bytes_as_slice(&mut self, n: usize) -> (r: &'a [u8])
        requires
            old(self).wf(),
            align_up(old(self).pos()) + 8 * n <= old(self).bytes().len() * 8,
        ensures
            final(self).wf(),
            final(self).bytes() == old(self).bytes(),
            final(self).pos() == align_up(old(self).pos()) + 8 * n,
            r@ == old(self).bytes().subrange(
                align_up(old(self).pos()) / 8,
                align_up(old(self).pos()) / 8 + n,
            ),
    {
        self.align();
        let len = self.data.len();
        assert(self.byte + n <= len);
        let current = self.byte;
        self.byte = self.byte + n;
        vstd::slice::slice_subrange(self.data, current, self.byte)
    }

    /// Returns the next byte, skipping any unread bits of the current byte.
    pub fn next_byte(&mut self) -> (r: u8)
        requires
            old(self).wf(),
            align_up(old(self).pos()) + 8 <= old(self).bytes().len() * 8,
        ensures
            final(self).wf(),
            final(self).bytes() == old(self).bytes(),
            final(self).pos() == align_up(old(self).pos()) + 8,
            r == old(self).bytes()[align_up(old(self).pos()) / 8],
    {
        self.align();
        let byte = self.data[self.byte];
        self.byte = self.byte + 1;
        byte
    }

    /// Returns the next `n` bytes as a little-endian number, skipping any unread
    /// bits of the current byte first.
    pub fn next_bytes_as_number(&mut self, n: u32) -> (r: u32)
        requires
            old(self).wf(),
            n <= 4,
            align_up(old(self).pos()) + 8 * n <= old(self).bytes().len() * 8,
        ensures
            final(self).wf(),
            final(self).bytes() == old(self).bytes(),
            final(self).pos() == align_up(old(self).pos()) + 8 * n,
            r == bytes_le(old(self).bytes(), align_up(old(self).pos()) / 8, n as nat),
    {
        let ghost start = align_up(self.pos()) / 8;
        self.align();
        let mut o: u64 = 0;
        let mut mul: u64 = 1;
        let mut i: u32 = 0;
        while i < n
            invariant
                self.wf(),
                self.bytes() == old(self).bytes(),
                i <= n <= 4,
                start * 8 == align_up(old(self).pos()),
                self.pos() == (start + i) * 8,
                start * 8 + 8 * n <= self.bytes().len() * 8,
                o == bytes_le(self.bytes(), start, i as nat),
                mul == two_pow((8 * i) as nat),
                o < mul,
                mul <= 0x1_0000_0000,
            decreases n - i,
        {
            assert(align_up(self.pos()) == (start + i) * 8);
            let b = self.next_byte();
            proof {
                lemma_two_pow_add((8 * i) as nat, 8);
                reveal_with_fuel(two_pow, 9);
                assert(o + mul * b < 256 * mul) by (nonlinear_arith)
                    requires
                        o < mul,
                        b < 256,
                ;
                lemma_two_pow_monotone((8 * (i + 1)) as nat, 32);
                lemma_two_pow_bounds(32);
            }
            o = o + mul * (b as u64);
            mul = mul * 256;
            i = i + 1;
        }
        o as u32
    }

    /// Returns the next bit.
    pub fn next_bit(&mut self) -> (r: u8)
        requires
            old(self).wf(),
            old(self).pos() < old(self).bytes().len() * 8,
        ensures
            final(self).wf(),
            final(self).bytes() == old(self).bytes(),
            final(self).pos() == old(self).pos() + 1,
            r == bit_at(old(self).bytes(), old(self).pos()),
            r <= 1,
    {
        let byte = self.data[self.byte];
        let sh = self.bit;
        let bit = (byte >> sh) & 1;
        assert(bit <= 1) by (bit_vector)
            requires
                bit == (byte >> sh) & 1u8,
        ;
        self.bit = self.bit + 1;
        if self.bit >= 8 {
            self.bit = 0;
            self.byte = self.byte + 1;
        }
        bit
    }

    /// Returns the next `n` bits as an unsigned number; the first bit read is the
    /// least significant.
    pub fn next_bits(&mut self, n: u32) -> (r: u32)
        requires
            old(self).wf(),
            n <= 32,
            old(self).pos() + n <= old(self).bytes().len() * 8,
        ensures
            final(self).wf(),
            final(self).bytes() == old(self).bytes(),
            final(self).pos() == old(self).pos() + n,
            r == bits_le(old(self).bytes(), old(self).pos(), n as nat),
            r < two_pow(n as nat),
            n <= 16 ==> r < 0x10000,
    {
        let ghost start = self.pos();
        let mut o: u64 = 0;
        let mut mul: u64 = 1;
        let mut i: u32 = 0;
        while i < n
            invariant
                self.wf(),
                self.bytes() == old(self).bytes(),
                i <= n <= 32,
                start == old(self).pos(),
                self.pos() == start + i,
                start + n <= self.bytes().len() * 8,
                o == bits_le(self.bytes(), start, i as nat),
                mul == two_pow(i as nat),
                o < mul,
                mul <= 0x1_0000_0000,
            decreases n - i,
        {
            let b = self.next_bit();
            proof {
                lemma_two_pow_bounds((i + 1) as nat);
            }
            proof {
                let t = two_pow(i as nat) * (b as nat);
                assert(t == if b == 1 { mul as nat } else { 0 }) by (nonlinear_arith)
                    requires
                        b <= 1,
                        t == two_pow(i as nat) * (b as nat),
                        mul == two_pow(i as nat),
                ;
                assert(bits_le(self.bytes(), start, (i + 1) as nat) == o + t);
            }
            if b == 1 {
                o = o + mul;
            }
            mul = mul * 2;
            i = i + 1;
        }
        proof {
            if n <= 16 {
                lemma_two_pow_monotone(n as nat, 16);
                reveal_with_fuel(two_pow, 17);
            }
        }
        o as u32
    }

    /// The length of the buffer in bytes.
    pub(crate) fn len_bytes(&self) -> (r: usize)
        ensures
            r == self.bytes().len(),
    {
        self.data.len()
    }
}

} // verus!
