//! A cursor over a byte buffer for little-endian binary formats.
use vstd::prelude::*;

use crate::bit_reader::{bytes_le, lemma_bytes_le_2, lemma_bytes_le_4};

verus! {

/// Relies on `format!`: the message of a failed signature check.
#[verifier::external_body]
fn missing_bytes_message(reference: &[u8], at: usize) -> (r: String) {
    format!("Not a .wav ({:?} bytes missing at {})", reference, at)
}

/// The signed value of a 16-bit two's complement pattern.
pub open spec fn as_signed16(v: nat) -> int {
    if v < 0x8000 {
        v as int
    } else {
        v - 0x10000
    }
}

/// Reads whole bytes and little-endian integers from a buffer, front to back.
pub struct ByteDecoder<'a> {
    bytes: &'a [u8],
    cursor: usize,
}

impl<'a> ByteDecoder<'a> {
    /// The buffer being read.
    pub closed spec fn data(&self) -> Seq<u8> {
        self.bytes@
    }

    /// The index of the next byte to read.
    pub closed spec fn at(&self) -> int {
        self.cursor as int
    }

    pub open spec fn wf(&self) -> bool {
        0 <= self.at() <= self.data().len()
    }

    pub fn new(bytes: &'a [u8]) -> (r: Self)
        ensures
            r.wf(),
            r.data() == bytes@,
            r.at() == 0,
    {
        Self { bytes, cursor: 0 }
    }

    /// Consumes `reference` if the next bytes equal it; fails and stays put
    /// otherwise, also when fewer bytes are left.
    pub fn check_bytes(&mut self, reference: &[u8]) -> (r: Result<(), String>)
        requires
            old(self).wf(),
        ensures
            final(self).wf(),
            final(self).data() == old(self).data(),
            r is Ok <==> (old(self).at() + reference@.len() <= old(self).data().len()
                && old(self).data().subrange(
                old(self).at(),
                old(self).at() + reference@.len(),
            ) == reference@),
            r is Ok ==> final(self).at() == old(self).at() + reference@.len(),
            r is Err ==> final(self).at() == old(self).at(),
    {
        let n = reference.len();
        let len = self.bytes.len();
        if len - self.cursor < n {
            return Err(missing_bytes_message(reference, self.cursor));
        }
        let mut i: usize = 0;
        while i < n
            invariant
                n == reference@.len(),
                len == self.bytes@.len(),
                self.cursor + n <= len,
                i <= n,
                forall|j: int| 0 <= j < i ==> self.bytes@[self.cursor + j] == reference@[j],
            decreases n - i,
        {
            if self.bytes[self.cursor + i] != reference[i] {
                assert(self.bytes@.subrange(self.cursor as int, self.cursor + n)[i as int]
                    != reference@[i as int]);
                return Err(missing_bytes_message(reference, self.cursor));
            }
            i = i + 1;
        }
        assert(self.bytes@.subrange(self.cursor as int, self.cursor + n) =~= reference@);
        self.cursor = self.cursor + n;
        Ok(())
    }

    /// Reads a little-endian `u32`.
    pub fn decode_u32_le(&mut self) -> (r: u32)
        requires
            old(self).wf(),
            old(self).at() + 4 <= old(self).data().len(),
        ensures
            final(self).wf(),
            final(self).data() == old(self).data(),
            final(self).at() == old(self).at() + 4,
            r == bytes_le(old(self).data(), old(self).at(), 4),
    {
        let c = self.cursor;
        let b0 = self.bytes[c] as u32;
        let b1 = self.bytes[c + 1] as u32;
        let b2 = self.bytes[c + 2] as u32;
        let b3 = self.bytes[c + 3] as u32;
        proof {
            lemma_bytes_le_4(self.bytes@, c as int);
        }
        self.cursor = c + 4;
        b0 + b1 * 0x100 + b2 * 0x1_0000 + b3 * 0x100_0000
    }

    /// Reads a little-endian `u16`.
    pub fn decode_u16_le(&mut self) -> (r: u16)
        requires
            old(self).wf(),
            old(self).at() + 2 <= old(self).data().len(),
        ensures
            final(self).wf(),
            final(self).data() == old(self).data(),
            final(self).at() == old(self).at() + 2,
            r == bytes_le(old(self).data(), old(self).at(), 2),
    {
        let c = self.cursor;
        let b0 = self.bytes[c] as u16;
        let b1 = self.bytes[c + 1] as u16;
        proof {
            lemma_bytes_le_2(self.bytes@, c as int);
        }
        self.cursor = c + 2;
        b0 + b1 * 0x100
    }

    /// Reads a little-endian two's complement `i16`.
    pub fn decode_i16_le(&mut self) -> (r: i16)
        requires
            old(self).wf(),
            old(self).at() + 2 <= old(self).data().len(),
        ensures
            final(self).wf(),
            final(self).data() == old(self).data(),
            final(self).at() == old(self).at() + 2,
            r == as_signed16(bytes_le(old(self).data(), old(self).at(), 2)),
    {
        let v = self.decode_u16_le();
        let r = v as i16;
        assert(r == as_signed16(v as nat)) by (bit_vector)
            requires
                r == v as i16,
        ;
        r
    }
}

} // verus!
