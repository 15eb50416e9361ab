//! Reading and writing the binary encodings git uses: big-endian integers, the variable
//! length size encoding, the offset encoding of offset deltas and the packed copy operands.
use crate::bytes::{append_bytes, dec_digits, slice_to_vec, u64_to_dec};
use crate::error::{BitError, BitResult};
use crate::hash::{hash_bytes, spec_sha1, Oid, SHA1Hash};
use vstd::prelude::*;

verus! {

/// A cursor over a byte buffer.
pub struct ByteReader {
    bytes: Vec<u8>,
    pos: usize,
}

/// Number of consecutive bytes with the most significant bit set, starting at `i`.
pub open spec fn msb_run(s: Seq<u8>, i: int) -> nat
    decreases s.len() - i,
{
    if i < 0 || i >= s.len() {
        0
    } else if s[i] & 0x80 != 0 {
        1 + msb_run(s, i + 1)
    } else {
        0
    }
}

/// The value of the offset encoding (used by offset deltas) that starts at `i`, given that
/// the bytes before `i` have already produced `acc`.
pub open spec fn offset_value(s: Seq<u8>, i: int, acc: int) -> int
    decreases s.len() - i,
{
    if i < 0 || i + 1 >= s.len() || s[i] & 0x80 == 0 {
        acc
    } else {
        offset_value(s, i + 1, (acc + 1) * 128 + (s[i + 1] & 0x7f) as int)
    }
}

/// The bytes following a variable length size: the little-endian 7-bit groups, OR-ed into
/// `acc` at `shift`, `shift + 7`, ... up to and including the first byte without its top bit.
pub open spec fn varint_tail(s: Seq<u8>, i: int, shift: u64, acc: u64) -> u64
    decreases s.len() - i,
{
    if i < 0 || i >= s.len() {
        acc
    } else {
        let acc2 = acc | (((s[i] & 0x7f) as u64) << shift);
        if s[i] & 0x80 == 0 {
            acc2
        } else {
            varint_tail(s, i + 1, (shift + 7) as u64, acc2)
        }
    }
}

/// The number of bytes a variable length size starting at `i` takes (if it is complete).
pub open spec fn varint_len(s: Seq<u8>, i: int) -> nat {
    if s[i] & 0x80 == 0 {
        1
    } else {
        2 + msb_run(s, i + 1)
    }
}

/// Big-endian value of a byte sequence.
pub open spec fn be_value(s: Seq<u8>) -> nat
    decreases s.len(),
{
    if s.len() == 0 {
        0
    } else {
        be_value(s.drop_last()) * 256 + s.last() as nat
    }
}

/// The value of a packed copy operand: for each of the low seven bits `k` of `header` that is
/// set, the next byte at bit offset `8 * k`.
pub open spec fn packed_value(s: Seq<u8>, i: int, header: u8, k: nat, acc: u64) -> u64
    decreases 7 - k,
{
    if k >= 7 {
        acc
    } else if header & (1u8 << k as u8) == 0 {
        packed_value(s, i, header, k + 1, acc)
    } else {
        packed_value(s, i + 1, header, k + 1, acc | ((s[i] as u64) << (k * 8) as u64))
    }
}

/// The number of operand bytes a packed header announces among the low seven bits.
pub open spec fn packed_len(header: u8, k: nat) -> nat
    decreases 7 - k,
{
    if k >= 7 {
        0
    } else if header & (1u8 << k as u8) == 0 {
        packed_len(header, k + 1)
    } else {
        1 + packed_len(header, k + 1)
    }
}

impl ByteReader {
    pub closed spec fn spec_bytes(&self) -> Seq<u8> {
        self.bytes@
    }

    pub closed spec fn spec_pos(&self) -> int {
        self.pos as int
    }

    /// The bytes not yet read.
    pub open spec fn rest(&self) -> Seq<u8> {
        self.spec_bytes().skip(self.spec_pos())
    }

    #[verifier::type_invariant]
    closed spec fn inv(self) -> bool {
        self.pos <= self.bytes@.len()
    }

    pub fn new(bytes: Vec<u8>) -> (r: Self)
        ensures
            r.spec_bytes() == bytes@,
            r.spec_pos() == 0,
    {
        ByteReader { bytes, pos: 0 }
    }

    /// Whether all bytes have been read.
    pub fn is_at_eof(&self) -> (r: bool)
        ensures
            r == (self.spec_pos() == self.spec_bytes().len()),
    {
        proof {
            use_type_invariant(self);
        }
        self.pos == self.bytes.len()
    }

    /// Number of bytes not yet read.
    pub fn remaining(&self) -> (r: usize)
        ensures
            0 <= self.spec_pos() <= self.spec_bytes().len(),
            r == self.spec_bytes().len() - self.spec_pos(),
    {
        proof {
            use_type_invariant(self);
        }
        self.bytes.len() - self.pos
    }

    pub fn position(&self) -> (r: usize)
        ensures
            r == self.spec_pos(),
    {
        self.pos
    }

    pub fn read_u8(&mut self) -> (r: BitResult<u8>)
        ensures
            final(self).spec_bytes() == old(self).spec_bytes(),
            old(self).spec_pos() < old(self).spec_bytes().len() ==> (r == Ok::<u8, BitError>(
                old(self).spec_bytes()[old(self).spec_pos()],
            ) && final(self).spec_pos() == old(self).spec_pos() + 1),
            old(self).spec_pos() >= old(self).spec_bytes().len() ==> (r == Err::<u8, BitError>(
                BitError::UnexpectedEof,
            ) && final(self).spec_pos() == old(self).spec_pos()),
    {
        proof {
            use_type_invariant(&*self);
        }
        if self.pos < self.bytes.len() {
            let b = self.bytes[self.pos];
            self.pos = self.pos + 1;
            Ok(b)
        } else {
            Err(BitError::UnexpectedEof)
        }
    }

    /// Reads `n` bytes.
    pub fn read_bytes(&mut self, n: usize) -> (r: BitResult<Vec<u8>>)
        ensures
            final(self).spec_bytes() == old(self).spec_bytes(),
            old(self).spec_pos() + n <= old(self).spec_bytes().len() ==> (r matches Ok(v) && v@
                == old(self).spec_bytes().subrange(
                old(self).spec_pos(),
                old(self).spec_pos() + n,
            ) && final(self).spec_pos() == old(self).spec_pos() + n),
            old(self).spec_pos() + n > old(self).spec_bytes().len() ==> r == Err::<Vec<u8>, BitError>(
                BitError::UnexpectedEof,
            ),
    {
        proof {
            use_type_invariant(&*self);
        }
        if n > self.bytes.len() - self.pos {
            return Err(BitError::UnexpectedEof);
        }
        let v = crate::hash::slice_range(self.bytes.as_slice(), self.pos, self.pos + n);
        self.pos = self.pos + n;
        Ok(v)
    }

    /// Reads all the remaining bytes.
    pub fn read_to_vec(&mut self) -> (r: Vec<u8>)
        ensures
            r@ == old(self).rest(),
            final(self).spec_bytes() == old(self).spec_bytes(),
            final(self).spec_pos() == old(self).spec_bytes().len(),
    {
        proof {
            use_type_invariant(&*self);
        }
        let v = crate::hash::slice_range(self.bytes.as_slice(), self.pos, self.bytes.len());
        self.pos = self.bytes.len();
        v
    }

    /// Reads the offset encoding used for offset deltas.
    pub fn read_offset(&mut self) -> (r: BitResult<u64>)
        requires
            msb_run(old(self).spec_bytes(), old(self).spec_pos()) <= 8,
        ensures
            final(self).spec_bytes() == old(self).spec_bytes(),
            r is Ok <==> old(self).spec_pos() + msb_run(old(self).spec_bytes(), old(self).spec_pos())
                < old(self).spec_bytes().len(),
            r matches Ok(v) ==> v == offset_value(
                old(self).spec_bytes(),
                old(self).spec_pos(),
                (old(self).spec_bytes()[old(self).spec_pos()] & 0x7f) as int,
            ),            r is Ok ==> final(self).spec_pos() == old(self).spec_pos() + msb_run(old(self).spec_bytes(), old(self).spec_pos()) + 1,
    {
        proof {
            use_type_invariant(&*self);
        }
        let ghost s = self.bytes@;
        let ghost p0 = self.pos as int;
        let b0 = self.read_u8()?;
        let mut byte: u64 = b0 as u64;
        let mut offset: u64 = byte & 0x7f;
        let ghost mut i: int = p0;
        proof {
            reveal_with_fuel(pow2_7, 2);
            assert(byte & 0x80 != 0 <==> b0 & 0x80 != 0) by (bit_vector)
                requires
                    byte == b0 as u64,
            ;
            assert(offset < 128) by (bit_vector)
                requires
                    offset == byte & 0x7f,
            ;
            assert(offset == (b0 & 0x7f) as int) by (bit_vector)
                requires
                    offset == byte & 0x7f,
                    byte == b0 as u64,
            ;
        }
        while byte & 0x80 != 0
            invariant
                self.spec_bytes() == s,
                s == old(self).spec_bytes(),
                p0 == old(self).spec_pos(),
                p0 <= i < s.len(),
                self.spec_pos() == i + 1,
                byte < 256,
                byte == s[i] as u64,
                msb_run(s, p0) <= 8,
                msb_run(s, p0) == (i - p0) + msb_run(s, i),
                offset < 2 * pow2_7(i - p0 + 1) - 128,
                offset_value(s, p0, (s[p0] & 0x7f) as int) == offset_value(s, i, offset as int),
            decreases s.len() - i,
        {
            proof {
                use_type_invariant(&*self);
                let si = s[i];
                assert(si & 0x80 != 0) by (bit_vector)
                    requires
                        byte == si as u64,
                        byte & 0x80 != 0,
                ;
                lemma_pow2_7_bound(i - p0 + 1);
            }
            let next = self.read_u8();
            match next {
                Ok(b) => {
                    offset = offset + 1;
                    byte = b as u64;
                    let low = byte & 0x7f;
                    proof {
                        assert(low < 128 && low == (b & 0x7f) as int) by (bit_vector)
                            requires
                                low == byte & 0x7f,
                                byte == b as u64,
                        ;
                        lemma_shift_or(offset, low);
                        lemma_pow2_7_step(i - p0 + 1);
                    }
                    let ghost x = offset;
                    offset = (offset << 7) | low;
                    proof {
                        assert(offset == x * 128 + low);
                        assert(offset < 2 * (128 * pow2_7(i - p0 + 1)) - 128);
                        i = i + 1;
                        assert(byte & 0x80 != 0 <==> b & 0x80 != 0) by (bit_vector)
                            requires
                                byte == b as u64,
                        ;
                    }
                },
                Err(e) => {
                    return Err(e);
                },
            }
        }
        proof {
            let si = s[i];
            assert(si & 0x80 == 0) by (bit_vector)
                requires
                    byte == si as u64,
                    byte & 0x80 == 0,
            ;
        }
        Ok(offset)
    }

    /// Reads a little-endian variable length integer (the "size encoding"); alias of
    /// `read_le_varint`.
    pub fn read_size(&mut self) -> (r: BitResult<u64>)
        requires
            old(self).spec_pos() < old(self).spec_bytes().len() && old(self).spec_bytes()[old(
                self,
            ).spec_pos()] & 0x80 != 0 ==> msb_run(old(self).spec_bytes(), old(self).spec_pos() + 1)
                <= 8,
        ensures
            final(self).spec_bytes() == old(self).spec_bytes(),
            r is Ok <==> (old(self).spec_pos() < old(self).spec_bytes().len()
                && old(self).spec_pos() + varint_len(old(self).spec_bytes(), old(self).spec_pos())
                <= old(self).spec_bytes().len()),
            r matches Ok(v) ==> v == le_varint_value(old(self).spec_bytes(), old(self).spec_pos(), 0)
                && final(self).spec_pos() == old(self).spec_pos() + varint_len(
                old(self).spec_bytes(),
                old(self).spec_pos(),
            ),
    {
        self.read_le_varint()
    }

    /// Reads a little-endian variable length integer: 7 bits per byte, continuing while the
    /// most significant bit of a byte is set.
    pub fn read_le_varint(&mut self) -> (r: BitResult<u64>)
        requires
            old(self).spec_pos() < old(self).spec_bytes().len() && old(self).spec_bytes()[old(
                self,
            ).spec_pos()] & 0x80 != 0 ==> msb_run(old(self).spec_bytes(), old(self).spec_pos() + 1)
                <= 8,
        ensures
            final(self).spec_bytes() == old(self).spec_bytes(),
            r is Ok <==> (old(self).spec_pos() < old(self).spec_bytes().len()
                && old(self).spec_pos() + varint_len(old(self).spec_bytes(), old(self).spec_pos())
                <= old(self).spec_bytes().len()),
            r matches Ok(v) ==> v == le_varint_value(old(self).spec_bytes(), old(self).spec_pos(), 0)
                && final(self).spec_pos() == old(self).spec_pos() + varint_len(
                old(self).spec_bytes(),
                old(self).spec_pos(),
            ),
    {
        match self.read_le_varint_with_shift(0) {
            Ok((_k, n)) => Ok(n),
            Err(e) => Err(e),
        }
    }

    /// Reads a variable length integer whose first byte also holds, in the `init_shift` bits
    /// below the most significant bit, another number (returned first).
    pub fn read_le_varint_with_shift(&mut self, init_shift: u64) -> (r: BitResult<(u8, u64)>)
        requires
            init_shift < 8,
            old(self).spec_pos() < old(self).spec_bytes().len() && old(self).spec_bytes()[old(
                self,
            ).spec_pos()] & 0x80 != 0 ==> 7 * msb_run(old(self).spec_bytes(), old(self).spec_pos() + 1)
                + 7 - init_shift < 64,
        ensures
            final(self).spec_bytes() == old(self).spec_bytes(),
            r is Ok <==> (old(self).spec_pos() < old(self).spec_bytes().len()
                && old(self).spec_pos() + varint_len(old(self).spec_bytes(), old(self).spec_pos())
                <= old(self).spec_bytes().len()),
            r matches Ok((k, n)) ==> k == varint_head(
                old(self).spec_bytes()[old(self).spec_pos()],
                init_shift,
            ) && n == le_varint_value(old(self).spec_bytes(), old(self).spec_pos(), init_shift)
                && final(self).spec_pos() == old(self).spec_pos() + varint_len(
                old(self).spec_bytes(),
                old(self).spec_pos(),
            ),
    {
        proof {
            use_type_invariant(&*self);
        }
        let ghost s = self.bytes@;
        let ghost p0 = self.pos as int;
        let byte = self.read_u8()?;
        let anti_shift: u64 = 7 - init_shift;
        proof {
            assert(1u64 << init_shift >= 1 && 1u64 << anti_shift >= 1) by (bit_vector)
                requires
                    init_shift < 8,
                    anti_shift == 7 - init_shift,
            ;
        }
        let k_mask: u64 = ((1u64 << init_shift) - 1) << anti_shift;
        let k = ((byte as u64 & k_mask) >> anti_shift) as u8;
        let mask: u64 = (1u64 << anti_shift) - 1;
        let mut n: u64 = byte as u64 & mask;
        proof {
            assert(1u64 << init_shift >= 1) by (bit_vector)
                requires
                    init_shift < 8,
            ;
        }
        let ghost first: u64 = n;
        if byte & 0x80 != 0 {
            let mut shift: u64 = anti_shift;
            let ghost mut i: int = p0 + 1;
            loop
                invariant_except_break
                    self.spec_bytes() == s,
                    s == old(self).spec_bytes(),
                    p0 == old(self).spec_pos(),
                    p0 + 1 <= i <= s.len(),
                    self.spec_pos() == i,
                    shift == anti_shift + 7 * (i - p0 - 1),
                    msb_run(s, p0 + 1) == (i - p0 - 1) + msb_run(s, i),
                    varint_tail(s, p0 + 1, anti_shift, first) == varint_tail(s, i, shift, n),
                invariant
                    7 * msb_run(s, p0 + 1) + anti_shift < 64,
                    s[p0] & 0x80 != 0,
                    anti_shift == 7 - init_shift,
                ensures
                    self.spec_bytes() == s,
                    self.spec_pos() == p0 + 2 + msb_run(s, p0 + 1),
                    self.spec_pos() <= s.len(),
                    n == varint_tail(s, p0 + 1, anti_shift, first),
                decreases s.len() - i,
            {
                proof {
                    use_type_invariant(&*self);
                }
                let b = self.read_u8();
                match b {
                    Ok(b) => {
                        let bb = b as u64;
                        proof {
                            assert((bb & 0x7f) == ((b & 0x7f) as u64) && ((bb & 0x80 == 0) <==> (b
                                & 0x80 == 0))) by (bit_vector)
                                requires
                                    bb == b as u64,
                            ;
                            if b & 0x80 != 0 {
                                assert(msb_run(s, i) == 1 + msb_run(s, i + 1));
                            }
                        }
                        n = n | ((bb & 0x7f) << shift);
                        if bb & 0x80 == 0 {
                            break ;
                        }
                        shift = shift + 7;
                        proof {
                            i = i + 1;
                        }
                    },
                    Err(e) => {
                        proof {
                            assert(i == s.len());
                            assert(msb_run(s, i) == 0);
                            assert(s[p0] & 0x80 != 0);
                        }
                        return Err(e);
                    },
                }
            }
        }
        Ok((k, n))
    }

    /// Reads the operand of a delta copy instruction: one byte for every bit set among the
    /// low seven bits of `header`, placed at byte `k` of the result for bit `k`.
    pub fn read_le_packed(&mut self, header: u8) -> (r: BitResult<u64>)
        ensures
            final(self).spec_bytes() == old(self).spec_bytes(),
            r is Ok <==> old(self).spec_pos() + packed_len(header, 0) <= old(self).spec_bytes().len(),
            r matches Ok(v) ==> v == packed_value(
                old(self).spec_bytes(),
                old(self).spec_pos(),
                header,
                0,
                0,
            ) && final(self).spec_pos() == old(self).spec_pos() + packed_len(header, 0),
    {
        proof {
            use_type_invariant(&*self);
        }
        let ghost s = self.bytes@;
        let ghost p0 = self.pos as int;
        let mut value: u64 = 0;
        let mut i: u64 = 0;
        while i < 7
            invariant
                0 <= i <= 7,
                self.spec_bytes() == s,
                s == old(self).spec_bytes(),
                p0 == old(self).spec_pos(),
                p0 <= self.spec_pos() <= s.len(),
                self.spec_pos() - p0 + packed_len(header, i as nat) == packed_len(header, 0),
                packed_value(s, p0, header, 0, 0) == packed_value(
                    s,
                    self.spec_pos(),
                    header,
                    i as nat,
                    value,
                ),
            decreases 7 - i,
        {
            proof {
                use_type_invariant(&*self);
            }
            if header & (1u8 << (i as u8)) != 0 {
                let b = self.read_u8();
                match b {
                    Ok(byte) => {
                        value = value | ((byte as u64) << (i * 8));
                    },
                    Err(e) => {
                        proof {
                            lemma_packed_len_ge(header, (i + 1) as nat);
                        }
                        return Err(e);
                    },
                }
            }
            i = i + 1;
        }
        Ok(value)
    }

    pub fn read_u16(&mut self) -> (r: BitResult<u16>)
        ensures
            final(self).spec_bytes() == old(self).spec_bytes(),
            r is Ok <==> old(self).spec_pos() + 2 <= old(self).spec_bytes().len(),
            r is Err ==> r == Err::<u16, BitError>(BitError::UnexpectedEof),
            r matches Ok(v) ==> v == be_value(
                old(self).spec_bytes().subrange(old(self).spec_pos(), old(self).spec_pos() + 2),
            ) && final(self).spec_pos() == old(self).spec_pos() + 2,
    {
        let v = self.read_be(2)?;
        proof {
            reveal_with_fuel(pow2_8, 3);
        }
        Ok(v as u16)
    }

    pub fn read_u32(&mut self) -> (r: BitResult<u32>)
        ensures
            final(self).spec_bytes() == old(self).spec_bytes(),
            r is Ok <==> old(self).spec_pos() + 4 <= old(self).spec_bytes().len(),
            r is Err ==> r == Err::<u32, BitError>(BitError::UnexpectedEof),
            r matches Ok(v) ==> v == be_value(
                old(self).spec_bytes().subrange(old(self).spec_pos(), old(self).spec_pos() + 4),
            ) && final(self).spec_pos() == old(self).spec_pos() + 4,
    {
        let v = self.read_be(4)?;
        proof {
            reveal_with_fuel(pow2_8, 5);
        }
        Ok(v as u32)
    }

    pub fn read_u64(&mut self) -> (r: BitResult<u64>)
        ensures
            final(self).spec_bytes() == old(self).spec_bytes(),
            r is Ok <==> old(self).spec_pos() + 8 <= old(self).spec_bytes().len(),
            r matches Ok(v) ==> v == be_value(
                old(self).spec_bytes().subrange(old(self).spec_pos(), old(self).spec_pos() + 8),
            ) && final(self).spec_pos() == old(self).spec_pos() + 8,
    {
        self.read_be(8)
    }

    /// Reads an `n` byte big-endian integer.
    fn read_be(&mut self, n: usize) -> (r: BitResult<u64>)
        requires
            1 <= n <= 8,
        ensures
            final(self).spec_bytes() == old(self).spec_bytes(),
            r is Ok <==> old(self).spec_pos() + n <= old(self).spec_bytes().len(),
            r is Err ==> r == Err::<u64, BitError>(BitError::UnexpectedEof),
            r matches Ok(v) ==> v == be_value(
                old(self).spec_bytes().subrange(old(self).spec_pos(), old(self).spec_pos() + n),
            ) && final(self).spec_pos() == old(self).spec_pos() + n && v < pow2_8(n as nat),
    {
        let bytes = self.read_bytes(n)?;
        let mut v: u64 = 0;
        let mut i: usize = 0;
        while i < n
            invariant
                0 <= i <= n,
                n <= 8,
                bytes@.len() == n,
                v == be_value(bytes@.take(i as int)),
                v < pow2_8(i as nat),
            decreases n - i,
        {
            proof {
                lemma_pow2_8_step(i as nat);
                assert(bytes@.take(i + 1).drop_last() =~= bytes@.take(i as int));
                lemma_pow2_8_mono(i as nat, 7);
                reveal_with_fuel(pow2_8, 8);
                assert(pow2_8(7) == 0x100_0000_0000_0000);
            }
            v = v * 256 + bytes[i] as u64;
            i = i + 1;
        }
        assert(bytes@.take(n as int) =~= bytes@);
        Ok(v)
    }

    /// Reads the bytes before the next zero byte, and the zero byte; there must be one.
    pub fn read_null_terminated(&mut self) -> (r: BitResult<Vec<u8>>)
        ensures
            final(self).spec_bytes() == old(self).spec_bytes(),
            r matches Ok(v) ==> {
                &&& nul_free(v@)
                &&& v@.len() < old(self).rest().len()
                &&& v@ == old(self).rest().take(v@.len() as int)
                &&& old(self).rest()[v@.len() as int] == 0u8
                &&& final(self).spec_pos() == old(self).spec_pos() + v@.len() + 1
            },
            r is Err ==> nul_free(old(self).rest()) && r == Err::<Vec<u8>, BitError>(
                BitError::UnexpectedEof,
            ),
    {
        proof {
            use_type_invariant(&*self);
        }
        let start = self.pos;
        let mut i = self.pos;
        while i < self.bytes.len() && self.bytes[i] != 0
            invariant
                start == self.pos,
                start <= i <= self.bytes@.len(),
                forall|j: int| start <= j < i ==> self.bytes@[j] != 0u8,
            decreases self.bytes@.len() - i,
        {
            i = i + 1;
        }
        if i == self.bytes.len() {
            proof {
                assert forall|j: int| 0 <= j < old(self).rest().len() implies old(
                    self,
                ).rest()[j] != 0u8 by {
                    assert(old(self).rest()[j] == self.bytes@[start + j]);
                }
            }
            return Err(BitError::UnexpectedEof);
        }
        let v = crate::hash::slice_range(self.bytes.as_slice(), start, i);
        self.pos = i + 1;
        proof {
            assert(v@ =~= old(self).rest().take(v@.len() as int));
        }
        Ok(v)
    }

    /// Reads `n` bytes and then the bytes up to the next zero byte, which is read too; the
    /// result is all the bytes read but the zero byte.
    pub fn read_null_terminated_skip_n(&mut self, n: usize) -> (r: BitResult<Vec<u8>>)
        ensures
            final(self).spec_bytes() == old(self).spec_bytes(),
            r matches Ok(v) ==> {
                &&& n <= v@.len() < old(self).rest().len()
                &&& nul_free(v@.skip(n as int))
                &&& v@ == old(self).rest().take(v@.len() as int)
                &&& old(self).rest()[v@.len() as int] == 0u8
                &&& final(self).spec_pos() == old(self).spec_pos() + v@.len() + 1
            },
            r is Err ==> (n > old(self).rest().len() || nul_free(old(self).rest().skip(n as int)))
                && r == Err::<Vec<u8>, BitError>(BitError::UnexpectedEof),
    {
        proof {
            use_type_invariant(&*self);
        }
        let ghost s0 = self.rest();
        let mut head = self.read_bytes(n)?;
        let ghost s1 = self.rest();
        proof {
            assert(s1 =~= s0.skip(n as int));
        }
        let tail = self.read_null_terminated()?;
        let ghost h = head@;
        append_bytes(&mut head, tail.as_slice());
        proof {
            assert(head@.skip(n as int) =~= tail@);
            assert(head@ =~= s0.take(head@.len() as int));
            assert(s0[head@.len() as int] == s1[tail@.len() as int]);
        }
        Ok(head)
    }

    /// Reads a 20 byte object id.
    pub fn read_oid(&mut self) -> (r: BitResult<Oid>)
        ensures
            final(self).spec_bytes() == old(self).spec_bytes(),
            r is Ok <==> old(self).spec_pos() + 20 <= old(self).spec_bytes().len(),
            r is Err ==> r == Err::<Oid, BitError>(BitError::UnexpectedEof),
            r matches Ok(o) ==> o@ == old(self).spec_bytes().subrange(
                old(self).spec_pos(),
                old(self).spec_pos() + 20,
            ) && final(self).spec_pos() == old(self).spec_pos() + 20,
    {
        let v = self.read_bytes(20)?;
        let mut buf = [0u8; 20];
        let mut i: usize = 0;
        while i < 20
            invariant
                0 <= i <= 20,
                v@.len() == 20,
                buf@.len() == 20,
                forall|j: int| 0 <= j < i ==> buf@[j] == v@[j],
            decreases 20 - i,
        {
            buf[i] = v[i];
            i = i + 1;
        }
        assert(buf@ =~= v@);
        Ok(SHA1Hash::new(buf))
    }
}

/// The number stored, besides the start of the size, in the first byte of a shifted varint.
pub open spec fn varint_head(b: u8, init_shift: u64) -> u8 {
    (((b as u64) & ((((1u64 << init_shift) - 1) as u64) << ((7 - init_shift) as u64))) >> ((7
        - init_shift) as u64)) as u8
}

/// The value of a (possibly shifted) little-endian variable length integer starting at `i`.
pub open spec fn le_varint_value(s: Seq<u8>, i: int, init_shift: u64) -> u64 {
    let first = (s[i] as u64) & (((1u64 << (7 - init_shift) as u64) - 1) as u64);
    if s[i] & 0x80 == 0 {
        first
    } else {
        varint_tail(s, i + 1, (7 - init_shift) as u64, first)
    }
}

/// `2^(7 * k)`.
pub open spec fn pow2_7(k: int) -> int
    decreases k,
{
    if k <= 0 {
        1
    } else {
        128 * pow2_7(k - 1)
    }
}

proof fn lemma_pow2_7_bound(k: int)
    requires
        k <= 8,
    ensures
        pow2_7(k) <= 0x100_0000_0000_0000,
{
    lemma_pow2_7_mono(k, 8);
    reveal_with_fuel(pow2_7, 9);
}

proof fn lemma_pow2_7_mono(a: int, b: int)
    requires
        a <= b,
    ensures
        pow2_7(a) <= pow2_7(b),
    decreases b - a,
{
    if a < b {
        lemma_pow2_7_mono(a, b - 1);
        lemma_pow2_7_pos(b - 1);
        if b > 0 {
            assert(pow2_7(b) == 128 * pow2_7(b - 1));
        }
    }
}

proof fn lemma_pow2_7_pos(k: int)
    ensures
        pow2_7(k) >= 1,
    decreases k,
{
    if k > 0 {
        lemma_pow2_7_pos(k - 1);
    }
}

proof fn lemma_pow2_7_step(k: int)
    requires
        k >= 0,
    ensures
        pow2_7(k + 1) == 128 * pow2_7(k),
{
}

proof fn lemma_shift_or(x: u64, low: u64)
    requires
        low < 128,
        x < 0x200_0000_0000_0000,
    ensures
        (x << 7) | low == x * 128 + low,
{
    assert((x << 7) | low == x * 128 + low) by (bit_vector)
        requires
            low < 128,
            x < 0x200_0000_0000_0000,
    ;
}

/// `2^(8 * k)`.
pub open spec fn pow2_8(k: nat) -> nat
    decreases k,
{
    if k == 0 {
        1
    } else {
        256 * pow2_8((k - 1) as nat)
    }
}

proof fn lemma_pow2_8_step(k: nat)
    ensures
        pow2_8(k + 1) == 256 * pow2_8(k),
{
}

proof fn lemma_pow2_8_mono(a: nat, b: nat)
    requires
        a <= b,
    ensures
        pow2_8(a) <= pow2_8(b),
    decreases b,
{
    if a < b {
        lemma_pow2_8_mono(a, (b - 1) as nat);
    }
}

proof fn lemma_packed_len_ge(header: u8, k: nat)
    ensures
        packed_len(header, k) >= 0,
{
}

/// Encodes `u` as two big-endian bytes.
pub open spec fn be2(u: u16) -> Seq<u8> {
    seq![(u / 256) as u8, (u % 256) as u8]
}

/// Encodes `u` as four big-endian bytes.
pub open spec fn be4(u: u32) -> Seq<u8> {
    seq![(u / 0x1000000) as u8, ((u / 0x10000) % 256) as u8, ((u / 256) % 256) as u8, (u % 256) as u8]
}

/// Two big-endian bytes read back give the number written.
pub proof fn lemma_be2(u: u16)
    ensures
        be2(u).len() == 2,
        be_value(be2(u)) == u,
{
    let s = be2(u);
    reveal_with_fuel(be_value, 3);
    assert(s.drop_last().drop_last() =~= Seq::<u8>::empty());
    assert(u == (u / 256) * 256 + u % 256);
}

/// Four big-endian bytes read back give the number written.
pub proof fn lemma_be4(u: u32)
    ensures
        be4(u).len() == 4,
        be_value(be4(u)) == u,
{
    let s = be4(u);
    reveal_with_fuel(be_value, 5);
    assert(s.drop_last().drop_last().drop_last().drop_last() =~= Seq::<u8>::empty());
    let a = u / 0x1000000;
    let b = (u / 0x10000) % 256;
    let c = (u / 256) % 256;
    let d = u % 256;
    assert(u == (u / 256) * 256 + d);
    assert(u / 256 == (u / 0x10000) * 256 + c);
    assert(u / 0x10000 == a * 256 + b);
    assert(s[0] == a && s[1] == b && s[2] == c && s[3] == d);
}

/// Whether no byte of `s` is zero.
pub open spec fn nul_free(s: Seq<u8>) -> bool {
    forall|i: int| 0 <= i < s.len() ==> s[i] != 0u8
}

/// Appends a byte.
pub fn write_u8(w: &mut Vec<u8>, u: u8)
    ensures
        final(w)@ == old(w)@.push(u),
{
    w.push(u);
}

/// Appends a big-endian `u16`.
pub fn write_u16(w: &mut Vec<u8>, u: u16)
    ensures
        final(w)@ == old(w)@ + be2(u),
{
    w.push((u / 256) as u8);
    w.push((u % 256) as u8);
    assert(w@ =~= old(w)@ + be2(u));
}

/// Appends a big-endian `u32`.
pub fn write_u32(w: &mut Vec<u8>, u: u32)
    ensures
        final(w)@ == old(w)@ + be4(u),
{
    w.push((u / 0x1000000) as u8);
    w.push(((u / 0x10000) % 256) as u8);
    w.push(((u / 256) % 256) as u8);
    w.push((u % 256) as u8);
    assert(w@ =~= old(w)@ + be4(u));
}

/// Appends a big-endian `u64`.
pub fn write_u64(w: &mut Vec<u8>, u: u64)
    ensures
        final(w)@ == old(w)@ + be4((u / 0x1_0000_0000) as u32) + be4((u % 0x1_0000_0000) as u32),
{
    write_u32(w, (u / 0x1_0000_0000) as u32);
    write_u32(w, (u % 0x1_0000_0000) as u32);
}

/// Appends an object id.
pub fn write_oid(w: &mut Vec<u8>, oid: Oid)
    ensures
        final(w)@ == old(w)@ + oid@,
{
    append_bytes(w, oid.as_bytes().as_slice());
}

/// Appends a path followed by a zero byte.
pub fn write_null_terminated_path(w: &mut Vec<u8>, path: &[u8])
    ensures
        final(w)@ == old(w)@ + path@ + seq![0u8],
{
    append_bytes(w, path);
    w.push(0u8);
    assert(w@ =~= old(w)@ + path@ + seq![0u8]);
}

/// Appends a number in ASCII decimal followed by the separator byte.
pub fn write_ascii_num(w: &mut Vec<u8>, n: u64, sep: u8)
    ensures
        final(w)@ == old(w)@ + dec_digits(n as nat) + seq![sep],
{
    let d = u64_to_dec(n);
    append_bytes(w, d.as_slice());
    w.push(sep);
    assert(w@ =~= old(w)@ + dec_digits(n as nat) + seq![sep]);
}

/// Appends `data` prefixed by its length as a big-endian `u32`.
pub fn write_with_size(w: &mut Vec<u8>, data: &[u8])
    requires
        data@.len() <= u32::MAX,
    ensures
        final(w)@ == old(w)@ + be4(data@.len() as u32) + data@,
{
    write_u32(w, data.len() as u32);
    append_bytes(w, data);
}

/// A writer that hashes everything written through it, so that the hash can be appended.
pub struct HashWriter {
    writer: Vec<u8>,
    hashed: Vec<u8>,
}

impl HashWriter {
    pub closed spec fn written(&self) -> Seq<u8> {
        self.writer@
    }

    pub closed spec fn hashed(&self) -> Seq<u8> {
        self.hashed@
    }

    /// Starts writing after the bytes already in `writer`; those are not hashed.
    pub fn new(writer: Vec<u8>) -> (r: Self)
        ensures
            r.written() == writer@,
            r.hashed() == Seq::<u8>::empty(),
    {
        HashWriter { writer, hashed: Vec::new() }
    }

    /// Same as `new`; the hash is SHA-1.
    pub fn new_sha1(writer: Vec<u8>) -> (r: Self)
        ensures
            r.written() == writer@,
            r.hashed() == Seq::<u8>::empty(),
    {
        Self::new(writer)
    }

    pub fn write(&mut self, bytes: &[u8])
        ensures
            final(self).written() == old(self).written() + bytes@,
            final(self).hashed() == old(self).hashed() + bytes@,
    {
        append_bytes(&mut self.writer, bytes);
        append_bytes(&mut self.hashed, bytes);
    }

    /// Appends the SHA-1 of everything written through this writer and returns all the bytes.
    pub fn write_hash(self) -> (r: Vec<u8>)
        ensures
            r@ == self.written() + spec_sha1(self.hashed()),
    {
        let hash = hash_bytes(self.hashed.as_slice());
        let mut w = self.writer;
        write_oid(&mut w, hash);
        w
    }
}

/// A reader that hashes everything read through it.
pub struct HashReader {
    reader: ByteReader,
    consumed: Vec<u8>,
}

impl HashReader {
    pub closed spec fn reader(&self) -> ByteReader {
        self.reader
    }

    pub closed spec fn consumed(&self) -> Seq<u8> {
        self.consumed@
    }

    pub fn new(reader: ByteReader) -> (r: Self)
        ensures
            r.reader() == reader,
            r.consumed() == Seq::<u8>::empty(),
    {
        HashReader { reader, consumed: Vec::new() }
    }

    /// Same as `new`; the hash is SHA-1.
    pub fn new_sha1(reader: ByteReader) -> (r: Self)
        ensures
            r.reader() == reader,
            r.consumed() == Seq::<u8>::empty(),
    {
        Self::new(reader)
    }

    /// Reads all remaining bytes, hashing them.
    pub fn read_to_vec(&mut self) -> (r: Vec<u8>)
        ensures
            r@ == old(self).reader().rest(),
            final(self).consumed() == old(self).consumed() + r@,
    {
        let v = self.reader.read_to_vec();
        append_bytes(&mut self.consumed, v.as_slice());
        v
    }

    /// The SHA-1 of everything read so far; the hash starts again from nothing.
    pub fn finalize_sha1_hash(&mut self) -> (r: SHA1Hash)
        ensures
            r@ == spec_sha1(old(self).consumed()),
            final(self).consumed() == Seq::<u8>::empty(),
    {
        let h = hash_bytes(self.consumed.as_slice());
        self.consumed = Vec::new();
        h
    }
}

/// What zlib decompression (the `flate2` crate's `ZlibDecoder`, read to the end) gives for
/// `data`: the decompressed bytes, or nothing when `data` is not a valid zlib stream.
pub uninterp spec fn spec_zlib_decode(data: Seq<u8>) -> Option<Seq<u8>>;

/// Decompresses zlib data with `flate2::read::ZlibDecoder`, read to its end. The contract
/// claims only that the result is the named decompression of `data`.
#[verifier::external_body]
pub fn zlib_decode(data: &[u8]) -> (r: BitResult<Vec<u8>>)
    ensures
        r is Ok <==> spec_zlib_decode(data@) is Some,
        r matches Ok(v) ==> spec_zlib_decode(data@) == Some(v@),
{
    let mut decoder = flate2::read::ZlibDecoder::new(data);
    let mut out: Vec<u8> = Vec::new();
    match std::io::Read::read_to_end(&mut decoder, &mut out) {
        Ok(_) => Ok(out),
        Err(_) => Err(BitError::CorruptCompressedData),
    }
}

} // verus!
