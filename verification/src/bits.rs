//! A byte vector interpreted as a flat bit array, little-endian within each
//! byte: bit `idx` lives in byte `idx / 8`, at position `idx % 8`.

use vstd::pervasive::VecAdditionalExecFns;
use vstd::prelude::*;

verus! {

/// Whether bit `i` of byte `b` is set; bits are numbered from the least
/// significant end.
pub open spec fn byte_bit(b: u8, i: u8) -> bool {
    b & (1u8 << i) != 0
}

/// Whether bit `idx` of the packed buffer `buf` is set: bit `idx` lives in
/// byte `idx / 8`, at position `idx % 8` within that byte.
pub open spec fn buf_bit(buf: Seq<u8>, idx: int) -> bool {
    byte_bit(buf[idx / 8], (idx % 8) as u8)
}

/// An owned byte sequence with bit-level get/set/toggle, so that all of the
/// shift-and-mask indexing stands in one place.
pub struct BitBuffer {
    pub bytes: Vec<u8>,
}

impl View for BitBuffer {
    type V = Seq<u8>;

    open spec fn view(&self) -> Seq<u8> {
        self.bytes@
    }
}

impl BitBuffer {
    /// The value of bit `idx` of this buffer.
    pub open spec fn bit(self, idx: int) -> bool {
        buf_bit(self@, idx)
    }

    /// A zero-filled buffer of `n` bytes: every bit starts dead.
    pub fn new(n: usize) -> (r: BitBuffer)
        ensures
            r@.len() == n,
            forall|i: int| 0 <= i < n ==> r@[i] == 0u8,
    {
        let mut bytes: Vec<u8> = Vec::new();
        let mut i: usize = 0;
        while i < n
            invariant
                i <= n,
                bytes@.len() == i,
                forall|j: int| 0 <= j < i ==> bytes@[j] == 0u8,
            decreases n - i,
        {
            bytes.push(0u8);
            i = i + 1;
        }
        BitBuffer { bytes }
    }

    /// The length of the buffer in bytes.
    pub fn byte_len(&self) -> (r: usize)
        ensures
            r == self@.len(),
    {
        self.bytes.len()
    }

    /// Read-only access to the underlying bytes.
    pub fn as_bytes(&self) -> (r: &Vec<u8>)
        ensures
            r@ == self@,
    {
        &self.bytes
    }

    /// Reads bit `idx`.
    pub fn get(&self, idx: usize) -> (r: bool)
        requires
            idx < 8 * self@.len(),
        ensures
            r == self.bit(idx as int),
    {
        proof {
            vstd::arithmetic::div_mod::lemma_fundamental_div_mod(idx as int, 8);
        }
        let b = self.bytes[idx / 8];
        let pos = (idx % 8) as u8;
        b & (1u8 << pos) != 0
    }

    /// Writes bit `idx` to `val`, leaving every other bit untouched.
    pub fn set(&mut self, idx: usize, val: bool)
        requires
            idx < 8 * old(self)@.len(),
        ensures
            final(self)@.len() == old(self)@.len(),
            final(self).bit(idx as int) == val,
            forall|j: int|
                0 <= j < 8 * old(self)@.len() && j != idx ==> final(self).bit(j) == old(self).bit(
                    j,
                ),
    {
        proof {
            vstd::arithmetic::div_mod::lemma_fundamental_div_mod(idx as int, 8);
        }
        let byte_idx = idx / 8;
        let pos = (idx % 8) as u8;
        let b = self.bytes[byte_idx];
        let nb = if val {
            b | (1u8 << pos)
        } else {
            b & !(1u8 << pos)
        };
        self.bytes.set(byte_idx, nb);
        proof {
            lemma_byte_write(b, nb, pos, val);
            assert forall|j: int|
                0 <= j < 8 * old(self)@.len() && j != idx implies self.bit(j) == old(self).bit(
                j,
            ) by {
                vstd::arithmetic::div_mod::lemma_fundamental_div_mod(j, 8);
            }
        }
    }

    /// Flips bit `idx`, leaving every other bit untouched.
    pub fn toggle(&mut self, idx: usize)
        requires
            idx < 8 * old(self)@.len(),
        ensures
            final(self)@.len() == old(self)@.len(),
            final(self).bit(idx as int) == !old(self).bit(idx as int),
            forall|j: int|
                0 <= j < 8 * old(self)@.len() && j != idx ==> final(self).bit(j) == old(self).bit(
                    j,
                ),
    {
        proof {
            vstd::arithmetic::div_mod::lemma_fundamental_div_mod(idx as int, 8);
        }
        let byte_idx = idx / 8;
        let pos = (idx % 8) as u8;
        let b = self.bytes[byte_idx];
        let nb = b ^ (1u8 << pos);
        self.bytes.set(byte_idx, nb);
        proof {
            lemma_byte_flip(b, nb, pos);
            assert forall|j: int|
                0 <= j < 8 * old(self)@.len() && j != idx implies self.bit(j) == old(self).bit(
                j,
            ) by {
                vstd::arithmetic::div_mod::lemma_fundamental_div_mod(j, 8);
            }
        }
    }

    /// Overwrites this buffer with the bytes of `other`.
    pub fn copy_from(&mut self, other: &BitBuffer)
        requires
            old(self)@.len() == other@.len(),
        ensures
            final(self)@ == other@,
    {
        let n = other.byte_len();
        let mut i: usize = 0;
        while i < n
            invariant
                i <= n,
                n == other@.len(),
                self@.len() == other@.len(),
                forall|j: int| 0 <= j < i ==> self@[j] == other@[j],
            decreases n - i,
        {
            let b = other.bytes[i];
            self.bytes.set(i, b);
            i = i + 1;
        }
        proof {
            assert(self@ =~= other@);
        }
    }

    /// Sets every byte, and so every bit, to zero.
    pub fn zero_fill(&mut self)
        ensures
            final(self)@.len() == old(self)@.len(),
            forall|i: int| 0 <= i < final(self)@.len() ==> final(self)@[i] == 0u8,
    {
        let n = self.bytes.len();
        let mut i: usize = 0;
        while i < n
            invariant
                i <= n,
                self@.len() == n,
                forall|j: int| 0 <= j < i ==> self@[j] == 0u8,
            decreases n - i,
        {
            self.bytes.set(i, 0u8);
            i = i + 1;
        }
    }
}

/// A byte with one bit written carries `val` there and keeps every other
/// bit position.
proof fn lemma_byte_write(b: u8, nb: u8, pos: u8, val: bool)
    requires
        pos < 8,
        nb == if val {
            b | (1u8 << pos)
        } else {
            b & !(1u8 << pos)
        },
    ensures
        forall|p: u8| p < 8 ==> byte_bit(nb, p) == if p == pos {
            val
        } else {
            byte_bit(b, p)
        },
{
    assert forall|p: u8| p < 8 implies byte_bit(nb, p) == if p == pos {
        val
    } else {
        byte_bit(b, p)
    } by {
        assert((if val {
            b | (1u8 << pos)
        } else {
            b & !(1u8 << pos)
        }) & (1u8 << p) != 0 <==> (if p == pos {
            val
        } else {
            b & (1u8 << p) != 0
        })) by (bit_vector)
            requires
                pos < 8,
                p < 8,
        ;
    }
}

/// A byte with one bit flipped negates that position and keeps every other
/// bit position.
proof fn lemma_byte_flip(b: u8, nb: u8, pos: u8)
    requires
        pos < 8,
        nb == b ^ (1u8 << pos),
    ensures
        forall|p: u8| p < 8 ==> byte_bit(nb, p) == if p == pos {
            !byte_bit(b, p)
        } else {
            byte_bit(b, p)
        },
{
    assert forall|p: u8| p < 8 implies byte_bit(nb, p) == if p == pos {
        !byte_bit(b, p)
    } else {
        byte_bit(b, p)
    } by {
        assert((b ^ (1u8 << pos)) & (1u8 << p) != 0 <==> (if p == pos {
            !(b & (1u8 << p) != 0)
        } else {
            b & (1u8 << p) != 0
        })) by (bit_vector)
            requires
                pos < 8,
                p < 8,
        ;
    }
}

/// Every bit of a zero byte is dead.
pub proof fn lemma_zero_byte_bits()
    ensures
        forall|p: u8| p < 8 ==> !byte_bit(0u8, p),
{
    assert forall|p: u8| p < 8 implies !byte_bit(0u8, p) by {
        assert(0u8 & (1u8 << p) == 0) by (bit_vector);
    }
}

/// Every bit of an all-zero buffer is dead.
pub proof fn lemma_all_zero_bytes_all_dead(buf: Seq<u8>)
    requires
        forall|i: int| 0 <= i < buf.len() ==> buf[i] == 0u8,
    ensures
        forall|j: int| 0 <= j < 8 * buf.len() ==> !buf_bit(buf, j),
{
    lemma_zero_byte_bits();
    assert forall|j: int| 0 <= j < 8 * buf.len() implies !buf_bit(buf, j) by {
        vstd::arithmetic::div_mod::lemma_fundamental_div_mod(j, 8);
    }
}

} // verus!
