//! A packed array of palette indices, one per cell of a chunk.

use crate::coords::CHUNK_VOLUME;
use vstd::arithmetic::div_mod::*;
use vstd::arithmetic::mul::*;
use vstd::prelude::*;

verus! {

/// The widths a packed value can have. Each divides 64, so a value never
/// straddles two words.
pub open spec fn is_width(bits: u32) -> bool {
    bits == 1 || bits == 2 || bits == 4 || bits == 8 || bits == 16 || bits == 32
}

/// How many values a width tells apart.
pub open spec fn width_capacity(bits: u32) -> int {
    if bits == 1 {
        2
    } else if bits == 2 {
        4
    } else if bits == 4 {
        16
    } else if bits == 8 {
        256
    } else if bits == 16 {
        65536
    } else {
        0x1_0000_0000
    }
}

/// Smallest supported bit width that can index a palette of `len` entries.
pub fn bits_for(len: usize) -> (bits: u32)
    requires
        1 <= len <= 0x1_0000_0000,
    ensures
        is_width(bits),
        len <= width_capacity(bits),
        forall|b: u32| is_width(b) && b < bits ==> #[trigger] width_capacity(b) < len,
        bits == (if len <= 2 {
            1u32
        } else if len <= 4 {
            2
        } else if len <= 16 {
            4
        } else if len <= 256 {
            8
        } else if len <= 65536 {
            16
        } else {
            32
        }),
{
    if len <= 2 {
        1
    } else if len <= 4 {
        2
    } else if len <= 16 {
        4
    } else if len <= 256 {
        8
    } else if len <= 65536 {
        16
    } else {
        32
    }
}

/// Fixed-width packed integer array with one entry per cell of a chunk.
pub(crate) struct Packed {
    /// Bits per value.
    bits: u32,
    /// Values per word.
    per_word: u32,
    /// Mask of `bits` low ones.
    mask: u64,
    data: Vec<u64>,
}

spec fn unpack(word: u64, slot: int, bits: u32, mask: u64) -> u64 {
    (word >> ((slot * bits) as u64)) & mask
}

#[verifier::rlimit(40)]
proof fn lemma_store(word: u64, value: u64, bits: u64, s: u64, t: u64)
    requires
        bits == 1 || bits == 2 || bits == 4 || bits == 8 || bits == 16 || bits == 32,
        value <= ((1u64 << bits) - 1) as u64,
        s + bits <= 64,
        t + bits <= 64,
    ensures
        ({
            let mask = ((1u64 << bits) - 1) as u64;
            let new = (word & !(mask << s)) | (value << s);
            &&& (new >> s) & mask == value
            &&& (s + bits <= t || t + bits <= s) ==> (new >> t) & mask == (word >> t) & mask
        }),
{
    let mask = ((1u64 << bits) - 1) as u64;
    assert(1u64 << bits >= 1) by (bit_vector)
        requires
            bits <= 32,
    ;
    let new = (word & !(mask << s)) | (value << s);
    assert((new >> s) & mask == value && ((s + bits <= t || t + bits <= s) ==> (new >> t) & mask
        == (word >> t) & mask)) by (bit_vector)
        requires
            bits == 1 || bits == 2 || bits == 4 || bits == 8 || bits == 16 || bits == 32,
            mask + 1 == 1u64 << bits,
            new == (word & !(mask << s)) | (value << s),
            value <= mask,
            s <= 64 - bits,
            t <= 64 - bits,
    ;
}

proof fn lemma_mask(bits: u64)
    requires
        bits == 1 || bits == 2 || bits == 4 || bits == 8 || bits == 16 || bits == 32,
    ensures
        (1u64 << bits) == width_capacity(bits as u32),
{
    assert(1u64 << 1u64 == 2 && 1u64 << 2u64 == 4 && 1u64 << 4u64 == 16 && 1u64 << 8u64 == 256
        && 1u64 << 16u64 == 65536 && 1u64 << 32u64 == 0x1_0000_0000) by (bit_vector);
}

proof fn lemma_zero_unpacks(s: u64, mask: u64)
    ensures
        (0u64 >> s) & mask == 0,
{
    assert((0u64 >> s) & mask == 0) by (bit_vector);
}

proof fn lemma_masked(v: u64, mask: u64)
    ensures
        v & mask <= mask,
{
    assert(v & mask <= mask) by (bit_vector);
}

impl Packed {
    #[verifier::type_invariant]
    spec fn inv(self) -> bool {
        &&& is_width(self.bits)
        &&& self.per_word * self.bits == 64
        &&& self.mask == width_capacity(self.bits) - 1
        &&& self.data.len() * self.per_word == CHUNK_VOLUME
    }

    /// Bits per value.
    pub closed spec fn width(self) -> u32 {
        self.bits
    }

    closed spec fn value_at(self, i: int) -> u64 {
        unpack(self.data[i / (self.per_word as int)], i % (self.per_word as int), self.bits, self.mask)
    }

    /// The values, in cell order.
    pub closed spec fn values(self) -> Seq<int> {
        Seq::new(CHUNK_VOLUME as nat, |i: int| self.value_at(i) as int)
    }

    /// An array of zeros.
    pub fn new(bits: u32) -> (r: Packed)
        requires
            is_width(bits),
        ensures
            r.width() == bits,
            r.values() == Seq::new(CHUNK_VOLUME as nat, |i: int| 0int),
    {
        proof {
            lemma_mask(bits as u64);
        }
        let per_word: u32 = 64 / bits;
        let words: usize = CHUNK_VOLUME / per_word as usize;
        let mask: u64 = (1u64 << bits as u64) - 1;
        let data: Vec<u64> = vec![0; words];
        proof {
            lemma_layout(bits as int);
        }
        let r = Packed { bits, per_word, mask, data };
        assert forall|i: int| 0 <= i < CHUNK_VOLUME implies r.value_at(i) == 0 by {
            lemma_slot(i, per_word as int, bits as int, words as int);
            lemma_zero_unpacks(((i % (per_word as int)) * bits) as u64, mask);
        }
        assert(r.values() =~= Seq::new(CHUNK_VOLUME as nat, |i: int| 0int));
        r
    }

    #[inline]
    pub fn bits(&self) -> (r: u32)
        ensures
            r == self.width(),
            is_width(r),
    {
        proof {
            use_type_invariant(self);
        }
        self.bits
    }

    #[inline]
    pub fn get(&self, i: usize) -> (r: u64)
        requires
            i < CHUNK_VOLUME,
        ensures
            r == self.values()[i as int],
            r < width_capacity(self.width()),
    {
        proof {
            use_type_invariant(self);
            lemma_slot(i as int, self.per_word as int, self.bits as int, self.data.len() as int);
        }
        let word: usize = i / self.per_word as usize;
        let shift: u32 = (i as u32 % self.per_word) * self.bits;
        proof {
            lemma_masked(self.data[word as int] >> (shift as u64), self.mask);
        }
        (self.data[word] >> shift as u64) & self.mask
    }

    #[inline]
    pub fn set(&mut self, i: usize, value: u64)
        requires
            i < CHUNK_VOLUME,
            value < width_capacity(old(self).width()),
        ensures
            final(self).width() == old(self).width(),
            final(self).values() == old(self).values().update(i as int, value as int),
        no_unwind
    {
        proof {
            use_type_invariant(&*self);
            lemma_slot(i as int, self.per_word as int, self.bits as int, self.data.len() as int);
        }
        let ghost before = *self;
        let word: usize = i / self.per_word as usize;
        let shift: u32 = (i as u32 % self.per_word) * self.bits;
        let shift: u64 = shift as u64;
        let slot: u64 = self.data[word];
        let new: u64 = (slot & !(self.mask << shift)) | (value << shift);
        self.data[word] = new;
        proof {
            lemma_mask(self.bits as u64);
            assert forall|j: int| 0 <= j < CHUNK_VOLUME implies self.value_at(j) == (if j == i {
                value
            } else {
                before.value_at(j)
            }) by {
                let p = self.per_word as int;
                lemma_slot(j, p, self.bits as int, self.data.len() as int);
                let t = ((j % p) * self.bits) as u64;
                if j / p == i as int / p {
                    lemma_store(slot, value, self.bits as u64, shift, t);
                    if j != i {
                        let a = j % p;
                        let b = i as int % p;
                        lemma_fundamental_div_mod(j, p);
                        lemma_fundamental_div_mod(i as int, p);
                        assert(a != b);
                        let w = self.bits as int;
                        if a < b {
                            assert(a * w + w <= b * w) by (nonlinear_arith)
                                requires
                                    a + 1 <= b,
                                    w >= 1,
                            ;
                        } else {
                            assert(b * w + w <= a * w) by (nonlinear_arith)
                                requires
                                    b + 1 <= a,
                                    w >= 1,
                            ;
                        }
                    }
                }
            }
            assert(self.values() =~= before.values().update(i as int, value as int));
        }
    }

    /// Copy of self at a wider bit width.
    pub fn repacked(&self, new_bits: u32) -> (r: Packed)
        requires
            is_width(new_bits),
            self.width() < new_bits,
        ensures
            r.width() == new_bits,
            r.values() == self.values(),
    {
        let mut out = Packed::new(new_bits);
        let mut i: usize = 0;
        let w: u32 = self.bits();
        while i < CHUNK_VOLUME
            invariant
                i <= CHUNK_VOLUME,
                is_width(self.width()),
                is_width(new_bits),
                self.width() < new_bits,
                out.width() == new_bits,
                out.values().len() == CHUNK_VOLUME,
                self.values().len() == CHUNK_VOLUME,
                forall|j: int| 0 <= j < i ==> out.values()[j] == self.values()[j],
            decreases CHUNK_VOLUME - i,
        {
            out.set(i, self.get(i));
            i += 1;
        }
        assert(out.values() =~= self.values());
        out
    }
}

proof fn lemma_layout(bits: int)
    requires
        is_width(bits as u32),
        0 <= bits <= 32,
    ensures
        1 <= 64int / bits <= 64,
        (64int / bits) * bits == 64,
        (CHUNK_VOLUME as int / (64int / bits)) * (64int / bits) == CHUNK_VOLUME,
{
    assert(bits == 1 ==> 64int / bits == 64) by (nonlinear_arith);
    assert(bits == 2 ==> 64int / bits == 32) by (nonlinear_arith);
    assert(bits == 4 ==> 64int / bits == 16) by (nonlinear_arith);
    assert(bits == 8 ==> 64int / bits == 8) by (nonlinear_arith);
    assert(bits == 16 ==> 64int / bits == 4) by (nonlinear_arith);
    assert(bits == 32 ==> 64int / bits == 2) by (nonlinear_arith);
    let p = 64int / bits;
    let v = CHUNK_VOLUME as int;
    assert(p == 64 ==> v / p == 512) by (nonlinear_arith)
        requires
            v == 32768,
    ;
    assert(p == 32 ==> v / p == 1024) by (nonlinear_arith)
        requires
            v == 32768,
    ;
    assert(p == 16 ==> v / p == 2048) by (nonlinear_arith)
        requires
            v == 32768,
    ;
    assert(p == 8 ==> v / p == 4096) by (nonlinear_arith)
        requires
            v == 32768,
    ;
    assert(p == 4 ==> v / p == 8192) by (nonlinear_arith)
        requires
            v == 32768,
    ;
    assert(p == 2 ==> v / p == 16384) by (nonlinear_arith)
        requires
            v == 32768,
    ;
}

proof fn lemma_slot(i: int, per_word: int, bits: int, words: int)
    requires
        0 <= i < CHUNK_VOLUME,
        per_word * bits == 64,
        1 <= bits,
        1 <= per_word,
        words * per_word == CHUNK_VOLUME,
    ensures
        0 <= i / per_word < words,
        0 <= i % per_word < per_word,
        0 <= (i % per_word) * bits <= 64 - bits,
{
    lemma_fundamental_div_mod(i, per_word);
    lemma_mod_bound(i, per_word);
    let q = i / per_word;
    let m = i % per_word;
    assert(0 <= q < words) by (nonlinear_arith)
        requires
            i == per_word * q + m,
            0 <= m < per_word,
            0 <= i < words * per_word,
            per_word >= 1,
    ;
    assert(0 <= m * bits <= 64 - bits) by (nonlinear_arith)
        requires
            0 <= m < per_word,
            per_word * bits == 64,
            bits >= 1,
    ;
}

} // verus!
