//! Bit-level I/O over in-memory byte streams.
//!
//! `BitWriter` packs bits most-significant-first into bytes; `BitReader`
//! reads them back and supports seeking to arbitrary bit positions.

use crate::gcs::GcsError;
use crate::model::{
    bits_val, lemma_stream_bits_push, lemma_val_bits_push, nth_bit, stream_bits, val_bits,
};
use vstd::arithmetic::power2::{
    lemma2_to64, lemma2_to64_rest, lemma_pow2_adds, lemma_pow2_pos, lemma_pow2_strictly_increases,
    pow2,
};
use vstd::prelude::*;

verus! {

/// Extracts bit `j` (from the most significant end) of a byte.
fn byte_bit(b: u8, j: u8) -> (r: u8)
    requires
        j <= 7,
    ensures
        r <= 1,
        (r == 1) == nth_bit(b as nat, (7 - j) as nat),
{
    let pw: u8 = match j {
        0 => 128,
        1 => 64,
        2 => 32,
        3 => 16,
        4 => 8,
        5 => 4,
        6 => 2,
        _ => 1,
    };
    proof {
        lemma2_to64();
        assert(pw as nat == pow2((7 - j) as nat));
    }
    (b / pw) % 2
}

/// Packs bits into a growing byte vector, most significant bit of each byte
/// first.
pub struct BitWriter {
    inner: Vec<u8>,
    buffer: u8,
    unused: u8,
}

impl BitWriter {
    #[verifier::type_invariant]
    spec fn inv(self) -> bool {
        1 <= self.unused <= 8 && (self.buffer as nat) < pow2((8 - self.unused) as nat)
    }

    /// Every bit written so far, in order.
    pub closed spec fn bits(&self) -> Seq<bool> {
        stream_bits(self.inner@) + val_bits((8 - self.unused) as nat, self.buffer as nat)
    }

    pub fn new(inner: Vec<u8>) -> (r: Self)
        ensures
            r.bits() == stream_bits(inner@),
    {
        proof {
            lemma2_to64();
        }
        let r = Self { inner, buffer: 0, unused: 8 };
        proof {
            assert(r.bits() =~= stream_bits(r.inner@));
        }
        r
    }

    /// Appends a single bit.
    pub fn write_bit(&mut self, bit: u8) -> (r: usize)
        requires
            bit <= 1,
        ensures
            final(self).bits() == old(self).bits().push(bit == 1),
            r == 1,
    {
        proof {
            use_type_invariant(&*self);
            lemma2_to64();
        }
        let ghost prior = self.bits();
        proof {
            lemma_val_bits_push((8 - self.unused) as nat, self.buffer as nat, bit as nat);
            lemma_pow2_adds((8 - self.unused) as nat, 1);
        }
        if self.unused == 1 {
            let full_byte: u8 = self.buffer * 2 + bit;
            proof {
                lemma_stream_bits_push(self.inner@, full_byte);
            }
            let mut taken: Vec<u8> = Vec::new();
            std::mem::swap(&mut taken, &mut self.inner);
            taken.push(full_byte);
            self.inner = taken;
            self.buffer = 0;
            self.unused = 8;
            proof {
                assert(val_bits(8, full_byte as nat) =~= val_bits(7, (full_byte as nat) / 2).push(
                    bit == 1,
                ));
                assert(self.bits() =~= prior.push(bit == 1));
            }
        } else {
            self.unused = self.unused - 1;
            self.buffer = self.buffer * 2 + bit;
            proof {
                assert(self.bits() =~= prior.push(bit == 1));
            }
        }
        1
    }

    /// Appends the low `nbits` bits of `value`, most significant first.
    pub fn write_bits(&mut self, nbits: u8, value: u64) -> (r: usize)
        requires
            nbits <= 64,
        ensures
            final(self).bits() == old(self).bits() + val_bits(nbits as nat, value as nat),
            r == nbits as usize,
    {
        let ghost prior = self.bits();
        let ghost target = val_bits(nbits as nat, value as nat);
        if nbits == 0 {
            proof {
                assert(self.bits() =~= prior + target);
            }
            return 0;
        }
        let mut pw: u64 = 1;
        let mut k: u8 = 0;
        proof {
            lemma2_to64();
            lemma2_to64_rest();
        }
        while k < nbits - 1
            invariant
                nbits >= 1,
                k <= nbits - 1 <= 63,
                pw as nat == pow2(k as nat),
            decreases nbits - k,
        {
            proof {
                lemma_pow2_adds(k as nat, 1);
                lemma2_to64();
                lemma2_to64_rest();
                if (k + 1) as nat != 63 {
                    lemma_pow2_strictly_increases((k + 1) as nat, 63);
                }
            }
            pw = pw * 2;
            k = k + 1;
        }
        let mut i: u8 = 0;
        proof {
            assert(self.bits() =~= prior + target.take(0));
        }
        while i < nbits
            invariant
                nbits >= 1,
                i <= nbits <= 64,
                self.bits() == prior + target.take(i as int),
                target == val_bits(nbits as nat, value as nat),
                i < nbits ==> pw as nat == pow2((nbits - 1 - i) as nat),
            decreases nbits - i,
        {
            proof {
                lemma_pow2_pos((nbits - 1 - i) as nat);
            }
            let bit: u8 = ((value / pw) % 2) as u8;
            proof {
                assert((bit == 1) == nth_bit(value as nat, (nbits - 1 - i) as nat));
                assert(target[i as int] == nth_bit(value as nat, (nbits - 1 - i) as nat));
            }
            self.write_bit(bit);
            proof {
                assert(target.take(i + 1) =~= target.take(i as int).push(target[i as int]));
                assert(self.bits() =~= prior + target.take(i + 1));
            }
            i = i + 1;
            if i < nbits {
                proof {
                    lemma2_to64();
                    lemma_pow2_adds((nbits - 1 - i) as nat, 1);
                }
                pw = pw / 2;
            }
        }
        proof {
            assert(target.take(nbits as int) =~= target);
        }
        nbits as usize
    }

    /// Pads the current byte with zero bits, if it is partial, and returns
    /// how many padding bits were written.
    pub fn flush(&mut self) -> (r: usize)
        ensures
            final(self).bits() == old(self).bits() + val_bits(
                ((8 - old(self).bits().len() % 8) % 8) as nat,
                0,
            ),
            r == ((8 - old(self).bits().len() % 8) % 8),
            final(self).bits().len() % 8 == 0,
    {
        proof {
            use_type_invariant(&*self);
        }
        let ghost prior = self.bits();
        let pad: u8 = if self.unused == 8 {
            0
        } else {
            self.unused
        };
        proof {
            let l = self.inner@.len() as int;
            assert(prior.len() == 8 * l + (8 - self.unused));
            assert((8 * l + (8 - self.unused) as int) % 8 == (8 - self.unused) as int % 8) by (nonlinear_arith);
            assert(prior.len() % 8 == (8 - self.unused) as int % 8);
            assert(pad as int == (8 - prior.len() % 8) % 8);
        }
        let mut i: u8 = 0;
        proof {
            assert(self.bits() =~= prior + val_bits(0, 0));
        }
        while i < pad
            invariant
                i <= pad,
                self.bits() == prior + val_bits(i as nat, 0),
            decreases pad - i,
        {
            proof {
                lemma_val_bits_push(i as nat, 0, 0);
                assert(val_bits((i + 1) as nat, 0) =~= val_bits(i as nat, 0).push(false));
            }
            self.write_bit(0);
            proof {
                assert(self.bits() =~= prior + val_bits((i + 1) as nat, 0));
            }
            i = i + 1;
        }
        proof {
            assert((prior.len() + pad) % 8 == 0) by (nonlinear_arith)
                requires
                    pad as int == (8 - prior.len() % 8) % 8,
                    prior.len() >= 0,
            ;
        }
        pad as usize
    }

    /// Borrows the bytes completed so far.
    pub fn get_ref(&self) -> (r: &Vec<u8>)
        ensures
            8 * r@.len() == self.bits().len() - self.bits().len() % 8,
            stream_bits(r@) == self.bits().take(8 * r@.len() as int),
    {
        proof {
            use_type_invariant(&*self);
            self.lemma_byte_view();
        }
        &self.inner
    }

    /// Gives up the writer, returning the bytes completed so far; unflushed
    /// bits of a partial byte are dropped.
    pub fn into_inner(self) -> (r: Vec<u8>)
        ensures
            8 * r@.len() == self.bits().len() - self.bits().len() % 8,
            stream_bits(r@) == self.bits().take(8 * r@.len() as int),
    {
        proof {
            use_type_invariant(&self);
            self.lemma_byte_view();
        }
        self.inner
    }

    proof fn lemma_byte_view(&self)
        requires
            self.inv(),
        ensures
            8 * self.inner@.len() == self.bits().len() - self.bits().len() % 8,
            stream_bits(self.inner@) == self.bits().take(8 * self.inner@.len() as int),
    {
        let l = self.inner@.len() as int;
        assert(self.bits().len() == 8 * l + (8 - self.unused));
        assert((8 * l + (8 - self.unused) as int) % 8 == (8 - self.unused) as int % 8)
            by (nonlinear_arith);
        assert(stream_bits(self.inner@) =~= self.bits().take(8 * l));
    }
}

/// Reads bits most-significant-first from an in-memory byte stream, tracking
/// a bit position that can be seeked.
pub struct BitReader {
    inner: Vec<u8>,
    bitpos: u64,
}

impl BitReader {
    #[verifier::type_invariant]
    spec fn inv(self) -> bool {
        self.bitpos as nat <= 8 * self.inner@.len() && 8 * self.inner@.len() <= u64::MAX as nat
    }

    /// The underlying bytes.
    pub closed spec fn bytes(&self) -> Seq<u8> {
        self.inner@
    }

    /// The current bit position.
    pub closed spec fn pos(&self) -> u64 {
        self.bitpos
    }

    pub fn new(inner: Vec<u8>) -> (r: Self)
        requires
            8 * inner@.len() <= u64::MAX as nat,
        ensures
            r.bytes() == inner@,
            r.pos() == 0,
    {
        Self { inner, bitpos: 0 }
    }

    /// Discards any partially consumed byte, advancing the position to the
    /// next byte boundary.
    pub fn reset(&mut self)
        ensures
            final(self).bytes() == old(self).bytes(),
            final(self).pos() == old(self).pos() + (8 - old(self).pos() % 8) % 8,
    {
        proof {
            use_type_invariant(&*self);
        }
        let r: u64 = self.bitpos % 8;
        if r != 0 {
            proof {
                let l = self.inner@.len() as int;
                assert(self.bitpos + (8 - r) <= 8 * l) by (nonlinear_arith)
                    requires
                        r == self.bitpos % 8,
                        r != 0,
                        self.bitpos as nat <= 8 * l,
                ;
            }
            self.bitpos = self.bitpos + (8 - r);
        }
    }

    /// Reads `nbits` bits, most significant first, returning them as the low
    /// bits of a 64-bit value.  Fails without consuming anything if fewer
    /// than `nbits` bits remain.
    pub fn read_bits(&mut self, nbits: u8) -> (r: Result<u64, GcsError>)
        requires
            nbits <= 64,
        ensures
            final(self).bytes() == old(self).bytes(),
            match r {
                Ok(v) => {
                    &&& old(self).pos() + nbits <= 8 * old(self).bytes().len()
                    &&& v as nat == bits_val(
                        stream_bits(old(self).bytes()).subrange(
                            old(self).pos() as int,
                            old(self).pos() + nbits,
                        ),
                    )
                    &&& final(self).pos() == old(self).pos() + nbits
                },
                Err(e) => {
                    &&& e == GcsError::UnexpectedEof
                    &&& old(self).pos() + nbits > 8 * old(self).bytes().len()
                    &&& final(self).pos() == old(self).pos()
                },
            },
    {
        proof {
            use_type_invariant(&*self);
        }
        let total: u64 = (self.inner.len() as u64) * 8;
        if nbits as u64 > total - self.bitpos {
            return Err(GcsError::UnexpectedEof);
        }
        let ghost start = self.bitpos as int;
        let ghost sbits = stream_bits(self.inner@);
        let mut ret: u64 = 0;
        let mut i: u8 = 0;
        proof {
            lemma2_to64();
        }
        while i < nbits
            invariant
                0 <= start,
                i <= nbits <= 64,
                self.inner@.len() <= usize::MAX as nat,
                self.inner@ == old(self).inner@,
                sbits == stream_bits(self.inner@),
                start + nbits <= 8 * self.inner@.len(),
                8 * self.inner@.len() <= u64::MAX as nat,
                self.bitpos == start + i,
                ret as nat == bits_val(sbits.subrange(start, start + i)),
                (ret as nat) < pow2(i as nat),
            decreases nbits - i,
        {
            let byte_index: u64 = self.bitpos / 8;
            let bit_index: u64 = self.bitpos % 8;
            proof {
                assert(byte_index < self.inner@.len() && 8 * byte_index + bit_index
                    == self.bitpos) by (nonlinear_arith)
                    requires
                        byte_index == self.bitpos as int / 8,
                        bit_index == self.bitpos as int % 8,
                        self.bitpos < 8 * self.inner@.len(),
                ;
            }
            let b: u8 = self.inner[byte_index as usize];
            let bit: u8 = byte_bit(b, bit_index as u8);
            proof {
                assert(sbits[start + i] == nth_bit(self.inner@[byte_index as int] as nat, (7
                    - bit_index) as nat));
                let chunk = sbits.subrange(start, start + i + 1);
                assert(chunk.drop_last() =~= sbits.subrange(start, start + i));
                assert(chunk.last() == sbits[start + i]);
                assert((bit as nat) == (if sbits[start + i] {
                    1nat
                } else {
                    0nat
                }));
                assert(bits_val(chunk) == 2 * (ret as nat) + (bit as nat));
                lemma_pow2_adds(i as nat, 1);
                lemma2_to64();
                lemma2_to64_rest();
                if (i + 1) as nat != 64 {
                    lemma_pow2_strictly_increases((i + 1) as nat, 64);
                }
                assert(2 * (ret as nat) + (bit as nat) < pow2((i + 1) as nat));
                assert(pow2((i + 1) as nat) <= pow2(64));
            }
            ret = ret * 2 + bit as u64;
            self.bitpos = self.bitpos + 1;
            i = i + 1;
        }
        proof {
            assert(sbits.subrange(start, start + nbits) == stream_bits(old(self).bytes()).subrange(
                old(self).pos() as int,
                old(self).pos() + nbits,
            ));
        }
        Ok(ret)
    }

    /// Reads a single bit.
    pub fn read_bit(&mut self) -> (r: Result<u8, GcsError>)
        ensures
            final(self).bytes() == old(self).bytes(),
            match r {
                Ok(v) => {
                    &&& old(self).pos() + 1 <= 8 * old(self).bytes().len()
                    &&& v <= 1
                    &&& (v == 1) == stream_bits(old(self).bytes())[old(self).pos() as int]
                    &&& final(self).pos() == old(self).pos() + 1
                },
                Err(e) => {
                    &&& e == GcsError::UnexpectedEof
                    &&& old(self).pos() + 1 > 8 * old(self).bytes().len()
                    &&& final(self).pos() == old(self).pos()
                },
            },
    {
        let ghost start = self.pos() as int;
        let ghost sbits = stream_bits(self.bytes());
        match self.read_bits(1) {
            Ok(v) => {
                proof {
                    let chunk = sbits.subrange(start, start + 1);
                    assert(chunk.drop_last() =~= sbits.subrange(start, start));
                    assert(bits_val(chunk.drop_last()) == 0);
                    assert(chunk.last() == sbits[start]);
                }
                Ok(v as u8)
            },
            Err(e) => Err(e),
        }
    }

    /// Seeks to an absolute bit position.
    pub fn seek(&mut self, pos: u64) -> (r: Result<u64, GcsError>)
        ensures
            final(self).bytes() == old(self).bytes(),
            match r {
                Ok(v) => {
                    &&& pos <= 8 * old(self).bytes().len()
                    &&& v == pos
                    &&& final(self).pos() == pos
                },
                Err(e) => {
                    &&& e == GcsError::UnexpectedEof
                    &&& pos > 8 * old(self).bytes().len()
                    &&& final(self).pos() == old(self).pos()
                },
            },
    {
        proof {
            use_type_invariant(&*self);
        }
        let total: u64 = (self.inner.len() as u64) * 8;
        if pos > total {
            return Err(GcsError::UnexpectedEof);
        }
        self.bitpos = pos;
        Ok(pos)
    }

    /// The current bit position, as a value.
    pub fn position(&self) -> (r: u64)
        ensures
            r == self.pos(),
    {
        self.bitpos
    }

    /// Borrows the underlying bytes.
    pub fn get_ref(&self) -> (r: &Vec<u8>)
        ensures
            r@ == self.bytes(),
    {
        &self.inner
    }

    /// Gives up the reader, returning the underlying bytes.
    pub fn into_inner(self) -> (r: Vec<u8>)
        ensures
            r@ == self.bytes(),
    {
        self.inner
    }
}

} // verus!
