//! The Golomb Compressed Set engine: the Golomb–Rice encoder and decoder,
//! the set builder, and the container reader.

use crate::bitio::{BitReader, BitWriter};
use crate::model::{
    be_val, be_bytes, bits_bytes, build_bytes, ceil_log2, checkpoints, delta_stream,
    encoded_values, flatten_pairs, footer_end, footer_index_len, footer_n, footer_p, gcs_wf,
    golomb_code, index_pairs, lemma_ceil_log2, lemma_ceil_log2_unique, lemma_delta_stream_snoc,
    lemma_inc_same_set, lemma_ordered_of_props, lemma_scan_reaches, lemma_stream_len_take_le,
    lemma_unary_end, lemma_unary_end_of, magic_bytes, magic_ok, ordered_of, payload_fits,
    reduced_set, spec_decode, spec_member, spec_scan, stream_bits, stream_len, unary_end, val_bits,
};
use vstd::arithmetic::div_mod::{
    lemma_div_is_ordered, lemma_fundamental_div_mod, lemma_fundamental_div_mod_converse_div,
    lemma_mod_division_less_than_divisor,
};
use vstd::arithmetic::power2::{
    lemma2_to64, lemma2_to64_rest, lemma_pow2_adds, lemma_pow2_pos, lemma_pow2_strictly_increases,
    pow2,
};
use byteorder::ByteOrder;
use byteorder::WriteBytesExt;
use rayon::iter::IntoParallelRefMutIterator;
use rayon::iter::ParallelIterator;
use rayon::slice::ParallelSliceMut;
use vstd::prelude::*;

verus! {

/// Everything that can go wrong while building or querying a container.
#[derive(Clone, Copy, Debug, PartialEq, Eq, Structural)]
pub enum GcsError {
    /// `n * p` does not fit in 64 bits, or the payload outgrew 64-bit offsets.
    Overflow,
    /// A parameter is outside its allowed range.
    InvalidParameter,
    /// The container does not end with the magic bytes.
    BadMagic,
    /// The byte stream ended before a read completed.
    UnexpectedEof,
}

/// Relies on byteorder's `WriteBytesExt::write_u64::<BigEndian>`: appends the
/// eight big-endian bytes of `v`; writing into a `Vec` cannot fail.
#[verifier::external_body]
pub(crate) fn push_u64_be(out: &mut Vec<u8>, v: u64)
    ensures
        final(out)@ == old(out)@ + be_bytes(v),
{
    out.write_u64::<byteorder::BigEndian>(v).unwrap();
}

/// Relies on byteorder's `ByteOrder::read_u64` for `BigEndian`: reads eight
/// bytes as one big-endian value; it panics on a short slice, which the
/// precondition rules out.
#[verifier::external_body]
pub(crate) fn read_u64_be(buf: &Vec<u8>, off: usize) -> (r: u64)
    requires
        off + 8 <= buf@.len(),
    ensures
        r as nat == be_val(buf@.subrange(off as int, off as int + 8)),
{
    byteorder::BigEndian::read_u64(&buf[off..off + 8])
}

/// Reduces one hash into the table range.
pub(crate) fn reduce_mod(v: u64, m: u64) -> (r: u64)
    requires
        m >= 1,
    ensures
        r as nat == (v as nat) % (m as nat),
{
    v % m
}

/// Relies on rayon's `ParallelIterator::for_each` over `par_iter_mut`:
/// the closure runs once on each element in place, so every element is
/// replaced by `reduce_mod` of itself.
#[verifier::external_body]
fn par_reduce_mod(values: &mut Vec<u64>, m: u64)
    requires
        m >= 1,
    ensures
        final(values)@.len() == old(values)@.len(),
        forall|i: int|
            0 <= i < old(values)@.len()
                ==> (#[trigger] final(values)@[i]) as nat == (old(values)@[i] as nat) % (m as nat),
{
    values.par_iter_mut().for_each(|v| *v = reduce_mod(*v, m));
}

/// Relies on rayon's `ParallelSliceMut::par_sort_unstable`: sorts the vector
/// ascending in place; the result holds the same elements with the same
/// multiplicities.
#[verifier::external_body]
fn par_sort(values: &mut Vec<u64>)
    ensures
        final(values)@.to_multiset() == old(values)@.to_multiset(),
        forall|i: int, j: int|
            0 <= i <= j < final(values)@.len()
                ==> #[trigger] final(values)@[i] <= #[trigger] final(values)@[j],
{
    values.par_sort_unstable();
}

/// Computes `ceil_log2` of a parameter: the number of bits needed for a
/// remainder in `[0, p)`.
pub(crate) fn ceil_log2_exec(p: u64) -> (r: u8)
    requires
        p >= 1,
    ensures
        r as nat == ceil_log2(p as nat),
        r <= 64,
{
    let mut l: u8 = 0;
    let mut pw: u64 = 1;
    proof {
        lemma2_to64();
    }
    while l < 63 && pw < p
        invariant
            p >= 1,
            l <= 63,
            pw as nat == pow2(l as nat),
            l == 0 || pow2((l - 1) as nat) < p as nat,
        decreases 64 - l,
    {
        proof {
            lemma2_to64();
            lemma2_to64_rest();
            lemma_pow2_adds(l as nat, 1);
            if (l + 1) as nat != 63 {
                lemma_pow2_strictly_increases((l + 1) as nat, 63);
            }
        }
        pw = pw * 2;
        l = l + 1;
    }
    if pw < p {
        proof {
            lemma2_to64_rest();
            lemma_ceil_log2_unique(p as nat, 64);
        }
        64
    } else {
        proof {
            lemma_ceil_log2_unique(p as nat, l as nat);
        }
        l
    }
}

/// Golomb–Rice-encodes values into a bit stream with parameter `p`.
pub struct GolombEncoder {
    p: u64,
    log2p: u8,
    inner: BitWriter,
}

impl GolombEncoder {
    /// Well-formedness: the remainder width matches the parameter.
    pub closed spec fn wf(&self) -> bool {
        self.p >= 1 && self.log2p as nat == ceil_log2(self.p as nat) && self.log2p <= 64
    }

    /// The parameter `p` this encoder was built with.
    pub closed spec fn param(&self) -> u64 {
        self.p
    }

    /// The remainder width in bits.
    pub closed spec fn width(&self) -> nat {
        self.log2p as nat
    }

    /// Every bit emitted so far.
    pub closed spec fn bits(&self) -> Seq<bool> {
        self.inner.bits()
    }

    pub fn new(inner: Vec<u8>, p: u64) -> (r: Self)
        requires
            p >= 1,
        ensures
            r.wf(),
            r.param() == p,
            r.width() == ceil_log2(p as nat),
            r.bits() == stream_bits(inner@),
    {
        let log2p = ceil_log2_exec(p);
        Self { p, log2p, inner: BitWriter::new(inner) }
    }

    /// Appends the codeword for `val`: `val / p` one bits, a zero bit, then
    /// `val % p` in `ceil_log2(p)` bits.  Returns its length in bits.
    pub fn encode(&mut self, val: u64) -> (r: u64)
        requires
            old(self).wf(),
            (val as nat) / (old(self).param() as nat) + 1 + old(self).width() <= u64::MAX as nat,
        ensures
            final(self).wf(),
            final(self).param() == old(self).param(),
            final(self).width() == old(self).width(),
            final(self).bits() == old(self).bits() + golomb_code(
                old(self).param(),
                old(self).width(),
                val as nat,
            ),
            r as nat == (val as nat) / (old(self).param() as nat) + 1 + old(self).width(),
    {
        let ghost prior = self.bits();
        let ghost code = golomb_code(self.p, self.log2p as nat, val as nat);
        let q: u64 = val / self.p;
        let rem: u64 = val % self.p;
        let ghost ones = Seq::new(q as nat, |i: int| true);
        let mut j: u64 = 0;
        proof {
            assert(self.bits() =~= prior + ones.take(0));
        }
        while j < q
            invariant
                j <= q,
                self.param() == old(self).param(),
                self.width() == old(self).width(),
                ones == Seq::new(q as nat, |i: int| true),
                self.bits() == prior + ones.take(j as int),
            decreases q - j,
        {
            self.write_one();
            proof {
                assert(ones.take(j + 1) =~= ones.take(j as int).push(true));
            }
            j = j + 1;
        }
        self.write_zero();
        let ghost mid = self.bits();
        proof {
            assert(ones.take(q as int) =~= ones);
            assert(mid == prior + ones + seq![false]);
        }
        self.write_rem(rem);
        proof {
            assert(code == ones + seq![false] + val_bits(self.log2p as nat, rem as nat));
            assert(self.bits() =~= prior + code);
        }
        q + 1 + self.log2p as u64
    }

    /// Appends a one bit (part of a unary run).
    fn write_one(&mut self)
        ensures
            final(self).wf() == old(self).wf(),
            final(self).param() == old(self).param(),
            final(self).width() == old(self).width(),
            final(self).bits() == old(self).bits().push(true),
    {
        self.inner.write_bit(1);
    }

    /// Appends the zero bit that ends a unary run.
    fn write_zero(&mut self)
        ensures
            final(self).wf() == old(self).wf(),
            final(self).param() == old(self).param(),
            final(self).width() == old(self).width(),
            final(self).bits() == old(self).bits().push(false),
    {
        self.inner.write_bit(0);
    }

    /// Appends the binary remainder.
    fn write_rem(&mut self, rem: u64)
        requires
            old(self).wf(),
        ensures
            final(self).wf(),
            final(self).param() == old(self).param(),
            final(self).width() == old(self).width(),
            final(self).bits() == old(self).bits() + val_bits(old(self).width(), rem as nat),
    {
        self.inner.write_bits(self.log2p, rem);
    }

    /// Pads the stream to a byte boundary; returns the number of padding bits.
    pub fn finish(&mut self) -> (r: usize)
        ensures
            final(self).wf() == old(self).wf(),
            final(self).param() == old(self).param(),
            final(self).width() == old(self).width(),
            final(self).bits() == old(self).bits() + val_bits(
                ((8 - old(self).bits().len() % 8) % 8) as nat,
                0,
            ),
            r == ((8 - old(self).bits().len() % 8) % 8),
            final(self).bits().len() % 8 == 0,
    {
        self.inner.flush()
    }

    /// Gives up the encoder, returning the finished bytes; unflushed bits of
    /// a partial byte are dropped.
    pub fn into_inner(self) -> (r: Vec<u8>)
        ensures
            8 * r@.len() == self.bits().len() - self.bits().len() % 8,
            stream_bits(r@) == self.bits().take(8 * r@.len() as int),
    {
        self.inner.into_inner()
    }
}

/// A codeword for a delta below `np` is never longer than 64 bits can count.
proof fn lemma_encode_fits(d: nat, p: nat, np: nat, l2: nat)
    requires
        p >= 1,
        d < np,
        np <= u64::MAX as nat,
        l2 == ceil_log2(p),
        l2 <= 64,
    ensures
        d / p + 1 + l2 <= u64::MAX as nat,
{
    if p == 1 {
        assert(ceil_log2(1) == 0);
        assert(d / 1 == d) by (nonlinear_arith);
    } else {
        lemma_fundamental_div_mod(d as int, p as int);
        lemma_mod_division_less_than_divisor(d as int, p as int);
        let q = d as int / p as int;
        assert(2 * q <= p as int * q) by (nonlinear_arith)
            requires
                p >= 2,
                q >= 0,
        ;
        assert(q + 65 <= u64::MAX as int);
    }
}

/// How the index-entry count changes from one value to the next.
proof fn lemma_div_mod_pred(i: int, g: int)
    requires
        i >= 1,
        g >= 1,
    ensures
        i % g == 0 ==> (i / g >= 1 && (i - 1) / g == i / g - 1),
        i % g != 0 ==> (i - 1) / g == i / g,
{
    lemma_fundamental_div_mod(i, g);
    lemma_mod_division_less_than_divisor(i, g);
    let q = i / g;
    let r = i % g;
    if r == 0 {
        assert(q >= 1) by (nonlinear_arith)
            requires
                i == g * q + 0,
                i >= 1,
                g >= 1,
        ;
        assert(i - 1 == (q - 1) * g + (g - 1)) by (nonlinear_arith)
            requires
                i == g * q,
        ;
        lemma_fundamental_div_mod_converse_div(i - 1, g, q - 1, g - 1);
    } else {
        assert(i - 1 == q * g + (r - 1)) by (nonlinear_arith)
            requires
                i == g * q + r,
        ;
        lemma_fundamental_div_mod_converse_div(i - 1, g, q, r - 1);
    }
}

/// Removes adjacent duplicates from a sorted vector, leaving a strictly
/// increasing vector with the same members.
fn dedup_sorted(values: &mut Vec<u64>)
    requires
        forall|i: int, j: int|
            0 <= i <= j < old(values)@.len()
                ==> #[trigger] old(values)@[i] <= #[trigger] old(values)@[j],
    ensures
        forall|i: int, j: int|
            0 <= i < j < final(values)@.len()
                ==> #[trigger] final(values)@[i] < #[trigger] final(values)@[j],
        forall|x: u64| #![trigger final(values)@.contains(x)]
            final(values)@.contains(x) <==> old(values)@.contains(x),
{
    let ghost input = values@;
    let mut out: Vec<u64> = Vec::new();
    let mut i: usize = 0;
    while i < values.len()
        invariant
            values@ == input,
            forall|a: int, b: int|
                0 <= a <= b < input.len() ==> #[trigger] input[a] <= #[trigger] input[b],
            i <= input.len(),
            forall|a: int, b: int|
                0 <= a < b < out@.len() ==> #[trigger] out@[a] < #[trigger] out@[b],
            i == 0 ==> out@.len() == 0,
            i > 0 ==> out@.len() >= 1 && out@.last() == input[i - 1],
            forall|x: u64| #![trigger out@.contains(x)]
                out@.contains(x) <==> input.take(i as int).contains(x),
        decreases input.len() - i,
    {
        let v = values[i];
        let ghost prev_out = out@;
        if out.len() == 0 {
            out.push(v);
        } else {
            let last_v = out[out.len() - 1];
            if last_v != v {
                proof {
                    assert(input[i - 1] <= input[i as int]);
                    assert(forall|a: int|
                        0 <= a < prev_out.len() ==> #[trigger] prev_out[a] <= prev_out.last());
                }
                out.push(v);
            }
        }
        proof {
            let tk1 = input.take(i + 1);
            let tk0 = input.take(i as int);
            assert(tk1 =~= tk0.push(input[i as int]));
            assert forall|x: u64| #![trigger out@.contains(x)]
                out@.contains(x) <==> input.take(i + 1).contains(x) by {
                if out@.contains(x) {
                    let a = choose|a: int| 0 <= a < out@.len() && out@[a] == x;
                    if a < prev_out.len() && prev_out[a] == x {
                        assert(prev_out.contains(x));
                        let b = choose|b: int| 0 <= b < tk0.len() && tk0[b] == x;
                        assert(tk1[b] == x);
                        assert(tk1.contains(x));
                    } else {
                        assert(x == v);
                        assert(tk1[i as int] == x);
                        assert(tk1.contains(x));
                    }
                }
                if tk1.contains(x) {
                    let b = choose|b: int| 0 <= b < tk1.len() && tk1[b] == x;
                    if b < i {
                        assert(tk0[b] == x);
                        assert(tk0.contains(x));
                        assert(prev_out.contains(x));
                        let a = choose|a: int| 0 <= a < prev_out.len() && prev_out[a] == x;
                        assert(out@[a] == x);
                        assert(out@.contains(x));
                    } else {
                        assert(x == v);
                        assert(out@.last() == v);
                        assert(out@.contains(x));
                    }
                }
            }
        }
        i = i + 1;
    }
    proof {
        assert(input.take(input.len() as int) =~= input);
    }
    *values = out;
}

/// Reads one Golomb–Rice codeword from the reader's current position,
/// touching no bit at or past `end_bits`.  Returns `None` when the bits run
/// out first or the decoded value exceeds 64 bits.
pub fn golomb_decode(reader: &mut BitReader, p: u64, log2p: u8, end_bits: u64) -> (r: Option<u64>)
    requires
        p >= 1,
        log2p <= 64,
        end_bits as nat <= 8 * old(reader).bytes().len(),
    ensures
        final(reader).bytes() == old(reader).bytes(),
        match spec_decode(
            stream_bits(old(reader).bytes()),
            old(reader).pos() as nat,
            end_bits as nat,
            p,
            log2p as nat,
        ) {
            Some(vp) => {
                &&& (vp.0 > u64::MAX as nat ==> r == None::<u64>)
                &&& (vp.0 <= u64::MAX as nat ==> r == Some(vp.0 as u64) && final(reader).pos()
                    as nat == vp.1 && old(reader).pos() < final(reader).pos() && vp.1 <= end_bits
                    as nat)
            },
            None => r == None::<u64>,
        },
{
    let ghost sbits = stream_bits(old(reader).bytes());
    let ghost start = old(reader).pos() as nat;
    let ghost endn = end_bits as nat;
    let mut q: u64 = 0;
    loop
        invariant_except_break
            p >= 1,
            log2p <= 64,
            endn == end_bits as nat,
            end_bits as nat <= 8 * reader.bytes().len(),
            reader.bytes() == old(reader).bytes(),
            sbits == stream_bits(reader.bytes()),
            start == old(reader).pos() as nat,
            reader.pos() as nat == start + q,
            forall|i: int| start <= i < start + q ==> sbits[i],
        ensures
            reader.bytes() == old(reader).bytes(),
            sbits == stream_bits(reader.bytes()),
            start + q < endn,
            unary_end(sbits, start, endn) == Some((start + q) as nat),
            reader.pos() as nat == start + q + 1,
        decreases end_bits - q,
    {
        let pos = reader.position();
        if pos >= end_bits {
            proof {
                assert(endn <= start + q);
                lemma_unary_end(sbits, start, endn);
                if unary_end(sbits, start, endn) is Some {
                    let z = unary_end(sbits, start, endn)->Some_0;
                    assert(start <= z < endn);
                    assert(!sbits[z as int]);
                    assert(sbits[z as int]);
                    assert(false);
                }
                assert(unary_end(sbits, start, endn) is None);
                assert(spec_decode(sbits, start, endn, p, log2p as nat) is None);
            }
            return None;
        }
        match reader.read_bit() {
            Err(_) => {
                proof {
                    assert(false);
                }
                return None;
            },
            Ok(b) => {
                if b == 0 {
                    proof {
                        lemma_unary_end_of(sbits, start, (start + q) as nat, endn);
                    }
                    break ;
                }
                q = q + 1;
            },
        }
    }
    let ghost z = start + q;
    let pos2 = reader.position();
    if log2p as u64 > end_bits - pos2 {
        return None;
    }
    match reader.read_bits(log2p) {
        Err(_) => {
            proof {
                assert(false);
            }
            None
        },
        Ok(rem) => {
            proof {
                vstd::arithmetic::power2::lemma2_to64_rest();
                crate::model::lemma_bits_val_bound(
                    sbits.subrange((z + 1) as int, (z + 1 + log2p as nat) as int),
                );
            }
            let ghost v = (q as nat) * (p as nat) + (rem as nat);
            proof {
                assert(spec_decode(sbits, start, endn, p, log2p as nat) == Some::<(nat, nat)>(
                    (v, (z + 1 + log2p as nat) as nat),
                ));
            }
            match q.checked_mul(p) {
                None => {
                    proof {
                        assert((q as nat) * (p as nat) > u64::MAX as nat);
                    }
                    None
                },
                Some(qp) => {
                    match qp.checked_add(rem) {
                        None => None,
                        Some(d) => Some(d),
                    }
                },
            }
        },
    }
}

/// Answers membership queries against a Golomb Compressed Set container.
pub struct GCSReader {
    inner: BitReader,
    /// The element count recorded in the footer.
    pub n: u64,
    /// The false-positive parameter recorded in the footer.
    pub p: u64,
    end_of_data: u64,
    index_len: u64,
    index: Vec<(u64, u64)>,
    log2p: u8,
}

impl GCSReader {
    /// Well-formedness: the recorded payload end lies within the data and
    /// bit positions fit in 64 bits.
    pub closed spec fn wf(&self) -> bool {
        self.end_of_data as nat <= self.inner.bytes().len() && 8 * self.inner.bytes().len()
            <= u64::MAX as nat && self.log2p <= 64
    }

    /// The underlying container bytes.
    pub closed spec fn data(&self) -> Seq<u8> {
        self.inner.bytes()
    }

    /// The element count field, as a spec value.
    pub closed spec fn elem_count(&self) -> u64 {
        self.n
    }

    /// The false-positive parameter field, as a spec value.
    pub closed spec fn rate(&self) -> u64 {
        self.p
    }

    /// The payload length in bytes, as parsed from the footer.
    pub closed spec fn data_end(&self) -> u64 {
        self.end_of_data
    }

    /// The in-memory index, including the implicit leading `(0, 0)` entry.
    pub closed spec fn index_entries(&self) -> Seq<(u64, u64)> {
        self.index@
    }

    /// The remainder width in bits.
    pub closed spec fn width(&self) -> nat {
        self.log2p as nat
    }

    /// Wraps an in-memory container.  Nothing is parsed until `initialize`.
    pub fn new(inner: Vec<u8>) -> (r: Self)
        requires
            8 * inner@.len() <= u64::MAX as nat,
        ensures
            r.wf(),
            r.data() == inner@,
            r.elem_count() == 0,
            r.rate() == 0,
            r.data_end() == 0,
            r.index_entries() == Seq::<(u64, u64)>::empty(),
            r.width() == 0,
    {
        let r = Self {
            inner: BitReader::new(inner),
            n: 0,
            p: 0,
            end_of_data: 0,
            index_len: 0,
            index: Vec::new(),
            log2p: 0,
        };
        proof {
            assert(r.index_entries() =~= Seq::<(u64, u64)>::empty());
        }
        r
    }

    /// Parses the footer and loads the index: the last 40 bytes hold `n`,
    /// `p`, the payload end, the index length and the magic; the index is
    /// read at the payload end, with the implicit `(0, 0)` entry prepended.
    pub fn initialize(&mut self) -> (r: Result<(), GcsError>)
        requires
            old(self).wf(),
        ensures
            final(self).wf(),
            final(self).data() == old(self).data(),
            match r {
                Ok(()) => {
                    let data = old(self).data();
                    &&& data.len() >= 40
                    &&& magic_ok(data)
                    &&& footer_end(data) + 16 * footer_index_len(data) <= data.len()
                    &&& final(self).elem_count() as nat == footer_n(data)
                    &&& final(self).rate() as nat == footer_p(data)
                    &&& final(self).data_end() as nat == footer_end(data)
                    &&& final(self).width() == ceil_log2(footer_p(data))
                    &&& final(self).index_entries() == seq![(0u64, 0u64)] + index_pairs(
                        data,
                        footer_end(data),
                        footer_index_len(data),
                    )
                },
                Err(e) => {
                    let data = old(self).data();
                    &&& *final(self) == *old(self)
                    &&& (e == GcsError::BadMagic <==> data.len() >= 40 && !magic_ok(data))
                    &&& (e == GcsError::UnexpectedEof <==> data.len() < 40 || (magic_ok(data)
                        && footer_end(data) + 16 * footer_index_len(data) > data.len()))
                    &&& (e == GcsError::BadMagic || e == GcsError::UnexpectedEof)
                },
            },
    {
        let ghost data = self.data();
        let len: usize = self.inner.get_ref().len();
        if len < 40 {
            return Err(GcsError::UnexpectedEof);
        }
        let n = read_u64_be(self.inner.get_ref(), len - 40);
        let p = read_u64_be(self.inner.get_ref(), len - 32);
        let eod = read_u64_be(self.inner.get_ref(), len - 24);
        let il = read_u64_be(self.inner.get_ref(), len - 16);
        let magic_good = check_magic(self.inner.get_ref());
        if !magic_good {
            return Err(GcsError::BadMagic);
        }
        let total: u64 = match il.checked_mul(16) {
            Some(sz) => {
                match eod.checked_add(sz) {
                    Some(t) => t,
                    None => {
                        return Err(GcsError::UnexpectedEof);
                    },
                }
            },
            None => {
                proof {
                    assert(16 * footer_index_len(data) > u64::MAX as nat);
                }
                return Err(GcsError::UnexpectedEof);
            },
        };
        if total > len as u64 {
            return Err(GcsError::UnexpectedEof);
        }
        let log2p: u8 = if p == 0 {
            0
        } else {
            ceil_log2_exec(p)
        };
        let mut idx: Vec<(u64, u64)> = Vec::new();
        idx.push((0, 0));
        let ilu: usize = il as usize;
        let eodu: usize = eod as usize;
        let mut k: usize = 0;
        proof {
            assert(idx@ =~= seq![(0u64, 0u64)] + index_pairs(data, eod as nat, 0));
        }
        while k < ilu
            invariant
                self.data() == data,
                self.inner.bytes() == data,
                ilu == il,
                eodu == eod,
                eod as nat + 16 * il as nat <= data.len(),
                data.len() <= usize::MAX as nat,
                k <= ilu,
                idx@ == seq![(0u64, 0u64)] + index_pairs(data, eod as nat, k as nat),
            decreases ilu - k,
        {
            let off: usize = eodu + 16 * k;
            let v = read_u64_be(self.inner.get_ref(), off);
            let pos = read_u64_be(self.inner.get_ref(), off + 8);
            idx.push((v, pos));
            proof {
                let pairs1 = index_pairs(data, eod as nat, (k + 1) as nat);
                let pairs0 = index_pairs(data, eod as nat, k as nat);
                assert(pairs1 =~= pairs0.push(pairs1[k as int]));
                assert(pairs1[k as int] == (v, pos));
                assert(idx@ =~= seq![(0u64, 0u64)] + pairs1);
            }
            k = k + 1;
        }
        self.n = n;
        self.p = p;
        self.end_of_data = eod;
        self.index_len = il;
        self.log2p = log2p;
        self.index = idx;
        proof {
            if p == 0 {
                assert(ceil_log2(0) == 0);
            }
        }
        Ok(())
    }

    /// Answers whether `target`, reduced modulo `n * p`, is in the set.
    /// On any container that well-formedly encodes a value sequence, the
    /// answer is exact: found if and only if the reduced target is zero or
    /// among the encoded values.
    pub fn lookup(&mut self, target: u64) -> (r: Result<bool, GcsError>)
        requires
            old(self).wf(),
        ensures
            final(self).wf(),
            final(self).data() == old(self).data(),
            final(self).elem_count() == old(self).elem_count(),
            final(self).rate() == old(self).rate(),
            final(self).data_end() == old(self).data_end(),
            final(self).index_entries() == old(self).index_entries(),
            final(self).width() == old(self).width(),
            forall|vs: Seq<u64>|
                gcs_wf(
                    old(self).data(),
                    old(self).elem_count(),
                    old(self).rate(),
                    old(self).width(),
                    old(self).data_end(),
                    old(self).index_entries(),
                    vs,
                ) ==> r == Ok::<bool, GcsError>(
                    spec_member(old(self).elem_count(), old(self).rate(), vs, target),
                ),
    {
        let ghost data = self.data();
        let ghost widx = self.index@;
        let ghost wn = self.n;
        let ghost wp = self.p;
        let ghost weod = self.end_of_data;
        let ghost wl2 = self.width();
        let np: u64 = match self.n.checked_mul(self.p) {
            Some(x) => x,
            None => {
                return Ok(false);
            },
        };
        if np == 0 {
            return Ok(false);
        }
        let h: u64 = target % np;
        let ghost sortedidx = forall|k: int, l: int|
            0 <= k < l < widx.len() ==> (#[trigger] widx[k]).0 < (#[trigger] widx[l]).0;
        if self.index.len() == 0 {
            proof {
                assert forall|vs: Seq<u64>|
                    gcs_wf(data, wn, wp, wl2, weod, widx, vs) implies false by {}
            }
            return Ok(false);
        }
        let mut lo: usize = 0;
        let mut hi: usize = self.index.len();
        while lo < hi
            invariant
                widx == self.index@,
                lo <= hi <= widx.len(),
                sortedidx == (forall|k: int, l: int|
                    0 <= k < l < widx.len() ==> (#[trigger] widx[k]).0 < (#[trigger] widx[l]).0),
                sortedidx ==> forall|k: int| 0 <= k < lo ==> (#[trigger] widx[k]).0 < h,
                sortedidx ==> forall|k: int| hi <= k < widx.len() ==> (#[trigger] widx[k]).0 >= h,
            decreases hi - lo,
        {
            let mid: usize = lo + (hi - lo) / 2;
            if self.index[mid].0 < h {
                proof {
                    if sortedidx {
                        assert forall|k: int| 0 <= k < mid + 1 implies (#[trigger] widx[k]).0
                            < h by {
                            if k < mid {
                                assert(widx[k].0 < widx[mid as int].0);
                            }
                        }
                    }
                }
                lo = mid + 1;
            } else {
                proof {
                    if sortedidx {
                        assert forall|k: int| mid <= k < widx.len() implies (#[trigger] widx[k]).0
                            >= h by {
                            if k > mid {
                                assert(widx[mid as int].0 < widx[k].0);
                            }
                        }
                    }
                }
                hi = mid;
            }
        }
        if lo < self.index.len() && self.index[lo].0 == h {
            proof {
                assert forall|vs: Seq<u64>|
                    gcs_wf(data, wn, wp, wl2, weod, widx, vs) implies Ok::<bool, GcsError>(true)
                    == Ok::<bool, GcsError>(spec_member(wn, wp, vs, target)) by {
                    if lo == 0 {
                        assert(widx[0].0 == 0);
                        assert(h == 0);
                    } else {
                        let i = choose|i: int|
                            0 <= i < vs.len() && (#[trigger] widx[lo as int]).0 == vs[i]
                                && widx[lo as int].1 == stream_len(
                                vs.take(i + 1),
                                wp,
                                wl2,
                            ) as u64;
                        assert(vs[i] == h);
                        assert(vs.contains(h));
                    }
                }
            }
            return Ok(true);
        }
        let e: (u64, u64) = if lo == 0 {
            self.index[0]
        } else {
            self.index[lo - 1]
        };
        let ghost bits = stream_bits(data);
        let end_bits: u64 = self.end_of_data * 8;
        let ghost scan0 = spec_scan(bits, e.1 as nat, end_bits as nat, e.0 as int, h, wp, wl2);
        proof {
            assert forall|vs: Seq<u64>| #![trigger gcs_wf(data, wn, wp, wl2, weod, widx, vs)]
                gcs_wf(data, wn, wp, wl2, weod, widx, vs) implies scan0 == spec_member(
                wn,
                wp,
                vs,
                target,
            ) && e.1 <= end_bits by {
                let whole = delta_stream(vs, 0, wp, wl2);
                assert(widx[0].0 == 0);
                assert(lo >= 1) by {
                    if lo == 0 {
                        assert(widx[0].0 >= h && widx[0].0 != h);
                    }
                }
                assert(h >= 1) by {
                    assert(widx[0].0 < h);
                }
                let k = lo - 1;
                assert(widx[k].0 < h);
                lemma_ceil_log2(wp as nat);
                if k == 0 {
                    assert(e == (0u64, 0u64));
                    assert(vs.take(0) =~= Seq::<u64>::empty());
                    lemma_scan_reaches(bits, vs, -1, end_bits as nat, h, wp, wl2);
                    assert(vs.skip(0) =~= vs);
                    assert(scan0 == vs.contains(h));
                } else {
                    let i = choose|i: int|
                        0 <= i < vs.len() && (#[trigger] widx[k]).0 == vs[i] && widx[k].1
                            == stream_len(vs.take(i + 1), wp, wl2) as u64;
                    lemma_stream_len_take_le(vs, wp, wl2, i + 1);
                    assert(stream_len(vs.take(i + 1), wp, wl2) <= whole.len());
                    assert(whole.len() <= 8 * weod);
                    assert(e.1 as nat == stream_len(vs.take(i + 1), wp, wl2));
                    assert(e.1 <= end_bits);
                    lemma_scan_reaches(bits, vs, i, end_bits as nat, h, wp, wl2);
                    assert(scan0 == vs.skip(i + 1).contains(h));
                    assert(vs.skip(i + 1).contains(h) == vs.contains(h)) by {
                        let tail = vs.skip(i + 1);
                        if tail.contains(h) {
                            let m = choose|m: int| 0 <= m < tail.len() && tail[m] == h;
                            assert(vs[i + 1 + m] == h);
                            assert(vs.contains(h));
                        }
                        if vs.contains(h) {
                            let m = choose|m: int| 0 <= m < vs.len() && vs[m] == h;
                            assert(m > i) by {
                                if m < i {
                                    assert(vs[m] < vs[i]);
                                }
                            }
                            assert(tail[m - i - 1] == h);
                            assert(tail.contains(h));
                        }
                    }
                }
            }
        }
        let mut last: u64 = e.0;
        match self.inner.seek(e.1) {
            Ok(_) => {},
            Err(_) => {
                proof {
                    assert forall|vs: Seq<u64>|
                        gcs_wf(data, wn, wp, wl2, weod, widx, vs) implies false by {
                        assert(scan0 == spec_member(wn, wp, vs, target) && e.1 <= end_bits);
                        assert(e.1 > 8 * data.len());
                    }
                }
                return Err(GcsError::UnexpectedEof);
            },
        }
        let ghost member_eq = forall|vs: Seq<u64>| #![trigger gcs_wf(data, wn, wp, wl2, weod, widx, vs)]
            gcs_wf(data, wn, wp, wl2, weod, widx, vs) ==> scan0 == spec_member(wn, wp, vs, target);
        if e.1 > end_bits {
            proof {
                assert forall|vs: Seq<u64>|
                    gcs_wf(data, wn, wp, wl2, weod, widx, vs) implies false by {
                    assert(scan0 == spec_member(wn, wp, vs, target) && e.1 <= end_bits);
                }
            }
            return Ok(false);
        }
        while last < h
            invariant
                self.wf(),
                self.data() == data,
                self.inner.bytes() == data,
                data == old(self).data(),
                wn == old(self).elem_count(),
                wp == old(self).rate(),
                weod == old(self).data_end(),
                widx == old(self).index_entries(),
                wl2 == old(self).width(),
                bits == stream_bits(data),
                widx == self.index@,
                wn == self.n,
                wp == self.p,
                weod == self.end_of_data,
                wl2 == self.width(),
                wp >= 1,
                self.log2p <= 64,
                end_bits == weod * 8,
                end_bits as nat <= 8 * data.len(),
                self.inner.pos() <= end_bits,
                member_eq == (forall|vs: Seq<u64>|
                    #![trigger gcs_wf(data, wn, wp, wl2, weod, widx, vs)]
                    gcs_wf(data, wn, wp, wl2, weod, widx, vs) ==> scan0 == spec_member(
                        wn,
                        wp,
                        vs,
                        target,
                    )),
                member_eq,
                spec_scan(
                    bits,
                    self.inner.pos() as nat,
                    end_bits as nat,
                    last as int,
                    h,
                    wp,
                    wl2,
                ) == scan0,
            decreases 8 * self.inner.bytes().len() - self.inner.pos(),
        {
            let pos = self.inner.position();
            if pos >= end_bits {
                proof {
                    lemma_unary_end(bits, pos as nat, end_bits as nat);
                    assert(!scan0);
                }
                return Ok(false);
            }
            let ghost pre_pos = self.inner.pos() as nat;
            match golomb_decode(&mut self.inner, self.p, self.log2p, end_bits) {
                None => {
                    proof {
                        match spec_decode(bits, pre_pos, end_bits as nat, wp, wl2) {
                            Some(vp) => {
                                assert(vp.0 > u64::MAX as nat);
                                assert(!spec_scan(
                                    bits,
                                    vp.1,
                                    end_bits as nat,
                                    last as int + vp.0,
                                    h,
                                    wp,
                                    wl2,
                                ));
                            },
                            None => {},
                        }
                        assert(!scan0);
                    }
                    return Ok(false);
                },
                Some(d) => {
                    match last.checked_add(d) {
                        Some(nl) => {
                            last = nl;
                        },
                        None => {
                            proof {
                                let vp = spec_decode(
                                    bits,
                                    pre_pos,
                                    end_bits as nat,
                                    wp,
                                    wl2,
                                )->Some_0;
                                assert(!spec_scan(
                                    bits,
                                    vp.1,
                                    end_bits as nat,
                                    last as int + vp.0,
                                    h,
                                    wp,
                                    wl2,
                                ));
                                assert(!scan0);
                            }
                            return Ok(false);
                        },
                    }
                },
            }
        }
        let res = last == h;
        proof {
            assert(spec_scan(
                bits,
                self.inner.pos() as nat,
                end_bits as nat,
                last as int,
                h,
                wp,
                wl2,
            ) == res);
        }
        Ok(res)
    }
}

/// Compares the last eight bytes of a container against the magic.
fn check_magic(data: &Vec<u8>) -> (r: bool)
    requires
        data@.len() >= 40,
    ensures
        r == magic_ok(data@),
{
    let len = data.len();
    let ok = data[len - 8] == 91 && data[len - 7] == 71 && data[len - 6] == 67 && data[len - 5]
        == 83 && data[len - 4] == 58 && data[len - 3] == 118 && data[len - 2] == 48 && data[len
        - 1] == 93;
    proof {
        let sub = data@.subrange(data@.len() - 8, data@.len() as int);
        if ok {
            assert(sub =~= magic_bytes());
        } else {
            assert(sub != magic_bytes()) by {
                if sub == magic_bytes() {
                    assert(sub[0] == 91 && sub[1] == 71 && sub[2] == 67 && sub[3] == 83 && sub[4]
                        == 58 && sub[5] == 118 && sub[6] == 48 && sub[7] == 93);
                }
            }
        }
    }
    ok
}

/// Accumulates hashes and, on `finish`, writes them out as a Golomb
/// Compressed Set container.
pub struct GCSBuilder {
    n: u64,
    p: u64,
    index_granularity: u64,
    values: Vec<u64>,
}

impl GCSBuilder {
    /// Well-formedness: parameters are in range and `n * p` fits in 64 bits.
    pub closed spec fn wf(&self) -> bool {
        self.p >= 1 && self.index_granularity >= 1 && (self.n as nat) * (self.p as nat)
            <= u64::MAX as nat
    }

    /// The hashes added so far.
    pub closed spec fn hashes(&self) -> Seq<u64> {
        self.values@
    }

    /// The declared element count `n`.
    pub closed spec fn decl_n(&self) -> u64 {
        self.n
    }

    /// The false-positive parameter `p`.
    pub closed spec fn fp_param(&self) -> u64 {
        self.p
    }

    /// The index granularity `g`.
    pub closed spec fn granularity(&self) -> u64 {
        self.index_granularity
    }

    /// Creates a builder for `n` declared elements with false-positive rate
    /// `1 / p` and an index checkpoint every `index_granularity` values.
    pub fn new(n: u64, p: u64, index_granularity: u64) -> (r: Result<Self, GcsError>)
        ensures
            match r {
                Ok(b) => {
                    &&& b.wf()
                    &&& b.decl_n() == n
                    &&& b.fp_param() == p
                    &&& b.granularity() == index_granularity
                    &&& b.hashes() == Seq::<u64>::empty()
                },
                Err(e) => {
                    &&& (e == GcsError::Overflow <==> (n as nat) * (p as nat) > u64::MAX as nat)
                    &&& (e == GcsError::InvalidParameter <==> (n as nat) * (p as nat)
                        <= u64::MAX as nat && (p == 0 || index_granularity == 0))
                    &&& (e == GcsError::Overflow || e == GcsError::InvalidParameter)
                },
            },
            r.is_ok() <==> ((n as nat) * (p as nat) <= u64::MAX as nat && p >= 1
                && index_granularity >= 1),
    {
        match n.checked_mul(p) {
            Some(_) => {
                if p == 0 || index_granularity == 0 {
                    Err(GcsError::InvalidParameter)
                } else {
                    Ok(Self { n, p, index_granularity, values: Vec::new() })
                }
            },
            None => Err(GcsError::Overflow),
        }
    }

    /// Consumes the builder and produces the container bytes: the hashes
    /// reduced modulo `n * p`, sorted, deduplicated, delta-encoded in
    /// Golomb–Rice form, padded to a byte boundary, followed by the index
    /// section and the footer.  Fails only when the payload would outgrow
    /// 64-bit bit offsets.
    #[verifier::rlimit(90)]
    pub fn finish(self) -> (r: Result<Vec<u8>, GcsError>)
        requires
            self.wf(),
        ensures
            match r {
                Ok(out) => {
                    &&& payload_fits(self.hashes(), self.decl_n(), self.fp_param())
                    &&& out@ == build_bytes(
                        self.hashes(),
                        self.decl_n(),
                        self.fp_param(),
                        self.granularity(),
                    )
                },
                Err(e) => {
                    &&& e == GcsError::Overflow
                    &&& !payload_fits(self.hashes(), self.decl_n(), self.fp_param())
                },
            },
    {
        let GCSBuilder { n, p, index_granularity: g, mut values } = self;
        let ghost orig = values@;
        let np: u64 = n * p;
        let log2p: u8 = ceil_log2_exec(p);
        let ghost l2 = log2p as nat;
        if np == 0 {
            values = Vec::new();
        } else {
            par_reduce_mod(&mut values, np);
        }
        let ghost v1 = values@;
        par_sort(&mut values);
        let ghost v2 = values@;
        dedup_sorted(&mut values);
        let ghost vs = values@;
        proof {
            broadcast use vstd::seq_lib::group_to_multiset_ensures;

            assert forall|x: u64| v2.contains(x) <==> v1.contains(x) by {
                assert(v2.to_multiset().count(x) == v1.to_multiset().count(x));
            }
            if np == 0 {
                assert(v1 =~= Seq::<u64>::empty());
                assert(vs.len() == 0 ==> vs =~= Seq::<u64>::empty());
                if vs.len() > 0 {
                    assert(vs.contains(vs[0]));
                    assert(v1.contains(vs[0]));
                }
                assert(vs =~= encoded_values(orig, n, p));
            } else {
                let f = |v: u64| ((v as nat) % (np as nat)) as u64;
                assert(v1 =~= orig.map_values(f));
                let s = reduced_set(orig, np);
                lemma_ordered_of_props(s, np as nat);
                let ord = ordered_of(s, np as nat);
                assert forall|x: u64| vs.contains(x) <==> ord.contains(x) by {
                    assert(vs.contains(x) <==> v1.contains(x));
                    assert(s.contains(x) <==> v1.contains(x));
                    if v1.contains(x) {
                        let i = choose|i: int| 0 <= i < v1.len() && v1[i] == x;
                        lemma_mod_division_less_than_divisor(orig[i] as int, np as int);
                        assert((x as nat) < np as nat);
                    }
                    assert(ord.contains(x) <==> (s.contains(x) && (x as nat) < np as nat));
                }
                lemma_inc_same_set(vs, ord);
                assert(vs =~= encoded_values(orig, n, p));
            }
        }
        let cap: usize = values.len();
        let mut encoder = GolombEncoder::new(Vec::new(), p);
        let mut index: Vec<(u64, u64)> = Vec::new();
        let mut last: u64 = 0;
        let mut total_bits: u64 = 0;
        let mut i: usize = 0;
        let ghost cps = checkpoints(vs, p, l2, g);
        proof {
            assert(vs.take(0) =~= Seq::<u64>::empty());
            assert(encoder.bits() =~= delta_stream(vs.take(0), 0, p, l2));
            assert(index@ =~= cps.take(0));
        }
        while i < cap
            invariant
                cap == vs.len(),
                values@ == vs,
                orig == self.hashes(),
                n == self.decl_n(),
                p == self.fp_param(),
                g == self.granularity(),
                vs == encoded_values(orig, n, p),
                p >= 1,
                g >= 1,
                np == n as nat * p as nat,
                np <= u64::MAX,
                l2 == ceil_log2(p as nat),
                l2 <= 64,
                forall|a: int, b: int| 0 <= a < b < vs.len() ==> vs[a] < vs[b],
                forall|a: int| 0 <= a < vs.len() ==> ((#[trigger] vs[a]) as nat) < np as nat,
                encoder.wf(),
                encoder.param() == p,
                encoder.width() == l2,
                i <= cap,
                last == (if i == 0 {
                    0u64
                } else {
                    vs[i - 1]
                }),
                encoder.bits() == delta_stream(vs.take(i as int), 0, p, l2),
                total_bits as nat == stream_len(vs.take(i as int), p, l2),
                cps == checkpoints(vs, p, l2, g),
                index@ == cps.take(
                    if i == 0 {
                        0int
                    } else {
                        (i - 1) as int / g as int
                    },
                ),
            decreases cap - i,
        {
            let v = values[i];
            proof {
                if i > 0 {
                    assert(vs[i - 1] < vs[i as int]);
                }
            }
            let diff: u64 = v - last;
            proof {
                lemma_encode_fits(diff as nat, p as nat, np as nat, l2);
            }
            let bits_written = encoder.encode(diff);
            let ghost tk1 = vs.take(i + 1);
            proof {
                lemma_delta_stream_snoc(tk1, 0, p, l2);
                assert(tk1.drop_last() =~= vs.take(i as int));
                assert(tk1.last() == vs[i as int]);
                if i > 0 {
                    assert(tk1[i - 1] == vs[i - 1]);
                }
                assert(delta_stream(tk1, 0, p, l2) == delta_stream(vs.take(i as int), 0, p, l2)
                    + golomb_code(p, l2, diff as nat));
                assert(golomb_code(p, l2, diff as nat).len() == (diff as nat) / (p as nat) + 1
                    + l2);
            }
            total_bits = match total_bits.checked_add(bits_written) {
                Some(t) => t,
                None => {
                    proof {
                        lemma_stream_len_take_le(vs, p, l2, i + 1);
                    }
                    return Err(GcsError::Overflow);
                },
            };
            last = v;
            if i > 0 && (i as u64) % g == 0 {
                index.push((v, total_bits));
                proof {
                    let gi = g as int;
                    let k = i as int / gi;
                    lemma_div_mod_pred(i as int, gi);
                    assert(k >= 1);
                    assert((i - 1) as int / gi == k - 1);
                    assert(i as int <= vs.len() - 1);
                    lemma_div_is_ordered(i as int, vs.len() - 1, gi);
                    assert(k <= cps.len());
                    assert((k - 1 + 1) * gi == i as int) by (nonlinear_arith)
                        requires
                            k == i as int / gi,
                            i as int % gi == 0,
                            gi >= 1,
                        ;
                    assert(cps[k - 1] == (vs[i as int], stream_len(vs.take(i + 1), p, l2) as u64));
                    assert(cps.take(k) =~= cps.take(k - 1).push(cps[k - 1]));
                }
            } else {
                proof {
                    if i > 0 {
                        let gi = g as int;
                        lemma_div_mod_pred(i as int, gi);
                        assert(i as int / gi == (i - 1) as int / gi);
                    }
                }
            }
            i = i + 1;
        }
        proof {
            assert(vs.take(cap as int) =~= vs);
            if cap > 0 {
                assert(cps.len() == (cap - 1) as int / g as int);
            }
            assert(index@ =~= cps);
        }
        if total_bits > u64::MAX - 7 {
            return Err(GcsError::Overflow);
        }
        let ghost payload_bits = delta_stream(vs, 0, p, l2);
        let padding: usize = encoder.finish();
        let end_of_data_bits: u64 = total_bits + padding as u64;
        let end_of_data: u64 = end_of_data_bits / 8;
        let ghost pad = ((8 - payload_bits.len() % 8) % 8) as nat;
        let ghost padded = payload_bits + val_bits(pad, 0);
        let mut out = encoder.into_inner();
        proof {
            assert(stream_bits(out@) == padded);
            assert(padded.len() % 8 == 0);
            crate::model::lemma_stream_of_bits_bytes(padded);
            assert(bits_bytes(padded).len() * 8 == padded.len()) by (nonlinear_arith)
                requires
                    padded.len() % 8 == 0,
                    bits_bytes(padded).len() == padded.len() as int / 8,
            ;
            crate::model::lemma_stream_bits_injective(out@, bits_bytes(padded));
            assert(out@ == bits_bytes(padded));
            lemma_fundamental_div_mod_converse_div(
                end_of_data_bits as int,
                8,
                out@.len() as int,
                0,
            );
            assert(out@.len() as int == end_of_data as int);
        }
        let ghost payload = out@;
        let mut k: usize = 0;
        proof {
            assert(index@.take(0) =~= Seq::<(u64, u64)>::empty());
            assert(out@ =~= payload + flatten_pairs(index@.take(0)));
        }
        while k < index.len()
            invariant
                index@ == cps,
                k <= index@.len(),
                out@ == payload + flatten_pairs(index@.take(k as int)),
            decreases index@.len() - k,
        {
            let e = index[k];
            push_u64_be(&mut out, e.0);
            push_u64_be(&mut out, e.1);
            proof {
                let tk1 = index@.take(k + 1);
                assert(tk1.drop_last() =~= index@.take(k as int));
                assert(tk1.last() == index@[k as int]);
                assert(flatten_pairs(tk1) == flatten_pairs(index@.take(k as int)) + be_bytes(
                    index@[k as int].0,
                ) + be_bytes(index@[k as int].1));
                assert(out@ =~= payload + flatten_pairs(tk1));
            }
            k = k + 1;
        }
        proof {
            assert(index@.take(index@.len() as int) =~= index@);
        }
        let index_len: u64 = index.len() as u64;
        push_u64_be(&mut out, n);
        push_u64_be(&mut out, p);
        push_u64_be(&mut out, end_of_data);
        push_u64_be(&mut out, index_len);
        let ghost before_magic = out@;
        out.push(91);
        out.push(71);
        out.push(67);
        out.push(83);
        out.push(58);
        out.push(118);
        out.push(48);
        out.push(93);
        proof {
            assert(out@ =~= before_magic + magic_bytes());
            assert(payload.len() as u64 == end_of_data);
            assert(out@ =~= payload + flatten_pairs(cps) + be_bytes(n) + be_bytes(p) + be_bytes(
                payload.len() as u64,
            ) + be_bytes(cps.len() as u64) + magic_bytes());
            assert(out@ == build_bytes(orig, n, p, g));
        }
        Ok(out)
    }

    /// Adds one hash to the set.
    pub fn add(&mut self, value: u64)
        ensures
            final(self).wf() == old(self).wf(),
            final(self).decl_n() == old(self).decl_n(),
            final(self).fp_param() == old(self).fp_param(),
            final(self).granularity() == old(self).granularity(),
            final(self).hashes() == old(self).hashes().push(value),
    {
        self.values.push(value);
    }
}

} // verus!
