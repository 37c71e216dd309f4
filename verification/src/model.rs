//! The mathematical model of the container: bit strings, byte streams,
//! big-endian fields, Golomb–Rice codewords, and the layout of a built file.

use vstd::arithmetic::div_mod::{lemma_div_denominator, lemma_fundamental_div_mod, lemma_mod_division_less_than_divisor};
use vstd::arithmetic::power2::{lemma2_to64, lemma2_to64_rest, lemma_pow2_adds, lemma_pow2_pos, pow2};
use vstd::prelude::*;

verus! {

/// True when bit `k` (counting from the least significant end) of `v` is set.
pub open spec fn nth_bit(v: nat, k: nat) -> bool {
    (v / pow2(k)) % 2 == 1
}

/// The low `n` bits of `v`, most significant bit first.
pub open spec fn val_bits(n: nat, v: nat) -> Seq<bool> {
    Seq::new(n, |i: int| nth_bit(v, (n - 1 - i) as nat))
}

/// The number denoted by a bit string, most significant bit first.
pub open spec fn bits_val(s: Seq<bool>) -> nat
    decreases s.len(),
{
    if s.len() == 0 {
        0
    } else {
        2 * bits_val(s.drop_last()) + (if s.last() {
            1nat
        } else {
            0nat
        })
    }
}

/// The bits of a byte stream, each byte most significant bit first.
pub open spec fn stream_bits(bytes: Seq<u8>) -> Seq<bool> {
    Seq::new(bytes.len() * 8, |i: int| nth_bit(bytes[i / 8] as nat, (7 - i % 8) as nat))
}

/// Packs a bit string whose length is a multiple of 8 into bytes.
pub open spec fn bits_bytes(s: Seq<bool>) -> Seq<u8> {
    Seq::new(s.len() / 8, |i: int| bits_val(s.subrange(8 * i, 8 * i + 8)) as u8)
}

/// Splitting off the low digit of a value modulo `d * m`.
proof fn lemma_mod_split(v: nat, d: nat, m: nat)
    requires
        d >= 1,
        m >= 1,
    ensures
        d * ((v / d) % m) + v % d == v % (d * m),
{
    let q: nat = v / d;
    assert(d * m >= 1) by (nonlinear_arith)
        requires
            d >= 1,
            m >= 1,
    ;
    lemma_fundamental_div_mod(v as int, d as int);
    lemma_fundamental_div_mod(q as int, m as int);
    lemma_fundamental_div_mod(v as int, (d * m) as int);
    lemma_div_denominator(v as int, d as int, m as int);
    assert(d * ((v / d) % m) + v % d == v % (d * m)) by (nonlinear_arith)
        requires
            d >= 1,
            m >= 1,
            q == v / d,
            v == d * q + v % d,
            q == m * (q / m) + q % m,
            v == (d * m) * (v / (d * m)) + v % (d * m),
            v / (d * m) == q / m,
            v % d < d,
            q % m < m,
            v % (d * m) < d * m,
    ;
}

/// Bit `k + 1` of `v` is bit `k` of `v / 2`.
proof fn lemma_nth_bit_shift(v: nat, k: nat)
    ensures
        nth_bit(v, k + 1) == nth_bit(v / 2, k),
{
    lemma_pow2_adds(1, k);
    lemma2_to64();
    lemma_pow2_pos(k);
    lemma_div_denominator(v as int, 2, pow2(k) as int);
}

/// Dropping the last (least significant) bit of `val_bits` halves the value.
proof fn lemma_val_bits_drop_last(n: nat, v: nat)
    requires
        n >= 1,
    ensures
        val_bits(n, v).drop_last() =~= val_bits((n - 1) as nat, v / 2),
{
    assert forall|i: int| 0 <= i < n - 1 implies val_bits(n, v).drop_last()[i] == val_bits(
        (n - 1) as nat,
        v / 2,
    )[i] by {
        lemma_nth_bit_shift(v, (n - 2 - i) as nat);
    }
}

/// A bit string of length `n` denotes a value below `pow2(n)`.
pub proof fn lemma_bits_val_bound(s: Seq<bool>)
    ensures
        bits_val(s) < pow2(s.len()),
    decreases s.len(),
{
    if s.len() == 0 {
        lemma2_to64();
    } else {
        lemma_bits_val_bound(s.drop_last());
        lemma_pow2_adds((s.len() - 1) as nat, 1);
        lemma2_to64();
    }
}

/// Reading back the low `n` bits of a value yields the value modulo `pow2(n)`.
pub proof fn lemma_bits_val_of_val_bits(n: nat, v: nat)
    ensures
        bits_val(val_bits(n, v)) == v % pow2(n),
    decreases n,
{
    lemma2_to64();
    if n == 0 {
        assert(val_bits(0, v).len() == 0);
        assert(v % 1 == 0);
    } else {
        lemma_val_bits_drop_last(n, v);
        lemma_bits_val_of_val_bits((n - 1) as nat, v / 2);
        let s = val_bits(n, v);
        assert(s.last() == nth_bit(v, 0));
        assert(pow2(0) == 1);
        assert(v / pow2(0) == v);
        assert(s.last() == (v % 2 == 1));
        assert(bits_val(s) == 2 * ((v / 2) % pow2((n - 1) as nat)) + v % 2);
        lemma_pow2_pos((n - 1) as nat);
        lemma_mod_split(v, 2, pow2((n - 1) as nat));
        lemma_pow2_adds(1, (n - 1) as nat);
    }
}

/// The round trip on bits: a value below `pow2(n)`, written as its `n`-bit
/// string most significant bit first, is read back unchanged.
pub proof fn lemma_bits_round_trip(n: nat, v: nat)
    requires
        v < pow2(n),
    ensures
        bits_val(val_bits(n, v)) == v,
{
    lemma_bits_val_of_val_bits(n, v);
    vstd::arithmetic::div_mod::lemma_small_mod(v, pow2(n));
}

/// A bit string is recovered from its own value.
pub proof fn lemma_val_bits_of_bits_val(s: Seq<bool>)
    ensures
        val_bits(s.len(), bits_val(s)) =~= s,
    decreases s.len(),
{
    if s.len() > 0 {
        let n = s.len();
        let v = bits_val(s);
        let a = bits_val(s.drop_last());
        lemma_val_bits_of_bits_val(s.drop_last());
        assert(v / 2 == a && v % 2 == (if s.last() {
            1nat
        } else {
            0nat
        })) by (nonlinear_arith)
            requires
                v == 2 * a + (if s.last() {
                    1nat
                } else {
                    0nat
                }),
        ;
        lemma_val_bits_drop_last(n, v);
        lemma2_to64();
        assert(val_bits(n, v).last() == nth_bit(v, 0));
        assert(v / pow2(0) == v);
        assert(val_bits(n, v).drop_last() =~= s.drop_last());
        assert(val_bits(n, v) =~= val_bits(n, v).drop_last().push(val_bits(n, v).last()));
    }
}

/// Appending one low bit extends the bit string of a value by one.
pub proof fn lemma_val_bits_push(k: nat, b: nat, bit: nat)
    requires
        bit <= 1,
    ensures
        val_bits(k + 1, 2 * b + bit) =~= val_bits(k, b).push(bit == 1),
{
    let v: nat = 2 * b + bit;
    assert(v / 2 == b && v % 2 == bit) by (nonlinear_arith)
        requires
            v == 2 * b + bit,
            bit <= 1,
    ;
    lemma_val_bits_drop_last(k + 1, v);
    lemma2_to64();
    assert(val_bits(k + 1, v).last() == nth_bit(v, 0));
    assert(v / pow2(0) == v);
    assert(val_bits(k + 1, v).drop_last() =~= val_bits(k, b));
    assert(val_bits(k + 1, v) =~= val_bits(k + 1, v).drop_last().push(val_bits(k + 1, v).last()));
}

/// Appending one byte to a stream appends its eight bits.
pub proof fn lemma_stream_bits_push(bytes: Seq<u8>, b: u8)
    ensures
        stream_bits(bytes.push(b)) =~= stream_bits(bytes) + val_bits(8, b as nat),
{
    let l = bytes.len() as int;
    assert forall|i: int| 0 <= i < (l + 1) * 8 implies stream_bits(bytes.push(b))[i] == (
    stream_bits(bytes) + val_bits(8, b as nat))[i] by {
        if i < l * 8 {
            assert(i / 8 < l) by (nonlinear_arith)
                requires
                    0 <= i < l * 8,
            ;
            assert(bytes.push(b)[i / 8] == bytes[i / 8]);
        } else {
            let j = i - l * 8;
            assert(i / 8 == l && i % 8 == j) by (nonlinear_arith)
                requires
                    l * 8 <= i < (l + 1) * 8,
                    j == i - l * 8,
            ;
            assert(bytes.push(b)[l] == b);
        }
    }
}

/// Concatenating two byte streams concatenates their bits.
pub proof fn lemma_stream_bits_add(a: Seq<u8>, b: Seq<u8>)
    ensures
        stream_bits(a + b) =~= stream_bits(a) + stream_bits(b),
{
    let la = a.len() as int;
    let lb = b.len() as int;
    assert forall|i: int| 0 <= i < (la + lb) * 8 implies stream_bits(a + b)[i] == (stream_bits(a)
        + stream_bits(b))[i] by {
        if i < la * 8 {
            assert(i / 8 < la) by (nonlinear_arith)
                requires
                    0 <= i < la * 8,
            ;
            assert((a + b)[i / 8] == a[i / 8]);
        } else {
            let j = i - la * 8;
            assert(i / 8 == la + j / 8 && i % 8 == j % 8) by (nonlinear_arith)
                requires
                    la * 8 <= i < (la + lb) * 8,
                    j == i - la * 8,
            ;
            assert((a + b)[la + j / 8] == b[j / 8]);
        }
    }
}

/// A packed bit string streams back to itself.
pub proof fn lemma_stream_of_bits_bytes(s: Seq<bool>)
    requires
        s.len() % 8 == 0,
    ensures
        stream_bits(bits_bytes(s)) =~= s,
{
    let bytes = bits_bytes(s);
    assert(bytes.len() * 8 == s.len()) by (nonlinear_arith)
        requires
            s.len() % 8 == 0,
            bytes.len() == s.len() as int / 8,
    ;
    assert forall|i: int| 0 <= i < s.len() implies stream_bits(bytes)[i] == s[i] by {
        let bi = i / 8;
        let j = i % 8;
        assert(0 <= bi < bytes.len() && 0 <= j < 8 && 8 * bi + j == i) by (nonlinear_arith)
            requires
                0 <= i < bytes.len() * 8,
                bi == i / 8,
                j == i % 8,
        ;
        let chunk = s.subrange(8 * bi, 8 * bi + 8);
        lemma_bits_val_bound(chunk);
        lemma2_to64();
        assert(bytes[bi] as nat == bits_val(chunk));
        lemma_val_bits_of_bits_val(chunk);
        assert(val_bits(8, bits_val(chunk))[j] == chunk[j]);
        assert(chunk[j] == s[i]);
    }
}

/// The value of a byte string read as a big-endian number.
pub open spec fn be_val(s: Seq<u8>) -> nat
    decreases s.len(),
{
    if s.len() == 0 {
        0
    } else {
        256 * be_val(s.drop_last()) + s.last() as nat
    }
}

/// The eight big-endian bytes of a 64-bit value.
pub open spec fn be_bytes(v: u64) -> Seq<u8> {
    Seq::new(8, |i: int| ((v as nat / pow2(((7 - i) * 8) as nat)) % 256) as u8)
}

/// `m` big-endian bytes denote the value modulo `pow2(8 * m)`.
proof fn lemma_be_val_new(v: nat, m: nat)
    ensures
        be_val(Seq::new(m, |i: int| ((v / pow2(((m - 1 - i) * 8) as nat)) % 256) as u8)) == v % pow2(
            m * 8,
        ),
    decreases m,
{
    lemma2_to64();
    let s = Seq::new(m, |i: int| ((v / pow2(((m - 1 - i) * 8) as nat)) % 256) as u8);
    if m == 0 {
        assert(v % 1 == 0);
    } else {
        let v2 = v / 256;
        lemma_be_val_new(v2, (m - 1) as nat);
        let s2 = Seq::new((m - 1) as nat, |i: int| ((v2 / pow2(((m - 2 - i) * 8) as nat)) % 256) as u8);
        assert(s.drop_last() =~= s2) by {
            assert forall|i: int| 0 <= i < m - 1 implies s[i] == s2[i] by {
                lemma_pow2_adds(8, ((m - 2 - i) * 8) as nat);
                lemma_pow2_pos(((m - 2 - i) * 8) as nat);
                lemma_div_denominator(v as int, 256, pow2(((m - 2 - i) * 8) as nat) as int);
            }
        }
        assert(s.last() as nat == v % 256) by {
            assert(v / pow2(0) == v);
        }
        assert(be_val(s) == 256 * (v2 % pow2((m - 1) as nat * 8)) + v % 256);
        lemma_pow2_pos(((m - 1) * 8) as nat);
        lemma_mod_split(v, 256, pow2(((m - 1) * 8) as nat));
        lemma_pow2_adds(8, ((m - 1) * 8) as nat);
        assert((m - 1) as nat * 8 + 8 == m * 8);
    }
}

/// A 64-bit value survives the round trip through its big-endian bytes.
pub proof fn lemma_be_round_trip(v: u64)
    ensures
        be_val(be_bytes(v)) == v,
{
    assert(be_bytes(v) =~= Seq::new(8nat, |i: int| (((v as nat) / pow2(((8 - 1 - i) * 8) as nat))
        % 256) as u8));
    lemma_be_val_new(v as nat, 8);
    lemma2_to64();
    lemma2_to64_rest();
    vstd::arithmetic::div_mod::lemma_small_mod(v as nat, pow2(64));
}

/// The least `k` with `p <= pow2(k)`.
pub open spec fn ceil_log2(p: nat) -> nat
    decreases p,
{
    if p <= 1 {
        0
    } else {
        1 + ceil_log2((p + 1) / 2)
    }
}

/// `ceil_log2` is what its name says.
pub proof fn lemma_ceil_log2(p: nat)
    requires
        p >= 1,
    ensures
        p <= pow2(ceil_log2(p)),
        p >= 2 ==> pow2((ceil_log2(p) - 1) as nat) < p,
        p <= 0x8000_0000_0000_0000 ==> ceil_log2(p) <= 63,
    decreases p,
{
    lemma2_to64();
    lemma2_to64_rest();
    if p >= 2 {
        lemma_ceil_log2((p + 1) / 2);
        let c: nat = ceil_log2((p + 1) / 2);
        lemma_pow2_adds(1, c);
        assert((p + 1) / 2 >= 1);
        assert(p <= 2 * ((p + 1) / 2));
        assert(pow2(1 + c) == 2 * pow2(c));
        if (p + 1) / 2 >= 2 {
            assert(pow2((c - 1) as nat) < (p + 1) / 2);
            lemma_pow2_adds(1, (c - 1) as nat);
            assert(pow2(c) == 2 * pow2((c - 1) as nat));
            assert(2 * ((p + 1) / 2) <= p + 1);
            assert(pow2(c) < p + 1);
        } else {
            assert(c == 0);
            assert(pow2(0) == 1);
        }
        if p <= 0x8000_0000_0000_0000 {
            if ceil_log2(p) > 63 {
                assert(pow2((ceil_log2(p) - 1) as nat) < p);
                assert(pow2(63) <= pow2((ceil_log2(p) - 1) as nat)) by {
                    if (ceil_log2(p) - 1) as nat != 63 {
                        vstd::arithmetic::power2::lemma_pow2_strictly_increases(
                            63,
                            (ceil_log2(p) - 1) as nat,
                        );
                    }
                }
            }
        }
    }
}

/// `ceil_log2(p)` is the only `l` with `p <= pow2(l)` that is zero or has
/// `pow2(l - 1) < p`.
pub proof fn lemma_ceil_log2_unique(p: nat, l: nat)
    requires
        p >= 1,
        p <= pow2(l),
        l == 0 || pow2((l - 1) as nat) < p,
    ensures
        l == ceil_log2(p),
{
    let c = ceil_log2(p);
    lemma_ceil_log2(p);
    lemma2_to64();
    if l < c {
        assert(p >= 2) by {
            if p == 1 {
                assert(c == 0);
            }
        }
        assert(pow2((c - 1) as nat) < p);
        if l < c - 1 {
            vstd::arithmetic::power2::lemma_pow2_strictly_increases(l, (c - 1) as nat);
        }
        assert(pow2(l) <= pow2((c - 1) as nat));
    } else if l > c {
        assert(pow2((l - 1) as nat) < p);
        if c < l - 1 {
            vstd::arithmetic::power2::lemma_pow2_strictly_increases(c, (l - 1) as nat);
        }
        assert(pow2(c) <= pow2((l - 1) as nat));
    }
}

/// The Golomb–Rice codeword for `v` with parameter `p`: `v / p` one bits, a
/// zero bit, then `v % p` in `log2p` bits.
pub open spec fn golomb_code(p: u64, log2p: nat, v: nat) -> Seq<bool>
    recommends
        p >= 1,
{
    Seq::new(v / p as nat, |i: int| true) + seq![false] + val_bits(log2p, v % p as nat)
}

/// The bit stream encoding the strictly increasing values `vs`, as deltas
/// from `last`.
pub open spec fn delta_stream(vs: Seq<u64>, last: u64, p: u64, log2p: nat) -> Seq<bool>
    recommends
        p >= 1,
    decreases vs.len(),
{
    if vs.len() == 0 {
        Seq::empty()
    } else {
        golomb_code(p, log2p, (vs[0] - last) as nat) + delta_stream(vs.drop_first(), vs[0], p, log2p)
    }
}

/// Total bit length of the encoded payload for `vs`, before padding.
pub open spec fn stream_len(vs: Seq<u64>, p: u64, log2p: nat) -> nat {
    delta_stream(vs, 0, p, log2p).len()
}

/// Peeling the last value off a delta stream.
pub proof fn lemma_delta_stream_snoc(vs: Seq<u64>, last: u64, p: u64, log2p: nat)
    requires
        vs.len() >= 1,
    ensures
        delta_stream(vs, last, p, log2p) == delta_stream(vs.drop_last(), last, p, log2p)
            + golomb_code(
            p,
            log2p,
            (vs.last() - (if vs.len() >= 2 {
                vs[vs.len() - 2]
            } else {
                last
            })) as int as nat,
        ),
    decreases vs.len(),
{
    let prev: u64 = if vs.len() >= 2 {
        vs[vs.len() - 2]
    } else {
        last
    };
    let code = golomb_code(p, log2p, (vs.last() - prev) as int as nat);
    if vs.len() == 1 {
        assert(vs.drop_last() =~= Seq::<u64>::empty());
        assert(vs.drop_first() =~= Seq::<u64>::empty());
        assert(delta_stream(vs, last, p, log2p) == golomb_code(p, log2p, (vs[0] - last) as nat)
            + delta_stream(vs.drop_first(), vs[0], p, log2p));
        assert(delta_stream(vs.drop_first(), vs[0], p, log2p) == Seq::<bool>::empty());
        assert(delta_stream(vs.drop_last(), last, p, log2p) == Seq::<bool>::empty());
        assert(vs.last() == vs[0] && prev == last);
        assert(code == golomb_code(p, log2p, (vs[0] - last) as nat));
        assert(delta_stream(vs, last, p, log2p) =~= delta_stream(vs.drop_last(), last, p, log2p)
            + code);
    } else {
        let rest = vs.drop_first();
        lemma_delta_stream_snoc(rest, vs[0], p, log2p);
        assert(rest.last() == vs.last());
        assert(rest.drop_last() =~= vs.drop_last().drop_first());
        let prev2: u64 = if rest.len() >= 2 {
            rest[rest.len() - 2]
        } else {
            vs[0]
        };
        assert(prev2 == prev);
        assert(vs.drop_last().len() >= 1 && vs.drop_last()[0] == vs[0]);
        assert(delta_stream(vs.drop_last(), last, p, log2p) == golomb_code(
            p,
            log2p,
            (vs[0] - last) as int as nat,
        ) + delta_stream(vs.drop_last().drop_first(), vs[0], p, log2p));
        assert(delta_stream(vs, last, p, log2p) =~= delta_stream(vs.drop_last(), last, p, log2p)
            + code);
    }
}

/// A prefix of the values never encodes to more bits than the whole.
pub proof fn lemma_stream_len_take_le(vs: Seq<u64>, p: u64, log2p: nat, j: int)
    requires
        0 <= j <= vs.len(),
    ensures
        stream_len(vs.take(j), p, log2p) <= stream_len(vs, p, log2p),
    decreases vs.len() - j,
{
    if j == vs.len() {
        assert(vs.take(j) =~= vs);
    } else {
        lemma_stream_len_take_le(vs, p, log2p, j + 1);
        lemma_delta_stream_snoc(vs.take(j + 1), 0, p, log2p);
        assert(vs.take(j + 1).drop_last() =~= vs.take(j));
    }
}

/// What `ordered_of` produces: the members of `s` below the bound, strictly
/// increasing.
pub proof fn lemma_ordered_of_props(s: Set<u64>, bound: nat)
    requires
        bound <= 0x1_0000_0000_0000_0000,
    ensures
        forall|i: int, j: int|
            0 <= i < j < ordered_of(s, bound).len() ==> ordered_of(s, bound)[i] < ordered_of(
                s,
                bound,
            )[j],
        forall|i: int|
            0 <= i < ordered_of(s, bound).len() ==> ((#[trigger] ordered_of(s, bound)[i]) as nat)
                < bound,
        forall|x: u64|
            ordered_of(s, bound).contains(x) <==> (s.contains(x) && (x as nat) < bound),
        ordered_of(s, bound).len() <= bound,
    decreases bound,
{
    if bound > 0 {
        lemma_ordered_of_props(s, (bound - 1) as nat);
        let prev = ordered_of(s, (bound - 1) as nat);
        let out = ordered_of(s, bound);
        let b: u64 = (bound - 1) as u64;
        if s.contains(b) {
            assert(out =~= prev.push(b));
            assert forall|x: u64| out.contains(x) implies (s.contains(x) && (x as nat)
                < bound) by {
                let i = choose|i: int| 0 <= i < out.len() && out[i] == x;
                if i < prev.len() {
                    assert(prev.contains(x));
                }
            }
            assert forall|x: u64| s.contains(x) && (x as nat) < bound implies out.contains(x) by {
                if (x as nat) < bound - 1 {
                    assert(prev.contains(x));
                    let i = choose|i: int| 0 <= i < prev.len() && prev[i] == x;
                    assert(out[i] == x);
                } else {
                    assert(x == b);
                    assert(out[out.len() - 1] == x);
                }
            }
        } else {
            assert(out =~= prev);
            assert forall|x: u64| out.contains(x) implies (s.contains(x) && (x as nat)
                < bound) by {
                assert(prev.contains(x));
            }
            assert forall|x: u64| s.contains(x) && (x as nat) < bound implies out.contains(x) by {
                assert((x as nat) != bound - 1);
                assert(prev.contains(x));
            }
        }
    }
}

/// Two strictly increasing sequences with the same members are equal.
pub proof fn lemma_inc_same_set(a: Seq<u64>, b: Seq<u64>)
    requires
        forall|i: int, j: int| 0 <= i < j < a.len() ==> a[i] < a[j],
        forall|i: int, j: int| 0 <= i < j < b.len() ==> b[i] < b[j],
        forall|x: u64| a.contains(x) <==> b.contains(x),
    ensures
        a =~= b,
    decreases a.len() + b.len(),
{
    if a.len() == 0 {
        if b.len() > 0 {
            assert(b.contains(b[0]));
        }
        assert(a =~= b);
    } else if b.len() == 0 {
        assert(a.contains(a[0]));
    } else {
        assert(a.contains(a.last()) && b.contains(b.last()));
        assert(a.last() == b.last()) by {
            let i = choose|i: int| 0 <= i < b.len() && b[i] == a.last();
            assert(b[i] <= b.last());
            let j = choose|j: int| 0 <= j < a.len() && a[j] == b.last();
            assert(a[j] <= a.last());
        }
        assert forall|x: u64| a.drop_last().contains(x) <==> b.drop_last().contains(x) by {
            if a.drop_last().contains(x) {
                let i = choose|i: int| 0 <= i < a.len() - 1 && a[i] == x;
                assert(a.contains(x));
                assert(x < a.last());
                let j = choose|j: int| 0 <= j < b.len() && b[j] == x;
                assert(j < b.len() - 1);
                assert(b.drop_last()[j] == x);
                assert(b.drop_last().contains(x));
            }
            if b.drop_last().contains(x) {
                let i = choose|i: int| 0 <= i < b.len() - 1 && b[i] == x;
                assert(b.contains(x));
                assert(x < b.last());
                let j = choose|j: int| 0 <= j < a.len() && a[j] == x;
                assert(j < a.len() - 1);
                assert(a.drop_last()[j] == x);
                assert(a.drop_last().contains(x));
            }
        }
        lemma_inc_same_set(a.drop_last(), b.drop_last());
        assert(a =~= a.drop_last().push(a.last()));
        assert(b =~= b.drop_last().push(b.last()));
    }
}

/// Position of the first zero bit at or after `pos`, scanning strictly below
/// `end`.
pub open spec fn unary_end(bits: Seq<bool>, pos: nat, end: nat) -> Option<nat>
    decreases end - pos,
{
    if pos >= end || pos >= bits.len() {
        None
    } else if !bits[pos as int] {
        Some(pos)
    } else {
        unary_end(bits, pos + 1, end)
    }
}

/// Everything `unary_end` guarantees about its result.
pub proof fn lemma_unary_end(bits: Seq<bool>, pos: nat, end: nat)
    ensures
        match unary_end(bits, pos, end) {
            Some(z) => pos <= z < end && z < bits.len() && !bits[z as int] && forall|i: int|
                pos <= i < z ==> bits[i],
            None => true,
        },
    decreases end - pos,
{
    if pos >= end || pos >= bits.len() {
    } else if !bits[pos as int] {
    } else {
        lemma_unary_end(bits, pos + 1, end);
    }
}

/// Decodes one Golomb–Rice codeword from `bits` starting at `pos`, reading
/// only bits strictly below `end`.  Returns the decoded value and the
/// position after the codeword, or `None` if the bits run out first.
pub open spec fn spec_decode(bits: Seq<bool>, pos: nat, end: nat, p: u64, log2p: nat) -> Option<
    (nat, nat),
> {
    match unary_end(bits, pos, end) {
        None => None,
        Some(z) => {
            let q = (z - pos) as nat;
            let rpos = (z + 1) as nat;
            if rpos + log2p <= end && rpos + log2p <= bits.len() {
                Some(
                    (
                        q * p as nat + bits_val(bits.subrange(rpos as int, (rpos + log2p) as int)),
                        rpos + log2p,
                    ),
                )
            } else {
                None
            }
        },
    }
}

/// The membership scan: starting from the accumulated value `last`, decode
/// codewords and accumulate until the target `h` is met or passed, or the
/// stream below `end` runs out.
pub open spec fn spec_scan(
    bits: Seq<bool>,
    pos: nat,
    end: nat,
    last: int,
    h: u64,
    p: u64,
    log2p: nat,
) -> bool
    decreases end - pos,
    when pos <= end
    via spec_scan_decreases
{
    if last >= h {
        last == h
    } else {
        match spec_decode(bits, pos, end, p, log2p) {
            None => false,
            Some((d, pos2)) => spec_scan(bits, pos2, end, last + d, h, p, log2p),
        }
    }
}

#[via_fn]
proof fn spec_scan_decreases(
    bits: Seq<bool>,
    pos: nat,
    end: nat,
    last: int,
    h: u64,
    p: u64,
    log2p: nat,
) {
    lemma_unary_end(bits, pos, end);
}

/// A run of one bits ending in a zero bit pins down `unary_end`.
pub proof fn lemma_unary_end_of(bits: Seq<bool>, pos: nat, z: nat, end: nat)
    requires
        pos <= z < end,
        z < bits.len(),
        !bits[z as int],
        forall|i: int| pos <= i < z ==> bits[i],
    ensures
        unary_end(bits, pos, end) == Some(z),
    decreases z - pos,
{
    if pos < z {
        lemma_unary_end_of(bits, pos + 1, z, end);
    }
}

/// An all-false bit string denotes zero.
pub proof fn lemma_bits_val_zero(s: Seq<bool>)
    requires
        forall|i: int| 0 <= i < s.len() ==> !s[i],
    ensures
        bits_val(s) == 0,
    decreases s.len(),
{
    if s.len() > 0 {
        lemma_bits_val_zero(s.drop_last());
    }
}

/// Decoding at the start of a codeword yields the encoded value and stops
/// right after it.
pub proof fn lemma_decode_of_code(bits: Seq<bool>, pos: nat, end: nat, p: u64, log2p: nat, d: nat)
    requires
        p >= 1,
        p as nat <= pow2(log2p),
        pos + d / p as nat + 1 + log2p <= end,
        end <= bits.len(),
        bits.subrange(pos as int, (pos + d / p as nat + 1 + log2p) as int) == golomb_code(
            p,
            log2p,
            d,
        ),
    ensures
        spec_decode(bits, pos, end, p, log2p) == Some::<(nat, nat)>(
            (d, pos + d / p as nat + 1 + log2p),
        ),
{
    let q = d / p as nat;
    let clen = q + 1 + log2p;
    let code = golomb_code(p, log2p, d);
    let sub = bits.subrange(pos as int, (pos + clen) as int);
    assert(code.len() == clen);
    let z = pos + q;
    assert forall|i: int| pos <= i < z implies bits[i] by {
        assert(sub[i - pos] == code[i - pos]);
        assert(code[i - pos]);
    }
    assert(!bits[z as int]) by {
        assert(sub[q as int] == code[q as int]);
    }
    lemma_unary_end_of(bits, pos, z, end);
    let rsub = bits.subrange((z + 1) as int, (z + 1 + log2p) as int);
    assert(rsub =~= code.subrange((q + 1) as int, (q + 1 + log2p) as int)) by {
        assert forall|i: int| 0 <= i < log2p implies rsub[i] == code[q + 1 + i] by {
            assert(sub[q + 1 + i] == code[q + 1 + i]);
        }
    }
    assert(code.subrange((q + 1) as int, (q + 1 + log2p) as int) =~= val_bits(
        log2p,
        d % p as nat,
    ));
    lemma_mod_division_less_than_divisor(d as int, p as int);
    lemma_bits_round_trip(log2p, d % p as nat);
    assert(bits_val(rsub) == d % p as nat);
    lemma_fundamental_div_mod(d as int, p as int);
    assert(q * p as nat + d % p as nat == d) by (nonlinear_arith)
        requires
            p >= 1,
            q == d / p as nat,
            d as int == p as int * (d as int / p as int) + d as int % p as int,
    ;
}

/// The bits of a prefix of the values are a prefix of the bits of the whole.
pub proof fn lemma_delta_prefix(vs: Seq<u64>, p: u64, log2p: nat, j: int)
    requires
        0 <= j <= vs.len(),
    ensures
        delta_stream(vs, 0, p, log2p).take(
            stream_len(vs.take(j), p, log2p) as int,
        ) == delta_stream(vs.take(j), 0, p, log2p),
        stream_len(vs.take(j), p, log2p) <= stream_len(vs, p, log2p),
    decreases vs.len() - j,
{
    if j == vs.len() {
        assert(vs.take(j) =~= vs);
        assert(delta_stream(vs, 0, p, log2p).take(stream_len(vs, p, log2p) as int) =~= delta_stream(
            vs,
            0,
            p,
            log2p,
        ));
    } else {
        lemma_delta_prefix(vs, p, log2p, j + 1);
        lemma_delta_stream_snoc(vs.take(j + 1), 0, p, log2p);
        assert(vs.take(j + 1).drop_last() =~= vs.take(j));
        let lj = stream_len(vs.take(j), p, log2p) as int;
        let lj1 = stream_len(vs.take(j + 1), p, log2p) as int;
        assert(lj <= lj1);
        let whole = delta_stream(vs, 0, p, log2p);
        assert(whole.take(lj) =~= whole.take(lj1).take(lj));
        assert(whole.take(lj1).take(lj) =~= delta_stream(vs.take(j + 1), 0, p, log2p).take(lj));
        assert(delta_stream(vs.take(j + 1), 0, p, log2p).take(lj) =~= delta_stream(
            vs.take(j),
            0,
            p,
            log2p,
        ));
    }
}

/// Scanning all-zero padding never reaches a target above the accumulator.
pub proof fn lemma_scan_zeros(
    bits: Seq<bool>,
    pos: nat,
    end: nat,
    last: int,
    h: u64,
    p: u64,
    log2p: nat,
)
    requires
        p >= 1,
        pos <= end,
        end <= bits.len(),
        last < h,
        forall|i: int| pos <= i < end ==> !bits[i],
    ensures
        !spec_scan(bits, pos, end, last, h, p, log2p),
    decreases end - pos,
{
    lemma_unary_end(bits, pos, end);
    match unary_end(bits, pos, end) {
        None => {},
        Some(z) => {
            assert(z == pos) by {
                if z > pos {
                    assert(bits[pos as int]);
                }
            }
            if pos + 1 + log2p <= end {
                let rsub = bits.subrange((pos + 1) as int, (pos + 1 + log2p) as int);
                assert forall|i: int| 0 <= i < rsub.len() implies !rsub[i] by {
                    assert(!bits[pos + 1 + i]);
                }
                lemma_bits_val_zero(rsub);
                assert(bits_val(rsub) == 0);
                assert(((z - pos) as nat) * (p as nat) == 0) by (nonlinear_arith)
                    requires
                        z == pos,
                ;
                assert(spec_decode(bits, pos, end, p, log2p) == Some::<(nat, nat)>(
                    (0, pos + 1 + log2p),
                ));
                lemma_scan_zeros(bits, pos + 1 + log2p, end, last, h, p, log2p);
            }
        },
    }
}

/// The membership scan, started at the bit position just after the codeword
/// of `vs[j]` (or at zero for `j == -1`), finds exactly the targets that
/// appear among the later values.
#[verifier::rlimit(80)]
pub proof fn lemma_scan_reaches(
    bits: Seq<bool>,
    vs: Seq<u64>,
    j: int,
    end: nat,
    h: u64,
    p: u64,
    log2p: nat,
)
    requires
        p >= 1,
        p as nat <= pow2(log2p),
        forall|a: int, b: int| 0 <= a < b < vs.len() ==> vs[a] < vs[b],
        -1 <= j < vs.len() || (j == -1 && vs.len() == 0),
        delta_stream(vs, 0, p, log2p).len() <= end <= bits.len(),
        forall|i: int|
            0 <= i < end ==> bits[i] == (if i < delta_stream(vs, 0, p, log2p).len() {
                delta_stream(vs, 0, p, log2p)[i]
            } else {
                false
            }),
        (if j >= 0 {
            vs[j] as int
        } else {
            0
        }) < h,
    ensures
        spec_scan(
            bits,
            stream_len(vs.take(j + 1), p, log2p),
            end,
            if j >= 0 {
                vs[j] as int
            } else {
                0
            },
            h,
            p,
            log2p,
        ) == vs.skip(j + 1).contains(h),
    decreases vs.len() - j,
{
    let whole = delta_stream(vs, 0, p, log2p);
    let last: int = if j >= 0 {
        vs[j] as int
    } else {
        0
    };
    let pos = stream_len(vs.take(j + 1), p, log2p);
    lemma_delta_prefix(vs, p, log2p, j + 1);
    if j + 1 == vs.len() {
        assert(vs.take(j + 1) =~= vs);
        assert(pos == whole.len());
        assert forall|i: int| pos <= i < end implies !bits[i] by {}
        lemma_scan_zeros(bits, pos, end, last, h, p, log2p);
        assert(vs.skip(j + 1).len() == 0);
        if vs.skip(j + 1).contains(h) {
            assert(false);
        }
    } else {
        let jn = j + 1;
        let d: nat = (vs[jn] - (if jn >= 1 {
            vs[jn - 1]
        } else {
            0u64
        })) as nat;
        let q = d / p as nat;
        let clen = q + 1 + log2p;
        let posn = stream_len(vs.take(jn + 1), p, log2p);
        lemma_delta_prefix(vs, p, log2p, jn + 1);
        lemma_delta_stream_snoc(vs.take(jn + 1), 0, p, log2p);
        assert(vs.take(jn + 1).drop_last() =~= vs.take(jn));
        assert(vs.take(jn + 1).last() == vs[jn]);
        assert(delta_stream(vs.take(jn + 1), 0, p, log2p) == delta_stream(vs.take(jn), 0, p, log2p)
            + golomb_code(p, log2p, d));
        assert(posn == pos + clen);
        assert(bits.subrange(pos as int, posn as int) =~= golomb_code(p, log2p, d)) by {
            let prefix_n = delta_stream(vs.take(jn + 1), 0, p, log2p);
            assert(whole.take(posn as int) == prefix_n);
            assert forall|i: int| pos <= i < posn implies bits[i] == golomb_code(p, log2p, d)[i
                - pos] by {
                assert(bits[i] == whole[i]);
                assert(whole[i] == prefix_n[i]);
                assert(prefix_n[i] == golomb_code(p, log2p, d)[i - pos]);
            }
        }
        lemma_decode_of_code(bits, pos, end, p, log2p, d);
        assert(spec_decode(bits, pos, end, p, log2p) == Some::<(nat, nat)>((d, posn)));
        assert(last + d == vs[jn] as int);
        if vs[jn] == h {
            assert(spec_scan(bits, posn, end, vs[jn] as int, h, p, log2p));
            assert(spec_scan(bits, pos, end, last, h, p, log2p));
            let tail = vs.skip(j + 1);
            assert(tail[0] == h);
            assert(tail.contains(h));
        } else if vs[jn] > h {
            assert(!spec_scan(bits, posn, end, vs[jn] as int, h, p, log2p));
            assert(!spec_scan(bits, pos, end, last, h, p, log2p));
            if vs.skip(j + 1).contains(h) {
                let tail = vs.skip(j + 1);
                let k = choose|k: int| 0 <= k < tail.len() && tail[k] == h;
                assert(vs[j + 1 + k] == h);
                if k > 0 {
                    assert(vs[jn] < vs[j + 1 + k]);
                }
                assert(false);
            }
        } else {
            lemma_scan_reaches(bits, vs, jn, end, h, p, log2p);
            assert(spec_scan(bits, pos, end, last, h, p, log2p) == spec_scan(
                bits,
                posn,
                end,
                vs[jn] as int,
                h,
                p,
                log2p,
            ));
            assert(vs.skip(j + 1).contains(h) == vs.skip(jn + 1).contains(h)) by {
                let tail0 = vs.skip(j + 1);
                let tail1 = vs.skip(jn + 1);
                if tail1.contains(h) {
                    let k = choose|k: int| 0 <= k < tail1.len() && tail1[k] == h;
                    assert(tail0[k + 1] == h);
                    assert(tail0.contains(h));
                }
                if tail0.contains(h) {
                    let k = choose|k: int| 0 <= k < tail0.len() && tail0[k] == h;
                    assert(vs[j + 1 + k] == h);
                    assert(k != 0);
                    assert(tail1[k - 1] == h);
                    assert(tail1.contains(h));
                }
            }
        }
    }
}

/// The index checkpoints for `vs`: one entry per `g` values, skipping the
/// first, holding the value and the bit offset just after its codeword.
pub open spec fn checkpoints(vs: Seq<u64>, p: u64, log2p: nat, g: u64) -> Seq<(u64, u64)>
    recommends
        g >= 1,
{
    let cnt: nat = if vs.len() == 0 {
        0
    } else {
        ((vs.len() - 1) as nat) / g as nat
    };
    Seq::new(
        cnt,
        |k: int|
            (
                vs[(k + 1) * g as int],
                stream_len(vs.take((k + 1) * g as int + 1), p, log2p) as u64,
            ),
    )
}

/// The index section: each entry as two big-endian 64-bit fields.
pub open spec fn flatten_pairs(cps: Seq<(u64, u64)>) -> Seq<u8>
    decreases cps.len(),
{
    if cps.len() == 0 {
        Seq::empty()
    } else {
        flatten_pairs(cps.drop_last()) + be_bytes(cps.last().0) + be_bytes(cps.last().1)
    }
}

/// The eight magic bytes `[GCS:v0]` that end every container.
pub open spec fn magic_bytes() -> Seq<u8> {
    seq![91u8, 71u8, 67u8, 83u8, 58u8, 118u8, 48u8, 93u8]
}

/// The members of `s` below `bound`, in increasing order.
pub open spec fn ordered_of(s: Set<u64>, bound: nat) -> Seq<u64>
    recommends
        bound <= 0x1_0000_0000_0000_0000,
    decreases bound,
{
    if bound == 0 {
        Seq::empty()
    } else {
        ordered_of(s, (bound - 1) as nat) + (if s.contains((bound - 1) as u64) {
            seq![(bound - 1) as u64]
        } else {
            Seq::empty()
        })
    }
}

/// The set of hashes reduced modulo `np`.
pub open spec fn reduced_set(values: Seq<u64>, np: u64) -> Set<u64>
    recommends
        np >= 1,
{
    values.map_values(|v: u64| (v as nat % np as nat) as u64).to_set()
}

/// The strictly increasing sequence that a builder with parameters `n`, `p`
/// encodes for the added hashes `values`.
pub open spec fn encoded_values(values: Seq<u64>, n: u64, p: u64) -> Seq<u64>
    recommends
        n as nat * p as nat <= u64::MAX as nat,
{
    if n as nat * p as nat == 0 {
        Seq::empty()
    } else {
        ordered_of(reduced_set(values, (n as nat * p as nat) as u64), n as nat * p as nat)
    }
}

/// True when the encoded payload is small enough for 64-bit bit offsets.
pub open spec fn payload_fits(values: Seq<u64>, n: u64, p: u64) -> bool {
    stream_len(encoded_values(values, n, p), p, ceil_log2(p as nat)) + 7 <= u64::MAX as nat
}

/// The entire container a builder with parameters `n`, `p`, `g` writes for
/// the added hashes `values`: padded payload, index section, then the footer
/// `n`, `p`, payload length in bytes, index entry count, and the magic.
pub open spec fn build_bytes(values: Seq<u64>, n: u64, p: u64, g: u64) -> Seq<u8>
    recommends
        p >= 1,
        g >= 1,
        n as nat * p as nat <= u64::MAX as nat,
{
    let log2p = ceil_log2(p as nat);
    let vs = encoded_values(values, n, p);
    let bits = delta_stream(vs, 0, p, log2p);
    let pad: nat = ((8 - bits.len() % 8) % 8) as nat;
    let payload = bits_bytes(bits + val_bits(pad, 0));
    let cps = checkpoints(vs, p, log2p, g);
    payload + flatten_pairs(cps) + be_bytes(n) + be_bytes(p) + be_bytes(payload.len() as u64)
        + be_bytes(cps.len() as u64) + magic_bytes()
}

/// What a membership query answers on a well-formed container that encodes
/// the values `vs`: nothing is ever found in an empty table, and otherwise
/// the reduced target is found exactly when it is zero (the implicit index
/// entry) or among the encoded values.
pub open spec fn spec_member(n: u64, p: u64, vs: Seq<u64>, target: u64) -> bool {
    let np = (n as int) * (p as int);
    if np == 0 {
        false
    } else {
        let h = (target as int) % np;
        h == 0 || vs.contains(h as u64)
    }
}

/// Well-formedness of a reader's parsed state: some strictly increasing value
/// sequence `vs` below `n * p` is what the payload encodes, and every index
/// entry points at the bit position just after the codeword of its value.
pub open spec fn gcs_wf(
    data: Seq<u8>,
    n: u64,
    p: u64,
    log2p: nat,
    end_of_data: u64,
    index: Seq<(u64, u64)>,
    vs: Seq<u64>,
) -> bool {
    let np = n as nat * p as nat;
    let bits = delta_stream(vs, 0, p, log2p);
    &&& np <= u64::MAX as nat
    &&& p >= 1
    &&& log2p == ceil_log2(p as nat)
    &&& end_of_data <= data.len()
    &&& bits.len() <= 8 * end_of_data < bits.len() + 8
    &&& forall|i: int|
        0 <= i < 8 * end_of_data ==> stream_bits(data)[i] == (if i < bits.len() {
            bits[i]
        } else {
            false
        })
    &&& forall|i: int| 0 <= i < vs.len() ==> ((#[trigger] vs[i]) as nat) < np
    &&& forall|i: int, j: int| 0 <= i < j < vs.len() ==> vs[i] < vs[j]
    &&& index.len() >= 1
    &&& index[0] == (0u64, 0u64)
    &&& forall|k: int, l: int| 0 <= k < l < index.len() ==> (#[trigger] index[k]).0 < (
    #[trigger] index[l]).0
    &&& forall|k: int|
        1 <= k < index.len() ==> exists|i: int|
            0 <= i < vs.len() && (#[trigger] index[k]).0 == vs[i] && index[k].1 == stream_len(
                vs.take(i + 1),
                p,
                log2p,
            ) as u64
}

/// A byte string of length `m` denotes a value below `pow2(8 * m)`.
pub proof fn lemma_be_val_bound(s: Seq<u8>)
    ensures
        be_val(s) < pow2(s.len() * 8),
    decreases s.len(),
{
    lemma2_to64();
    if s.len() == 0 {
    } else {
        lemma_be_val_bound(s.drop_last());
        lemma_pow2_adds(((s.len() - 1) * 8) as nat, 8);
        assert(pow2(8) == 256);
        assert(256 * be_val(s.drop_last()) + (s.last() as nat) < 256 * pow2(((s.len() - 1) * 8) as nat))
            by (nonlinear_arith)
            requires
                be_val(s.drop_last()) < pow2(((s.len() - 1) * 8) as nat),
                s.last() < 256,
        ;
    }
}

/// The declared element count in the footer.
pub open spec fn footer_n(data: Seq<u8>) -> nat
    recommends
        data.len() >= 40,
{
    be_val(data.subrange(data.len() - 40, data.len() - 32))
}

/// The false-positive parameter in the footer.
pub open spec fn footer_p(data: Seq<u8>) -> nat
    recommends
        data.len() >= 40,
{
    be_val(data.subrange(data.len() - 32, data.len() - 24))
}

/// The payload length in bytes recorded in the footer.
pub open spec fn footer_end(data: Seq<u8>) -> nat
    recommends
        data.len() >= 40,
{
    be_val(data.subrange(data.len() - 24, data.len() - 16))
}

/// The number of stored index entries recorded in the footer.
pub open spec fn footer_index_len(data: Seq<u8>) -> nat
    recommends
        data.len() >= 40,
{
    be_val(data.subrange(data.len() - 16, data.len() - 8))
}

/// True when the container ends with the magic bytes.
pub open spec fn magic_ok(data: Seq<u8>) -> bool
    recommends
        data.len() >= 40,
{
    data.subrange(data.len() - 8, data.len() as int) == magic_bytes()
}

/// The stored index entries, read as big-endian pairs starting at `eod`.
pub open spec fn index_pairs(data: Seq<u8>, eod: nat, il: nat) -> Seq<(u64, u64)> {
    Seq::new(
        il,
        |k: int|
            (
                be_val(data.subrange(eod + 16 * k, eod + 16 * k + 8)) as u64,
                be_val(data.subrange(eod + 16 * k + 8, eod + 16 * k + 16)) as u64,
            ),
    )
}

/// Two byte streams with the same bits are the same bytes.
pub proof fn lemma_stream_bits_injective(a: Seq<u8>, b: Seq<u8>)
    requires
        a.len() == b.len(),
        stream_bits(a) == stream_bits(b),
    ensures
        a =~= b,
{
    assert forall|i: int| 0 <= i < a.len() implies a[i] == b[i] by {
        assert forall|j: int| 0 <= j < 8 implies val_bits(8, a[i] as nat)[j] == val_bits(
            8,
            b[i] as nat,
        )[j] by {
            let k = 8 * i + j;
            assert(k / 8 == i && k % 8 == j) by (nonlinear_arith)
                requires
                    0 <= i,
                    0 <= j < 8,
                    k == 8 * i + j,
            ;
            assert(0 <= k < a.len() * 8) by (nonlinear_arith)
                requires
                    0 <= i < a.len(),
                    0 <= j < 8,
                    k == 8 * i + j,
            ;
            assert(stream_bits(a)[k] == stream_bits(b)[k]);
            assert(stream_bits(a)[k] == nth_bit(a[i] as nat, (7 - j) as nat));
            assert(stream_bits(b)[k] == nth_bit(b[i] as nat, (7 - j) as nat));
            assert(val_bits(8, a[i] as nat)[j] == nth_bit(a[i] as nat, (7 - j) as nat));
            assert(val_bits(8, b[i] as nat)[j] == nth_bit(b[i] as nat, (7 - j) as nat));
        }
        assert(val_bits(8, a[i] as nat) =~= val_bits(8, b[i] as nat));
        lemma2_to64();
        lemma_bits_round_trip(8, a[i] as nat);
        lemma_bits_round_trip(8, b[i] as nat);
    }
}

} // verus!
