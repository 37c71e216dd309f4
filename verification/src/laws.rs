//! The library-wide laws: round trips of the bit and Golomb codecs, that a
//! built container never loses a member, and that building does not depend
//! on duplicates or input order.

use crate::model::{
    bits_bytes, bits_val, build_bytes, be_bytes, ceil_log2, checkpoints, delta_stream,
    encoded_values, flatten_pairs, footer_end, footer_index_len, footer_n, footer_p, gcs_wf,
    golomb_code, index_pairs, lemma_be_round_trip, lemma_bits_round_trip, lemma_ceil_log2,
    lemma_decode_of_code, lemma_ordered_of_props, lemma_stream_bits_add, lemma_stream_len_take_le,
    lemma_stream_of_bits_bytes, magic_bytes, magic_ok, nth_bit, ordered_of, payload_fits,
    reduced_set, spec_decode, spec_member, stream_bits, stream_len, val_bits,
};
use vstd::arithmetic::power2::pow2;
use vstd::arithmetic::div_mod::lemma_mod_division_less_than_divisor;
use vstd::arithmetic::power2::lemma_pow2_pos;
use vstd::prelude::*;

verus! {

/// Round trip on bits: a value below `pow2(n)`, written with `write_bits`
/// anywhere into a stream, is read back unchanged by a reader that mirrors
/// the write schedule and reads `n` bits at the same position.
pub proof fn lemma_bit_io_round_trip(pre: Seq<bool>, n: nat, v: nat, suf: Seq<bool>)
    requires
        n <= 64,
        v < pow2(n),
    ensures
        bits_val((pre + val_bits(n, v) + suf).subrange(pre.len() as int, (pre.len() + n) as int)) == v,
{
    assert((pre + val_bits(n, v) + suf).subrange(pre.len() as int, (pre.len() + n) as int) =~= val_bits(
        n,
        v,
    ));
    lemma_bits_round_trip(n, v);
}

/// Golomb round trip: a codeword written with parameter `p`, followed by
/// anything, decodes to the encoded value, leaving the position right after
/// the codeword.
pub proof fn lemma_golomb_round_trip(p: u64, v: u64, suffix: Seq<bool>)
    requires
        p >= 1,
    ensures
        ({
            let log2p = ceil_log2(p as nat);
            let code = golomb_code(p, log2p, v as nat);
            spec_decode(code + suffix, 0, code.len() + suffix.len(), p, log2p)
                == Some::<(nat, nat)>((v as nat, code.len()))
        }),
{
    let log2p = ceil_log2(p as nat);
    let code = golomb_code(p, log2p, v as nat);
    let bits = code + suffix;
    lemma_ceil_log2(p as nat);
    assert(bits.subrange(0, code.len() as int) =~= code);
    lemma_decode_of_code(bits, 0, bits.len(), p, log2p, v as nat);
}

/// The index bytes are sixteen bytes per entry.
proof fn lemma_flatten_pairs_len(cps: Seq<(u64, u64)>)
    ensures
        flatten_pairs(cps).len() == 16 * cps.len(),
    decreases cps.len(),
{
    if cps.len() > 0 {
        lemma_flatten_pairs_len(cps.drop_last());
    }
}

/// Each entry's two fields sit at their sixteen-byte slot.
proof fn lemma_flatten_pairs_at(cps: Seq<(u64, u64)>, k: int)
    requires
        0 <= k < cps.len(),
    ensures
        flatten_pairs(cps).subrange(16 * k, 16 * k + 8) == be_bytes(cps[k].0),
        flatten_pairs(cps).subrange(16 * k + 8, 16 * k + 16) == be_bytes(cps[k].1),
    decreases cps.len(),
{
    lemma_flatten_pairs_len(cps);
    lemma_flatten_pairs_len(cps.drop_last());
    if k == cps.len() - 1 {
        assert(flatten_pairs(cps).subrange(16 * k, 16 * k + 8) =~= be_bytes(cps[k].0));
        assert(flatten_pairs(cps).subrange(16 * k + 8, 16 * k + 16) =~= be_bytes(cps[k].1));
    } else {
        lemma_flatten_pairs_at(cps.drop_last(), k);
        assert(flatten_pairs(cps).subrange(16 * k, 16 * k + 8) =~= flatten_pairs(
            cps.drop_last(),
        ).subrange(16 * k, 16 * k + 8));
        assert(flatten_pairs(cps).subrange(16 * k + 8, 16 * k + 16) =~= flatten_pairs(
            cps.drop_last(),
        ).subrange(16 * k + 8, 16 * k + 16));
    }
}

/// Membership soundness, at the level of the container bytes: the file built
/// from some hashes parses back to its own parameters and index, is a
/// well-formed encoding of the reduced sorted hashes, and the reduced image
/// of every added hash is a member.  With the contracts of `finish`,
/// `initialize` and `lookup`, a query for any added hash answers `found`.
#[verifier::rlimit(80)]
pub proof fn lemma_membership_sound(values: Seq<u64>, n: u64, p: u64, g: u64, x: u64)
    requires
        p >= 1,
        g >= 1,
        (n as nat) * (p as nat) >= 1,
        (n as nat) * (p as nat) <= u64::MAX as nat,
        payload_fits(values, n, p),
        values.contains(x),
    ensures
        ({
            let data = build_bytes(values, n, p, g);
            let vs = encoded_values(values, n, p);
            &&& data.len() >= 40
            &&& magic_ok(data)
            &&& footer_n(data) == n as nat
            &&& footer_p(data) == p as nat
            &&& footer_end(data) + 16 * footer_index_len(data) <= data.len()
            &&& footer_end(data) <= u64::MAX as nat
            &&& gcs_wf(
                data,
                n,
                p,
                ceil_log2(p as nat),
                footer_end(data) as u64,
                seq![(0u64, 0u64)] + index_pairs(data, footer_end(data), footer_index_len(data)),
                vs,
            )
            &&& spec_member(n, p, vs, x)
        }),
{
    let np: u64 = ((n as nat) * (p as nat)) as u64;
    let log2p = ceil_log2(p as nat);
    let vs = encoded_values(values, n, p);
    let bits = delta_stream(vs, 0, p, log2p);
    let pad: nat = ((8 - bits.len() % 8) % 8) as nat;
    let padded = bits + val_bits(pad, 0);
    let payload = bits_bytes(padded);
    let cps = checkpoints(vs, p, log2p, g);
    let idxbytes = flatten_pairs(cps);
    let data = build_bytes(values, n, p, g);
    lemma_ordered_of_props(reduced_set(values, np), np as nat);
    assert(vs == ordered_of(reduced_set(values, np), np as nat));
    assert(vs.len() <= np as nat);
    let cnt: int = cps.len() as int;
    assert(cnt <= vs.len());
    if vs.len() >= 1 {
        let q: int = (vs.len() - 1) as int / (g as int);
        let rr: int = (vs.len() - 1) as int % (g as int);
        vstd::arithmetic::div_mod::lemma_fundamental_div_mod(vs.len() - 1, g as int);
        vstd::arithmetic::div_mod::lemma_mod_division_less_than_divisor(vs.len() - 1, g as int);
        assert(q * (g as int) <= vs.len() - 1) by (nonlinear_arith)
            requires
                vs.len() - 1 == (g as int) * q + rr,
                rr >= 0,
        ;
    }
    assert(bits.len() + 7 <= u64::MAX as nat);
    let eodv: u64 = payload.len() as u64;
    lemma_flatten_pairs_len(cps);
    assert(padded.len() % 8 == 0);
    assert(payload.len() * 8 == padded.len()) by (nonlinear_arith)
        requires
            padded.len() % 8 == 0,
            payload.len() == padded.len() as int / 8,
    ;
    assert(data == payload + idxbytes + be_bytes(n) + be_bytes(p) + be_bytes(eodv) + be_bytes(
        cps.len() as u64,
    ) + magic_bytes());
    assert(data.len() == payload.len() + 16 * cps.len() + 40);
    // The footer fields parse back.
    lemma_be_round_trip(n);
    lemma_be_round_trip(p);
    lemma_be_round_trip(eodv);
    lemma_be_round_trip(cps.len() as u64);
    assert(data.subrange(data.len() - 40, data.len() - 32) =~= be_bytes(n));
    assert(data.subrange(data.len() - 32, data.len() - 24) =~= be_bytes(p));
    assert(data.subrange(data.len() - 24, data.len() - 16) =~= be_bytes(eodv));
    assert(data.subrange(data.len() - 16, data.len() - 8) =~= be_bytes(cps.len() as u64));
    assert(data.subrange(data.len() - 8, data.len() as int) =~= magic_bytes());
    assert(footer_n(data) == n as nat);
    assert(footer_p(data) == p as nat);
    assert(footer_end(data) == eodv as nat);
    assert(footer_index_len(data) == cps.len());
    // The index section parses back to the checkpoints.
    let pairs = index_pairs(data, footer_end(data), footer_index_len(data));
    assert forall|k: int| 0 <= k < cps.len() implies pairs[k] == cps[k] by {
        lemma_flatten_pairs_at(cps, k);
        assert(data.subrange(eodv as int + 16 * k, eodv as int + 16 * k + 8) =~= idxbytes.subrange(
            16 * k,
            16 * k + 8,
        ));
        assert(data.subrange(eodv as int + 16 * k + 8, eodv as int + 16 * k + 16)
            =~= idxbytes.subrange(16 * k + 8, 16 * k + 16));
        lemma_be_round_trip(cps[k].0);
        lemma_be_round_trip(cps[k].1);
    }
    assert(pairs =~= cps);
    let index = seq![(0u64, 0u64)] + pairs;
    // The payload streams back to the encoded bits plus zero padding.
    lemma_stream_of_bits_bytes(padded);
    lemma_stream_bits_add(payload, idxbytes + be_bytes(n) + be_bytes(p) + be_bytes(eodv)
        + be_bytes(cps.len() as u64) + magic_bytes());
    assert(data =~= payload + (idxbytes + be_bytes(n) + be_bytes(p) + be_bytes(eodv) + be_bytes(
        cps.len() as u64,
    ) + magic_bytes()));
    assert forall|i: int| 0 <= i < 8 * (eodv as int) implies stream_bits(data)[i] == (if i
        < bits.len() {
        bits[i]
    } else {
        false
    }) by {
        assert(stream_bits(data)[i] == stream_bits(payload)[i]);
        assert(stream_bits(payload)[i] == padded[i]);
        if i >= bits.len() {
            assert(padded[i] == val_bits(pad, 0)[i - bits.len()]);
            lemma_pow2_pos((pad - 1 - (i - bits.len())) as nat);
            assert(!nth_bit(0, (pad - 1 - (i - bits.len())) as nat)) by {
                assert(0nat / pow2((pad - 1 - (i - bits.len())) as nat) == 0);
            }
        }
    }
    // The index entries are sorted and well-placed.
    assert forall|k: int, l: int| 0 <= k < l < index.len() implies (#[trigger] index[k]).0 < (
    #[trigger] index[l]).0 by {
        if k >= 1 {
            assert(index[k].0 == vs[k * (g as int)]);
            assert(index[l].0 == vs[l * (g as int)]);
            assert(k * (g as int) < l * (g as int)) by (nonlinear_arith)
                requires
                    k < l,
                    g >= 1,
            ;
            assert(0 <= k * (g as int)) by (nonlinear_arith)
                requires
                    k >= 1,
                    g >= 1,
            ;
            assert(l * (g as int) <= ((vs.len() - 1) as int / (g as int)) * (g as int)) by (nonlinear_arith)
                requires
                    l <= (vs.len() - 1) as int / (g as int),
                    g >= 1,
            ;
            assert(((vs.len() - 1) as int / (g as int)) * (g as int) <= vs.len() - 1) by {
                vstd::arithmetic::div_mod::lemma_fundamental_div_mod(
                    vs.len() - 1,
                    (g as int),
                );
                vstd::arithmetic::div_mod::lemma_mod_division_less_than_divisor(
                    vs.len() - 1,
                    (g as int),
                );
            }
        } else {
            assert(index[l].0 == vs[l * (g as int)]);
            assert(1 <= l * (g as int) <= vs.len() - 1) by (nonlinear_arith)
                requires
                    1 <= l <= (vs.len() - 1) as int / (g as int),
                    g >= 1,
                    ((vs.len() - 1) as int / (g as int)) * (g as int) <= vs.len() - 1,
            ;
            assert(vs[0] < vs[l * (g as int)] || 0 == l * (g as int));
            assert((vs[l * (g as int)] as nat) >= 0);
            assert(vs[0] >= 0);
            assert(index[l].0 > 0);
        }
    }
    assert forall|k: int| 1 <= k < index.len() implies exists|i: int|
        0 <= i < vs.len() && (#[trigger] index[k]).0 == vs[i] && index[k].1 == stream_len(
            vs.take(i + 1),
            p,
            log2p,
        ) as u64 by {
        assert(cps.len() >= 1);
        assert(vs.len() >= 1);
        assert(k <= (vs.len() - 1) as int / (g as int));
        let i = k * (g as int);
        assert(1 <= i <= vs.len() - 1) by (nonlinear_arith)
            requires
                i == k * (g as int),
                1 <= k <= (vs.len() - 1) as int / (g as int),
                g >= 1,
                ((vs.len() - 1) as int / (g as int)) * (g as int) <= vs.len() - 1,
        ;
        assert(index[k] == cps[k - 1]);
        assert(cps[k - 1].0 == vs[i] && cps[k - 1].1 == stream_len(vs.take(i + 1), p, log2p) as u64);
    }
    // Membership of the reduced target.
    lemma_mod_division_less_than_divisor(x as int, np as int);
    let h = ((x as int) % (np as int)) as u64;
    assert(reduced_set(values, np).contains(h)) by {
        let m = choose|m: int| 0 <= m < values.len() && values[m] == x;
        let mapped = values.map_values(|v: u64| ((v as nat) % (np as nat)) as u64);
        assert(mapped[m] == h);
        assert(mapped.contains(h));
    }
    assert(vs.contains(h));
    assert(spec_member(n, p, vs, x));
    // Remaining well-formedness bounds.
    assert(bits.len() <= 8 * (eodv as nat) < bits.len() + 8);
    lemma_stream_len_take_le(vs, p, log2p, 0);
    lemma_ceil_log2(p as nat);
}

/// Dedup idempotence: building from a multiset and from that multiset with
/// itself appended produces identical bytes.
pub proof fn lemma_dedup_idempotent(values: Seq<u64>, n: u64, p: u64, g: u64)
    requires
        p >= 1,
        g >= 1,
        (n as nat) * (p as nat) <= u64::MAX as nat,
    ensures
        build_bytes(values + values, n, p, g) == build_bytes(values, n, p, g),
{
    let doubled = values + values;
    assert forall|v: u64| doubled.contains(v) <==> values.contains(v) by {
        if doubled.contains(v) {
            let i = choose|i: int| 0 <= i < doubled.len() && doubled[i] == v;
            if i < values.len() {
                assert(values[i] == v);
            } else {
                assert(values[i - values.len()] == v);
            }
            assert(values.contains(v));
        }
        if values.contains(v) {
            let i = choose|i: int| 0 <= i < values.len() && values[i] == v;
            assert(doubled[i] == v);
            assert(doubled.contains(v));
        }
    }
    lemma_same_reduced_build(doubled, values, n, p, g);
}

/// Order independence: building from any permutation of the hashes produces
/// identical bytes.
pub proof fn lemma_order_independent(values1: Seq<u64>, values2: Seq<u64>, n: u64, p: u64, g: u64)
    requires
        p >= 1,
        g >= 1,
        (n as nat) * (p as nat) <= u64::MAX as nat,
        values1.to_multiset() == values2.to_multiset(),
    ensures
        build_bytes(values1, n, p, g) == build_bytes(values2, n, p, g),
{
    broadcast use vstd::seq_lib::group_to_multiset_ensures;

    assert forall|v: u64| values1.contains(v) <==> values2.contains(v) by {
        assert(values1.to_multiset().count(v) == values2.to_multiset().count(v));
        assert(values1.contains(v) <==> values1.to_multiset().count(v) > 0);
        assert(values2.contains(v) <==> values2.to_multiset().count(v) > 0);
    }
    lemma_same_reduced_build(values1, values2, n, p, g);
}

/// Two hash sequences with the same members build identical bytes.
proof fn lemma_same_reduced_build(values1: Seq<u64>, values2: Seq<u64>, n: u64, p: u64, g: u64)
    requires
        p >= 1,
        g >= 1,
        (n as nat) * (p as nat) <= u64::MAX as nat,
        forall|v: u64| values1.contains(v) <==> values2.contains(v),
    ensures
        build_bytes(values1, n, p, g) == build_bytes(values2, n, p, g),
{
    let np: nat = (n as nat) * (p as nat);
    if np == 0 {
        assert(encoded_values(values1, n, p) == encoded_values(values2, n, p));
    } else {
        let f = |v: u64| ((v as nat) % np) as u64;
        let m1 = values1.map_values(f);
        let m2 = values2.map_values(f);
        assert forall|x: u64| m1.contains(x) <==> m2.contains(x) by {
            if m1.contains(x) {
                let i = choose|i: int| 0 <= i < m1.len() && m1[i] == x;
                assert(values1.contains(values1[i]));
                assert(values2.contains(values1[i]));
                let j = choose|j: int| 0 <= j < values2.len() && values2[j] == values1[i];
                assert(m2[j] == x);
                assert(m2.contains(x));
            }
            if m2.contains(x) {
                let i = choose|i: int| 0 <= i < m2.len() && m2[i] == x;
                assert(values2.contains(values2[i]));
                assert(values1.contains(values2[i]));
                let j = choose|j: int| 0 <= j < values1.len() && values1[j] == values2[i];
                assert(m1[j] == x);
                assert(m1.contains(x));
            }
        }
        assert(reduced_set(values1, np as u64) =~= reduced_set(values2, np as u64));
        assert(encoded_values(values1, n, p) == encoded_values(values2, n, p));
    }
}

} // verus!
