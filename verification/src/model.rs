//! The mathematical model of CRC-64/NVME.
//!
//! The checksum is defined by polynomial division over GF(2) with the
//! generator polynomial `0xAD93D23594C93659`, all-ones initial register,
//! reflected input and output, and all-ones final complement.  In the
//! reflected register layout one division step is [`crc_step`]; consuming a
//! byte xors it into the low bits of the register and performs eight steps.
//! Every engine in this crate is proved equal to [`crc_bytes`].

use vstd::prelude::*;

verus! {

/// The CRC-64/NVME generator polynomial, normal (most-significant-bit-first)
/// bit order, without the implicit leading term.
pub const POLY: u64 = 0xAD93_D235_94C9_3659;

/// The generator polynomial in reflected bit order: bit `i` of `RPOLY` is
/// bit `63 - i` of [`POLY`].
pub const RPOLY: u64 = 0x9A6C_9329_AC4B_C9B5;

/// One reflected polynomial-division step: divide the register by the
/// indeterminate, folding the remainder bit back in through the reflected
/// generator polynomial.
pub open spec fn crc_step(s: u64) -> u64 {
    if s & 1 == 1 {
        (s >> 1) ^ RPOLY
    } else {
        s >> 1
    }
}

/// `k` reflected division steps applied to `s`.
pub open spec fn dpow(k: nat, s: u64) -> u64
    decreases k,
{
    if k == 0 {
        s
    } else {
        dpow((k - 1) as nat, crc_step(s))
    }
}

/// Consume one input byte: xor it into the low end of the register, then
/// perform eight division steps.
pub open spec fn update_byte(s: u64, b: u8) -> u64 {
    dpow(8, s ^ (b as u64))
}

/// The register after consuming the byte sequence `bs` starting from `s`.
/// This is the reference semantics of the whole crate.
pub open spec fn crc_bytes(s: u64, bs: Seq<u8>) -> u64
    decreases bs.len(),
{
    if bs.len() == 0 {
        s
    } else {
        crc_bytes(update_byte(s, bs[0]), bs.skip(1))
    }
}

/// A byte sequence of at most eight bytes read as a little-endian integer.
pub open spec fn le64(bs: Seq<u8>) -> u64
    decreases bs.len(),
{
    if bs.len() == 0 {
        0
    } else {
        (bs[0] as u64) ^ (le64(bs.skip(1)) << 8)
    }
}

/// [`crc_step`] distributes over xor.
pub proof fn lemma_step_linear(a: u64, b: u64)
    by (bit_vector)
    ensures
        crc_step(a ^ b) == crc_step(a) ^ crc_step(b),
{
}

/// [`dpow`] distributes over xor.
pub proof fn lemma_dpow_linear(k: nat, a: u64, b: u64)
    ensures
        dpow(k, a ^ b) == dpow(k, a) ^ dpow(k, b),
    decreases k,
{
    if k > 0 {
        lemma_step_linear(a, b);
        lemma_dpow_linear((k - 1) as nat, crc_step(a), crc_step(b));
    }
}

/// Division steps compose: `a` steps followed by `b` steps.
pub proof fn lemma_dpow_add(a: nat, b: nat, s: u64)
    ensures
        dpow(a + b, s) == dpow(b, dpow(a, s)),
    decreases a,
{
    if a > 0 {
        lemma_dpow_add((a - 1) as nat, b, crc_step(s));
    }
}

/// The zero register is a fixed point of the division steps.
pub proof fn lemma_dpow_zero(k: nat)
    ensures
        dpow(k, 0) == 0,
    decreases k,
{
    if k > 0 {
        assert(crc_step(0) == 0) by (bit_vector);
        lemma_dpow_zero((k - 1) as nat);
    }
}

/// A value shifted up by `k` bits passes unchanged through `k` division
/// steps: each step only shifts a zero bit out.
pub proof fn lemma_dpow_shift(k: nat, v: u64)
    requires
        k <= 56,
        v <= (0xFFFF_FFFF_FFFF_FFFFu64 >> (k as u64)),
    ensures
        dpow(k, v << (k as u64)) == v,
    decreases k,
{
    if k == 0 {
        let ku = k as u64;
        assert(v << ku == v) by (bit_vector)
            requires
                ku == 0u64,
        ;
    } else {
        let ku = k as u64;
        let km = (k - 1) as u64;
        assert((v << ku) & 1 == 0 && (v << ku) >> 1 == v << km && v <= (0xFFFF_FFFF_FFFF_FFFFu64
            >> km)) by (bit_vector)
            requires
                1 <= ku <= 56 && ku == km + 1 && v <= (0xFFFF_FFFF_FFFF_FFFFu64 >> ku),
        ;
        assert(crc_step(v << ku) == v << km);
        lemma_dpow_shift((k - 1) as nat, v);
        assert(dpow(k, v << ku) == dpow((k - 1) as nat, crc_step(v << ku)));
    }
}

/// The inverse of [`crc_step`]: multiply the register by the indeterminate
/// and reduce by the generator polynomial.
pub open spec fn ustep(s: u64) -> u64 {
    if (s >> 63) & 1 == 1 {
        ((s ^ RPOLY) << 1) | 1
    } else {
        s << 1
    }
}

/// `j` inverse steps applied to `s`.
pub open spec fn upow(j: nat, s: u64) -> u64
    decreases j,
{
    if j == 0 {
        s
    } else {
        ustep(upow((j - 1) as nat, s))
    }
}

/// [`ustep`] undoes one division step and vice versa.
pub proof fn lemma_ustep_inverse(v: u64)
    by (bit_vector)
    ensures
        crc_step(ustep(v)) == v,
        ustep(crc_step(v)) == v,
{
}

/// Division steps and [`crc_step`] commute.
pub proof fn lemma_dpow_step_commute(t: nat, v: u64)
    ensures
        dpow(t, crc_step(v)) == crc_step(dpow(t, v)),
    decreases t,
{
    if t > 0 {
        lemma_dpow_step_commute((t - 1) as nat, crc_step(v));
    }
}

/// Division steps and the inverse step commute.
pub proof fn lemma_dpow_ustep_commute(t: nat, v: u64)
    ensures
        dpow(t, ustep(v)) == ustep(dpow(t, v)),
{
    lemma_ustep_inverse(v);
    lemma_dpow_step_commute(t, ustep(v));
    // crc_step(dpow(t, ustep(v))) == dpow(t, v), so one inverse step recovers it
    lemma_ustep_inverse(dpow(t, ustep(v)));
    assert(ustep(crc_step(dpow(t, ustep(v)))) == dpow(t, ustep(v)));
    assert(dpow(t, crc_step(ustep(v))) == dpow(t, v));
}

/// Division steps commute with iterated inverse steps.
pub proof fn lemma_dpow_upow_commute(t: nat, j: nat, v: u64)
    ensures
        dpow(t, upow(j, v)) == upow(j, dpow(t, v)),
    decreases j,
{
    if j > 0 {
        lemma_dpow_upow_commute(t, (j - 1) as nat, v);
        lemma_dpow_ustep_commute(t, upow((j - 1) as nat, v));
    }
}

/// Iterated inverse steps starting from one are plain left shifts.
pub proof fn lemma_upow_one(j: nat)
    requires
        j <= 63,
    ensures
        upow(j, 1) == 1u64 << (j as u64),
    decreases j,
{
    if j == 0 {
        assert(1u64 << 0u64 == 1u64) by (bit_vector);
    } else {
        lemma_upow_one((j - 1) as nat);
        let jm = (j - 1) as u64;
        assert(ustep(1u64 << jm) == 1u64 << (jm + 1)) by (bit_vector)
            requires
                jm <= 62,
        ;
    }
}

/// Consuming a concatenation equals consuming the parts in order.
pub proof fn lemma_crc_concat(s: u64, a: Seq<u8>, b: Seq<u8>)
    ensures
        crc_bytes(s, a + b) == crc_bytes(crc_bytes(s, a), b),
    decreases a.len(),
{
    if a.len() == 0 {
        assert(a + b =~= b);
    } else {
        assert((a + b).skip(1) =~= a.skip(1) + b);
        assert((a + b)[0] == a[0]);
        lemma_crc_concat(update_byte(s, a[0]), a.skip(1), b);
    }
}

/// Consuming one more byte at the end of a sequence.
pub proof fn lemma_crc_snoc(s: u64, bs: Seq<u8>, b: u8)
    ensures
        crc_bytes(s, bs.push(b)) == update_byte(crc_bytes(s, bs), b),
{
    assert(bs.push(b) =~= bs + seq![b]);
    lemma_crc_concat(s, bs, seq![b]);
    let t = crc_bytes(s, bs);
    let one = seq![b];
    assert(one.skip(1) =~= Seq::<u8>::empty());
    assert(one[0] == b);
    assert(crc_bytes(t, one) == crc_bytes(update_byte(t, b), one.skip(1)));
    assert(crc_bytes(update_byte(t, b), Seq::<u8>::empty()) == update_byte(t, b));
}

/// `le64` of fewer than eight bytes fits in that many bytes.
pub proof fn lemma_le64_bound(bs: Seq<u8>)
    requires
        bs.len() < 8,
    ensures
        le64(bs) < (1u64 << (8 * bs.len() as u64)),
    decreases bs.len(),
{
    if bs.len() == 0 {
        assert(0u64 < (1u64 << 0)) by (bit_vector);
    } else {
        lemma_le64_bound(bs.skip(1));
        let t = le64(bs.skip(1));
        let b0 = bs[0] as u64;
        let n = bs.len() as u64;
        let nm = (bs.len() - 1) as u64;
        assert((b0 ^ (t << 8)) < (1u64 << (8 * n))) by (bit_vector)
            requires
                1 <= n < 8 && n == nm + 1 && b0 < 256 && t < (1u64 << (8 * nm)),
        ;
    }
}

/// Appending a byte to a little-endian reading sets the next byte lane.
pub proof fn lemma_le64_snoc(bs: Seq<u8>, b: u8)
    requires
        bs.len() < 8,
    ensures
        le64(bs.push(b)) == le64(bs) ^ ((b as u64) << (8 * bs.len() as u64)),
    decreases bs.len(),
{
    if bs.len() == 0 {
        assert(bs.push(b).skip(1) =~= Seq::<u8>::empty());
        assert(bs.push(b)[0] == b);
        let bv = b as u64;
        let n0: u64 = (8 * bs.len()) as u64;
        assert(bv ^ (0u64 << 8) == 0u64 ^ (bv << n0)) by (bit_vector)
            requires
                n0 == 0u64,
        ;
        assert(le64(bs) == 0);
        assert(le64(bs.push(b).skip(1)) == 0);
        assert(le64(bs.push(b)) == bv ^ (0u64 << 8));
        assert(le64(bs.push(b)) == le64(bs) ^ (bv << n0));
    } else {
        assert(bs.push(b).skip(1) =~= bs.skip(1).push(b));
        assert(bs.push(b)[0] == bs[0]);
        lemma_le64_snoc(bs.skip(1), b);
        let t = le64(bs.skip(1));
        let b0 = bs[0] as u64;
        let bv = b as u64;
        let n = bs.len() as u64;
        let nm = (bs.len() - 1) as u64;
        assert(b0 ^ ((t ^ (bv << (8 * nm))) << 8) == (b0 ^ (t << 8)) ^ (bv << (8 * n)))
            by (bit_vector)
            requires
                1 <= n < 8 && n == nm + 1,
        ;
    }
}

/// Consuming at most eight bytes from `s` equals xoring their little-endian
/// reading into the low end of the register and performing eight division
/// steps per byte.
pub proof fn lemma_crc_le(s: u64, bs: Seq<u8>)
    requires
        bs.len() <= 8,
    ensures
        crc_bytes(s, bs) == dpow(8 * bs.len(), s ^ le64(bs)),
    decreases bs.len(),
{
    if bs.len() == 0 {
        lemma_xor_facts(s, 0, 0, 0);
    } else {
        let b0 = bs[0];
        let rest = bs.skip(1);
        let t = le64(rest);
        lemma_crc_le(update_byte(s, b0), rest);
        lemma_le64_bound(rest);
        lemma_xor_facts(s, b0 as u64, t << 8, 0);
        lemma_dpow_linear(8, s ^ (b0 as u64), t << 8);
        let m = rest.len() as u64;
        assert(t <= (0xFFFF_FFFF_FFFF_FFFFu64 >> 8)) by (bit_vector)
            requires
                m <= 7 && t < (1u64 << (8 * m)),
        ;
        lemma_dpow_shift(8, t);
        assert(dpow(8, s ^ le64(bs)) == update_byte(s, b0) ^ t);
        lemma_dpow_linear(8 * (bs.len() - 1) as nat, update_byte(s, b0), t);
        lemma_dpow_add(8, 8 * (bs.len() - 1) as nat, s ^ le64(bs));
        assert(crc_bytes(s, bs) == crc_bytes(update_byte(s, b0), rest));
    }
}

/// Reusable xor identities, instantiated where the algebra needs
/// regrouping.
pub proof fn lemma_xor_facts(a: u64, b: u64, c: u64, d: u64)
    by (bit_vector)
    ensures
        (a ^ b) ^ (c ^ d) == (a ^ c) ^ (b ^ d),
        a ^ b == b ^ a,
        a ^ 0u64 == a,
        (a ^ b) ^ b == a,
        a ^ (b ^ c) == (a ^ b) ^ c,
        (a ^ b) ^ c == (a ^ c) ^ b,
        ((a ^ b) ^ c) ^ b == a ^ c,
        (a ^ b) ^ ((c ^ b) ^ d) == (a ^ c) ^ d,
{
}

} // verus!
