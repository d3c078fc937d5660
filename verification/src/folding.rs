//! The carryless-multiplication folding engine.
//!
//! A portable scalar lane type [`Simd`] supplies the 128-bit capability set
//! (construct, xor, fold by sixteen bytes, fold by eight bytes, Barrett
//! reduction); the architecture-agnostic block-folding algorithm [`update`]
//! is built on top of it and proved equal to [`crate::model::crc_bytes`] on
//! every input.  The folding coefficients are the registers reached from one
//! by 64 and 128 division steps; they are derived at run time from the model
//! itself, so their defining property is part of the proof rather than a
//! trusted constant.

use vstd::prelude::*;

use crate::model::crc_bytes;
use crate::model::dpow;
use crate::model::le64;
use crate::model::lemma_crc_concat;
use crate::model::lemma_crc_le;
use crate::model::lemma_crc_snoc;
use crate::model::lemma_dpow_add;
use crate::model::lemma_dpow_linear;
use crate::model::lemma_dpow_shift;
use crate::model::lemma_dpow_upow_commute;
use crate::model::lemma_dpow_zero;
use crate::model::lemma_upow_one;
use crate::model::update_byte;
use crate::model::upow;
use crate::model::ustep;
use crate::table;

verus! {

/// The reflected Barrett polynomial constant: the generator polynomial in
/// reflected order, shifted up by its implicit leading term.
pub const BARRETT_POLY: u64 = 0x34D9_2653_5897_936A;

/// The reflected Barrett reciprocal constant `mu`: the quotient of dividing
/// the 128th power of the indeterminate by the generator polynomial, in
/// reflected order.
pub const BARRETT_MU: u64 = 0x27EC_FA32_9AEF_9F77;

/// Carryless product of `a` and the low `i` bits of `b` over GF(2).
pub open spec fn clmul_pre(a: u64, b: u64, i: nat) -> u128
    decreases i,
{
    if i == 0 {
        0
    } else {
        clmul_pre(a, b, (i - 1) as nat) ^ (if (b >> ((i - 1) as u64)) & 1 == 1 {
            (a as u128) << ((i - 1) as u64)
        } else {
            0
        })
    }
}

/// Full 64-by-64-bit carryless product over GF(2).
pub open spec fn clmul(a: u64, b: u64) -> u128 {
    clmul_pre(a, b, 64)
}

/// The low 64 bits of a 128-bit value.
pub open spec fn lo64(y: u128) -> u64 {
    y as u64
}

/// The high 64 bits of a 128-bit value.
pub open spec fn hi64(y: u128) -> u64 {
    (y >> 64) as u64
}

/// The register denoted by a 128-bit accumulator, one fold distance before
/// final: 64 division steps of the low half, xor the high half.
pub open spec fn red2(y: u128) -> u64 {
    dpow(64, lo64(y)) ^ hi64(y)
}

/// The same reduction over an explicit high/low pair.
pub open spec fn red2p(h: u64, l: u64) -> u64 {
    dpow(64, l) ^ h
}

/// The register denoted by a pending sixteen-byte accumulator pair.
pub open spec fn redp(h: u64, l: u64) -> u64 {
    dpow(64, red2p(h, l))
}

/// The Barrett reduction formula over an accumulator pair: multiply the low
/// half by `mu`, keep the low 64 bits, multiply by `poly`, xor with the
/// accumulator, and take the high 64 bits xored with the intermediate
/// product.
pub open spec fn barrett_spec(h: u64, l: u64, poly: u64, mu: u64) -> u64 {
    let t1 = lo64(clmul(l, mu));
    h ^ hi64(clmul(t1, poly)) ^ t1
}

/// Executable carryless multiplication.
fn clmul_x(a: u64, b: u64) -> (r: u128)
    ensures
        r == clmul(a, b),
{
    let mut i: usize = 0;
    let mut acc: u128 = 0;
    while i < 64
        invariant
            i <= 64,
            acc == clmul_pre(a, b, i as nat),
        decreases 64 - i,
    {
        proof {
            let t = clmul_pre(a, b, i as nat);
            assert(clmul_pre(a, b, (i + 1) as nat) == t ^ (if (b >> (i as u64)) & 1 == 1 {
                (a as u128) << (i as u64)
            } else {
                0u128
            }));
            assert(t ^ 0u128 == t) by (bit_vector);
        }
        if (b >> i) & 1 == 1 {
            acc = acc ^ ((a as u128) << i);
        }
        i = i + 1;
    }
    acc
}

/// The carryless product distributes over xor in its first argument.
proof fn lemma_clmul_pre_linear(a1: u64, a2: u64, b: u64, i: nat)
    ensures
        clmul_pre(a1 ^ a2, b, i) == clmul_pre(a1, b, i) ^ clmul_pre(a2, b, i),
    decreases i,
{
    if i == 0 {
        assert(0u128 ^ 0u128 == 0u128) by (bit_vector);
    } else {
        lemma_clmul_pre_linear(a1, a2, b, (i - 1) as nat);
        let im = (i - 1) as u64;
        let p1 = clmul_pre(a1, b, (i - 1) as nat);
        let p2 = clmul_pre(a2, b, (i - 1) as nat);
        let t12: u128 = if (b >> im) & 1 == 1 {
            ((a1 ^ a2) as u128) << im
        } else {
            0
        };
        let t1: u128 = if (b >> im) & 1 == 1 {
            (a1 as u128) << im
        } else {
            0
        };
        let t2: u128 = if (b >> im) & 1 == 1 {
            (a2 as u128) << im
        } else {
            0
        };
        assert(clmul_pre(a1 ^ a2, b, i) == (p1 ^ p2) ^ t12);
        assert(clmul_pre(a1, b, i) == p1 ^ t1);
        assert(clmul_pre(a2, b, i) == p2 ^ t2);
        assert(t12 == (t1 ^ t2) && ((p1 ^ p2) ^ (t1 ^ t2)) == ((p1 ^ t1) ^ (p2 ^ t2)))
            by (bit_vector)
            requires
                t12 == (if (b >> im) & 1 == 1 {
                    ((a1 ^ a2) as u128) << im
                } else {
                    0u128
                }) && t1 == (if (b >> im) & 1 == 1 {
                    (a1 as u128) << im
                } else {
                    0u128
                }) && t2 == (if (b >> im) & 1 == 1 {
                    (a2 as u128) << im
                } else {
                    0u128
                }),
        ;
    }
}

/// The carryless product of zero is zero.
proof fn lemma_clmul_pre_zero(b: u64, i: nat)
    ensures
        clmul_pre(0u64, b, i) == 0u128,
    decreases i,
{
    if i > 0 {
        lemma_clmul_pre_zero(b, (i - 1) as nat);
        let im = (i - 1) as u64;
        assert(((0u64 as u128) << im) == 0u128 && (0u128 ^ 0u128) == 0u128) by (bit_vector);
    }
}

/// A single-bit multiplicand shifts the other operand.
#[verifier::rlimit(60)]
proof fn lemma_clmul_pre_single(j: u64, k: u64, i: nat)
    requires
        j < 64,
        i <= 64,
    ensures
        clmul_pre(1u64 << j, k, i) == clmul_pre(1u64, k, i) << j,
    decreases i,
{
    if i == 0 {
        assert(0u128 << j == 0u128) by (bit_vector);
    } else {
        lemma_clmul_pre_single(j, k, (i - 1) as nat);
        let im = (i - 1) as u64;
        let p = clmul_pre(1u64, k, (i - 1) as nat);
        assert((((1u64 << j) as u128) << im) == (((1u64 as u128) << im) << j) && ((p << j) ^ (((
        1u64 as u128) << im) << j)) == ((p ^ ((1u64 as u128) << im)) << j) && ((p << j) ^ 0u128)
            == ((p ^ 0u128) << j)) by (bit_vector)
            requires
                j < 64 && im < 64,
        ;
    }
}

/// Multiplying one by `k` reads off the bits of `k`.
proof fn lemma_clmul_pre_one(k: u64, i: nat)
    requires
        i <= 64,
    ensures
        clmul_pre(1u64, k, i) == (k as u128) & (((1u128 << (i as u64)) - 1) as u128),
    decreases i,
{
    if i == 0 {
        assert((k as u128) & (((1u128 << 0u64) - 1) as u128) == 0u128) by (bit_vector);
    } else {
        lemma_clmul_pre_one(k, (i - 1) as nat);
        let im = (i - 1) as u64;
        assert(((k as u128) & (((1u128 << im) - 1) as u128)) ^ (if (k >> im) & 1 == 1 {
            (1u64 as u128) << im
        } else {
            0u128
        }) == (k as u128) & (((1u128 << (im + 1)) - 1) as u128)) by (bit_vector)
            requires
                im < 64,
        ;
    }
}

/// The carryless product with a single bit set is a shift of the constant.
proof fn lemma_clmul_single(j: u64, k: u64)
    requires
        j < 64,
    ensures
        clmul(1u64 << j, k) == (k as u128) << j,
{
    lemma_clmul_pre_single(j, k, 64);
    lemma_clmul_pre_one(k, 64);
    assert(((k as u128) & (((1u128 << 64u64) - 1) as u128)) << j == (k as u128) << j) by (bit_vector)
        requires
            j < 64,
    ;
}

/// The reduction distributes over xor.
proof fn lemma_red2_linear(y1: u128, y2: u128)
    ensures
        red2(y1 ^ y2) == red2(y1) ^ red2(y2),
{
    assert(lo64(y1 ^ y2) == lo64(y1) ^ lo64(y2) && hi64(y1 ^ y2) == hi64(y1) ^ hi64(y2))
        by (bit_vector);
    lemma_dpow_linear(64, lo64(y1), lo64(y2));
    crate::model::lemma_xor_facts(dpow(64, lo64(y1)), dpow(64, lo64(y2)), hi64(y1), hi64(y2));
}

/// Shifting an accumulator up one bit advances its reduction one inverse
/// step, as long as no bit falls off the top.
proof fn lemma_red2_shift1(y: u128)
    requires
        y >> 127 == 0,
    ensures
        red2(y << 1) == ustep(red2(y)),
{
    let l = lo64(y);
    let h = hi64(y);
    let cpol: u64 = 0x34D9_2653_5897_936B;
    let corr: u64 = if (l >> 63) & 1 == 1 {
        cpol
    } else {
        0
    };
    // pair decomposition of the shifted accumulator, and the truncating
    // shift as one inverse step plus the generator correction
    assert(lo64(y << 1) == l << 1 && hi64(y << 1) == ((h << 1) ^ (l >> 63)) && h >> 63 == 0 && l
        << 1 == ustep(l) ^ corr && ustep(h) == h << 1) by (bit_vector)
        requires
            l == lo64(y) && h == hi64(y) && y >> 127 == 0 && corr == (if (l >> 63) & 1 == 1 {
                0x34D9_2653_5897_936Bu64
            } else {
                0u64
            }),
    ;
    // the correction is the register one inverse step before zero distance:
    // 64 division steps bring it back to one
    assert(dpow(64, 0x34D9_2653_5897_936Bu64) == 1u64) by (bit_vector);
    lemma_dpow_zero(64);
    lemma_dpow_linear(64, ustep(l), corr);
    crate::model::lemma_dpow_ustep_commute(64, l);
    lemma_ustep_linear(dpow(64, l), h);
    let a = ustep(dpow(64, l));
    let c = dpow(64, corr);
    let z = a ^ (h << 1);
    assert((a ^ c) ^ ((h << 1) ^ (l >> 63)) == z ^ (c ^ (l >> 63)) && c ^ (l >> 63) == 0u64 && z
        ^ 0u64 == z) by (bit_vector)
        requires
            z == a ^ (h << 1) && c == (if (l >> 63) & 1 == 1 {
                1u64
            } else {
                0u64
            }),
    ;
}

/// The inverse step distributes over xor.
proof fn lemma_ustep_linear(a: u64, b: u64)
    by (bit_vector)
    ensures
        ustep(a ^ b) == ustep(a) ^ ustep(b),
{
}

/// Reduction of a shifted constant: each shift is one inverse step.
proof fn lemma_red2_shiftj(k: u64, j: nat)
    requires
        j <= 63,
    ensures
        red2((k as u128) << (j as u64)) == upow(j, dpow(64, k)),
    decreases j,
{
    if j == 0 {
        let d = dpow(64, k);
        assert(lo64((k as u128) << 0u64) == k && hi64((k as u128) << 0u64) == 0u64 && d ^ 0u64
            == d) by (bit_vector);
    } else {
        lemma_red2_shiftj(k, (j - 1) as nat);
        let jm = (j - 1) as u64;
        assert(((k as u128) << jm) >> 127 == 0 && (((k as u128) << jm) << 1) == ((k as u128) << (jm
            + 1))) by (bit_vector)
            requires
                jm <= 62,
        ;
        lemma_red2_shift1((k as u128) << jm);
    }
}

/// The basis fact: multiplying a one-bit register by a coefficient whose
/// 64-step image equals the `t`-step image of one advances that bit by `t`
/// division steps.
proof fn lemma_basis(j: u64, k: u64, t: nat)
    requires
        j < 64,
        dpow(64, k) == dpow(t, 1),
    ensures
        red2(clmul(1u64 << j, k)) == dpow(t, 1u64 << j),
{
    lemma_clmul_single(j, k);
    lemma_red2_shiftj(k, j as nat);
    lemma_upow_one(j as nat);
    lemma_dpow_upow_commute(t, j as nat, 1);
}

/// The folding semantics: for any register `a`, the carryless product with
/// coefficient `k` reduces to `t` division steps of `a`, provided the
/// 64-step image of `k` equals the `t`-step image of one.
proof fn lemma_fold_sem_rec(a: u64, k: u64, t: nat, i: nat)
    requires
        i <= 64,
        i < 64 ==> a >> (i as u64) == 0,
        dpow(64, k) == dpow(t, 1),
    ensures
        red2(clmul(a, k)) == dpow(t, a),
    decreases i,
{
    if i == 0 {
        lemma_clmul_pre_zero(k, 64);
        assert(red2(0u128) == dpow(64, lo64(0u128)) ^ hi64(0u128));
        assert(a == 0 && lo64(0u128) == 0u64 && hi64(0u128) == 0u64 && 0u64 ^ 0u64 == 0u64)
            by (bit_vector)
            requires
                a >> 0u64 == 0,
        ;
        lemma_dpow_zero(64);
        lemma_dpow_zero(t);
    } else {
        let im = (i - 1) as u64;
        let rest = a & !(1u64 << im);
        let bit = a & (1u64 << im);
        assert(rest >> im == 0 && a == rest ^ bit && (bit == 0 || bit == 1u64 << im))
            by (bit_vector)
            requires
                im <= 63 && rest == a & !(1u64 << im) && bit == a & (1u64 << im) && (im < 63 ==> a
                    >> (im + 1) == 0),
        ;
        lemma_fold_sem_rec(rest, k, t, (i - 1) as nat);
        lemma_clmul_pre_linear(rest, bit, k, 64);
        lemma_red2_linear(clmul(rest, k), clmul(bit, k));
        lemma_dpow_linear(t, rest, bit);
        if bit == 0 {
            lemma_clmul_pre_zero(k, 64);
            lemma_dpow_zero(64);
            lemma_dpow_zero(t);
            let dr = dpow(t, rest);
            let rr = red2(clmul(rest, k));
            assert(lo64(0u128) == 0u64 && hi64(0u128) == 0u64 && 0u64 ^ 0u64 == 0u64 && dr ^ 0u64
                == dr && rr ^ 0u64 == rr) by (bit_vector);
        } else {
            lemma_basis(im, k, t);
        }
    }
}

/// The folding semantics for a full 64-bit register.
proof fn lemma_fold_sem(a: u64, k: u64, t: nat)
    requires
        dpow(64, k) == dpow(t, 1),
    ensures
        red2(clmul(a, k)) == dpow(t, a),
{
    lemma_fold_sem_rec(a, k, t, 64);
}

/// The portable 128-bit lane implementing the folding capability set.  Its
/// operations are specified exactly by [`clmul`]; any hardware lane with the
/// same contracts is interchangeable with it.
#[derive(Clone, Copy)]
pub struct Simd {
    /// The high 64 bits of the lane.
    pub hi: u64,
    /// The low 64 bits of the lane.
    pub lo: u64,
}

impl Simd {
    /// This scalar lane needs no hardware feature; it is always available.
    pub fn is_supported() -> (r: bool)
        ensures
            r == true,
    {
        true
    }

    /// Construct a lane from its high and low halves.
    pub fn new(high: u64, low: u64) -> (r: Simd)
        ensures
            r.hi == high,
            r.lo == low,
    {
        Simd { hi: high, lo: low }
    }

    /// Lane-wise xor.
    pub fn xor(self, other: Simd) -> (r: Simd)
        ensures
            r.hi == self.hi ^ other.hi,
            r.lo == self.lo ^ other.lo,
    {
        Simd { hi: self.hi ^ other.hi, lo: self.lo ^ other.lo }
    }

    /// Advance the accumulator by sixteen bytes of folding distance: the two
    /// cross carryless products of the accumulator halves with the
    /// coefficient halves, xored together.
    pub fn fold_16(self, coeff: Simd) -> (r: Simd)
        ensures
            r.hi == hi64(clmul(self.hi, coeff.lo) ^ clmul(self.lo, coeff.hi)),
            r.lo == lo64(clmul(self.hi, coeff.lo) ^ clmul(self.lo, coeff.hi)),
    {
        let p = clmul_x(self.hi, coeff.lo) ^ clmul_x(self.lo, coeff.hi);
        Simd { hi: (p >> 64) as u64, lo: p as u64 }
    }

    /// Advance the accumulator by eight bytes: the carryless product of the
    /// low half with a single coefficient, combined with the accumulator
    /// shifted right by eight bytes.
    pub fn fold_8(self, coeff: u64) -> (r: Simd)
        ensures
            r.hi == hi64(clmul(self.lo, coeff)),
            r.lo == lo64(clmul(self.lo, coeff)) ^ self.hi,
    {
        let p = clmul_x(self.lo, coeff);
        Simd { hi: (p >> 64) as u64, lo: (p as u64) ^ self.hi }
    }

    /// The Barrett reduction recipe: multiply the low half by `mu`, keep the
    /// low 64 bits, multiply those by `poly`, xor with the accumulator, and
    /// return the high 64 bits xored with the intermediate product.
    pub fn barrett(self, poly: u64, mu: u64) -> (r: u64)
        ensures
            r == barrett_spec(self.hi, self.lo, poly, mu),
    {
        let t1 = clmul_x(self.lo, mu) as u64;
        let h = (clmul_x(t1, poly) >> 64) as u64;
        (self.hi ^ h) ^ t1
    }
}

/// Sixteen literal bytes pending in an accumulator pair denote the register
/// reached by consuming them.
proof fn lemma_seed(s: u64, block: Seq<u8>)
    requires
        block.len() == 16,
    ensures
        crc_bytes(s, block) == redp(le64(block.subrange(8, 16)), le64(block.subrange(0, 8)) ^ s),
{
    let b0 = block.subrange(0, 8);
    let b1 = block.subrange(8, 16);
    assert(block =~= b0 + b1);
    lemma_crc_concat(s, b0, b1);
    lemma_crc_le(s, b0);
    lemma_crc_le(dpow(64, s ^ le64(b0)), b1);
    let l0 = le64(b0);
    let l1 = le64(b1);
    crate::model::lemma_xor_facts(s, l0, 0, 0);
    let d = dpow(64, l0 ^ s);
    crate::model::lemma_xor_facts(d, l1, 0, 0);
}

/// Peeling the low byte: 64 division steps of the shifted-down register.
proof fn lemma_peel(v: u64)
    ensures
        dpow(64, v >> 8) == dpow(8, dpow(64, v)) ^ dpow(8, dpow(64, v & 0xFF)),
{
    assert(v == ((v >> 8) << 8) ^ (v & 0xFF) && (v >> 8) <= (0xFFFF_FFFF_FFFF_FFFFu64 >> 8))
        by (bit_vector);
    lemma_dpow_linear(64, (v >> 8) << 8, v & 0xFF);
    lemma_dpow_add(8, 56, (v >> 8) << 8);
    lemma_dpow_shift(8, v >> 8);
    // dpow(64, v) == dpow(56, v >> 8) ^ dpow(64, v & 0xFF)
    crate::model::lemma_xor_facts(dpow(56, v >> 8), dpow(64, v & 0xFF), 0, 0);
    // so dpow(56, v >> 8) == dpow(64, v) ^ dpow(64, v & 0xFF)
    lemma_dpow_add(56, 8, v >> 8);
    lemma_dpow_linear(8, dpow(64, v), dpow(64, v & 0xFF));
}

/// A small register placed in the top byte lane reduces to eight steps of
/// itself.
proof fn lemma_top_lane(c: u64)
    requires
        c < 256,
    ensures
        dpow(64, c << 56) == dpow(8, c),
{
    assert(c <= (0xFFFF_FFFF_FFFF_FFFFu64 >> 56)) by (bit_vector)
        requires
            c < 256,
    ;
    lemma_dpow_add(56, 8, c << 56);
    lemma_dpow_shift(56, c);
}

/// One sixteen-byte fold step consumes one block.
proof fn lemma_fold16_step(h: u64, l: u64, bh: u64, bl: u64, klo: u64, khi: u64, block: Seq<u8>)
    requires
        dpow(64, klo) == dpow(128, 1),
        dpow(64, khi) == dpow(192, 1),
        block.len() == 16,
        le64(block.subrange(0, 8)) == bl,
        le64(block.subrange(8, 16)) == bh,
    ensures
        redp(
            hi64(clmul(h, klo) ^ clmul(l, khi)) ^ bh,
            lo64(clmul(h, klo) ^ clmul(l, khi)) ^ bl,
        ) == crc_bytes(redp(h, l), block),
{
    let p = clmul(h, klo) ^ clmul(l, khi);
    let s = redp(h, l);
    lemma_seed(s, block);
    // crc_bytes(s, block) == redp(bh, bl ^ s)
    lemma_red2_linear(clmul(h, klo), clmul(l, khi));
    lemma_fold_sem(h, klo, 128);
    lemma_fold_sem(l, khi, 192);
    // red2(p) == dpow(128, h) ^ dpow(192, l)
    lemma_dpow_linear(64, lo64(p), bl);
    lemma_dpow_linear(64, bl, s);
    lemma_dpow_linear(64, dpow(64, l), h);
    lemma_dpow_add(64, 64, l);
    lemma_dpow_linear(64, dpow(128, l), dpow(64, h));
    lemma_dpow_add(128, 64, l);
    lemma_dpow_add(64, 64, h);
    let t1 = dpow(128, h);
    let t2 = dpow(192, l);
    let t3 = dpow(64, bl);
    assert(red2p(hi64(p) ^ bh, lo64(p) ^ bl) == red2p(bh, bl ^ s)) by {
        assert(dpow(64, lo64(p) ^ bl) == dpow(64, lo64(p)) ^ t3);
        assert(dpow(64, lo64(p)) ^ hi64(p) == t1 ^ t2);
        assert(dpow(64, bl ^ s) == t3 ^ dpow(64, s));
        assert(dpow(64, s) == t2 ^ t1) by {
            assert(dpow(64, s) == dpow(64, dpow(128, l)) ^ dpow(64, dpow(64, h)));
            assert(dpow(64, dpow(128, l)) == dpow(192, l));
            assert(dpow(64, dpow(64, h)) == dpow(128, h));
            crate::model::lemma_xor_facts(t2, t1, 0, 0);
        }
        let lp = dpow(64, lo64(p));
        let hp = hi64(p);
        assert(((lp ^ t3) ^ (hp ^ bh)) == ((lp ^ hp) ^ t3) ^ bh && ((t3 ^ (t2 ^ t1)) ^ bh) == (((
        t1 ^ t2) ^ t3) ^ bh)) by (bit_vector);
    }
}

/// One tail byte folded through the accumulator consumes that byte.
proof fn lemma_tail_byte(h: u64, l: u64, b: u8)
    ensures
        redp(
            (h >> 8) | ((b as u64) << 56),
            ((l >> 8) | ((h & 0xFF) << 56)) ^ dpow(8, l & 0xFF),
        ) == update_byte(redp(h, l), b),
{
    let zb = b as u64;
    let nh = (h >> 8) | (zb << 56);
    let nl = ((l >> 8) | ((h & 0xFF) << 56)) ^ dpow(8, l & 0xFF);
    let hc = h & 0xFF;
    let lc = l & 0xFF;
    let t = dpow(8, lc);
    // disjoint bit lanes: the ors are xors
    assert(nh == (h >> 8) ^ (zb << 56) && nl == ((l >> 8) ^ (hc << 56)) ^ t && hc < 256 && zb
        < 256) by (bit_vector)
        requires
            nh == (h >> 8) | (zb << 56) && nl == ((l >> 8) | ((h & 0xFF) << 56)) ^ t && hc == h
                & 0xFF && lc == l & 0xFF && zb < 256,
    ;
    lemma_dpow_linear(64, (l >> 8) ^ (hc << 56), t);
    lemma_dpow_linear(64, l >> 8, hc << 56);
    lemma_peel(l);
    lemma_top_lane(hc);
    // dpow(64, t) and dpow(8, dpow(64, lc)) are both 72 steps of the low byte
    lemma_dpow_add(8, 64, lc);
    lemma_dpow_add(64, 8, lc);
    let a1 = dpow(8, dpow(64, l));
    let a2 = dpow(8, dpow(64, lc));
    let a3 = dpow(8, hc);
    crate::model::lemma_xor_facts(a1, a2, a3, 0);
    assert(dpow(64, nl) == a1 ^ a3) by {
        assert(dpow(64, nl) == (dpow(64, l >> 8) ^ dpow(64, hc << 56)) ^ dpow(64, t));
        assert(dpow(64, l >> 8) == a1 ^ a2);
        assert(dpow(64, hc << 56) == a3);
        assert(dpow(64, t) == a2);
    }
    // full new register
    lemma_dpow_linear(64, a1 ^ a3, nh);
    lemma_dpow_linear(64, a1, a3);
    lemma_dpow_linear(64, h >> 8, zb << 56);
    lemma_peel(h);
    lemma_top_lane(zb);
    lemma_dpow_add(8, 64, hc);
    lemma_dpow_add(64, 8, hc);
    lemma_dpow_add(8, 64, dpow(64, l));
    lemma_dpow_add(64, 8, dpow(64, l));
    let b1 = dpow(8, dpow(64, dpow(64, l)));
    let b2 = dpow(8, dpow(64, hc));
    let b3 = dpow(8, dpow(64, h));
    let b4 = dpow(8, zb);
    crate::model::lemma_xor_facts(b1, b2, b3, b4);
    lemma_dpow_linear(8, redp(h, l), zb);
    lemma_dpow_linear(8, dpow(64, dpow(64, l)), dpow(64, h));
    lemma_dpow_linear(64, dpow(64, l), h);
    assert(update_byte(redp(h, l), b) == (b1 ^ b3) ^ b4) by {
        assert(dpow(8, redp(h, l) ^ zb) == dpow(8, redp(h, l)) ^ b4);
        assert(redp(h, l) == dpow(64, dpow(64, l)) ^ dpow(64, h));
        assert(dpow(8, redp(h, l)) == b1 ^ b3);
    }
    assert(redp(nh, nl) == (b1 ^ b3) ^ b4) by {
        assert(redp(nh, nl) == dpow(64, (a1 ^ a3) ^ nh));
        assert(dpow(64, (a1 ^ a3) ^ nh) == (dpow(64, a1) ^ dpow(64, a3)) ^ dpow(64, nh));
        assert(dpow(64, a1) == b1);
        assert(dpow(64, a3) == b2);
        assert(dpow(64, nh) == (b3 ^ b2) ^ b4) by {
            assert(dpow(64, nh) == dpow(64, h >> 8) ^ dpow(64, zb << 56));
            assert(dpow(64, h >> 8) == b3 ^ b2);
            assert(dpow(64, zb << 56) == b4);
        }
    }
}

/// Folding the accumulator by eight bytes moves it one fold distance closer
/// to the final register.
proof fn lemma_finalize(h: u64, l: u64, klo: u64)
    requires
        dpow(64, klo) == dpow(128, 1),
    ensures
        red2p(hi64(clmul(l, klo)), lo64(clmul(l, klo)) ^ h) == redp(h, l),
{
    let c = clmul(l, klo);
    lemma_fold_sem(l, klo, 128);
    lemma_dpow_linear(64, lo64(c), h);
    lemma_dpow_linear(64, dpow(64, l), h);
    lemma_dpow_add(64, 64, l);
    crate::model::lemma_xor_facts(dpow(64, lo64(c)), dpow(64, h), hi64(c), 0);
}

/// Folding update: the register after consuming `bytes` from `state`.
///
/// Inputs shorter than one block go to the table engine; the state layout is
/// identical across engines, so the result is the same.
pub fn update(state: u64, bytes: &[u8]) -> (r: u64)
    ensures
        r == crc_bytes(state, bytes@),
{
    let n = bytes.len();
    if n < 16 {
        return table::update(state, bytes);
    }
    let klo = table::dpow_x(64, 1);
    let khi = table::dpow_x(128, 1);
    proof {
        lemma_dpow_add(64, 64, 1);
        lemma_dpow_add(128, 64, 1);
    }
    let coeff = Simd::new(khi, klo);
    let lo = table::read_le8(bytes, 0) ^ state;
    let hi = table::read_le8(bytes, 8);
    let mut acc = Simd::new(hi, lo);
    let mut i: usize = 16;
    proof {
        lemma_seed(state, bytes@.subrange(0, 16));
        assert(bytes@.subrange(0, 16).subrange(0, 8) =~= bytes@.subrange(0, 8));
        assert(bytes@.subrange(0, 16).subrange(8, 16) =~= bytes@.subrange(8, 16));
    }
    while n - i >= 16
        invariant
            16 <= i <= n,
            n == bytes@.len(),
            dpow(64, coeff.lo) == dpow(128, 1),
            dpow(64, coeff.hi) == dpow(192, 1),
            redp(acc.hi, acc.lo) == crc_bytes(state, bytes@.subrange(0, i as int)),
        decreases n - i,
    {
        let bl = table::read_le8(bytes, i);
        let bh = table::read_le8(bytes, i + 8);
        proof {
            let block = bytes@.subrange(i as int, i as int + 16);
            assert(bytes@.subrange(0, i as int + 16) =~= bytes@.subrange(0, i as int) + block);
            lemma_crc_concat(state, bytes@.subrange(0, i as int), block);
            assert(block.subrange(0, 8) =~= bytes@.subrange(i as int, i as int + 8));
            assert(block.subrange(8, 16) =~= bytes@.subrange(i as int + 8, i as int + 16));
            lemma_fold16_step(acc.hi, acc.lo, bh, bl, coeff.lo, coeff.hi, block);
        }
        acc = acc.fold_16(coeff).xor(Simd::new(bh, bl));
        i = i + 16;
    }
    while i < n
        invariant
            i <= n,
            n == bytes@.len(),
            dpow(64, coeff.lo) == dpow(128, 1),
            redp(acc.hi, acc.lo) == crc_bytes(state, bytes@.subrange(0, i as int)),
        decreases n - i,
    {
        let b = bytes[i];
        let t = table::dpow_x(8, acc.lo & 0xFF);
        proof {
            lemma_tail_byte(acc.hi, acc.lo, bytes@[i as int]);
            lemma_crc_snoc(state, bytes@.subrange(0, i as int), bytes@[i as int]);
            assert(bytes@.subrange(0, i as int + 1) =~= bytes@.subrange(0, i as int).push(
                bytes@[i as int],
            ));
        }
        let new_lo = ((acc.lo >> 8) | ((acc.hi & 0xFF) << 56)) ^ t;
        let new_hi = (acc.hi >> 8) | ((b as u64) << 56);
        acc = Simd::new(new_hi, new_lo);
        i = i + 1;
    }
    proof {
        lemma_finalize(acc.hi, acc.lo, coeff.lo);
        assert(bytes@.subrange(0, n as int) =~= bytes@);
    }
    let f = acc.fold_8(klo);
    let reduced = table::dpow_x(64, f.lo);
    reduced ^ f.hi
}

} // verus!
