//! The table-driven CRC engine.
//!
//! Always available, hardware-independent, and used both as the universal
//! fallback and as the correctness oracle: its result is proved equal to
//! [`crate::model::crc_bytes`] for every input.  It consumes eight bytes per
//! iteration through eight 256-entry lookup tables (slice-by-8) and finishes
//! the remainder one byte at a time through the first table.

use vstd::prelude::*;

use crate::model::crc_bytes;
use crate::model::crc_step;
use crate::model::dpow;
use crate::model::le64;
use crate::model::lemma_crc_concat;
use crate::model::lemma_crc_le;
use crate::model::lemma_crc_snoc;
use crate::model::lemma_dpow_add;
use crate::model::lemma_dpow_linear;
use crate::model::lemma_dpow_shift;
use crate::model::lemma_le64_snoc;
use crate::model::update_byte;
use crate::model::POLY;
use crate::model::RPOLY;

verus! {

/// One polynomial long-division step in normal bit order, as performed by
/// the offline generator of the lookup-table source data.
pub fn long_div_step(m: u64) -> (r: u64)
    ensures
        r == (m << 1) ^ (if m >> 63 != 0 {
            POLY
        } else {
            0u64
        }),
{
    m << 1 ^ if m >> 63 != 0 {
        POLY
    } else {
        0
    }
}

/// One reflected division step, executable form of [`crc_step`].
pub(crate) fn step_x(s: u64) -> (r: u64)
    ensures
        r == crc_step(s),
{
    if s & 1 == 1 {
        (s >> 1) ^ RPOLY
    } else {
        s >> 1
    }
}

/// `k` reflected division steps, executable form of [`dpow`].
pub(crate) fn dpow_x(k: usize, v: u64) -> (r: u64)
    ensures
        r == dpow(k as nat, v),
{
    let mut s: usize = 0;
    let mut acc: u64 = v;
    while s < k
        invariant
            s <= k,
            acc == dpow(s as nat, v),
        decreases k - s,
    {
        proof {
            lemma_dpow_add(s as nat, 1, v);
            let w = dpow(s as nat, v);
            assert(dpow(0, crc_step(w)) == crc_step(w));
            assert(dpow(1, w) == dpow(0, crc_step(w)));
        }
        acc = step_x(acc);
        s = s + 1;
    }
    acc
}

/// The slice-by-8 lookup tables.  Entry `256*k + b` holds the register
/// reached from `b` by `8*k + 8` reflected division steps, which is the
/// bit-reversed form of the offline generator's long-division recipe.
pub struct Tables {
    entries: Vec<u64>,
}

impl Tables {
    /// Every entry agrees with the division-step model.
    pub closed spec fn wf(self) -> bool {
        &&& self.entries.len() == 2048
        &&& forall|i: int|
            0 <= i < 2048 ==> #[trigger] self.entries[i] == dpow(
                (8 * (i / 256) + 8) as nat,
                (i % 256) as u64,
            )
    }

    /// Generate the tables from the division-step model itself.
    pub fn new() -> (r: Tables)
        ensures
            r.wf(),
    {
        let mut entries: Vec<u64> = Vec::new();
        let mut k: usize = 0;
        while k < 8
            invariant
                k <= 8,
                entries.len() == 256 * k,
                forall|i: int|
                    0 <= i < entries.len() ==> #[trigger] entries[i] == dpow(
                        (8 * (i / 256) + 8) as nat,
                        (i % 256) as u64,
                    ),
            decreases 8 - k,
        {
            let mut b: usize = 0;
            while b < 256
                invariant
                    k < 8,
                    b <= 256,
                    entries.len() == 256 * k + b,
                    forall|i: int|
                        0 <= i < entries.len() ==> #[trigger] entries[i] == dpow(
                            (8 * (i / 256) + 8) as nat,
                            (i % 256) as u64,
                        ),
                decreases 256 - b,
            {
                let v = dpow_x(8 * k + 8, b as u64);
                proof {
                    let i = entries.len() as int;
                    assert(i / 256 == k && i % 256 == b) by (nonlinear_arith)
                        requires
                            i == 256 * k + b && 0 <= b < 256 && 0 <= k,
                    ;
                }
                entries.push(v);
                b = b + 1;
            }
            k = k + 1;
        }
        Tables { entries }
    }

    /// Read entry `b` of table `k`.
    fn at(&self, k: usize, b: u64) -> (r: u64)
        requires
            self.wf(),
            k < 8,
            b < 256,
        ensures
            r == dpow((8 * k + 8) as nat, b),
    {
        proof {
            let i = (256 * k + b) as int;
            assert(i / 256 == k && i % 256 == b) by (nonlinear_arith)
                requires
                    i == 256 * k + b && 0 <= b < 256 && 0 <= k,
            ;
        }
        self.entries[256 * k + (b as usize)]
    }
}

/// Read eight bytes starting at `i` as a little-endian integer.
pub(crate) fn read_le8(bytes: &[u8], i: usize) -> (r: u64)
    requires
        i + 8 <= bytes@.len(),
    ensures
        r == le64(bytes@.subrange(i as int, i as int + 8)),
{
    let n = bytes.len();
    let mut j: usize = 0;
    let mut acc: u64 = 0;
    while j < 8
        invariant
            j <= 8,
            n == bytes@.len(),
            i + 8 <= n,
            acc == le64(bytes@.subrange(i as int, i as int + j)),
        decreases 8 - j,
    {
        let b = bytes[i + j];
        proof {
            let pre = bytes@.subrange(i as int, i as int + j);
            assert(bytes@.subrange(i as int, i as int + j + 1) =~= pre.push(bytes@[i + j]));
            lemma_le64_snoc(pre, bytes@[i + j]);
        }
        acc = acc ^ ((b as u64) << (8 * j));
        j = j + 1;
    }
    acc
}

/// The xor of the table entries selected by the byte lanes of `x`, low lane
/// through the highest-distance table first.
spec fn slice_sum(x: u64, m: nat) -> u64
    decreases m,
{
    if m == 0 {
        0
    } else {
        dpow(8 * m, x & 0xFF) ^ slice_sum(x >> 8, (m - 1) as nat)
    }
}

/// Sixty-four division steps of `x` equal the xor of eight table lookups.
proof fn lemma_slice_sum(x: u64, m: nat)
    requires
        m <= 8,
        m < 8 ==> x < (1u64 << (8 * m as u64)),
    ensures
        dpow(8 * m, x) == slice_sum(x, m),
    decreases m,
{
    if m == 0 {
        assert(x < (1u64 << 0u64) ==> x == 0u64) by (bit_vector);
    } else {
        assert(x == (x & 0xFF) ^ ((x >> 8) << 8) && (x >> 8) <= (0xFFFF_FFFF_FFFF_FFFFu64 >> 8))
            by (bit_vector);
        let mm = (m - 1) as u64;
        assert(mm < 8 ==> (x >> 8) < (1u64 << (8 * mm))) by (bit_vector)
            requires
                mm <= 7 && (mm + 1 < 8 ==> x < (1u64 << (8 * (mm + 1)))),
        ;
        // dpow(8m, x) = dpow(8(m-1), dpow(8, x))
        lemma_dpow_add(8, 8 * (m - 1) as nat, x);
        // dpow(8, x) = dpow(8, x & 0xFF) ^ (x >> 8)
        lemma_dpow_linear(8, x & 0xFF, (x >> 8) << 8);
        lemma_dpow_shift(8, x >> 8);
        // dpow(8(m-1), _) distributes
        lemma_dpow_linear(8 * (m - 1) as nat, dpow(8, x & 0xFF), x >> 8);
        // dpow(8(m-1), dpow(8, x & 0xFF)) == dpow(8m, x & 0xFF)
        lemma_dpow_add(8, 8 * (m - 1) as nat, x & 0xFF);
        lemma_slice_sum(x >> 8, (m - 1) as nat);
    }
}

/// Consuming one byte with the first table.
proof fn lemma_table_byte(s: u64, b: u8)
    ensures
        update_byte(s, b) == (s >> 8) ^ dpow(8, (s ^ (b as u64)) & 0xFF),
{
    let v = s ^ (b as u64);
    assert(v == (v & 0xFF) ^ ((v >> 8) << 8) && (v >> 8) <= (0xFFFF_FFFF_FFFF_FFFFu64 >> 8) && (v
        >> 8) == (s >> 8)) by (bit_vector)
        requires
            v == s ^ (b as u64) && (b as u64) < 256,
    ;
    lemma_dpow_linear(8, v & 0xFF, (v >> 8) << 8);
    lemma_dpow_shift(8, v >> 8);
    let d = dpow(8, v & 0xFF);
    crate::model::lemma_xor_facts(d, s >> 8, 0, 0);
}

/// Table-driven update: the register after consuming `bytes` from `state`.
pub fn update(state: u64, bytes: &[u8]) -> (r: u64)
    ensures
        r == crc_bytes(state, bytes@),
{
    let tables = Tables::new();
    update_with(&tables, state, bytes)
}

/// Table-driven update against a caller-supplied table set.
pub(crate) fn update_with(tables: &Tables, state: u64, bytes: &[u8]) -> (r: u64)
    requires
        tables.wf(),
    ensures
        r == crc_bytes(state, bytes@),
{
    let n = bytes.len();
    let mut s: u64 = state;
    let mut i: usize = 0;
    proof {
        assert(bytes@.subrange(0, 0) =~= Seq::<u8>::empty());
    }
    while n - i >= 8
        invariant
            i <= n,
            n == bytes@.len(),
            tables.wf(),
            s == crc_bytes(state, bytes@.subrange(0, i as int)),
        decreases n - i,
    {
        let x = read_le8(bytes, i) ^ s;
        let ghost block = bytes@.subrange(i as int, i as int + 8);
        proof {
            lemma_crc_concat(state, bytes@.subrange(0, i as int), block);
            assert(bytes@.subrange(0, i as int + 8) =~= bytes@.subrange(0, i as int) + block);
            lemma_crc_le(s, block);
            let lb = le64(block);
            lemma_slice_sum(x, 8);
            let ss8 = slice_sum(x, 8);
            assert(lb ^ s == s ^ lb && x >> (8 * 0u64) == x && 0u64 ^ ss8 == ss8) by (bit_vector);
        }
        let mut j: usize = 0;
        let mut acc: u64 = 0;
        while j < 8
            invariant
                j <= 8,
                i + 8 <= n,
                n == bytes@.len(),
                tables.wf(),
                acc ^ slice_sum(x >> (8 * j as u64), (8 - j) as nat) == slice_sum(x, 8),
            decreases 8 - j,
        {
            let c = (x >> (8 * j)) & 0xFF;
            proof {
                let xs = x >> (8 * j as u64);
                assert(c < 256 && xs & 0xFF == c && xs >> 8 == x >> (8 * (j + 1) as u64))
                    by (bit_vector)
                    requires
                        c == (x >> (8 * j as u64)) & 0xFF && xs == x >> (8 * j as u64) && j < 8,
                ;
                assert(slice_sum(xs, (8 - j) as nat) == dpow((8 * (8 - j)) as nat, xs & 0xFF)
                    ^ slice_sum(xs >> 8, (7 - j) as nat));
            }
            let e = tables.at(7 - j, c);
            proof {
                let ssr = slice_sum(x >> (8 * (j + 1) as u64), (7 - j) as nat);
                crate::model::lemma_xor_facts(acc, e, ssr, 0);
                assert(8 * (7 - j) + 8 == 8 * (8 - j));
            }
            acc = acc ^ e;
            j = j + 1;
        }
        proof {
            assert(slice_sum(x >> (8 * 8u64), 0) == 0);
            crate::model::lemma_xor_facts(acc, 0, 0, 0);
        }
        s = acc;
        i = i + 8;
    }
    while i < n
        invariant
            i <= n,
            n == bytes@.len(),
            tables.wf(),
            s == crc_bytes(state, bytes@.subrange(0, i as int)),
        decreases n - i,
    {
        let b = bytes[i];
        let c = (s ^ (b as u64)) & 0xFF;
        proof {
            assert(c < 256) by (bit_vector)
                requires
                    c == (s ^ (b as u64)) & 0xFF,
            ;
            lemma_table_byte(s, b);
            lemma_crc_snoc(state, bytes@.subrange(0, i as int), bytes@[i as int]);
            assert(bytes@.subrange(0, i as int + 1) =~= bytes@.subrange(0, i as int).push(
                bytes@[i as int],
            ));
        }
        let e = tables.at(0, c);
        s = (s >> 8) ^ e;
        i = i + 1;
    }
    proof {
        assert(bytes@.subrange(0, n as int) =~= bytes@);
    }
    s
}

} // verus!
