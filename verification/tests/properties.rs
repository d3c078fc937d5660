//! Behavioural properties of the digest: backend equivalence, streaming,
//! clone independence, and fidelity to the published CRC-64/NVME
//! parameterization, on deterministic pseudo-random buffers.

use crc64fast_nvme::Digest;
use crc64fast_nvme::Simd;

const CRC_NVME: crc::Algorithm<u64> = crc::Algorithm {
    width: 64,
    poly: 0xAD93D23594C93659,
    init: 0xFFFFFFFFFFFFFFFF,
    refin: true,
    refout: true,
    xorout: 0xFFFFFFFFFFFFFFFF,
    check: 0xae8b14860a799888,
    residue: 0x0000000000000000,
};

/// A small deterministic pseudo-random generator for test buffers.
struct Lcg(u64);

impl Lcg {
    fn next(&mut self) -> u64 {
        self.0 = self
            .0
            .wrapping_mul(6364136223846793005)
            .wrapping_add(1442695040888963407);
        self.0
    }

    fn buffer(&mut self, len: usize) -> Vec<u8> {
        (0..len).map(|_| (self.next() >> 56) as u8).collect()
    }
}

/// The reference bit-by-bit computation: width 64, polynomial
/// 0xAD93D23594C93659, all-ones init, reflected input and output, all-ones
/// final xor.  Reflection turns each division step into a right shift with
/// the bit-reversed polynomial.
fn reference_crc(bytes: &[u8]) -> u64 {
    const RPOLY: u64 = 0x9A6C9329AC4BC9B5;
    let mut state: u64 = !0;
    for &b in bytes {
        state ^= b as u64;
        for _ in 0..8 {
            state = if state & 1 == 1 {
                (state >> 1) ^ RPOLY
            } else {
                state >> 1
            };
        }
    }
    !state
}

fn sum_of(bytes: &[u8], table: bool) -> u64 {
    let mut digest = if table {
        Digest::new_table()
    } else {
        Digest::new()
    };
    digest.write(bytes);
    digest.sum64()
}

#[test]
fn equivalent_to_crc() {
    let mut rng = Lcg(0x5eed);
    for &len in &[0usize, 1, 7, 8, 15, 16, 17, 31, 32, 100, 4096, 65536] {
        let buf = rng.buffer(len);
        let crc = crc::Crc::<u64>::new(&CRC_NVME);
        let mut digest = crc.digest();
        digest.update(&buf);
        let expected = digest.finalize();
        assert_eq!(sum_of(&buf, false), expected, "len {}", len);
        assert_eq!(sum_of(&buf, true), expected, "table len {}", len);
        assert_eq!(reference_crc(&buf), expected, "reference len {}", len);
    }
}

#[test]
fn backend_equivalence() {
    let mut rng = Lcg(42);
    for len in 0..200usize {
        let buf = rng.buffer(len);
        assert_eq!(sum_of(&buf, false), sum_of(&buf, true), "len {}", len);
    }
    let big = rng.buffer(65536);
    assert_eq!(sum_of(&big, false), sum_of(&big, true));
}

#[test]
fn concatenation() {
    let mut rng = Lcg(7);
    let bytes = rng.buffer(300);
    let mut whole = Digest::new();
    whole.write(&bytes);
    for split in 0..=bytes.len() {
        let mut parts = Digest::new();
        let (left, right) = bytes.split_at(split);
        parts.write(left);
        parts.write(right);
        assert_eq!(whole.sum64(), parts.sum64(), "split {}", split);
    }
}

#[test]
fn state_cloning() {
    let mut rng = Lcg(99);
    let left = rng.buffer(777);
    let right = rng.buffer(333);
    let diverge = rng.buffer(50);

    let mut hasher_1 = Digest::new();
    hasher_1.write(&left);
    let mut hasher_2 = hasher_1.clone();
    hasher_1.write(&right);
    hasher_2.write(&right);
    assert_eq!(hasher_1.sum64(), hasher_2.sum64());

    // diverging after the snapshot matches two independent full histories
    let mut snap = Digest::new();
    snap.write(&left);
    let mut copy = snap.clone();
    snap.write(&right);
    copy.write(&diverge);
    let mut full_1 = Digest::new();
    full_1.write(&[left.clone(), right.clone()].concat());
    let mut full_2 = Digest::new();
    full_2.write(&[left.clone(), diverge.clone()].concat());
    assert_eq!(snap.sum64(), full_1.sum64());
    assert_eq!(copy.sum64(), full_2.sum64());
}

#[test]
fn barrett_reduction_matches_division_steps() {
    // the Barrett recipe computes the same register as 64 literal division
    // steps of the low half xored with the high half
    let mut rng = Lcg(0xba44e77);
    for _ in 0..200 {
        let hi = rng.next();
        let lo = rng.next();
        let lane = Simd::new(hi, lo);
        let got = lane.barrett(crc64fast_nvme::BARRETT_POLY, crc64fast_nvme::BARRETT_MU);
        let mut s = lo;
        for _ in 0..64 {
            s = if s & 1 == 1 {
                (s >> 1) ^ 0x9A6C9329AC4BC9B5
            } else {
                s >> 1
            };
        }
        assert_eq!(got, s ^ hi, "barrett mismatch on {:x}:{:x}", hi, lo);
    }
}

#[test]
fn fold_lane_is_supported() {
    assert!(Simd::is_supported());
}
