//! SIMD-style accelerated CRC-64/NVME computation, fully verified.
//!
//! The checksum of a byte stream is specified bit by bit by the reflected
//! polynomial-division model in [`model`]; both execution engines (the
//! table-driven engine and the carryless-multiplication folding engine) are
//! proved to return exactly [`model::crc_bytes`] on every input, and
//! therefore to agree with each other on every input.

use vstd::prelude::*;

mod folding;
mod model;
mod table;

pub use folding::Simd;
pub use folding::BARRETT_MU;
pub use folding::BARRETT_POLY;
pub use model::crc_bytes;
pub use table::long_div_step;

use model::lemma_crc_concat;

verus! {

/// The all-ones initial value of the running CRC register.
pub const INIT_STATE: u64 = 0xFFFF_FFFF_FFFF_FFFF;

/// The update routine a [`Digest`] is pinned to.  Every backend returns the
/// same value on the same input; the choice only affects throughput.
#[derive(Clone, Copy)]
pub enum Backend {
    /// The carryless-multiplication folding engine.
    Folding,
    /// The table-driven engine.
    Table,
}

/// Select the fastest available update routine: folding first, and the
/// always-available table engine if no folding lane is supported.
pub fn select_backend() -> (b: Backend)
    ensures
        b == Backend::Folding,
{
    if Simd::is_supported() {
        Backend::Folding
    } else {
        Backend::Table
    }
}

/// Represents an in-progress CRC-64 computation.
#[derive(Clone, Copy)]
pub struct Digest {
    backend: Backend,
    state: u64,
}

impl Digest {
    /// The running register, in complemented form.
    pub closed spec fn state_spec(self) -> u64 {
        self.state
    }

    /// The update routine this digest is pinned to.
    pub closed spec fn backend_spec(self) -> Backend {
        self.backend
    }

    /// Creates a new `Digest` with the fastest available backend.
    pub fn new() -> (r: Digest)
        ensures
            r.state_spec() == INIT_STATE,
            r.backend_spec() == Backend::Folding,
    {
        Digest { backend: select_backend(), state: INIT_STATE }
    }

    /// Creates a new `Digest` pinned to the table-driven engine, for
    /// deterministic cross-validation and benchmarking.
    pub fn new_table() -> (r: Digest)
        ensures
            r.state_spec() == INIT_STATE,
            r.backend_spec() == Backend::Table,
    {
        Digest { backend: Backend::Table, state: INIT_STATE }
    }

    /// Writes some data into the digest.  Whichever backend is selected, the
    /// new register is the one the division-step model prescribes, so any
    /// two digests given the same bytes agree.
    pub fn write(&mut self, bytes: &[u8])
        ensures
            final(self).state_spec() == crc_bytes(old(self).state_spec(), bytes@),
            final(self).backend_spec() == old(self).backend_spec(),
    {
        self.state = match self.backend {
            Backend::Folding => folding::update(self.state, bytes),
            Backend::Table => table::update(self.state, bytes),
        };
    }

    /// Computes the current CRC-64/NVME value: the complement of the
    /// running register.  Pure and repeatable.
    pub fn sum64(&self) -> (r: u64)
        ensures
            r == !self.state_spec(),
    {
        !self.state
    }
}

impl Default for Digest {
    /// The same digest as [`Digest::new`].
    fn default() -> (r: Digest)
        ensures
            r.state_spec() == INIT_STATE,
            r.backend_spec() == Backend::Folding,
    {
        Digest::new()
    }
}

/// The streaming law: writing a buffer in two parts, split anywhere, leaves
/// the register exactly as one write of the whole buffer does.
pub proof fn lemma_streaming(s: u64, bs: Seq<u8>, i: int)
    requires
        0 <= i <= bs.len(),
    ensures
        crc_bytes(crc_bytes(s, bs.take(i)), bs.skip(i)) == crc_bytes(s, bs),
{
    assert(bs =~= bs.take(i) + bs.skip(i));
    lemma_crc_concat(s, bs.take(i), bs.skip(i));
}

/// Clone independence: a snapshot of the register after a common prefix,
/// then diverging writes, gives each copy the same register as one
/// independent full history would.
pub proof fn lemma_clone_independence(s: u64, prefix: Seq<u8>, a: Seq<u8>, b: Seq<u8>)
    ensures
        crc_bytes(crc_bytes(s, prefix), a) == crc_bytes(s, prefix + a),
        crc_bytes(crc_bytes(s, prefix), b) == crc_bytes(s, prefix + b),
{
    lemma_crc_concat(s, prefix, a);
    lemma_crc_concat(s, prefix, b);
}

/// A freshly constructed digest sums to zero.
pub proof fn lemma_empty_input()
    ensures
        !crc_bytes(INIT_STATE, Seq::<u8>::empty()) == 0u64,
{
    assert(!0xFFFF_FFFF_FFFF_FFFFu64 == 0u64) by (bit_vector);
}

} // verus!
