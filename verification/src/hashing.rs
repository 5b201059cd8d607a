use vstd::prelude::*;

use crate::cell::GridCell;

verus! {

/// The digest that the hash scheme assigns to a frame identity together with
/// a cell address. It is left abstract: the scheme is not a content address,
/// only an in-process acceleration structure, and the one fact callers may
/// rely on is that equal inputs give equal digests.
pub uninterp spec fn digest_of(frame: u64, x: i64, y: i64, z: i64) -> u64;

/// A spatial hash: a 64-bit digest of a (frame identity, cell address) pair.
///
/// Equal digests do *not* guarantee that two entities share a cell —
/// collisions are possible, at the hash algorithm's natural collision rate.
/// Unequal digests do guarantee that the two (frame, cell) pairs differ, so
/// a spatial hash is sound for filtering out entities that cannot be
/// co-located.
#[derive(Clone, Copy, Debug, PartialEq, Eq, Structural, Hash)]
pub struct SpatialHash(u64);

/// Declares the hasher state of the outside hashing crate so that a partial
/// hash can hold it; the value is opaque to verification.
#[verifier::external_type_specification]
#[verifier::external_body]
pub struct ExAHasher(ahash::AHasher);

/// A halfway-computed [`SpatialHash`] that has mixed in the frame identity
/// only. Completing it with a cell address yields the final digest, and one
/// partial hash can be completed many times, so lookups against many cells
/// under the same frame amortize the frame-dependent work.
pub struct PartialSpatialHash {
    hasher: ahash::AHasher,
    frame: Ghost<u64>,
}

impl PartialSpatialHash {
    /// The frame identity this partial hash was seeded from.
    pub closed spec fn frame(self) -> u64 {
        self.frame@
    }

    /// Seed a partial hash from a frame identity alone.
    ///
    /// Relies on `ahash::AHasher::default` and `core::hash::Hasher::write_u64`:
    /// with the crate's rng features disabled, `AHasher::default()` uses fixed
    /// hard-coded keys, so the state depends on the written words alone.
    #[verifier::external_body]
    pub fn new(frame: u64) -> (r: PartialSpatialHash)
        ensures
            r.frame() == frame,
    {
        let mut hasher = ahash::AHasher::default();
        core::hash::Hasher::write_u64(&mut hasher, frame);
        PartialSpatialHash { hasher, frame: Ghost::new(frame) }
    }

    /// Complete the digest by mixing in a cell address. The partial state is
    /// cloned, not consumed, so it can be reused for further cells.
    ///
    /// Relies on `ahash::AHasher`'s `Clone`, `core::hash::Hasher::write_i64`
    /// and `core::hash::Hasher::finish`: with fixed keys the finished value is
    /// a function of the seeded frame and the written cell components alone.
    #[verifier::external_body]
    pub fn generate(&self, cell: &GridCell) -> (r: SpatialHash)
        ensures
            r.value() == digest_of(self.frame(), cell.x, cell.y, cell.z),
    {
        let mut hasher = self.hasher.clone();
        core::hash::Hasher::write_i64(&mut hasher, cell.x);
        core::hash::Hasher::write_i64(&mut hasher, cell.y);
        core::hash::Hasher::write_i64(&mut hasher, cell.z);
        SpatialHash(core::hash::Hasher::finish(&hasher))
    }
}

impl SpatialHash {
    /// The digest as a mathematical value.
    pub closed spec fn value(self) -> u64 {
        self.0
    }

    /// The digest as a plain integer.
    pub fn bits(&self) -> (r: u64)
        ensures
            r == self.value(),
    {
        self.0
    }

    /// Hash a (frame identity, cell address) pair in one step.
    pub fn new(frame: u64, cell: &GridCell) -> (r: SpatialHash)
        ensures
            r.value() == digest_of(frame, cell.x, cell.y, cell.z),
    {
        PartialSpatialHash::new(frame).generate(cell)
    }
}

/// Hashing is deterministic: entities under equal frame identities and at
/// equal cell addresses always receive equal spatial hashes.
pub proof fn lemma_digest_deterministic(frame_a: u64, frame_b: u64, a: GridCell, b: GridCell)
    requires
        frame_a == frame_b,
        a == b,
    ensures
        digest_of(frame_a, a.x, a.y, a.z) == digest_of(frame_b, b.x, b.y, b.z),
{
}

} // verus!
