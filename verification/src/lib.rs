//! Spatial hashing for very large worlds partitioned into discrete grid cells.
//!
//! A world may be built from several independent coordinate frames, so a cell
//! coordinate alone is not a unique key: a cell is identified by the pair of a
//! frame identity and an integer 3-vector address. This crate provides
//! - the address/hash scheme that combines a frame identity with a cell
//!   address into a single 64-bit digest, split into a partial stage (frame
//!   only) and a completion stage (adds the cell) so that many lookups under
//!   one frame amortize the frame-dependent work;
//! - a bidirectional index from digests to the entities occupying them, with
//!   update-on-move semantics; and
//! - neighbor queries over that index: a fixed-radius cube scan, a flattened
//!   variant, and a flood fill returning the transitive closure of occupied
//!   cells reachable by repeated radius steps.
//!
//! Digest equality is a necessary but not sufficient condition for two
//! entities sharing a (frame, cell): collisions are possible. Digest
//! inequality is always a sound proof of non-co-location.

pub mod cell;
mod seq_facts;
pub mod hashing;
pub mod index;
pub mod queries;
