//! Verified core of a threshold-signing coordinator.
//!
//! - [`field`], [`scalar`], [`point`]: the curve `y^2 = x^3 + 1` over the
//!   field of `2^256 - 189537` elements, its scalars, and the arithmetic
//!   underneath them in [`modular`], [`le`] and [`prime`].
//! - [`vector`]: vectors of scalars and points, and sparse matrices.
//! - [`circuit`], [`compile`], [`bit`], [`proving`]: the arithmetic-circuit
//!   builder, its compilation into a statement, the bit gadget, and what
//!   is handed to the proof system.
//! - [`wip`], [`pair`]: the weighted-inner-product argument, and the pairs
//!   of its proofs that show vector commitments well-formed.
//! - [`range`]: the common parts of the range proof.
//! - [`tree`]: the curve tree.
//! - [`dkg`], [`keygen`]: the arithmetic and the state machine of key
//!   generation.
//! - [`cohort`], [`store`], [`reducer`]: a signing cohort, its persisted
//!   records, and the reducer of its replicated log.
//!
//! Executable functions carry contracts over mathematical models of their
//! arguments and results, and Verus proves them. What is taken on trust
//! is in `uint` and `digest`: the big-integer primitives and the hash
//! function of other crates.

pub mod bit;
pub mod circuit;
pub mod cohort;
pub mod compile;
pub mod digest;
pub mod dkg;
pub mod field;
pub mod keygen;
pub mod le;
pub mod modular;
pub mod pair;
pub mod point;
pub mod prime;
pub mod proving;
pub mod range;
pub mod reducer;
pub mod scalar;
pub mod store;
pub mod tree;
mod uint;
pub mod vector;
pub mod wip;
