//! An audio-fingerprinting and retrieval engine: a clip is reduced to
//! spectral peaks, the peaks to compact locality hashes, and a query is
//! matched against a store of such hashes by neighborhood completeness,
//! temporal alignment and sliding-window scoring. The signal-processing
//! front end (decoding, filtering, the transform itself) lives with the
//! binary; this crate holds the verified data path from spectrum energies
//! to a ranked list of songs, and the storage client it runs against.

use vstd::prelude::*;

pub mod db;
pub mod fingerprint;
pub mod matcher;
pub mod spectrogram;
pub mod utils;

verus! {

/// Number of target peaks paired with each anchor peak. A retrieved
/// neighborhood is accepted as a genuine match only when all of its
/// sibling hashes collide (see the matcher).
pub const NEIGHBORHOOD_SIZE: usize = 5;

} // verus!
