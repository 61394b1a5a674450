//! Finds every way a string can be written as a concatenation of dictionary
//! words, and enumerates those ways lazily from either end.
//!
//! A [`Dictionary`] holds the words. [`Dictionary::word_segmentations`] gives
//! a [`WordSegmentations`] for an input: an enumerator that gives out the
//! segmentations in lexicographic order of their cut points from the front,
//! in the opposite order from the back, and that knows at each moment how
//! many are left without walking through them.
//!
//! Words may end at the boundaries of grapheme clusters only, and words and
//! input are compared in their canonical decomposition (NFD), so that the
//! same text matches however its accents are written. Capitalization is kept.
//!
//! The modules, from the ground up:
//!
//! - [`bits`], [`automaton`] and [`text`] hold what the library has from the
//!   crates `bitvec`, `fst`, `unicode-normalization` and
//!   `unicode-segmentation`, each call with the contract that the rest relies
//!   on;
//! - [`rows`] lays out one bit for each ordered pair of boundaries;
//! - [`paths`] is the arithmetic of paths through a forward graph: how many
//!   there are, in which order they stand, and at which position each stands;
//! - [`trellis`] finds the edges between the boundaries of an input, removes
//!   the boundaries that lie on no segmentation and counts the segmentations
//!   from each boundary;
//! - [`iter`] is the enumerator, and [`dict`] the dictionary;
//! - [`naive`] lists the same segmentations by exhaustive search.

pub mod automaton;
pub mod bits;
pub mod dict;
pub mod iter;
pub mod naive;
pub mod paths;
pub mod rows;
pub mod text;
pub mod trellis;

pub use automaton::DictionaryError;
pub use dict::Dictionary;
pub use iter::WordSegmentations;
