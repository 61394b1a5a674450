//! Unicode text services: canonical decomposition and grapheme cluster
//! boundaries, with names for what they return.

use unicode_normalization::UnicodeNormalization;
use unicode_segmentation::UnicodeSegmentation;
use vstd::prelude::*;
use vstd::string::StringSliceAdditionalSpecFns;
use vstd::utf8::{
    encode_utf8, encode_utf8_valid_utf8, is_char_boundary,
    is_char_boundary_iff_not_is_continuation_byte, is_char_boundary_start_end_of_seq,
};

verus! {

/// The canonical decomposition (NFD) of a text.
pub uninterp spec fn nfd_chars(text: Seq<char>) -> Seq<char>;

/// The byte offsets at which the extended grapheme clusters of a text start.
pub uninterp spec fn grapheme_offsets(text: Seq<char>) -> Seq<usize>;

/// `UnicodeNormalization::nfd`, collected into a string.
#[verifier::external_body]
pub(crate) fn nfd(text: &str) -> (r: String)
    ensures
        r@ == nfd_chars(text@),
{
    text.nfd().collect()
}

/// `UnicodeSegmentation::grapheme_indices` for extended clusters: the byte
/// offset of each cluster, in order.
#[verifier::external_body]
pub(crate) fn grapheme_starts(text: &str) -> (r: Vec<usize>)
    ensures
        r@ == grapheme_offsets(text@),
{
    text.grapheme_indices(true).map(|(position, _)| position).collect()
}

/// The part of `text` from byte `start` up to byte `end`.
pub fn slice_str<'a>(text: &'a str, start: usize, end: usize) -> (r: &'a str)
    requires
        start <= end <= text.spec_bytes().len(),
        is_char_boundary(text.spec_bytes(), start as int),
        is_char_boundary(text.spec_bytes(), end as int),
    ensures
        r.spec_bytes() == text.spec_bytes().subrange(start as int, end as int),
{
    let (head, _) = text.split_at(end);
    proof {
        let bytes = text.spec_bytes();
        let front = head.spec_bytes();
        encode_utf8_valid_utf8(text@);
        encode_utf8_valid_utf8(head@);
        assert(front =~= bytes.subrange(0, end as int));
        if start < end {
            is_char_boundary_iff_not_is_continuation_byte(bytes, start as int);
            is_char_boundary_iff_not_is_continuation_byte(front, start as int);
        } else {
            is_char_boundary_start_end_of_seq(front);
        }
    }
    let (_, word) = head.split_at(start);
    proof {
        assert(word.spec_bytes() =~= text.spec_bytes().subrange(start as int, end as int));
    }
    word
}

/// Whether `b` lists the boundaries of a text of `len` bytes: it starts at 0,
/// ends at `len` and increases.
pub open spec fn is_boundary_seq(b: Seq<usize>, len: int) -> bool {
    &&& b.len() >= 1
    &&& b[0] == 0
    &&& b.last() == len
    &&& forall|i: int, j: int| 0 <= i < j < b.len() ==> b[i] < b[j]
}

/// The grapheme boundaries of a text as byte offsets: where each grapheme
/// starts, and the length of the text.
pub open spec fn boundaries(text: Seq<char>) -> Seq<usize> {
    grapheme_offsets(text).push(encode_utf8(text).len() as usize)
}

/// Whether `b` lists the boundaries of a text of `len` bytes.
pub fn is_boundary_list(b: &Vec<usize>, len: usize) -> (r: bool)
    ensures
        r == is_boundary_seq(b@, len as int),
{
    if b.len() == 0 || b[0] != 0 || b[b.len() - 1] != len {
        return false;
    }
    let mut index: usize = 1;
    while index < b.len()
        invariant
            1 <= index <= b.len(),
            forall|i: int, j: int| 0 <= i < j < index ==> b@[i] < b@[j],
        decreases b.len() - index,
    {
        if b[index - 1] >= b[index] {
            return false;
        }
        proof {
            assert forall|i: int, j: int| 0 <= i < j < index + 1 implies b@[i] < b@[j] by {
                if j == index && i < index - 1 {
                    assert(b@[i] < b@[index - 1]);
                }
            }
        }
        index = index + 1;
    }
    true
}

/// Whether `text` can be cut at each of the offsets `b`.
pub fn on_char_boundaries(text: &str, b: &Vec<usize>) -> (r: bool)
    ensures
        r == forall|a: int|
            0 <= a < b.len() ==> is_char_boundary(text.spec_bytes(), #[trigger] b@[a] as int),
{
    let mut index: usize = 0;
    while index < b.len()
        invariant
            0 <= index <= b.len(),
            forall|a: int|
                0 <= a < index ==> is_char_boundary(text.spec_bytes(), #[trigger] b@[a] as int),
        decreases b.len() - index,
    {
        if !text.is_char_boundary(b[index]) {
            return false;
        }
        index = index + 1;
    }
    true
}

/// Whether the text services agree on `text`: its grapheme boundaries and
/// those of its canonical decomposition are boundary lists of equal length,
/// so that boundary `i` of the one is boundary `i` of the other, and the text
/// can be cut at each of its boundaries.
pub open spec fn aligned(text: Seq<char>) -> bool {
    &&& is_boundary_seq(boundaries(text), encode_utf8(text).len() as int)
    &&& is_boundary_seq(boundaries(nfd_chars(text)), encode_utf8(nfd_chars(text)).len() as int)
    &&& boundaries(text).len() == boundaries(nfd_chars(text)).len()
    &&& forall|a: int|
        0 <= a < boundaries(text).len() ==> is_char_boundary(
            encode_utf8(text),
            #[trigger] boundaries(text)[a] as int,
        )
}

/// The grapheme boundaries of a text, in the text itself and in its canonical
/// decomposition.
pub struct BoundaryIndex {
    /// The byte offsets of the grapheme boundaries of the text.
    pub bounds: Vec<usize>,
    /// The canonical decomposition of the text.
    pub normal: String,
    /// The byte offsets of the grapheme boundaries of the decomposition.
    pub normal_bounds: Vec<usize>,
}

impl BoundaryIndex {
    /// Whether this is the index of `text`.
    pub open spec fn describes(&self, text: Seq<char>) -> bool {
        &&& self.bounds@ == boundaries(text)
        &&& self.normal@ == nfd_chars(text)
        &&& self.normal_bounds@ == boundaries(nfd_chars(text))
    }

    /// Decomposes `text` and finds the grapheme boundaries of the text and of
    /// its decomposition.
    pub fn of(text: &str) -> (r: BoundaryIndex)
        ensures
            r.describes(text@),
    {
        let normal = nfd(text);
        let mut bounds = grapheme_starts(text);
        bounds.push(text.as_bytes().len());
        let mut normal_bounds = grapheme_starts(normal.as_str());
        normal_bounds.push(normal.as_str().as_bytes().len());
        BoundaryIndex { bounds, normal, normal_bounds }
    }

    /// Whether the text services agree on `text`, of which this is the index.
    pub fn is_aligned(&self, text: &str) -> (r: bool)
        requires
            self.describes(text@),
        ensures
            r == aligned(text@),
    {
        is_boundary_list(&self.bounds, text.as_bytes().len()) && is_boundary_list(
            &self.normal_bounds,
            self.normal.as_str().as_bytes().len(),
        ) && self.bounds.len() == self.normal_bounds.len() && on_char_boundaries(text, &self.bounds)
    }
}

} // verus!
