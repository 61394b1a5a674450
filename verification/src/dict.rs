//! The dictionary: a set of words, held as an automaton over the bytes of
//! their canonical decompositions.

use crate::automaton::{
    accepts, build, built_bytes, check_footer, checksum_failure, checksum_of, classify, duplicate,
    fst_bytes, in_order, is_built, key_views, keys_sorted, load, load_failure, serialized, verify,
    DictionaryError,
};
use crate::iter::WordSegmentations;
use crate::paths::{cuts_from, lemma_lexicographic, lemma_listed, lemma_paths_len, lemma_rank, offsets, parent};
use crate::rows::{edge_bits_fit, triangle};
use crate::text::{aligned, boundaries, nfd, nfd_chars, BoundaryIndex};
use crate::trellis::{span_edge, span_graph};
use vstd::prelude::*;
use vstd::string::{StrSliceExecFns, StringSliceAdditionalSpecFns};
use vstd::utf8::encode_utf8;

verus! {

/// A sequence without its repeated neighbours: of each run of equal elements
/// the first stays.
pub open spec fn without_repeats(s: Seq<Seq<u8>>) -> Seq<Seq<u8>>
    decreases s.len(),
{
    if s.len() <= 1 {
        s
    } else if s[s.len() - 1] == s[s.len() - 2] {
        without_repeats(s.drop_last())
    } else {
        without_repeats(s.drop_last()).push(s.last())
    }
}

/// `sort_unstable` of std on a vector of byte strings: afterwards the same
/// strings stand in lexicographic order.
#[verifier::external_body]
pub(crate) fn sort_keys(keys: &mut Vec<Vec<u8>>)
    ensures
        keys_sorted(key_views(final(keys)@)),
        key_views(final(keys)@).to_multiset() == key_views(old(keys)@).to_multiset(),
{
    keys.sort_unstable()
}

/// `Vec::dedup` of std on a vector of byte strings: of each run of equal
/// neighbours the first stays.
#[verifier::external_body]
pub(crate) fn dedup_keys(keys: &mut Vec<Vec<u8>>)
    ensures
        key_views(final(keys)@) == without_repeats(key_views(old(keys)@)),
{
    keys.dedup()
}

/// Dropping repeated neighbours keeps the order, the last element and the set
/// of elements.
pub proof fn lemma_without_repeats(s: Seq<Seq<u8>>)
    requires
        keys_sorted(s),
    ensures
        keys_sorted(without_repeats(s)),
        without_repeats(s).len() <= s.len(),
        s.len() > 0 ==> without_repeats(s).len() > 0 && without_repeats(s).last() == s.last(),
        forall|w: Seq<u8>| without_repeats(s).contains(w) <==> s.contains(w),
    decreases s.len(),
{
    if s.len() > 1 {
        let t = s.drop_last();
        assert(keys_sorted(t)) by {
            assert forall|i: int| 0 <= i && i + 1 < t.len() implies #[trigger] in_order(t, i) by {
                assert(in_order(s, i));
            }
        }
        lemma_without_repeats(t);
        let r = without_repeats(s);
        let rt = without_repeats(t);
        assert(t.last() == s[s.len() - 2]);
        assert forall|w: Seq<u8>| r.contains(w) <==> s.contains(w) by {
            if s.contains(w) {
                let i = choose|i: int| 0 <= i < s.len() && s[i] == w;
                if i < t.len() {
                    assert(t[i] == w);
                    assert(t.contains(w));
                    assert(without_repeats(t).contains(w) <==> t.contains(w));
                    let k = choose|k: int| 0 <= k < rt.len() && rt[k] == w;
                    assert(r[k] == w);
                    assert(r.contains(w));
                } else {
                    assert(r.len() > 0);
                    assert(r[r.len() - 1] == w);
                    assert(r.contains(w));
                }
            }
            if r.contains(w) {
                let k = choose|k: int| 0 <= k < r.len() && r[k] == w;
                if k < rt.len() {
                    assert(rt[k] == w);
                    assert(rt.contains(w));
                    assert(without_repeats(t).contains(w) <==> t.contains(w));
                    assert(t.contains(w));
                    let i = choose|i: int| 0 <= i < t.len() && t[i] == w;
                    assert(s[i] == w);
                    assert(s.contains(w));
                } else {
                    assert(s[s.len() - 1] == w);
                    assert(s.contains(w));
                }
            }
        }
        if s[s.len() - 1] != s[s.len() - 2] {
            assert forall|i: int| 0 <= i && i + 1 < r.len() implies #[trigger] in_order(r, i) by {
                if i + 1 < rt.len() {
                    assert(in_order(rt, i));
                } else {
                    assert(r[i] == rt.last());
                    assert(in_order(s, s.len() - 2));
                }
            }
        }
    }
}

/// A set of words, in which segmentation looks words up. Words are held in
/// their canonical decomposition (NFD), as UTF-8 bytes.
pub struct Dictionary {
    pub(crate) fst: fst::raw::Fst<Vec<u8>>,
}

impl Dictionary {
    /// The bytes that stand for this dictionary: what `as_bytes` returns.
    pub closed spec fn bytes(&self) -> Seq<u8> {
        fst_bytes(self.fst)
    }

    /// Whether the dictionary was built from words, by `new` or by loading the
    /// bytes of one that was.
    pub open spec fn wf(&self) -> bool {
        is_built(self.bytes())
    }

    /// Whether the dictionary holds the word whose decomposed bytes are `word`.
    pub open spec fn contains(&self, word: Seq<u8>) -> bool {
        accepts(self.bytes(), word)
    }

    /// The bytes of a dictionary are those of its automaton.
    pub(crate) proof fn lemma_bytes(&self)
        ensures
            self.bytes() == fst_bytes(self.fst),
    {
    }

    /// Whether this is a dictionary of the words `words`: it was built, and
    /// holds the decomposed bytes of each word but the empty one, and nothing
    /// else.
    pub open spec fn holds(&self, words: Seq<&str>) -> bool {
        &&& self.wf()
        &&& forall|w: Seq<u8>|
            self.contains(w) <==> exists|i: int|
                0 <= i < words.len() && (#[trigger] words[i])@.len() > 0 && w == encode_utf8(
                    nfd_chars(words[i]@),
                )
    }

    /// Creates a dictionary from its words. Empty words are left out, and
    /// capitalization is kept: with "Arrow" and "box" in the dictionary,
    /// "arrowbox" has no segmentation.
    pub fn new(words: &[&str]) -> (d: Dictionary)
        ensures
            d.holds(words@),
    {
        let mut keys: Vec<Vec<u8>> = Vec::new();
        let mut index: usize = 0;
        while index < words.len()
            invariant
                0 <= index <= words.len(),
                forall|w: Seq<u8>|
                    key_views(keys@).contains(w) <==> exists|i: int|
                        0 <= i < index && (#[trigger] words@[i])@.len() > 0 && w == encode_utf8(
                            nfd_chars(words@[i]@),
                        ),
            decreases words.len() - index,
        {
            let word: &str = words[index];
            let ghost before = key_views(keys@);
            if !word.is_empty() {
                let normalized = nfd(word);
                let key = normalized.as_str().as_bytes_vec();
                keys.push(key);
                proof {
                    let added = encode_utf8(nfd_chars(word@));
                    assert(key_views(keys@) =~= before.push(added));
                    assert forall|w: Seq<u8>| key_views(keys@).contains(w) <==> exists|i: int|
                        0 <= i < index + 1 && (#[trigger] words@[i])@.len() > 0 && w
                            == encode_utf8(nfd_chars(words@[i]@)) by {
                        if key_views(keys@).contains(w) {
                            let k = choose|k: int|
                                0 <= k < key_views(keys@).len() && key_views(keys@)[k] == w;
                            if k < before.len() {
                                assert(before[k] == w);
                                assert(before.contains(w));
                            } else {
                                assert(words@[index as int]@.len() > 0);
                            }
                        }
                        if exists|i: int|
                            0 <= i < index + 1 && (#[trigger] words@[i])@.len() > 0 && w
                                == encode_utf8(nfd_chars(words@[i]@)) {
                            let i = choose|i: int|
                                0 <= i < index + 1 && (#[trigger] words@[i])@.len() > 0 && w
                                    == encode_utf8(nfd_chars(words@[i]@));
                            if i < index {
                                assert(before.contains(w));
                                let k = choose|k: int| 0 <= k < before.len() && before[k] == w;
                                assert(key_views(keys@)[k] == w);
                            } else {
                                assert(key_views(keys@)[before.len() as int] == w);
                            }
                        }
                    }
                }
            } else {
                proof {
                    assert forall|w: Seq<u8>| key_views(keys@).contains(w) <==> exists|i: int|
                        0 <= i < index + 1 && (#[trigger] words@[i])@.len() > 0 && w
                            == encode_utf8(nfd_chars(words@[i]@)) by {
                        if exists|i: int|
                            0 <= i < index + 1 && (#[trigger] words@[i])@.len() > 0 && w
                                == encode_utf8(nfd_chars(words@[i]@)) {
                            let i = choose|i: int|
                                0 <= i < index + 1 && (#[trigger] words@[i])@.len() > 0 && w
                                    == encode_utf8(nfd_chars(words@[i]@));
                            assert(i < index);
                        }
                    }
                }
            }
            index = index + 1;
        }
        let ghost collected = key_views(keys@);
        sort_keys(&mut keys);
        let ghost sorted = key_views(keys@);
        dedup_keys(&mut keys);
        proof {
            lemma_without_repeats(sorted);
            assert forall|w: Seq<u8>| sorted.contains(w) <==> collected.contains(w) by {
                vstd::seq_lib::to_multiset_contains(sorted, w);
                vstd::seq_lib::to_multiset_contains(collected, w);
            }
        }
        match build(&keys) {
            Ok(fst) => {
                let d = Dictionary { fst };
                proof {
                    assert(d.bytes() == built_bytes(key_views(keys@)));
                    assert forall|w: Seq<u8>| d.contains(w) <==> exists|i: int|
                        0 <= i < words@.len() && (#[trigger] words@[i])@.len() > 0 && w
                            == encode_utf8(nfd_chars(words@[i]@)) by {
                        assert(d.contains(w) == key_views(keys@).contains(w));
                        assert(key_views(keys@).contains(w) == sorted.contains(w));
                        assert(sorted.contains(w) == collected.contains(w));
                    }
                }
                d
            },
            Err(_) => {
                proof {
                    assert(false);
                }
                vstd::pervasive::unreached()
            },
        }
    }

    /// The bytes that stand for this dictionary. `from_bytes` and
    /// `from_bytes_verified` make a dictionary from them again.
    pub fn as_bytes(&self) -> (r: &[u8])
        ensures
            r@ == self.bytes(),
    {
        serialized(&self.fst)
    }

    /// Creates a dictionary from the bytes of an earlier one, without
    /// verifying the checksum.
    pub fn from_bytes(bytes: Vec<u8>) -> (r: Result<Dictionary, DictionaryError>)
        ensures
            r is Ok <==> load_failure(bytes@) is None,
            r matches Ok(d) ==> d.bytes() == bytes@,
            r matches Err(e) ==> load_failure(bytes@) == Some(e),
            is_built(bytes@) ==> r is Ok,
    {
        if !check_footer(&bytes) {
            return Err(DictionaryError::Format { size: bytes.len() });
        }
        match load(bytes) {
            Ok(fst) => Ok(Dictionary { fst }),
            Err(e) => Err(classify(e)),
        }
    }

    /// Creates a dictionary from the bytes of an earlier one, verifying the
    /// checksum.
    pub fn from_bytes_verified(bytes: Vec<u8>) -> (r: Result<Dictionary, DictionaryError>)
        ensures
            r is Ok <==> load_failure(bytes@) is None && checksum_failure(
                bytes@,
                checksum_of(bytes@),
            ) is None,
            r matches Ok(d) ==> d.bytes() == bytes@,
            r matches Err(e) ==> Some(e) == (if load_failure(bytes@) is Some {
                load_failure(bytes@)
            } else {
                checksum_failure(bytes@, checksum_of(bytes@))
            }),
            is_built(bytes@) ==> r is Ok,
    {
        if !check_footer(&bytes) {
            return Err(DictionaryError::Format { size: bytes.len() });
        }
        match load(bytes) {
            Ok(fst) => match verify(&fst) {
                Ok(_) => Ok(Dictionary { fst }),
                Err(e) => Err(classify(e)),
            },
            Err(e) => Err(classify(e)),
        }
    }
}

impl Clone for Dictionary {
    /// A dictionary of its own with the same words.
    fn clone(&self) -> (r: Self)
        ensures
            r.bytes() == self.bytes(),
    {
        Dictionary { fst: duplicate(&self.fst) }
    }
}

/// Whether `input` can be segmented: the text services agree on it, and one
/// bit array can hold an edge bit for each pair of its boundaries.
pub open spec fn segmentable(input: Seq<char>) -> bool {
    &&& aligned(input)
    &&& triangle(boundaries(input).len() as int) <= crate::bits::max_bits()
}

/// The segmentations of `input` into words of the dictionary that `dict`
/// stands for, in lexicographic order. Each is the byte offsets in the input
/// at which its words end. A word may end at each grapheme boundary, and a
/// stretch between two boundaries is a word where the dictionary holds the
/// bytes of the same stretch of the canonical decomposition.
pub open spec fn segmentations(dict: Seq<u8>, input: Seq<char>) -> Seq<Seq<int>> {
    if input.len() == 0 {
        seq![Seq::<int>::empty()]
    } else {
        cuts_from(
            span_graph(dict, encode_utf8(nfd_chars(input)), boundaries(nfd_chars(input))),
            boundaries(input),
            0,
        )
    }
}

impl Dictionary {
    /// Finds all segmentations of `input` into words of the dictionary.
    pub fn word_segmentations<'s>(&self, input: &'s str) -> (r: WordSegmentations<'s>)
        requires
            self.wf(),
            input@.len() > 0 ==> segmentable(input@),
        ensures
            r.wf(),
            r.input() == input,
            r@ == segmentations(self.bytes(), input@),
    {
        WordSegmentations::new(self, input)
    }

    /// Finds all segmentations of `input` into words of the dictionary, after
    /// testing that the text services agree on the input. Without that there
    /// is no result.
    pub fn try_word_segmentations<'s>(&self, input: &'s str) -> (r: Option<WordSegmentations<'s>>)
        requires
            self.wf(),
        ensures
            r is Some <==> input@.len() == 0 || segmentable(input@),
            r matches Some(found) ==> found.wf() && found.input() == input && found@
                == segmentations(self.bytes(), input@),
    {
        if input.is_empty() {
            return Some(WordSegmentations::new(self, input));
        }
        let index = BoundaryIndex::of(input);
        if index.is_aligned(input) && edge_bits_fit(index.bounds.len()) {
            Some(
                WordSegmentations::from_parts(
                    self,
                    input,
                    index.bounds,
                    index.normal.as_str().as_bytes(),
                    &index.normal_bounds,
                ),
            )
        } else {
            None
        }
    }
}

/// Finds all segmentations of `input` into the words `words`, where the text
/// services agree on the input. Without that there is no result.
pub fn segment<'s>(words: &[&str], input: &'s str) -> (r: Option<WordSegmentations<'s>>)
    ensures
        r is Some <==> input@.len() == 0 || segmentable(input@),
        r matches Some(found) ==> found.wf() && found.input() == input && exists|d: Dictionary| #[trigger]
            d.holds(words@) && found@ == segmentations(d.bytes(), input@),
{
    let dictionary = Dictionary::new(words);
    dictionary.try_word_segmentations(input)
}

/// Whether `path` names a segmentation of `input`: it is a list of boundary
/// numbers that ends with the last boundary, and each stretch of the
/// canonical decomposition, from the boundary before (at first boundary 0) to
/// the next boundary of the list, is a word of the dictionary.
pub open spec fn is_segmentation(dict: Seq<u8>, input: Seq<char>, path: Seq<int>) -> bool {
    &&& forall|k: int|
        0 <= k < path.len() ==> span_edge(
            dict,
            encode_utf8(nfd_chars(input)),
            boundaries(nfd_chars(input)),
            parent(path, k),
            #[trigger] path[k],
        )
    &&& parent(path, path.len() as int) == boundaries(nfd_chars(input)).len() - 1
}

/// Every segmentation of an input is in the list of its segmentations, at the
/// position that is the number of segmentations before it.
pub proof fn lemma_segmentations_complete(dict: Seq<u8>, input: Seq<char>, path: Seq<int>) -> (x:
    int)
    requires
        input.len() > 0,
        is_segmentation(dict, input, path),
    ensures
        0 <= x < segmentations(dict, input).len(),
        segmentations(dict, input)[x] == offsets(path, boundaries(input)),
{
    let g = span_graph(dict, encode_utf8(nfd_chars(input)), boundaries(nfd_chars(input)));
    assert forall|k: int| 0 <= k < path.len() implies #[trigger] g.step_ok(path, k) by {
        assert(span_edge(
            dict,
            encode_utf8(nfd_chars(input)),
            boundaries(nfd_chars(input)),
            parent(path, k),
            path[k],
        ));
    }
    lemma_rank(g, path);
    lemma_paths_len(g, 0);
    g.before(path) as int
}

/// Every entry of the list of segmentations of an input is a segmentation.
pub proof fn lemma_segmentations_sound(dict: Seq<u8>, input: Seq<char>, x: int) -> (path: Seq<int>)
    requires
        input.len() > 0,
        0 <= x < segmentations(dict, input).len(),
    ensures
        is_segmentation(dict, input, path),
        segmentations(dict, input)[x] == offsets(path, boundaries(input)),
{
    let g = span_graph(dict, encode_utf8(nfd_chars(input)), boundaries(nfd_chars(input)));
    lemma_paths_len(g, 0);
    lemma_listed(g, x);
    let path = g.paths(0)[x];
    assert forall|k: int| 0 <= k < path.len() implies span_edge(
        dict,
        encode_utf8(nfd_chars(input)),
        boundaries(nfd_chars(input)),
        parent(path, k),
        #[trigger] path[k],
    ) by {
        assert(g.step_ok(path, k));
    }
    path
}

/// The list of segmentations of an input is in lexicographic order: of two
/// segmentations that are the same up to step `d` and differ there, the one
/// whose word ends earlier there comes first.
pub proof fn lemma_segmentations_ordered(
    dict: Seq<u8>,
    input: Seq<char>,
    first: Seq<int>,
    second: Seq<int>,
    d: int,
) -> (r: (int, int))
    requires
        input.len() > 0,
        is_segmentation(dict, input, first),
        is_segmentation(dict, input, second),
        0 <= d < first.len(),
        d < second.len(),
        first.take(d) == second.take(d),
        first[d] < second[d],
    ensures
        0 <= r.0 < r.1 < segmentations(dict, input).len(),
        segmentations(dict, input)[r.0] == offsets(first, boundaries(input)),
        segmentations(dict, input)[r.1] == offsets(second, boundaries(input)),
{
    let g = span_graph(dict, encode_utf8(nfd_chars(input)), boundaries(nfd_chars(input)));
    assert forall|k: int| 0 <= k < first.len() implies #[trigger] g.step_ok(first, k) by {
        assert(span_edge(
            dict,
            encode_utf8(nfd_chars(input)),
            boundaries(nfd_chars(input)),
            parent(first, k),
            first[k],
        ));
    }
    assert forall|k: int| 0 <= k < second.len() implies #[trigger] g.step_ok(second, k) by {
        assert(span_edge(
            dict,
            encode_utf8(nfd_chars(input)),
            boundaries(nfd_chars(input)),
            parent(second, k),
            second[k],
        ));
    }
    lemma_lexicographic(g, first, second, d);
    lemma_paths_len(g, 0);
    (g.before(first) as int, g.before(second) as int)
}

} // verus!
