//! Segmentation by exhaustive search: from each boundary every longer
//! stretch is tried as a word, and the search goes on from the end of each
//! word that the dictionary holds. It lists what the enumerator lists, in
//! the same order, as strings of their own.

use crate::automaton::{
    accepts, fst_bytes, is_built, is_final, reachable, root, walk, walk_bytes,
};
use crate::dict::{segmentations, Dictionary};
use crate::paths::{
    end_of, lemma_chain_push, lemma_paths_between_none, lemma_paths_between_split, offsets,
    parent, prepend_each,
};
use crate::text::{
    boundaries, is_boundary_list, is_boundary_seq, nfd_chars, on_char_boundaries, slice_str,
    BoundaryIndex,
};
use crate::trellis::span_graph;
use vstd::prelude::*;
use vstd::string::{StringExecFns, StringSliceAdditionalSpecFns};
use vstd::utf8::{encode_utf8, is_char_boundary};

verus! {

/// Whether `words` are the pieces into which the offsets `cuts` divide the
/// text `bytes`, as strings of their own.
pub open spec fn pieces_match(words: Seq<String>, bytes: Seq<u8>, cuts: Seq<int>) -> bool {
    &&& words.len() == cuts.len()
    &&& forall|k: int|
        0 <= k < words.len() ==> encode_utf8((#[trigger] words[k])@) == bytes.subrange(
            parent(cuts, k),
            cuts[k],
        )
}

/// Whether entry `base + y` of `found` holds the pieces that path `y` of
/// `expected`, after the walk `stem`, cuts out of the text.
pub open spec fn lists_at(
    found: Seq<Vec<String>>,
    base: int,
    bytes: Seq<u8>,
    bounds: Seq<usize>,
    stem: Seq<int>,
    expected: Seq<Seq<int>>,
    y: int,
) -> bool {
    pieces_match(found[base + y]@, bytes, offsets(stem + expected[y], bounds))
}

/// Whether the entries of `found` from `base` on are the pieces that the
/// paths `expected`, each after the walk `stem`, cut out of the text.
pub open spec fn lists(
    found: Seq<Vec<String>>,
    base: int,
    bytes: Seq<u8>,
    bounds: Seq<usize>,
    stem: Seq<int>,
    expected: Seq<Seq<int>>,
) -> bool {
    &&& found.len() == base + expected.len()
    &&& forall|y: int|
        0 <= y < expected.len() ==> #[trigger] lists_at(found, base, bytes, bounds, stem, expected, y)
}

/// A copy of a list of words.
pub(crate) fn copy_words(words: &Vec<String>) -> (r: Vec<String>)
    ensures
        r@ == words@,
{
    let mut copy: Vec<String> = Vec::new();
    let mut index: usize = 0;
    while index < words.len()
        invariant
            0 <= index <= words.len(),
            copy@ == words@.take(index as int),
        decreases words.len() - index,
    {
        copy.push(words[index].clone());
        proof {
            assert(copy@ =~= words@.take(index + 1));
        }
        index = index + 1;
    }
    proof {
        assert(words@.take(words.len() as int) =~= words@);
    }
    copy
}

/// Adds to `results` every segmentation of the text from boundary `start`
/// on, each after the words of `prefix`, which are the words of a
/// segmentation of the text up to that boundary.
pub(crate) fn search(
    dictionary: &fst::raw::Fst<Vec<u8>>,
    text: &str,
    bounds: &Vec<usize>,
    start: usize,
    prefix: &mut Vec<String>,
    results: &mut Vec<Vec<String>>,
    Ghost(stem): Ghost<Seq<int>>,
)
    requires
        is_built(fst_bytes(*dictionary)),
        is_boundary_seq(bounds@, text.spec_bytes().len() as int),
        forall|a: int|
            0 <= a < bounds.len() ==> is_char_boundary(
                text.spec_bytes(),
                #[trigger] bounds@[a] as int,
            ),
        start < bounds.len() - 1,
        span_graph(fst_bytes(*dictionary), text.spec_bytes(), bounds@).is_chain(stem),
        end_of(stem) == start,
        pieces_match(old(prefix)@, text.spec_bytes(), offsets(stem, bounds@)),
    ensures
        final(prefix)@ == old(prefix)@,
        forall|x: int| 0 <= x < old(results)@.len() ==> final(results)@[x] == old(results)@[x],
        lists(
            final(results)@,
            old(results)@.len() as int,
            text.spec_bytes(),
            bounds@,
            stem,
            span_graph(fst_bytes(*dictionary), text.spec_bytes(), bounds@).paths(start as int),
        ),
    decreases bounds.len() - start,
{
    let ghost dict = fst_bytes(*dictionary);
    let ghost bytes = text.spec_bytes();
    let ghost g = span_graph(dict, bytes, bounds@);
    let ghost base = results@.len() as int;
    let ghost origin = bounds@[start as int] as int;
    let last: usize = bounds.len() - 1;
    let all: &[u8] = text.as_bytes();
    let mut cursor: usize = root(dictionary);
    let mut node: usize = start;
    proof {
        assert(bytes.subrange(origin, origin).len() == 0);
        assert(g.paths_between(start as int, start + 1, start + 1) =~= Seq::<Seq<int>>::empty());
    }
    while node < last
        invariant_except_break
            walk(dict, bytes.subrange(origin, bounds@[node as int] as int)) == Some(cursor),
        invariant
            is_built(dict),
            dict == fst_bytes(*dictionary),
            bytes == text.spec_bytes(),
            all@ == bytes,
            g == span_graph(dict, bytes, bounds@),
            is_boundary_seq(bounds@, bytes.len() as int),
            forall|a: int|
                0 <= a < bounds.len() ==> is_char_boundary(bytes, #[trigger] bounds@[a] as int),
            last == bounds.len() - 1,
            start <= node <= last,
            start < last,
            origin == bounds@[start as int],
            g.is_chain(stem),
            end_of(stem) == start,
            prefix@ == old(prefix)@,
            pieces_match(prefix@, bytes, offsets(stem, bounds@)),
            base == old(results)@.len(),
            forall|x: int| 0 <= x < base ==> results@[x] == old(results)@[x],
            lists(
                results@,
                base,
                bytes,
                bounds@,
                stem,
                g.paths_between(start as int, start + 1, node + 1),
            ),
        ensures
            prefix@ == old(prefix)@,
            forall|x: int| 0 <= x < base ==> results@[x] == old(results)@[x],
            lists(results@, base, bytes, bounds@, stem, g.paths(start as int)),
        decreases last - node,
    {
        let next: usize = node + 1;
        let ghost listed = g.paths_between(start as int, start + 1, next as int);
        let ghost before = results@;
        proof {
            assert(bounds@[start as int] <= bounds@[node as int]) by {
                if start < node {
                    assert(bounds@[start as int] < bounds@[node as int]);
                }
            }
            assert(bounds@[node as int] < bounds@[next as int]);
            assert(bounds@[next as int] <= bytes.len()) by {
                if next < last {
                    assert(bounds@[next as int] < bounds@[last as int]);
                }
            }
        }
        match walk_bytes(dictionary, all, Ghost(origin), cursor, bounds[node], bounds[next]) {
            None => {
                proof {
                    assert forall|j: int| next <= j < last + 1 implies !g.edge(start as int, j) by {
                        if next < j {
                            assert(bounds@[next as int] < bounds@[j]);
                        }
                        if j < last {
                            assert(bounds@[j] < bounds@[last as int]);
                        }
                        assert(walk(dict, bytes.subrange(origin, bounds@[j] as int)) is None);
                    }
                    lemma_paths_between_none(g, start as int, next as int, last + 1);
                    lemma_paths_between_split(g, start as int, start + 1, next as int, last + 1);
                    assert(g.paths(start as int) =~= listed);
                }
                break ;
            },
            Some(reached) => {
                cursor = reached;
                proof {
                    assert(reachable(dict, cursor));
                    assert(g.edge(start as int, next as int) == accepts(
                        dict,
                        bytes.subrange(origin, bounds@[next as int] as int),
                    ));
                }
                if is_final(dictionary, cursor) {
                    let word = String::from_str(slice_str(text, bounds[start], bounds[next]));
                    let ghost longer = stem.push(next as int);
                    proof {
                        lemma_chain_push(g, stem, next as int);
                        assert(encode_utf8(word@) == bytes.subrange(
                            origin,
                            bounds@[next as int] as int,
                        ));
                        assert(parent(offsets(longer, bounds@), stem.len() as int) == origin) by {
                            if stem.len() > 0 {
                                assert(offsets(longer, bounds@)[stem.len() - 1]
                                    == bounds@[stem[stem.len() - 1]]);
                            }
                        }
                    }
                    if next == last {
                        let mut found = copy_words(prefix);
                        found.push(word);
                        results.push(found);
                        proof {
                            let tail = prepend_each(next as int, g.paths(next as int));
                            assert(tail =~= seq![seq![next as int]]) by {
                                assert(g.paths(next as int) =~= seq![Seq::<int>::empty()]);
                                assert(seq![next as int] + Seq::<int>::empty() =~= seq![
                                    next as int,
                                ]);
                            }
                            let grown = listed + tail;
                            assert(g.paths_between(start as int, start + 1, next + 1) == grown);
                            assert(stem + grown[listed.len() as int] =~= longer);
                            assert(pieces_match(found@, bytes, offsets(longer, bounds@))) by {
                                assert forall|k: int| 0 <= k < found@.len() implies encode_utf8(
                                    (#[trigger] found@[k])@,
                                ) == bytes.subrange(
                                    parent(offsets(longer, bounds@), k),
                                    offsets(longer, bounds@)[k],
                                ) by {
                                    if k < stem.len() {
                                        assert(found@[k] == prefix@[k]);
                                        assert(offsets(longer, bounds@)[k] == offsets(
                                            stem,
                                            bounds@,
                                        )[k]);
                                        assert(parent(offsets(longer, bounds@), k) == parent(
                                            offsets(stem, bounds@),
                                            k,
                                        ));
                                    }
                                }
                            }
                            assert forall|y: int| 0 <= y < grown.len() implies #[trigger] lists_at(
                                results@,
                                base,
                                bytes,
                                bounds@,
                                stem,
                                grown,
                                y,
                            ) by {
                                if y < listed.len() {
                                    assert(lists_at(before, base, bytes, bounds@, stem, listed, y));
                                    assert(results@[base + y] == before[base + y]);
                                    assert(grown[y] == listed[y]);
                                }
                            }
                        }
                    } else {
                        let ghost shorter = prefix@;
                        prefix.push(word);
                        proof {
                            assert(pieces_match(prefix@, bytes, offsets(longer, bounds@))) by {
                                assert forall|k: int| 0 <= k < prefix@.len() implies encode_utf8(
                                    (#[trigger] prefix@[k])@,
                                ) == bytes.subrange(
                                    parent(offsets(longer, bounds@), k),
                                    offsets(longer, bounds@)[k],
                                ) by {
                                    if k < stem.len() {
                                        assert(prefix@[k] == shorter[k]);
                                        assert(offsets(longer, bounds@)[k] == offsets(
                                            stem,
                                            bounds@,
                                        )[k]);
                                        assert(parent(offsets(longer, bounds@), k) == parent(
                                            offsets(stem, bounds@),
                                            k,
                                        ));
                                    }
                                }
                            }
                        }
                        search(dictionary, text, bounds, next, prefix, results, Ghost(longer));
                        prefix.pop();
                        proof {
                            assert(prefix@ =~= shorter);
                            let deeper = g.paths(next as int);
                            let tail = prepend_each(next as int, deeper);
                            let grown = listed + tail;
                            assert(g.paths_between(start as int, start + 1, next + 1) == grown);
                            assert forall|y: int| 0 <= y < grown.len() implies #[trigger] lists_at(
                                results@,
                                base,
                                bytes,
                                bounds@,
                                stem,
                                grown,
                                y,
                            ) by {
                                if y < listed.len() {
                                    assert(lists_at(before, base, bytes, bounds@, stem, listed, y));
                                    assert(results@[base + y] == before[base + y]);
                                    assert(grown[y] == listed[y]);
                                } else {
                                    let z = y - listed.len();
                                    assert(lists_at(
                                        results@,
                                        before.len() as int,
                                        bytes,
                                        bounds@,
                                        longer,
                                        deeper,
                                        z,
                                    ));
                                    assert(grown[y] == seq![next as int] + deeper[z]);
                                    assert(longer + deeper[z] =~= stem + grown[y]);
                                }
                            }
                        }
                    }
                } else {
                    proof {
                        assert(g.paths_between(start as int, start + 1, next + 1) =~= listed);
                    }
                }
                node = next;
            },
        }
    }
}

/// Whether the text services agree on the canonical decomposition of `word`:
/// its grapheme boundaries are a boundary list at which it can be cut.
pub open spec fn searchable(word: Seq<char>) -> bool {
    &&& is_boundary_seq(boundaries(nfd_chars(word)), encode_utf8(nfd_chars(word)).len() as int)
    &&& forall|a: int|
        0 <= a < boundaries(nfd_chars(word)).len() ==> is_char_boundary(
            encode_utf8(nfd_chars(word)),
            #[trigger] boundaries(nfd_chars(word))[a] as int,
        )
}

/// All segmentations of `text`, whose grapheme boundaries are `bounds`, into
/// words of `dictionary`, each as the list of its words, in lexicographic
/// order of the cut points. The text is taken as it is, without decomposing
/// it. The empty text has none.
pub fn break_text(dictionary: &Dictionary, text: &str, bounds: &Vec<usize>) -> (r: Vec<Vec<String>>)
    requires
        dictionary.wf(),
        is_boundary_seq(bounds@, text.spec_bytes().len() as int),
        forall|a: int|
            0 <= a < bounds.len() ==> is_char_boundary(
                text.spec_bytes(),
                #[trigger] bounds@[a] as int,
            ),
    ensures
        bounds.len() == 1 ==> r.len() == 0,
        bounds.len() > 1 ==> lists(
            r@,
            0,
            text.spec_bytes(),
            bounds@,
            Seq::<int>::empty(),
            span_graph(dictionary.bytes(), text.spec_bytes(), bounds@).paths(0),
        ),
{
    let mut results: Vec<Vec<String>> = Vec::new();
    if bounds.len() == 1 {
        return results;
    }
    let mut prefix: Vec<String> = Vec::new();
    proof {
        dictionary.lemma_bytes();
        assert(offsets(Seq::<int>::empty(), bounds@) =~= Seq::<int>::empty());
    }
    search(
        &dictionary.fst,
        text,
        bounds,
        0,
        &mut prefix,
        &mut results,
        Ghost(Seq::<int>::empty()),
    );
    results
}

/// All segmentations of `word` into words of `dictionary`, each as the list
/// of its words in their canonical decomposition, in lexicographic order of
/// the cut points. The empty word has none.
pub fn break_into_words(word: &str, dictionary: &Dictionary) -> (r: Vec<Vec<String>>)
    requires
        dictionary.wf(),
        word@.len() > 0 ==> searchable(word@),
    ensures
        word@.len() == 0 || boundaries(nfd_chars(word@)).len() == 1 ==> r.len() == 0,
        word@.len() > 0 && boundaries(nfd_chars(word@)).len() > 1 ==> lists(
            r@,
            0,
            encode_utf8(nfd_chars(word@)),
            boundaries(nfd_chars(word@)),
            Seq::<int>::empty(),
            span_graph(
                dictionary.bytes(),
                encode_utf8(nfd_chars(word@)),
                boundaries(nfd_chars(word@)),
            ).paths(0),
        ),
{
    if word.is_empty() {
        return Vec::new();
    }
    let index = BoundaryIndex::of(word);
    break_text(dictionary, index.normal.as_str(), &index.normal_bounds)
}

/// All segmentations of `word` into words of `dictionary`, after testing
/// that the text services agree on the canonical decomposition of the word.
/// Without that there is no result.
pub fn try_break_into_words(word: &str, dictionary: &Dictionary) -> (r: Option<Vec<Vec<String>>>)
    requires
        dictionary.wf(),
    ensures
        r is Some <==> word@.len() == 0 || searchable(word@),
        r matches Some(found) ==> {
            &&& word@.len() == 0 || boundaries(nfd_chars(word@)).len() == 1 ==> found.len() == 0
            &&& word@.len() > 0 && boundaries(nfd_chars(word@)).len() > 1 ==> lists(
                found@,
                0,
                encode_utf8(nfd_chars(word@)),
                boundaries(nfd_chars(word@)),
                Seq::<int>::empty(),
                span_graph(
                    dictionary.bytes(),
                    encode_utf8(nfd_chars(word@)),
                    boundaries(nfd_chars(word@)),
                ).paths(0),
            )
        },
{
    if word.is_empty() {
        return Some(Vec::new());
    }
    let index = BoundaryIndex::of(word);
    let normal: &str = index.normal.as_str();
    if is_boundary_list(&index.normal_bounds, normal.as_bytes().len()) && on_char_boundaries(
        normal,
        &index.normal_bounds,
    ) {
        Some(break_text(dictionary, normal, &index.normal_bounds))
    } else {
        None
    }
}

/// All segmentations of `word` into the words `words`, by exhaustive search,
/// where the text services agree on the canonical decomposition of the word.
/// Without that there is no result.
pub fn break_into(words: &[&str], word: &str) -> (r: Option<Vec<Vec<String>>>)
    ensures
        r is Some <==> word@.len() == 0 || searchable(word@),
        r matches Some(found) ==> {
            &&& word@.len() == 0 || boundaries(nfd_chars(word@)).len() == 1 ==> found.len() == 0
            &&& word@.len() > 0 && boundaries(nfd_chars(word@)).len() > 1 ==> exists|d: Dictionary| #[trigger]
                d.holds(words@) && lists(
                    found@,
                    0,
                    encode_utf8(nfd_chars(word@)),
                    boundaries(nfd_chars(word@)),
                    Seq::<int>::empty(),
                    span_graph(
                        d.bytes(),
                        encode_utf8(nfd_chars(word@)),
                        boundaries(nfd_chars(word@)),
                    ).paths(0),
                )
        },
{
    let dictionary = Dictionary::new(words);
    try_break_into_words(word, &dictionary)
}

/// The search finds as many segmentations as the enumerator gives out, and
/// entry by entry the words that the same path through the boundaries cuts
/// out: the search out of the decomposed text, the enumerator out of the
/// input.
pub proof fn lemma_search_agrees(dict: Seq<u8>, input: Seq<char>, found: Seq<Vec<String>>, x: int)
    requires
        input.len() > 0,
        lists(
            found,
            0,
            encode_utf8(nfd_chars(input)),
            boundaries(nfd_chars(input)),
            Seq::<int>::empty(),
            span_graph(dict, encode_utf8(nfd_chars(input)), boundaries(nfd_chars(input))).paths(0),
        ),
        0 <= x < found.len(),
    ensures
        found.len() == segmentations(dict, input).len(),
        pieces_match(
            found[x]@,
            encode_utf8(nfd_chars(input)),
            offsets(
                span_graph(
                    dict,
                    encode_utf8(nfd_chars(input)),
                    boundaries(nfd_chars(input)),
                ).paths(0)[x],
                boundaries(nfd_chars(input)),
            ),
        ),
        segmentations(dict, input)[x] == offsets(
            span_graph(dict, encode_utf8(nfd_chars(input)), boundaries(nfd_chars(input))).paths(
                0,
            )[x],
            boundaries(input),
        ),
{
    let g = span_graph(dict, encode_utf8(nfd_chars(input)), boundaries(nfd_chars(input)));
    assert(lists_at(
        found,
        0,
        encode_utf8(nfd_chars(input)),
        boundaries(nfd_chars(input)),
        Seq::<int>::empty(),
        g.paths(0),
        x,
    ));
    assert(Seq::<int>::empty() + g.paths(0)[x] =~= g.paths(0)[x]);
}

} // verus!
