//! The trellis of an input: which stretches between grapheme boundaries are
//! dictionary words, stored as one bit for each ordered pair of boundaries.

use crate::automaton::{
    accepts, fst_bytes, is_built, is_final, reachable, root, walk, walk_bytes,
};
use crate::bits::{lemma_ones_of, lemma_two_zeros, lemma_zeros_of, ones_of, zeros_of, Bits};
use crate::text::is_boundary_seq;
use crate::paths::{
    cuts_from, lemma_count_between_none, lemma_count_between_one, lemma_count_between_split,
    lemma_dead_end, lemma_paths_len, lemma_relabel, lemma_same_paths, Graph,
};
use crate::rows::{
    bit_index, get_row_bounds, lemma_bit_index, lemma_bit_index_injective,
    lemma_triangle_monotonic, row_end, row_start, triangle,
};
use vstd::prelude::*;

verus! {

/// Whether the bit for the edge from `i` to `j` is set.
pub open spec fn has_bit(bits: Seq<bool>, last: int, i: int, j: int) -> bool {
    bits[bit_index(last, i, j)]
}

/// Whether an edge leads to `i`.
pub open spec fn has_incoming(bits: Seq<bool>, last: int, i: int) -> bool {
    exists|k: int| 0 <= k < i && has_bit(bits, last, k, i)
}

/// The graph that a bit array stores.
pub open spec fn graph_of(bits: Seq<bool>, last: int) -> Graph {
    Graph {
        last,
        edges: Set::new(|e: (int, int)| 0 <= e.0 < e.1 <= last && has_bit(bits, last, e.0, e.1)),
    }
}

/// Whether the stretch of the normalized text between boundaries `i` and `j`
/// is a dictionary word.
pub open spec fn span_edge(dict: Seq<u8>, nfd: Seq<u8>, nfd_bounds: Seq<usize>, i: int, j: int) -> bool {
    0 <= i < j < nfd_bounds.len() && accepts(
        dict,
        nfd.subrange(nfd_bounds[i] as int, nfd_bounds[j] as int),
    )
}

/// The graph of all stretches that are dictionary words.
pub open spec fn span_graph(dict: Seq<u8>, nfd: Seq<u8>, nfd_bounds: Seq<usize>) -> Graph {
    Graph {
        last: nfd_bounds.len() - 1,
        edges: Set::new(|e: (int, int)| span_edge(dict, nfd, nfd_bounds, e.0, e.1)),
    }
}

/// Setting the bit of one edge leaves the bits of all other edges as they
/// were.
pub proof fn lemma_set_bit(bits: Seq<bool>, last: int, i: int, j: int, value: bool)
    requires
        0 <= i < j <= last,
        bits.len() == triangle(last + 1),
    ensures
        0 <= bit_index(last, i, j) < bits.len(),
        has_bit(bits.update(bit_index(last, i, j), value), last, i, j) == value,
        forall|k: int, l: int|
            0 <= k < l <= last && !(k == i && l == j) ==> #[trigger] has_bit(
                bits.update(bit_index(last, i, j), value),
                last,
                k,
                l,
            ) == has_bit(bits, last, k, l),
{
    lemma_bit_index(last, i, j);
    assert forall|k: int, l: int| 0 <= k < l <= last && !(k == i && l == j) implies #[trigger] has_bit(
        bits.update(bit_index(last, i, j), value),
        last,
        k,
        l,
    ) == has_bit(bits, last, k, l) by {
        lemma_bit_index(last, k, l);
        if bit_index(last, k, l) == bit_index(last, i, j) {
            lemma_bit_index_injective(last, i, j, k, l);
        }
    }
}

/// Walks the automaton from boundary `start` over the graphemes that follow,
/// sets the bit of each boundary at which a word ends, and marks that boundary
/// as one to walk from.
pub(crate) fn expand_node(
    dictionary: &fst::raw::Fst<Vec<u8>>,
    nfd: &[u8],
    nfd_bounds: &Vec<usize>,
    start: usize,
    tree: &mut Bits,
    remaining: &mut Bits,
)
    requires
        is_built(fst_bytes(*dictionary)),
        is_boundary_seq(nfd_bounds@, nfd@.len() as int),
        triangle(nfd_bounds.len() as int) <= usize::MAX,
        old(tree)@.len() == triangle(nfd_bounds.len() as int),
        old(remaining)@.len() == nfd_bounds.len(),
        start < nfd_bounds.len(),
        forall|j: int|
            start < j < nfd_bounds.len() ==> !#[trigger] has_bit(
                old(tree)@,
                nfd_bounds.len() - 1,
                start as int,
                j,
            ),
    ensures
        final(tree)@.len() == old(tree)@.len(),
        final(remaining)@.len() == old(remaining)@.len(),
        forall|j: int|
            start < j < nfd_bounds.len() ==> #[trigger] has_bit(
                final(tree)@,
                nfd_bounds.len() - 1,
                start as int,
                j,
            ) == span_edge(fst_bytes(*dictionary), nfd@, nfd_bounds@, start as int, j),
        forall|i: int, j: int|
            0 <= i < j < nfd_bounds.len() && i != start ==> #[trigger] has_bit(
                final(tree)@,
                nfd_bounds.len() - 1,
                i,
                j,
            ) == has_bit(old(tree)@, nfd_bounds.len() - 1, i, j),
        forall|t: int|
            0 <= t < nfd_bounds.len() ==> #[trigger] final(remaining)@[t] == (old(remaining)@[t] || (
            start < t && has_bit(final(tree)@, nfd_bounds.len() - 1, start as int, t))),
{
    let last: usize = nfd_bounds.len() - 1;
    let ghost dict = fst_bytes(*dictionary);
    let ghost origin = nfd_bounds@[start as int] as int;
    let row = get_row_bounds(start, last);
    let mut cursor: usize = root(dictionary);
    let mut node: usize = start;
    let mut position: usize = nfd_bounds[start];
    proof {
        assert(nfd@.subrange(origin, origin).len() == 0);
    }
    while node < last
        invariant_except_break
            position == nfd_bounds@[node as int],
            walk(dict, nfd@.subrange(origin, position as int)) == Some(cursor),
        invariant
            is_built(dict),
            dict == fst_bytes(*dictionary),
            is_boundary_seq(nfd_bounds@, nfd@.len() as int),
            last == nfd_bounds.len() - 1,
            triangle(last + 1) <= usize::MAX,
            tree@.len() == triangle(last + 1),
            tree@.len() == old(tree)@.len(),
            remaining@.len() == last + 1,
            old(remaining)@.len() == last + 1,
            start <= node <= last,
            origin == nfd_bounds@[start as int],
            row.0 == crate::rows::row_start(last as int, start as int),
            forall|j: int|
                start < j <= node ==> #[trigger] has_bit(tree@, last as int, start as int, j)
                    == span_edge(dict, nfd@, nfd_bounds@, start as int, j),
            forall|j: int|
                node < j <= last ==> !#[trigger] has_bit(tree@, last as int, start as int, j),
            forall|i: int, j: int|
                0 <= i < j <= last && i != start ==> #[trigger] has_bit(tree@, last as int, i, j)
                    == has_bit(old(tree)@, last as int, i, j),
            forall|t: int|
                0 <= t <= last ==> #[trigger] remaining@[t] == (old(remaining)@[t] || (start < t
                    && has_bit(tree@, last as int, start as int, t))),
        ensures
            tree@.len() == old(tree)@.len(),
            remaining@.len() == last + 1,
            forall|j: int|
                start < j <= last ==> #[trigger] has_bit(tree@, last as int, start as int, j)
                    == span_edge(dict, nfd@, nfd_bounds@, start as int, j),
            forall|i: int, j: int|
                0 <= i < j <= last && i != start ==> #[trigger] has_bit(tree@, last as int, i, j)
                    == has_bit(old(tree)@, last as int, i, j),
            forall|t: int|
                0 <= t <= last ==> #[trigger] remaining@[t] == (old(remaining)@[t] || (start < t
                    && has_bit(tree@, last as int, start as int, t))),
        decreases last - node,
    {
        let end: usize = nfd_bounds[node + 1];
        proof {
            assert(nfd_bounds@[start as int] <= nfd_bounds@[node as int]) by {
                if start < node {
                    assert(nfd_bounds@[start as int] < nfd_bounds@[node as int]);
                }
            }
            assert(nfd_bounds@[node as int] < nfd_bounds@[node + 1]);
            assert(nfd_bounds@[node + 1] <= nfd@.len()) by {
                if node + 1 < last {
                    assert(nfd_bounds@[node + 1] < nfd_bounds@[last as int]);
                }
            }
        }
        match walk_bytes(dictionary, nfd, Ghost(origin), cursor, position, end) {
            None => {
                proof {
                    assert forall|j: int| node < j <= last implies !span_edge(
                        dict,
                        nfd@,
                        nfd_bounds@,
                        start as int,
                        j,
                    ) by {
                        if node + 1 < j {
                            assert(nfd_bounds@[node + 1] < nfd_bounds@[j]);
                        }
                        if j < last {
                            assert(nfd_bounds@[j] < nfd_bounds@[last as int]);
                        }
                        assert(walk(dict, nfd@.subrange(origin, nfd_bounds@[j] as int)) is None);
                    }
                }
                break ;
            },
            Some(reached) => {
                cursor = reached;
                position = end;
            },
        }
        proof {
            assert(reachable(dict, cursor));
        }
        if is_final(dictionary, cursor) {
            proof {
                lemma_set_bit(tree@, last as int, start as int, node + 1, true);
                lemma_bit_index(last as int, start as int, node + 1);
            }
            tree.set(row.0 + (node - start), true);
            remaining.set(node + 1, true);
        }
        node = node + 1;
    }
}

/// Finds the edges of the trellis: from boundary 0, and from every boundary at
/// which a word that starts at a boundary so reached ends, the automaton is
/// walked once over the graphemes that follow.
pub(crate) fn find_edges(
    dictionary: &fst::raw::Fst<Vec<u8>>,
    nfd: &[u8],
    nfd_bounds: &Vec<usize>,
) -> (tree: Bits)
    requires
        is_built(fst_bytes(*dictionary)),
        is_boundary_seq(nfd_bounds@, nfd@.len() as int),
        nfd_bounds.len() >= 2,
        triangle(nfd_bounds.len() as int) <= crate::bits::max_bits(),
    ensures
        tree@.len() == triangle(nfd_bounds.len() as int),
        forall|i: int, j: int|
            0 <= i < j < nfd_bounds.len() && #[trigger] has_bit(tree@, nfd_bounds.len() - 1, i, j)
                ==> span_edge(fst_bytes(*dictionary), nfd@, nfd_bounds@, i, j),
        graph_of(tree@, nfd_bounds.len() - 1).paths(0) == span_graph(
            fst_bytes(*dictionary),
            nfd@,
            nfd_bounds@,
        ).paths(0),
        forall|i: int, j: int|
            0 < i < j < nfd_bounds.len() && #[trigger] has_bit(tree@, nfd_bounds.len() - 1, i, j)
                ==> has_incoming(tree@, nfd_bounds.len() - 1, i),
{
    let node_count: usize = nfd_bounds.len();
    let last: usize = node_count - 1;
    let ghost dict = fst_bytes(*dictionary);
    proof {
        crate::rows::lemma_triangle_monotonic(node_count as int, node_count as int);
        crate::rows::lemma_triangle_closed_form(node_count as int);
        if node_count >= 3 {
            assert(node_count <= triangle(node_count as int)) by (nonlinear_arith)
                requires
                    2 * triangle(node_count as int) == node_count * (node_count - 1),
                    node_count >= 3,
            ;
        }
        assert(node_count <= crate::bits::max_bits());
    }
    let edge_count: usize = get_row_bounds(0, last).1;
    let mut remaining = Bits::repeat(false, node_count);
    remaining.set(0, true);
    let mut tree = Bits::repeat(false, edge_count);
    let ghost mut expanded: Set<int> = Set::empty();
    let ghost mut floor: int = 0;
    let ghost mut pred: Seq<int> = Seq::new(node_count as nat, |j: int| 0int);
    proof {
        assert forall|i: int, j: int| 0 <= i < j <= last implies !#[trigger] has_bit(
            tree@,
            last as int,
            i,
            j,
        ) by {
            lemma_bit_index(last as int, i, j);
        }
    }
    loop
        invariant
            is_built(dict),
            dict == fst_bytes(*dictionary),
            is_boundary_seq(nfd_bounds@, nfd@.len() as int),
            node_count == nfd_bounds.len(),
            last == node_count - 1,
            node_count >= 2,
            triangle(node_count as int) <= usize::MAX,
            tree@.len() == triangle(node_count as int),
            remaining@.len() == node_count,
            0 <= floor <= node_count,
            forall|t: int| 0 <= t < floor ==> !remaining@[t],
            forall|a: int| expanded.contains(a) ==> 0 <= a < floor,
            floor == 0 ==> remaining@[0],
            floor > 0 ==> expanded.contains(0),
            forall|i: int, j: int|
                0 <= i < j <= last ==> #[trigger] has_bit(tree@, last as int, i, j) == (
                expanded.contains(i) && span_edge(dict, nfd@, nfd_bounds@, i, j)),
            forall|i: int, j: int|
                0 <= i < j <= last && #[trigger] has_bit(tree@, last as int, i, j)
                    ==> expanded.contains(j) || remaining@[j],
            pred.len() == node_count,
            forall|j: int|
                0 < j <= last && (expanded.contains(j) || remaining@[j]) ==> 0 <= #[trigger] pred[j]
                    < j && has_bit(tree@, last as int, pred[j], j),
        ensures
            floor > 0,
            pred.len() == node_count,
            forall|j: int|
                0 < j <= last && expanded.contains(j) ==> 0 <= #[trigger] pred[j] < j && has_bit(
                    tree@,
                    last as int,
                    pred[j],
                    j,
                ),
            forall|t: int| 0 <= t < node_count ==> !remaining@[t],
            tree@.len() == triangle(node_count as int),
            expanded.contains(0),
            forall|i: int, j: int|
                0 <= i < j <= last ==> #[trigger] has_bit(tree@, last as int, i, j) == (
                expanded.contains(i) && span_edge(dict, nfd@, nfd_bounds@, i, j)),
            forall|i: int, j: int|
                0 <= i < j <= last && #[trigger] has_bit(tree@, last as int, i, j)
                    ==> expanded.contains(j) || remaining@[j],
        decreases node_count - floor,
    {
        match remaining.first_one_in(0, node_count) {
            None => {
                break;
            },
            Some(start) => {
                let ghost before_tree = tree@;
                let ghost before_remaining = remaining@;
                assert(start >= floor);
                expand_node(dictionary, nfd, nfd_bounds, start, &mut tree, &mut remaining);
                remaining.set(start, false);
                proof {
                    let old_pred = pred;
                    pred = Seq::new(
                        node_count as nat,
                        |j: int|
                            if start < j && has_bit(tree@, last as int, start as int, j) {
                                start as int
                            } else {
                                old_pred[j]
                            },
                    );
                    assert forall|j: int|
                        0 < j <= last && (expanded.insert(start as int).contains(j)
                            || remaining@[j]) implies 0 <= #[trigger] pred[j] < j && has_bit(
                        tree@,
                        last as int,
                        pred[j],
                        j,
                    ) by {
                        if start < j && has_bit(tree@, last as int, start as int, j) {
                        } else {
                            assert(expanded.contains(j) || before_remaining[j]);
                            assert(has_bit(before_tree, last as int, old_pred[j], j));
                            assert(expanded.contains(old_pred[j]));
                            assert(has_bit(tree@, last as int, old_pred[j], j) == has_bit(
                                before_tree,
                                last as int,
                                old_pred[j],
                                j,
                            ));
                        }
                    }
                    expanded = expanded.insert(start as int);
                    floor = start + 1;
                    assert forall|i: int, j: int| 0 <= i < j <= last implies #[trigger] has_bit(
                        tree@,
                        last as int,
                        i,
                        j,
                    ) == (expanded.contains(i) && span_edge(dict, nfd@, nfd_bounds@, i, j)) by {
                        if i != start {
                            assert(has_bit(tree@, last as int, i, j) == has_bit(
                                before_tree,
                                last as int,
                                i,
                                j,
                            ));
                        }
                    }
                    assert forall|i: int, j: int|
                        0 <= i < j <= last && #[trigger] has_bit(
                            tree@,
                            last as int,
                            i,
                            j,
                        ) implies expanded.contains(j) || remaining@[j] by {
                        if i != start {
                            assert(has_bit(before_tree, last as int, i, j));
                        }
                    }
                }
            },
        }
    }
    proof {
        let g = graph_of(tree@, last as int);
        let h = span_graph(dict, nfd@, nfd_bounds@);
        assert forall|a: int, b: int| expanded.contains(a) && #[trigger] g.edge(a, b) implies h.edge(
            a,
            b,
        ) && expanded.contains(b) by {
            assert(has_bit(tree@, last as int, a, b));
        }
        assert forall|a: int, b: int|
            expanded.contains(a) && #[trigger] h.edge(a, b) && !g.edge(a, b) implies h.paths(
            b,
        ).len() == 0 by {
            assert(has_bit(tree@, last as int, a, b));
        }
        lemma_same_paths(g, h, expanded, 0);
        assert forall|i: int, j: int|
            0 < i < j <= last && #[trigger] has_bit(tree@, last as int, i, j) implies has_incoming(
            tree@,
            last as int,
            i,
        ) by {
            assert(expanded.contains(i));
            assert(has_bit(tree@, last as int, pred[i], i));
        }
    }
    tree
}

/// A change of bits within the row of one node leaves the edges from all
/// other nodes as they were.
pub proof fn lemma_row_update(before: Seq<bool>, after: Seq<bool>, last: int, node: int)
    requires
        0 <= node < last,
        before.len() == triangle(last + 1),
        after.len() == before.len(),
        forall|t: int|
            0 <= t < before.len() && !(row_start(last, node) <= t < row_end(last, node))
                ==> after[t] == before[t],
    ensures
        forall|k: int, l: int|
            0 <= k < l <= last && k != node ==> #[trigger] has_bit(after, last, k, l) == has_bit(
                before,
                last,
                k,
                l,
            ),
{
    assert forall|k: int, l: int| 0 <= k < l <= last && k != node implies #[trigger] has_bit(
        after,
        last,
        k,
        l,
    ) == has_bit(before, last, k, l) by {
        lemma_bit_index(last, k, l);
        lemma_bit_index(last, node, last);
        if k < node {
            lemma_triangle_monotonic(last - node + 1, last - k);
        } else {
            lemma_triangle_monotonic(last - k + 1, last - node);
        }
    }
}

/// Removes the boundaries from which the end of the text cannot be reached,
/// with the edges from and to them, and says which boundaries were removed.
/// The rows are swept from the last boundary down: until a row has an edge to
/// the end every row is removed; from then on a row loses its edges to removed
/// boundaries and is removed if no edge is left.
pub(crate) fn prune(tree: &mut Bits, node_count: usize) -> (deleted: Bits)
    requires
        node_count >= 2,
        node_count <= crate::bits::max_bits(),
        triangle(node_count as int) <= usize::MAX,
        old(tree)@.len() == triangle(node_count as int),
    ensures
        final(tree)@.len() == old(tree)@.len(),
        deleted@.len() == node_count,
        !deleted@[node_count - 1],
        forall|i: int, j: int|
            0 <= i < j < node_count ==> #[trigger] has_bit(final(tree)@, node_count - 1, i, j) == (
            has_bit(old(tree)@, node_count - 1, i, j) && !deleted@[i] && !deleted@[j]),
        forall|i: int|
            0 <= i < node_count - 1 && !deleted@[i] ==> #[trigger] graph_of(
                final(tree)@,
                node_count - 1,
            ).has_edge(i),
        graph_of(final(tree)@, node_count - 1).paths(0) == graph_of(
            old(tree)@,
            node_count - 1,
        ).paths(0),
        deleted@[0] ==> graph_of(old(tree)@, node_count - 1).paths(0).len() == 0,
        forall|i: int, j: int|
            0 <= i < j < node_count && deleted@[i] && #[trigger] has_bit(
                old(tree)@,
                node_count - 1,
                i,
                j,
            ) ==> deleted@[j],
{
    let last: usize = node_count - 1;
    let mut deleted = Bits::repeat(false, node_count);
    let mut found = false;
    let mut node: usize = last;
    let ghost witness: Seq<int> = Seq::new(node_count as nat, |i: int| 0int);
    let ghost before = tree@;
    while node > 0
        invariant
            last == node_count - 1,
            node_count >= 2,
            triangle(node_count as int) <= usize::MAX,
            before == old(tree)@,
            tree@.len() == triangle(node_count as int),
            before.len() == tree@.len(),
            deleted@.len() == node_count,
            witness.len() == node_count,
            0 <= node <= last,
            !deleted@[last as int],
            forall|i: int| 0 <= i < node ==> !deleted@[i],
            forall|i: int, j: int|
                node <= i < j <= last ==> #[trigger] has_bit(tree@, last as int, i, j) == (has_bit(
                    before,
                    last as int,
                    i,
                    j,
                ) && !deleted@[i] && !deleted@[j]),
            forall|i: int, j: int|
                0 <= i < node && i < j <= last ==> #[trigger] has_bit(tree@, last as int, i, j)
                    == has_bit(before, last as int, i, j),
            forall|i: int, j: int|
                node <= i < j <= last && deleted@[i] && #[trigger] has_bit(before, last as int, i, j)
                    ==> deleted@[j],
            forall|i: int|
                node <= i < last && !deleted@[i] ==> i < #[trigger] witness[i] <= last && has_bit(
                    tree@,
                    last as int,
                    i,
                    witness[i],
                ),
            !found ==> forall|i: int| node <= i < last ==> deleted@[i],
        decreases node,
    {
        node = node - 1;
        let row = get_row_bounds(node, last);
        let ghost row_tree = tree@;
        proof {
            lemma_bit_index(last as int, node as int, last as int);
        }
        if found {
            let dead = deleted.ones_in(node + 1, node_count);
            let ghost marks = deleted@.subrange(node + 1, node_count as int);
            proof {
                lemma_ones_of(marks);
                assert forall|j: int| node < j <= last && deleted@[j] implies dead@.len() > 0 && j
                    - node - 1 >= dead@[0] by {
                    let o = j - node - 1;
                    assert(marks[o]);
                    assert(dead@.contains(o as usize));
                    let t = choose|t: int| 0 <= t < dead@.len() && dead@[t] == o as usize;
                    if t > 0 {
                        assert(dead@[0] < dead@[t]);
                    }
                }
            }
            let mut index: usize = 0;
            while index < dead.len()
                invariant
                    last == node_count - 1,
                    0 <= node < last,
                    triangle(node_count as int) <= usize::MAX,
                    tree@.len() == triangle(node_count as int),
                    row_tree.len() == tree@.len(),
                    deleted@.len() == node_count,
                    marks == deleted@.subrange(node + 1, node_count as int),
                    dead@ == ones_of(marks),
                    dead@.len() <= marks.len(),
                    forall|k: int|
                        0 <= k < dead@.len() ==> #[trigger] dead@[k] < marks.len()
                            && marks[dead@[k] as int],
                    forall|k: int, l: int| 0 <= k < l < dead@.len() ==> dead@[k] < dead@[l],
                    forall|i: int| 0 <= i < marks.len() && marks[i] ==> dead@.contains(i as usize),
                    row.0 == row_start(last as int, node as int),
                    row.1 == row_end(last as int, node as int),
                    0 <= index <= dead.len(),
                    forall|t: int|
                        0 <= t < tree@.len() && !(row.0 <= t < row.1) ==> tree@[t] == row_tree[t],
                    forall|j: int|
                        node < j <= last ==> #[trigger] has_bit(tree@, last as int, node as int, j)
                            == (has_bit(row_tree, last as int, node as int, j) && !(deleted@[j]
                            && j - node - 1 < (if index < dead.len() {
                            dead@[index as int] as int
                        } else {
                            last - node
                        }))),
                decreases dead.len() - index,
            {
                let offset: usize = dead[index];
                let ghost previous = tree@;
                proof {
                    assert(marks[offset as int]);
                    lemma_bit_index(last as int, node as int, node + 1 + offset);
                    lemma_set_bit(previous, last as int, node as int, node + 1 + offset, false);
                }
                tree.set(row.0 + offset, false);
                index = index + 1;
                proof {
                    let bound: int = if index < dead.len() {
                        dead@[index as int] as int
                    } else {
                        last - node
                    };
                    assert forall|j: int| node < j <= last implies #[trigger] has_bit(
                        tree@,
                        last as int,
                        node as int,
                        j,
                    ) == (has_bit(row_tree, last as int, node as int, j) && !(deleted@[j] && j
                        - node - 1 < bound)) by {
                        let o = j - node - 1;
                        assert(marks[o] == deleted@[j]);
                        if o == offset {
                        } else {
                            assert(has_bit(tree@, last as int, node as int, j) == has_bit(
                                previous,
                                last as int,
                                node as int,
                                j,
                            ));
                            if offset < o < bound && deleted@[j] {
                                assert(dead@.contains(o as usize));
                                let t = choose|t: int| 0 <= t < dead@.len() && dead@[t] == o as usize;
                                if t < index {
                                    if t < index - 1 {
                                        assert(dead@[t] < dead@[index - 1]);
                                    }
                                } else if t > index {
                                    assert(dead@[index as int] < dead@[t]);
                                }
                                assert(false);
                            }
                        }
                    }
                }
            }
            let ghost cleared = tree@;
            match tree.first_one_in(row.0, row.1) {
                None => {
                    deleted.set(node, true);
                },
                Some(k) => {
                    proof {
                        witness = witness.update(node as int, node + 1 + k);
                    }
                },
            }
            proof {
                lemma_row_update(row_tree, tree@, last as int, node as int);
                assert forall|j: int| node < j <= last implies #[trigger] has_bit(
                    tree@,
                    last as int,
                    node as int,
                    j,
                ) == (has_bit(before, last as int, node as int, j) && !deleted@[node as int]
                    && !deleted@[j]) by {
                    lemma_bit_index(last as int, node as int, j);
                    assert(has_bit(row_tree, last as int, node as int, j) == has_bit(
                        before,
                        last as int,
                        node as int,
                        j,
                    ));
                }
                assert forall|j: int|
                    node < j <= last && deleted@[node as int] && #[trigger] has_bit(
                        before,
                        last as int,
                        node as int,
                        j,
                    ) implies deleted@[j] by {
                    lemma_bit_index(last as int, node as int, j);
                    assert(has_bit(row_tree, last as int, node as int, j));
                    assert(!has_bit(tree@, last as int, node as int, j));
                }
            }
        } else {
            if tree.get(row.1 - 1) {
                found = true;
                tree.fill_range(row.0, row.1 - 1, false);
                proof {
                    witness = witness.update(node as int, last as int);
                }
            } else {
                tree.fill_range(row.0, row.1, false);
                deleted.set(node, true);
            }
            proof {
                lemma_row_update(row_tree, tree@, last as int, node as int);
                assert forall|j: int| node < j <= last implies #[trigger] has_bit(
                    tree@,
                    last as int,
                    node as int,
                    j,
                ) == (has_bit(before, last as int, node as int, j) && !deleted@[node as int]
                    && !deleted@[j]) by {
                    lemma_bit_index(last as int, node as int, j);
                    assert(has_bit(row_tree, last as int, node as int, j) == has_bit(
                        before,
                        last as int,
                        node as int,
                        j,
                    ));
                }
                assert forall|j: int|
                    node < j <= last && deleted@[node as int] && #[trigger] has_bit(
                        before,
                        last as int,
                        node as int,
                        j,
                    ) implies deleted@[j] by {
                    lemma_bit_index(last as int, node as int, j);
                    assert(has_bit(row_tree, last as int, node as int, j));
                }
            }
        }
    }
    proof {
        let g = graph_of(tree@, last as int);
        let h = graph_of(before, last as int);
        let dead_set = Set::new(|a: int| 0 <= a < last && deleted@[a]);
        let all = Set::new(|a: int| true);
        assert forall|i: int| 0 <= i < last && !deleted@[i] implies #[trigger] g.has_edge(i) by {
            assert(has_bit(tree@, last as int, i, witness[i]));
            assert(g.edge(i, witness[i]));
        }
        assert forall|a: int, b: int| dead_set.contains(a) && #[trigger] h.edge(a, b) implies dead_set.contains(
            b,
        ) by {
            assert(has_bit(before, last as int, a, b));
        }
        assert forall|a: int, b: int| all.contains(a) && #[trigger] g.edge(a, b) implies h.edge(a, b)
            && all.contains(b) by {
            assert(has_bit(tree@, last as int, a, b));
        }
        assert forall|a: int, b: int|
            all.contains(a) && #[trigger] h.edge(a, b) && !g.edge(a, b) implies h.paths(b).len()
            == 0 by {
            assert(has_bit(before, last as int, a, b));
            assert(!has_bit(tree@, last as int, a, b));
            assert(deleted@[a] || deleted@[b]);
            assert(deleted@[b]);
            lemma_dead_end(h, dead_set, b);
        }
        lemma_same_paths(g, h, all, 0);
        if deleted@[0] {
            lemma_dead_end(h, dead_set, 0);
        }
    }
    deleted
}

/// Numbers the boundaries that were not removed from 0 on, in order, and
/// writes the edges and the byte offsets of those boundaries under the new
/// numbers.
pub(crate) fn reindex(tree: &Bits, bounds: &Vec<usize>, deleted: &Bits, survivors: usize) -> (r: (
    Bits,
    Vec<usize>,
))
    requires
        bounds.len() >= 2,
        triangle(bounds.len() as int) <= crate::bits::max_bits(),
        tree@.len() == triangle(bounds.len() as int),
        deleted@.len() == bounds.len(),
        !deleted@[0],
        !deleted@[bounds.len() - 1],
        survivors == zeros_of(deleted@),
        forall|i: int, j: int| 0 <= i < j < bounds.len() ==> bounds@[i] < bounds@[j],
        forall|i: int, j: int|
            0 <= i < j < bounds.len() && #[trigger] has_bit(tree@, bounds.len() - 1, i, j)
                ==> !deleted@[i] && !deleted@[j],
        forall|i: int|
            0 <= i < bounds.len() - 1 && !deleted@[i] ==> #[trigger] graph_of(
                tree@,
                bounds.len() - 1,
            ).has_edge(i),
        forall|i: int|
            0 < i < bounds.len() && !deleted@[i] ==> #[trigger] graph_of(
                tree@,
                bounds.len() - 1,
            ).has_entry(i),
    ensures
        survivors >= 2,
        survivors <= bounds.len(),
        triangle(survivors as int) <= triangle(bounds.len() as int),
        r.1.len() == survivors,
        r.0@.len() == triangle(survivors as int),
        r.1@[0] == bounds@[0],
        r.1@[survivors - 1] == bounds@[bounds.len() - 1],
        forall|a: int, b: int| 0 <= a < b < survivors ==> r.1@[a] < r.1@[b],
        forall|a: int| 0 <= a < survivors ==> bounds@.contains(#[trigger] r.1@[a]),
        graph_of(r.0@, survivors - 1).alive(),
        graph_of(r.0@, survivors - 1).rooted(),
        cuts_from(graph_of(r.0@, survivors - 1), r.1@, 0) == cuts_from(
            graph_of(tree@, bounds.len() - 1),
            bounds@,
            0,
        ),
{
    let node_count: usize = bounds.len();
    let last: usize = node_count - 1;
    let mut old_to_new: Vec<usize> = Vec::new();
    let mut new_bounds: Vec<usize> = Vec::new();
    let ghost mut psi: Seq<int> = Seq::empty();
    let mut i: usize = 0;
    while i < node_count
        invariant
            node_count == bounds.len(),
            deleted@.len() == node_count,
            0 <= i <= node_count,
            old_to_new.len() == i,
            new_bounds.len() == psi.len(),
            psi.len() == zeros_of(deleted@.take(i as int)),
            psi.len() <= i,
            forall|k: int, l: int| 0 <= k < l < psi.len() ==> psi[k] < psi[l],
            forall|k: int| 0 <= k < psi.len() ==> 0 <= #[trigger] psi[k] < i && !deleted@[psi[k]],
            forall|t: int|
                0 <= t < i && !deleted@[t] ==> 0 <= #[trigger] old_to_new@[t] < psi.len()
                    && psi[old_to_new@[t] as int] == t,
            forall|k: int| 0 <= k < psi.len() ==> #[trigger] new_bounds@[k] == bounds@[psi[k]],
        decreases node_count - i,
    {
        proof {
            assert(deleted@.take(i + 1).drop_last() =~= deleted@.take(i as int));
        }
        if deleted.get(i) {
            old_to_new.push(usize::MAX);
        } else {
            old_to_new.push(new_bounds.len());
            new_bounds.push(bounds[i]);
            proof {
                psi = psi.push(i as int);
            }
        }
        i = i + 1;
    }
    let new_last: usize = survivors - 1;
    proof {
        assert(deleted@.take(node_count as int) =~= deleted@);
        assert(psi[old_to_new@[0] as int] == 0);
        assert(psi[old_to_new@[last as int] as int] == last);
        if old_to_new@[0] > 0 {
            assert(psi[0] < psi[old_to_new@[0] as int]);
        }
        if old_to_new@[last as int] < psi.len() - 1 {
            assert(psi[old_to_new@[last as int] as int] < psi[psi.len() - 1]);
        }
        if old_to_new@[0] == old_to_new@[last as int] {
            assert(false);
        }
        lemma_triangle_monotonic(survivors as int, node_count as int);
    }
    let edge_count: usize = get_row_bounds(0, new_last).1;
    let mut new_tree = Bits::repeat(false, edge_count);
    proof {
        assert forall|a: int, b: int| 0 <= a < b <= new_last implies !#[trigger] has_bit(
            new_tree@,
            new_last as int,
            a,
            b,
        ) by {
            lemma_bit_index(new_last as int, a, b);
        }
    }
    let mut row_node: usize = 0;
    while row_node < last
        invariant
            node_count == bounds.len(),
            last == node_count - 1,
            new_last == survivors - 1,
            survivors >= 2,
            survivors == psi.len(),
            survivors <= node_count,
            triangle(node_count as int) <= usize::MAX,
            triangle(survivors as int) <= usize::MAX,
            tree@.len() == triangle(node_count as int),
            new_tree@.len() == triangle(survivors as int),
            deleted@.len() == node_count,
            !deleted@[last as int],
            old_to_new.len() == node_count,
            0 <= row_node <= last,
            forall|k: int, l: int| 0 <= k < l < psi.len() ==> psi[k] < psi[l],
            forall|k: int|
                0 <= k < psi.len() ==> 0 <= #[trigger] psi[k] < node_count && !deleted@[psi[k]],
            forall|t: int|
                0 <= t < node_count && !deleted@[t] ==> 0 <= #[trigger] old_to_new@[t] < psi.len()
                    && psi[old_to_new@[t] as int] == t,
            forall|i: int, j: int|
                0 <= i < j < node_count && #[trigger] has_bit(tree@, last as int, i, j)
                    ==> !deleted@[i] && !deleted@[j],
            forall|a: int, b: int|
                0 <= a < b <= new_last ==> #[trigger] has_bit(new_tree@, new_last as int, a, b) == (
                psi[a] < row_node && has_bit(tree@, last as int, psi[a], psi[b])),
        decreases last - row_node,
    {
        if !deleted.get(row_node) {
            let a: usize = old_to_new[row_node];
            let old_row = get_row_bounds(row_node, last);
            proof {
                assert(psi[a as int] == row_node);
                if a == new_last {
                    assert(psi[old_to_new@[last as int] as int] == last);
                    if old_to_new@[last as int] < a {
                        assert(psi[old_to_new@[last as int] as int] < psi[a as int]);
                    }
                    assert(false);
                }
                lemma_bit_index(last as int, row_node as int, last as int);
            }
            let new_row = get_row_bounds(a, new_last);
            let ones = tree.ones_in(old_row.0, old_row.1);
            let ghost marks = tree@.subrange(old_row.0 as int, old_row.1 as int);
            let ghost row_tree = new_tree@;
            proof {
                lemma_ones_of(marks);
                assert forall|j: int|
                    row_node < j <= last && has_bit(
                        tree@,
                        last as int,
                        row_node as int,
                        j,
                    ) implies ones@.len() > 0 && j - row_node - 1 >= ones@[0] by {
                    let o = j - row_node - 1;
                    assert(marks[o]);
                    assert(ones@.contains(o as usize));
                    let t = choose|t: int| 0 <= t < ones@.len() && ones@[t] == o as usize;
                    if t > 0 {
                        assert(ones@[0] < ones@[t]);
                    }
                }
            }
            let mut index: usize = 0;
            while index < ones.len()
                invariant
                    last == node_count - 1,
                    new_last == survivors - 1,
                    survivors == psi.len(),
                    0 <= row_node < last,
                    0 <= a < new_last,
                    psi[a as int] == row_node,
                    triangle(node_count as int) <= usize::MAX,
                    triangle(survivors as int) <= usize::MAX,
                    tree@.len() == triangle(node_count as int),
                    new_tree@.len() == triangle(survivors as int),
                    row_tree.len() == new_tree@.len(),
                    deleted@.len() == node_count,
                    old_to_new.len() == node_count,
                    marks == tree@.subrange(old_row.0 as int, old_row.1 as int),
                    marks.len() == last - row_node,
                    old_row.0 == row_start(last as int, row_node as int),
                    old_row.1 == old_row.0 + (last - row_node),
                    old_row.1 <= tree@.len(),
                    new_row.0 == row_start(new_last as int, a as int),
                    ones@ == ones_of(marks),
                    forall|k: int|
                        0 <= k < ones@.len() ==> #[trigger] ones@[k] < marks.len()
                            && marks[ones@[k] as int],
                    forall|k: int, l: int| 0 <= k < l < ones@.len() ==> ones@[k] < ones@[l],
                    forall|i: int| 0 <= i < marks.len() && marks[i] ==> ones@.contains(i as usize),
                    forall|k: int, l: int| 0 <= k < l < psi.len() ==> psi[k] < psi[l],
                    forall|k: int|
                        0 <= k < psi.len() ==> 0 <= #[trigger] psi[k] < node_count
                            && !deleted@[psi[k]],
                    forall|t: int|
                        0 <= t < node_count && !deleted@[t] ==> 0 <= #[trigger] old_to_new@[t]
                            < psi.len() && psi[old_to_new@[t] as int] == t,
                    forall|i: int, j: int|
                        0 <= i < j < node_count && #[trigger] has_bit(tree@, last as int, i, j)
                            ==> !deleted@[i] && !deleted@[j],
                    0 <= index <= ones.len(),
                    forall|c: int, d: int|
                        0 <= c < d <= new_last && c != a ==> #[trigger] has_bit(
                            new_tree@,
                            new_last as int,
                            c,
                            d,
                        ) == has_bit(row_tree, new_last as int, c, d),
                    forall|b: int|
                        a < b <= new_last ==> #[trigger] has_bit(
                            new_tree@,
                            new_last as int,
                            a as int,
                            b,
                        ) == (has_bit(tree@, last as int, row_node as int, psi[b]) && psi[b]
                            - row_node - 1 < (if index < ones.len() {
                            ones@[index as int] as int
                        } else {
                            last - row_node
                        })),
                decreases ones.len() - index,
            {
                let offset: usize = ones[index];
                let target: usize = row_node + 1 + offset;
                let ghost previous = new_tree@;
                proof {
                    assert(marks[offset as int]);
                    lemma_bit_index(last as int, row_node as int, target as int);
                    assert(has_bit(tree@, last as int, row_node as int, target as int));
                }
                let b: usize = old_to_new[target];
                proof {
                    assert(psi[b as int] == target);
                    if b <= a {
                        if b < a {
                            assert(psi[b as int] < psi[a as int]);
                        }
                        assert(false);
                    }
                    lemma_bit_index(new_last as int, a as int, b as int);
                    lemma_set_bit(previous, new_last as int, a as int, b as int, true);
                }
                new_tree.set(new_row.0 + (b - a - 1), true);
                index = index + 1;
                proof {
                    let bound: int = if index < ones.len() {
                        ones@[index as int] as int
                    } else {
                        last - row_node
                    };
                    assert forall|d: int| a < d <= new_last implies #[trigger] has_bit(
                        new_tree@,
                        new_last as int,
                        a as int,
                        d,
                    ) == (has_bit(tree@, last as int, row_node as int, psi[d]) && psi[d] - row_node
                        - 1 < bound) by {
                        assert(psi[a as int] < psi[d]);
                        let o = psi[d] - row_node - 1;
                        lemma_bit_index(last as int, row_node as int, psi[d]);
                        assert(marks[o] == has_bit(tree@, last as int, row_node as int, psi[d]));
                        if d == b {
                        } else {
                            assert(has_bit(new_tree@, new_last as int, a as int, d) == has_bit(
                                previous,
                                new_last as int,
                                a as int,
                                d,
                            ));
                            if d < b {
                                assert(psi[d] < psi[b as int]);
                            } else {
                                assert(psi[b as int] < psi[d]);
                            }
                            if offset < o < bound && marks[o] {
                                assert(ones@.contains(o as usize));
                                let t = choose|t: int| 0 <= t < ones@.len() && ones@[t] == o as usize;
                                if t < index {
                                    if t < index - 1 {
                                        assert(ones@[t] < ones@[index - 1]);
                                    }
                                } else if t > index {
                                    assert(ones@[index as int] < ones@[t]);
                                }
                                assert(false);
                            }
                        }
                    }
                }
            }
            proof {
                assert forall|c: int, d: int| 0 <= c < d <= new_last implies #[trigger] has_bit(
                    new_tree@,
                    new_last as int,
                    c,
                    d,
                ) == (psi[c] < row_node + 1 && has_bit(tree@, last as int, psi[c], psi[d])) by {
                    assert(psi[c] < psi[d]);
                    if c == a {
                    } else {
                        assert(has_bit(new_tree@, new_last as int, c, d) == has_bit(
                            row_tree,
                            new_last as int,
                            c,
                            d,
                        ));
                        if c < a {
                            assert(psi[c] < psi[a as int]);
                        } else {
                            assert(psi[a as int] < psi[c]);
                        }
                    }
                }
            }
        } else {
            proof {
                assert forall|c: int, d: int| 0 <= c < d <= new_last implies #[trigger] has_bit(
                    new_tree@,
                    new_last as int,
                    c,
                    d,
                ) == (psi[c] < row_node + 1 && has_bit(tree@, last as int, psi[c], psi[d])) by {
                    assert(psi[c] != row_node);
                }
            }
        }
        row_node = row_node + 1;
    }
    proof {
        let n = graph_of(new_tree@, new_last as int);
        let p = graph_of(tree@, last as int);
        let inv = old_to_new@.map_values(|x: usize| x as int);
        assert(psi[new_last as int] == last) by {
            assert(psi[old_to_new@[last as int] as int] == last);
            if old_to_new@[last as int] < new_last {
                assert(psi[old_to_new@[last as int] as int] < psi[new_last as int]);
            }
        }
        assert(psi[0] == 0) by {
            assert(psi[old_to_new@[0] as int] == 0);
            if old_to_new@[0] > 0 {
                assert(psi[0] < psi[old_to_new@[0] as int]);
            }
        }
        assert forall|c: int, d: int| 0 <= c < d <= n.last implies #[trigger] n.edge(c, d) == p.edge(
            psi[c],
            psi[d],
        ) by {
            assert(psi[c] < psi[d]);
            assert(n.edge(c, d) == has_bit(new_tree@, new_last as int, c, d));
            assert(p.edge(psi[c], psi[d]) == has_bit(tree@, last as int, psi[c], psi[d]));
        }
        assert forall|i: int, j: int| #[trigger] p.edge(i, j) implies 0 <= inv[j] < psi.len()
            && psi[inv[j]] == j by {
            assert(has_bit(tree@, last as int, i, j));
        }
        lemma_relabel(n, new_bounds@, p, bounds@, psi, inv, 0);
        assert forall|c: int| 0 <= c < n.last implies #[trigger] n.has_edge(c) by {
            assert(psi[c] < psi[new_last as int]);
            assert(p.has_edge(psi[c]));
            let j = choose|j: int| p.edge(psi[c], j);
            let d = inv[j];
            if d <= c {
                if d < c {
                    assert(psi[d] < psi[c]);
                }
                assert(false);
            }
            assert(n.edge(c, d));
        }
        assert forall|d: int| 0 < d <= n.last implies #[trigger] n.has_entry(d) by {
            assert(psi[0] < psi[d]);
            assert(p.has_entry(psi[d]));
            let k = choose|k: int| p.edge(k, psi[d]);
            assert(has_bit(tree@, last as int, k, psi[d]));
            let c = old_to_new@[k] as int;
            assert(psi[c] == k);
            if c >= d {
                if c > d {
                    assert(psi[d] < psi[c]);
                }
                assert(false);
            }
            assert(n.edge(c, d));
        }
        assert forall|c: int, d: int| 0 <= c < d < survivors implies new_bounds@[c]
            < new_bounds@[d] by {
            assert(psi[c] < psi[d]);
        }
        assert forall|c: int| 0 <= c < survivors implies bounds@.contains(
            #[trigger] new_bounds@[c],
        ) by {
            assert(bounds@[psi[c]] == new_bounds@[c]);
        }
    }
    (new_tree, new_bounds)
}

/// A count as the table holds it: the number itself where a `usize` can hold
/// it, and the mark that it is too large where not.
pub open spec fn capped(count: nat) -> Option<usize> {
    if count <= usize::MAX {
        Some(count as usize)
    } else {
        None
    }
}

/// Whether the table holds, for each node from `from` on, the number of paths
/// from that node to the last.
pub open spec fn table_valid(g: Graph, table: Seq<Option<usize>>, from: int) -> bool {
    forall|i: int| from <= i < table.len() ==> #[trigger] table[i] == capped(g.count(i))
}

/// The sum of two counts as the table holds them.
pub open spec fn capped_sum(a: Option<usize>, b: Option<usize>) -> Option<usize> {
    match (a, b) {
        (Some(x), Some(y)) => capped((x + y) as nat),
        _ => None,
    }
}

/// Adding counts as the table holds them is adding the counts.
pub proof fn lemma_capped_sum(x: nat, y: nat)
    ensures
        capped_sum(capped(x), capped(y)) == capped(x + y),
{
}

/// Adds two counts, each of which may be too large for a `usize`.
pub fn capped_add(a: Option<usize>, b: Option<usize>) -> (r: Option<usize>)
    ensures
        r == capped_sum(a, b),
{
    match (a, b) {
        (Some(x), Some(y)) => x.checked_add(y),
        _ => None,
    }
}

/// Sums the numbers of paths from the nodes to which the bits from `start` up
/// to `end` lead. These are bits of the row of `parent`, and the first of them
/// is the bit of the edge to `first_node`.
pub(crate) fn sum_counts(
    tree: &Bits,
    table: &Vec<Option<usize>>,
    last: usize,
    Ghost(parent): Ghost<int>,
    start: usize,
    end: usize,
    first_node: usize,
) -> (r: Option<usize>)
    requires
        0 <= parent < first_node,
        start <= end,
        first_node + (end - start) <= last + 1,
        triangle(last + 1) <= usize::MAX,
        tree@.len() == triangle(last + 1),
        table.len() == last + 1,
        start == bit_index(last as int, parent, first_node as int),
        forall|j: int|
            first_node <= j < first_node + (end - start) ==> #[trigger] table@[j] == capped(
                graph_of(tree@, last as int).count(j),
            ),
    ensures
        r == capped(
            graph_of(tree@, last as int).count_between(
                parent,
                first_node as int,
                first_node + (end - start),
            ),
        ),
{
    let ghost g = graph_of(tree@, last as int);
    let ghost width = end - start;
    proof {
        if parent < last {
            lemma_bit_index(last as int, parent, last as int);
        } else {
            lemma_triangle_monotonic(0, last + 1);
        }
    }
    let ones = tree.ones_in(start, end);
    let ghost marks = tree@.subrange(start as int, end as int);
    proof {
        lemma_ones_of(marks);
        assert forall|j: int| first_node <= j < first_node + width implies g.edge(parent, j)
            == marks[j - first_node] by {
            assert(g.edge(parent, j) == has_bit(tree@, last as int, parent, j));
        }
        let first: int = if ones@.len() > 0 {
            ones@[0] as int
        } else {
            width
        };
        assert forall|j: int| first_node <= j < first_node + first implies !g.edge(parent, j) by {
            let o = j - first_node;
            if marks[o] {
                assert(ones@.contains(o as usize));
                let t = choose|t: int| 0 <= t < ones@.len() && ones@[t] == o as usize;
                if t > 0 {
                    assert(ones@[0] < ones@[t]);
                }
            }
        }
        lemma_count_between_none(g, parent, first_node as int, first_node + first);
    }
    let mut total: usize = 0;
    let mut index: usize = 0;
    while index < ones.len()
        invariant
            g == graph_of(tree@, last as int),
            width == end - start,
            0 <= parent < first_node,
            first_node + width <= last + 1,
            table.len() == last + 1,
            marks.len() == width,
            ones@ == ones_of(marks),
            forall|k: int| 0 <= k < ones@.len() ==> #[trigger] ones@[k] < width && marks[ones@[k] as int],
            forall|k: int, l: int| 0 <= k < l < ones@.len() ==> ones@[k] < ones@[l],
            forall|i: int| 0 <= i < width && marks[i] ==> ones@.contains(i as usize),
            forall|j: int|
                first_node <= j < first_node + width ==> g.edge(parent, j) == marks[j - first_node],
            forall|j: int|
                first_node <= j < first_node + width ==> #[trigger] table@[j] == capped(g.count(j)),
            0 <= index <= ones.len(),
            total == g.count_between(
                parent,
                first_node as int,
                first_node + (if index < ones.len() {
                    ones@[index as int] as int
                } else {
                    width
                }),
            ),
        decreases ones.len() - index,
    {
        let offset: usize = ones[index];
        let node: usize = first_node + offset;
        let ghost next: int = if index + 1 < ones.len() {
            ones@[index + 1] as int
        } else {
            width
        };
        proof {
            assert(marks[offset as int]);
            assert(g.edge(parent, node as int));
            lemma_count_between_split(g, parent, first_node as int, node as int, node + 1);
            lemma_count_between_one(g, parent, node as int);
            if index + 1 < ones.len() {
                assert(ones@[index as int] < ones@[index + 1]);
            }
            assert forall|j: int| node + 1 <= j < first_node + next implies !g.edge(parent, j) by {
                let o = j - first_node;
                if marks[o] {
                    assert(ones@.contains(o as usize));
                    let t = choose|t: int| 0 <= t < ones@.len() && ones@[t] == o as usize;
                    if t < index {
                        assert(ones@[t] < ones@[index as int]);
                    } else if t > index + 1 {
                        assert(ones@[index + 1] < ones@[t]);
                    }
                }
            }
            lemma_count_between_none(g, parent, node + 1, first_node + next);
            lemma_count_between_split(g, parent, first_node as int, node + 1, first_node + next);
            lemma_count_between_split(
                g,
                parent,
                first_node as int,
                first_node + next,
                first_node + width,
            );
        }
        match table[node] {
            None => {
                return None;
            },
            Some(count) => {
                match total.checked_add(count) {
                    None => {
                        return None;
                    },
                    Some(sum) => {
                        total = sum;
                    },
                }
            },
        }
        index = index + 1;
    }
    Some(total)
}

/// Finds, among the paths from `parent` through the nodes to which the bits
/// from `start` up to `end` lead, the one at position `index`: the node that
/// it goes through and its position among the paths through that node. Where
/// there are not that many paths, the error holds by how many `index` exceeds
/// them. The bits are bits of the row of `parent`, and the first of them is
/// the bit of the edge to `first_node`.
pub(crate) fn locate(
    tree: &Bits,
    table: &Vec<Option<usize>>,
    last: usize,
    Ghost(parent): Ghost<int>,
    start: usize,
    end: usize,
    first_node: usize,
    index: usize,
) -> (r: Result<(usize, usize), usize>)
    requires
        0 <= parent < first_node,
        start <= end,
        first_node + (end - start) <= last + 1,
        triangle(last + 1) <= usize::MAX,
        tree@.len() == triangle(last + 1),
        table.len() == last + 1,
        start == bit_index(last as int, parent, first_node as int),
        forall|j: int|
            first_node <= j < first_node + (end - start) ==> #[trigger] table@[j] == capped(
                graph_of(tree@, last as int).count(j),
            ),
    ensures
        match r {
            Ok((node, rest)) => {
                &&& first_node <= node < first_node + (end - start)
                &&& graph_of(tree@, last as int).edge(parent, node as int)
                &&& index == graph_of(tree@, last as int).count_between(
                    parent,
                    first_node as int,
                    node as int,
                ) + rest
                &&& rest < graph_of(tree@, last as int).count(node as int)
            },
            Err(rest) => index == graph_of(tree@, last as int).count_between(
                parent,
                first_node as int,
                first_node + (end - start),
            ) + rest,
        },
{
    let ghost g = graph_of(tree@, last as int);
    let ghost width = end - start;
    proof {
        if parent < last {
            lemma_bit_index(last as int, parent, last as int);
        } else {
            lemma_triangle_monotonic(0, last + 1);
        }
    }
    let ones = tree.ones_in(start, end);
    let ghost marks = tree@.subrange(start as int, end as int);
    proof {
        lemma_ones_of(marks);
        assert forall|j: int| first_node <= j < first_node + width implies g.edge(parent, j)
            == marks[j - first_node] by {
            assert(g.edge(parent, j) == has_bit(tree@, last as int, parent, j));
        }
        let first: int = if ones@.len() > 0 {
            ones@[0] as int
        } else {
            width
        };
        assert forall|j: int| first_node <= j < first_node + first implies !g.edge(parent, j) by {
            let o = j - first_node;
            if marks[o] {
                assert(ones@.contains(o as usize));
                let t = choose|t: int| 0 <= t < ones@.len() && ones@[t] == o as usize;
                if t > 0 {
                    assert(ones@[0] < ones@[t]);
                }
            }
        }
        lemma_count_between_none(g, parent, first_node as int, first_node + first);
    }
    let mut rest: usize = index;
    let mut position: usize = 0;
    while position < ones.len()
        invariant
            g == graph_of(tree@, last as int),
            width == end - start,
            0 <= parent < first_node,
            first_node + width <= last + 1,
            table.len() == last + 1,
            marks.len() == width,
            ones@ == ones_of(marks),
            forall|k: int| 0 <= k < ones@.len() ==> #[trigger] ones@[k] < width && marks[ones@[k] as int],
            forall|k: int, l: int| 0 <= k < l < ones@.len() ==> ones@[k] < ones@[l],
            forall|i: int| 0 <= i < width && marks[i] ==> ones@.contains(i as usize),
            forall|j: int|
                first_node <= j < first_node + width ==> g.edge(parent, j) == marks[j - first_node],
            forall|j: int|
                first_node <= j < first_node + width ==> #[trigger] table@[j] == capped(g.count(j)),
            0 <= position <= ones.len(),
            index == g.count_between(
                parent,
                first_node as int,
                first_node + (if position < ones.len() {
                    ones@[position as int] as int
                } else {
                    width
                }),
            ) + rest,
        decreases ones.len() - position,
    {
        let offset: usize = ones[position];
        let node: usize = first_node + offset;
        let ghost next: int = if position + 1 < ones.len() {
            ones@[position + 1] as int
        } else {
            width
        };
        proof {
            assert(marks[offset as int]);
            assert(g.edge(parent, node as int));
            lemma_count_between_split(g, parent, first_node as int, node as int, node + 1);
            lemma_count_between_one(g, parent, node as int);
            if position + 1 < ones.len() {
                assert(ones@[position as int] < ones@[position + 1]);
            }
            assert forall|j: int| node + 1 <= j < first_node + next implies !g.edge(parent, j) by {
                let o = j - first_node;
                if marks[o] {
                    assert(ones@.contains(o as usize));
                    let t = choose|t: int| 0 <= t < ones@.len() && ones@[t] == o as usize;
                    if t < position {
                        assert(ones@[t] < ones@[position as int]);
                    } else if t > position + 1 {
                        assert(ones@[position + 1] < ones@[t]);
                    }
                }
            }
            lemma_count_between_none(g, parent, node + 1, first_node + next);
            lemma_count_between_split(g, parent, first_node as int, node + 1, first_node + next);
        }
        match table[node] {
            None => {
                return Ok((node, rest));
            },
            Some(count) => {
                if rest < count {
                    return Ok((node, rest));
                }
                rest = rest - count;
            },
        }
        position = position + 1;
    }
    Err(rest)
}

/// Finds, among the paths from `parent` through the nodes to which the bits
/// from `start` up to `end` lead, the one at position `index` from the end:
/// the node that it goes through and its position from the end among the
/// paths through that node. Where there are not that many paths, the error
/// holds by how many `index` exceeds them. The bits are bits of the row of
/// `parent`, and the first of them is the bit of the edge to `first_node`.
pub(crate) fn locate_back(
    tree: &Bits,
    table: &Vec<Option<usize>>,
    last: usize,
    Ghost(parent): Ghost<int>,
    start: usize,
    end: usize,
    first_node: usize,
    index: usize,
) -> (r: Result<(usize, usize), usize>)
    requires
        0 <= parent < first_node,
        start <= end,
        first_node + (end - start) <= last + 1,
        triangle(last + 1) <= usize::MAX,
        tree@.len() == triangle(last + 1),
        table.len() == last + 1,
        start == bit_index(last as int, parent, first_node as int),
        forall|j: int|
            first_node <= j < first_node + (end - start) ==> #[trigger] table@[j] == capped(
                graph_of(tree@, last as int).count(j),
            ),
    ensures
        match r {
            Ok((node, rest)) => {
                &&& first_node <= node < first_node + (end - start)
                &&& graph_of(tree@, last as int).edge(parent, node as int)
                &&& index == graph_of(tree@, last as int).count_between(
                    parent,
                    node + 1,
                    first_node + (end - start),
                ) + rest
                &&& rest < graph_of(tree@, last as int).count(node as int)
            },
            Err(rest) => index == graph_of(tree@, last as int).count_between(
                parent,
                first_node as int,
                first_node + (end - start),
            ) + rest,
        },
{
    let ghost g = graph_of(tree@, last as int);
    let ghost width = end - start;
    proof {
        if parent < last {
            lemma_bit_index(last as int, parent, last as int);
        } else {
            lemma_triangle_monotonic(0, last + 1);
        }
    }
    let ones = tree.ones_in(start, end);
    let ghost marks = tree@.subrange(start as int, end as int);
    proof {
        lemma_ones_of(marks);
        assert forall|j: int| first_node <= j < first_node + width implies g.edge(parent, j)
            == marks[j - first_node] by {
            assert(g.edge(parent, j) == has_bit(tree@, last as int, parent, j));
        }
        let low: int = if ones@.len() > 0 {
            ones@[ones@.len() - 1] + 1
        } else {
            0
        };
        assert forall|j: int| first_node + low <= j < first_node + width implies !g.edge(
            parent,
            j,
        ) by {
            let o = j - first_node;
            if marks[o] {
                assert(ones@.contains(o as usize));
                let t = choose|t: int| 0 <= t < ones@.len() && ones@[t] == o as usize;
                if t < ones@.len() - 1 {
                    assert(ones@[t] < ones@[ones@.len() - 1]);
                }
            }
        }
        lemma_count_between_none(g, parent, first_node + low, first_node + width);
    }
    let mut rest: usize = index;
    let mut position: usize = ones.len();
    while position > 0
        invariant
            g == graph_of(tree@, last as int),
            width == end - start,
            0 <= parent < first_node,
            first_node + width <= last + 1,
            table.len() == last + 1,
            marks.len() == width,
            ones@ == ones_of(marks),
            forall|k: int| 0 <= k < ones@.len() ==> #[trigger] ones@[k] < width && marks[ones@[k] as int],
            forall|k: int, l: int| 0 <= k < l < ones@.len() ==> ones@[k] < ones@[l],
            forall|i: int| 0 <= i < width && marks[i] ==> ones@.contains(i as usize),
            forall|j: int|
                first_node <= j < first_node + width ==> g.edge(parent, j) == marks[j - first_node],
            forall|j: int|
                first_node <= j < first_node + width ==> #[trigger] table@[j] == capped(g.count(j)),
            0 <= position <= ones.len(),
            index == g.count_between(
                parent,
                first_node + (if position > 0 {
                    ones@[position - 1] + 1
                } else {
                    0
                }),
                first_node + width,
            ) + rest,
        decreases position,
    {
        let offset: usize = ones[position - 1];
        let node: usize = first_node + offset;
        let ghost next: int = if position > 1 {
            ones@[position - 2] + 1
        } else {
            0
        };
        proof {
            assert(marks[offset as int]);
            assert(g.edge(parent, node as int));
            lemma_count_between_split(g, parent, node as int, node + 1, first_node + width);
            lemma_count_between_one(g, parent, node as int);
            if position > 1 {
                assert(ones@[position - 2] < ones@[position - 1]);
            }
            assert forall|j: int| first_node + next <= j < node implies !g.edge(parent, j) by {
                let o = j - first_node;
                if marks[o] {
                    assert(ones@.contains(o as usize));
                    let t = choose|t: int| 0 <= t < ones@.len() && ones@[t] == o as usize;
                    if t > position - 1 {
                        assert(ones@[position - 1] < ones@[t]);
                    } else if t < position - 2 {
                        assert(ones@[t] < ones@[position - 2]);
                    }
                }
            }
            lemma_count_between_none(g, parent, first_node + next, node as int);
            lemma_count_between_split(g, parent, first_node + next, node as int, first_node + width);
        }
        match table[node] {
            None => {
                return Ok((node, rest));
            },
            Some(count) => {
                if rest < count {
                    return Ok((node, rest));
                }
                rest = rest - count;
            },
        }
        position = position - 1;
    }
    Err(rest)
}

/// Computes, for each node, the number of paths from it to the last node, from
/// the last node down.
pub(crate) fn count_table(tree: &Bits, node_count: usize) -> (table: Vec<Option<usize>>)
    requires
        node_count >= 1,
        triangle(node_count as int) <= usize::MAX,
        tree@.len() == triangle(node_count as int),
    ensures
        table.len() == node_count,
        table_valid(graph_of(tree@, node_count - 1), table@, 0),
{
    let last: usize = node_count - 1;
    let ghost g = graph_of(tree@, last as int);
    let mut table: Vec<Option<usize>> = Vec::new();
    let mut filled: usize = 0;
    while filled < node_count
        invariant
            table.len() == filled,
            filled <= node_count,
        decreases node_count - filled,
    {
        table.push(None);
        filled = filled + 1;
    }
    table.set(last, Some(1));
    let mut node: usize = last;
    while node > 0
        invariant
            last == node_count - 1,
            g == graph_of(tree@, last as int),
            triangle(last + 1) <= usize::MAX,
            tree@.len() == triangle(last + 1),
            table.len() == node_count,
            0 <= node <= last,
            table_valid(g, table@, node as int),
        decreases node,
    {
        node = node - 1;
        let row = get_row_bounds(node, last);
        proof {
            lemma_bit_index(last as int, node as int, node + 1);
        }
        let sum = sum_counts(tree, &table, last, Ghost(node as int), row.0, row.1, node + 1);
        table.set(node, sum);
    }
    table
}

/// Where a boundary other than the last is left after pruning, boundary 0 is
/// left: a boundary with an edge from it has an edge to it from a smaller
/// boundary, which is left if the boundary is.
pub proof fn lemma_root_survives(
    raw: Seq<bool>,
    pruned: Seq<bool>,
    deleted: Seq<bool>,
    last: int,
    i: int,
)
    requires
        0 <= i < last,
        deleted.len() == last + 1,
        !deleted[i],
        forall|a: int, b: int|
            0 < a < b <= last && #[trigger] has_bit(raw, last, a, b) ==> has_incoming(raw, last, a),
        forall|a: int, b: int|
            0 <= a < b <= last && deleted[a] && #[trigger] has_bit(raw, last, a, b) ==> deleted[b],
        forall|a: int| 0 <= a < last && !deleted[a] ==> #[trigger] graph_of(pruned, last).has_edge(a),
        forall|a: int, b: int|
            0 <= a < b <= last ==> #[trigger] has_bit(pruned, last, a, b) == (has_bit(
                raw,
                last,
                a,
                b,
            ) && !deleted[a] && !deleted[b]),
    ensures
        !deleted[0],
    decreases i,
{
    if i > 0 {
        let g = graph_of(pruned, last);
        assert(g.has_edge(i));
        let j = choose|j: int| g.edge(i, j);
        assert(has_bit(pruned, last, i, j));
        assert(has_bit(raw, last, i, j));
        assert(has_incoming(raw, last, i));
        let k = choose|k: int| 0 <= k < i && has_bit(raw, last, k, i);
        lemma_root_survives(raw, pruned, deleted, last, k);
    }
}

/// A boundary that is left after pruning, other than the first and the last,
/// has an edge to it from a boundary that is left.
pub proof fn lemma_entry_survives(
    raw: Seq<bool>,
    pruned: Seq<bool>,
    deleted: Seq<bool>,
    last: int,
    i: int,
)
    requires
        0 < i < last,
        deleted.len() == last + 1,
        !deleted[i],
        forall|a: int, b: int|
            0 < a < b <= last && #[trigger] has_bit(raw, last, a, b) ==> has_incoming(raw, last, a),
        forall|a: int, b: int|
            0 <= a < b <= last && deleted[a] && #[trigger] has_bit(raw, last, a, b) ==> deleted[b],
        forall|a: int| 0 <= a < last && !deleted[a] ==> #[trigger] graph_of(pruned, last).has_edge(a),
        forall|a: int, b: int|
            0 <= a < b <= last ==> #[trigger] has_bit(pruned, last, a, b) == (has_bit(
                raw,
                last,
                a,
                b,
            ) && !deleted[a] && !deleted[b]),
    ensures
        graph_of(pruned, last).has_entry(i),
{
    let g = graph_of(pruned, last);
    assert(g.has_edge(i));
    let j = choose|j: int| g.edge(i, j);
    assert(has_bit(pruned, last, i, j));
    assert(has_bit(raw, last, i, j));
    assert(has_incoming(raw, last, i));
    let k = choose|k: int| 0 <= k < i && has_bit(raw, last, k, i);
    assert(has_bit(pruned, last, k, i));
    assert(g.edge(k, i));
}

/// Where a boundary other than the last is left after pruning, an edge leads
/// to the last boundary.
pub proof fn lemma_last_has_entry(pruned: Seq<bool>, deleted: Seq<bool>, last: int, i: int)
    requires
        0 <= i < last,
        deleted.len() == last + 1,
        !deleted[i],
        forall|a: int| 0 <= a < last && !deleted[a] ==> #[trigger] graph_of(pruned, last).has_edge(a),
        forall|a: int, b: int|
            0 <= a < b <= last && #[trigger] has_bit(pruned, last, a, b) ==> !deleted[b],
    ensures
        graph_of(pruned, last).has_entry(last),
    decreases last - i,
{
    let g = graph_of(pruned, last);
    assert(g.has_edge(i));
    let j = choose|j: int| g.edge(i, j);
    assert(has_bit(pruned, last, i, j));
    if j < last {
        lemma_last_has_entry(pruned, deleted, last, j);
    }
}

/// The trellis of an input after pruning: the byte offsets of the boundaries
/// that lie on a segmentation, the edges between them, and for each boundary
/// the number of ways to segment the rest of the input from it.
#[derive(Debug)]
pub struct Trellis {
    /// The byte offset in the input of each boundary.
    pub bounds: Vec<usize>,
    /// One bit for each pair of boundaries: whether the stretch between them
    /// is a word.
    pub tree: Bits,
    /// For each boundary the number of segmentations of the rest of the input,
    /// or nothing where a `usize` cannot hold the number.
    pub subcounts: Vec<Option<usize>>,
}

impl Trellis {
    /// The number of the last boundary.
    pub open spec fn last(&self) -> int {
        self.bounds.len() - 1
    }

    /// The graph of the edges.
    pub open spec fn graph(&self) -> Graph {
        graph_of(self.tree@, self.last())
    }

    /// What holds of every trellis: it has at least two boundaries, their
    /// offsets increase, every boundary can be reached from the first and
    /// lies on a path to the last, and the table of counts is exact.
    pub open spec fn wf(&self) -> bool {
        &&& self.bounds.len() >= 2
        &&& triangle(self.bounds.len() as int) <= usize::MAX
        &&& self.tree@.len() == triangle(self.bounds.len() as int)
        &&& self.subcounts.len() == self.bounds.len()
        &&& forall|i: int, j: int|
            0 <= i < j < self.bounds.len() ==> self.bounds@[i] < self.bounds@[j]
        &&& self.graph().alive()
        &&& self.graph().rooted()
        &&& table_valid(self.graph(), self.subcounts@, 0)
    }

    /// No slot of the table holds 0: from every boundary of a trellis there is
    /// a way to segment the rest of the input.
    pub proof fn lemma_subcounts_positive(&self, i: int)
        requires
            self.wf(),
            0 <= i < self.subcounts.len(),
        ensures
            self.graph().count(i) >= 1,
            self.subcounts@[i] != Some(0usize),
    {
        crate::paths::lemma_count_positive(self.graph(), i);
    }

    /// Builds the trellis of a normalized text whose grapheme boundaries are
    /// `nfd_bounds`; `bounds` are the same boundaries in the text as it was given.
    /// There is no trellis where the text has no segmentation.
    pub(crate) fn build(
        dictionary: &fst::raw::Fst<Vec<u8>>,
        nfd: &[u8],
        nfd_bounds: &Vec<usize>,
        bounds: Vec<usize>,
    ) -> (r: Option<Trellis>)
        requires
            is_built(fst_bytes(*dictionary)),
            is_boundary_seq(nfd_bounds@, nfd@.len() as int),
            nfd_bounds.len() >= 2,
            bounds.len() == nfd_bounds.len(),
            forall|i: int, j: int| 0 <= i < j < bounds.len() ==> bounds@[i] < bounds@[j],
            triangle(nfd_bounds.len() as int) <= crate::bits::max_bits(),
        ensures
            r is None <==> span_graph(fst_bytes(*dictionary), nfd@, nfd_bounds@).paths(0).len()
                == 0,
            r matches Some(t) ==> {
                &&& t.wf()
                &&& cuts_from(t.graph(), t.bounds@, 0) == cuts_from(
                    span_graph(fst_bytes(*dictionary), nfd@, nfd_bounds@),
                    bounds@,
                    0,
                )
                &&& t.bounds@[0] == bounds@[0]
                &&& t.bounds@[t.bounds.len() - 1] == bounds@[bounds.len() - 1]
                &&& forall|a: int| 0 <= a < t.bounds.len() ==> bounds@.contains(#[trigger] t.bounds@[a])
            },
    {
        let node_count: usize = bounds.len();
        let ghost h = span_graph(fst_bytes(*dictionary), nfd@, nfd_bounds@);
        let mut tree = find_edges(dictionary, nfd, nfd_bounds);
        let ghost raw = tree@;
        proof {
            crate::rows::lemma_triangle_closed_form(node_count as int);
            if node_count >= 3 {
                assert(node_count <= triangle(node_count as int)) by (nonlinear_arith)
                    requires
                        2 * triangle(node_count as int) == node_count * (node_count - 1),
                        node_count >= 3,
                ;
            }
        }
        let deleted = prune(&mut tree, node_count);
        let survivors: usize = deleted.count_zeros();
        if survivors <= 1 {
            proof {
                if !deleted@[0] {
                    lemma_two_zeros(deleted@, 0, node_count - 1);
                }
            }
            return None;
        }
        proof {
            let i = crate::bits::lemma_zero_before_last(deleted@);
            lemma_root_survives(raw, tree@, deleted@, node_count - 1, i);
            lemma_last_has_entry(tree@, deleted@, node_count - 1, i);
            assert forall|j: int| 0 < j < node_count && !deleted@[j] implies #[trigger] graph_of(
                tree@,
                node_count - 1,
            ).has_entry(j) by {
                if j < node_count - 1 {
                    lemma_entry_survives(raw, tree@, deleted@, node_count - 1, j);
                }
            }
        }
        let ghost pruned = graph_of(tree@, node_count - 1);
        proof {
            assert(cuts_from(pruned, bounds@, 0) == cuts_from(h, bounds@, 0));
        }
        let (tree, bounds) = if survivors == node_count {
            proof {
                lemma_zeros_of(deleted@);
                assert forall|a: int| 0 <= a < bounds.len() implies bounds@.contains(
                    #[trigger] bounds@[a],
                ) by {}
            }
            (tree, bounds)
        } else {
            reindex(&tree, &bounds, &deleted, survivors)
        };
        let subcounts = count_table(&tree, bounds.len());
        let trellis = Trellis { bounds, tree, subcounts };
        proof {
            let g = trellis.graph();
            crate::paths::lemma_count_positive(g, 0);
            lemma_paths_len(g, 0);
            assert(cuts_from(g, trellis.bounds@, 0).len() == g.paths(0).len());
            assert(cuts_from(h, bounds@, 0).len() == h.paths(0).len());
        }
        Some(trellis)
    }
}

} // verus!
