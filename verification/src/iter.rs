//! The enumerator of the segmentations of one input: it gives them out one by
//! one from either end and knows how many are left.

use crate::dict::Dictionary;
use crate::paths::{
    cuts_from, end_of, lemma_balance, lemma_chain_increasing, lemma_chain_prefix,
    lemma_chain_push, lemma_complete_prefix, lemma_count_between_none, lemma_count_between_one,
    lemma_count_between_split, lemma_gap, lemma_order,
    lemma_paths_len, lemma_rank, lemma_rank_injective, lemma_take_step, offsets, parent, Graph,
};
use crate::trellis::lemma_capped_sum;
use crate::rows::{bit_index, get_row_bounds, lemma_bit_index, row_end, row_start, triangle};
use crate::text::slice_str;
use crate::dict::{segmentable, segmentations};
use crate::text::{is_boundary_seq, BoundaryIndex};
use crate::trellis::{
    capped, capped_add, has_bit, locate, locate_back, span_graph, sum_counts, Trellis,
};
use std::sync::Arc;
use vstd::prelude::*;
use vstd::string::StringSliceAdditionalSpecFns;
use vstd::utf8::is_char_boundary;

verus! {

/// One step of a path through the trellis: the boundary that the step reaches,
/// and the bits of the edges from the boundary before it that the enumerator
/// has not taken yet.
#[derive(Clone, Copy, Debug)]
pub struct Frame {
    /// The boundary that the step reaches.
    pub node: usize,
    /// The index of the first of the bits.
    pub start: usize,
    /// The index after the last of the bits.
    pub end: usize,
}

/// The boundaries that a path reaches, step by step.
pub open spec fn nodes_of(frames: Seq<Frame>) -> Seq<int> {
    frames.map_values(|f: Frame| f.node as int)
}

/// Whether step `k` of a forward path holds the bits of the edges to greater
/// boundaries than the one it took.
pub open spec fn forward_frame(last: int, frames: Seq<Frame>, k: int) -> bool {
    &&& frames[k].start == bit_index(last, parent(nodes_of(frames), k), frames[k].node as int) + 1
    &&& frames[k].end == row_end(last, parent(nodes_of(frames), k))
}

/// Whether each step of a forward path holds the bits of the edges to greater
/// boundaries than the one it took.
pub open spec fn forward_frames(last: int, frames: Seq<Frame>) -> bool {
    forall|k: int| 0 <= k < frames.len() ==> #[trigger] forward_frame(last, frames, k)
}

/// Whether step `k` of a backward path holds the bits of the edges to smaller
/// boundaries than the one it took.
pub open spec fn backward_frame(last: int, frames: Seq<Frame>, k: int) -> bool {
    &&& frames[k].start == row_start(last, parent(nodes_of(frames), k))
    &&& frames[k].end == bit_index(last, parent(nodes_of(frames), k), frames[k].node as int)
}

/// Whether each step of a backward path holds the bits of the edges to smaller
/// boundaries than the one it took.
pub open spec fn backward_frames(last: int, frames: Seq<Frame>) -> bool {
    forall|k: int| 0 <= k < frames.len() ==> #[trigger] backward_frame(last, frames, k)
}

/// Whether `words` are the pieces into which the offsets `cuts` divide the
/// text `bytes`: piece `k` runs from the cut before it, or from the start of
/// the text, up to cut `k`.
pub open spec fn words_match(words: Seq<&str>, bytes: Seq<u8>, cuts: Seq<int>) -> bool {
    &&& words.len() == cuts.len()
    &&& forall|k: int|
        0 <= k < words.len() ==> (#[trigger] words[k]).spec_bytes() == bytes.subrange(
            parent(cuts, k),
            cuts[k],
        )
}

/// Whether every boundary of the trellis is a place at which `bytes` can be
/// cut into valid text, the first being the start and the last the end.
pub open spec fn bounds_fit(bounds: Seq<usize>, bytes: Seq<u8>) -> bool {
    &&& bounds.len() >= 1
    &&& bounds[0] == 0
    &&& bounds[bounds.len() - 1] == bytes.len()
    &&& forall|a: int| 0 <= a < bounds.len() ==> is_char_boundary(bytes, #[trigger] bounds[a] as int)
}

/// The pieces of the text that a path cuts out.
pub(crate) fn materialize<'s>(input: &'s str, bounds: &Vec<usize>, path: &Vec<Frame>, Ghost(g): Ghost<Graph>) -> (words: Vec<&'s str>)
    requires
        g.last == bounds.len() - 1,
        g.is_chain(nodes_of(path@)),
        bounds_fit(bounds@, input.spec_bytes()),
        forall|i: int, j: int| 0 <= i < j < bounds.len() ==> bounds@[i] < bounds@[j],
    ensures
        words_match(words@, input.spec_bytes(), offsets(nodes_of(path@), bounds@)),
{
    let ghost nodes = nodes_of(path@);
    let ghost cuts = offsets(nodes, bounds@);
    let ghost bytes = input.spec_bytes();
    let mut words: Vec<&'s str> = Vec::new();
    let mut previous: usize = 0;
    let mut index: usize = 0;
    while index < path.len()
        invariant
            nodes == nodes_of(path@),
            cuts == offsets(nodes, bounds@),
            bytes == input.spec_bytes(),
            g.last == bounds.len() - 1,
            g.is_chain(nodes),
            bounds_fit(bounds@, bytes),
            forall|i: int, j: int| 0 <= i < j < bounds.len() ==> bounds@[i] < bounds@[j],
            0 <= index <= path.len(),
            previous == parent(nodes, index as int),
            previous < bounds.len(),
            words.len() == index,
            forall|k: int|
                0 <= k < index ==> (#[trigger] words@[k]).spec_bytes() == bytes.subrange(
                    parent(cuts, k),
                    cuts[k],
                ),
        decreases path.len() - index,
    {
        let node: usize = path[index].node;
        proof {
            lemma_chain_increasing(g, nodes, index as int);
            assert(nodes[index as int] == node);
            assert(parent(cuts, index as int) == bounds@[previous as int]) by {
                if index > 0 {
                    assert(cuts[index - 1] == bounds@[nodes[index - 1]]);
                }
            }
            assert(cuts[index as int] == bounds@[node as int]);
        }
        let word = slice_str(input, bounds[previous], bounds[node]);
        words.push(word);
        previous = node;
        index = index + 1;
    }
    words
}

/// Whether two paths reach the same boundaries.
pub(crate) fn same_nodes(a: &Vec<Frame>, b: &Vec<Frame>) -> (r: bool)
    ensures
        r == (nodes_of(a@) == nodes_of(b@)),
{
    if a.len() != b.len() {
        assert(nodes_of(a@).len() != nodes_of(b@).len());
        return false;
    }
    let mut index: usize = 0;
    while index < a.len()
        invariant
            a.len() == b.len(),
            0 <= index <= a.len(),
            forall|k: int| 0 <= k < index ==> nodes_of(a@)[k] == nodes_of(b@)[k],
        decreases a.len() - index,
    {
        if a[index].node != b[index].node {
            assert(nodes_of(a@)[index as int] != nodes_of(b@)[index as int]);
            return false;
        }
        index = index + 1;
    }
    assert(nodes_of(a@) =~= nodes_of(b@));
    true
}

/// Continues a forward path to the last boundary, at each boundary along the
/// edge to the smallest boundary.
pub(crate) fn extend_first(trellis: &Trellis, path: &mut Vec<Frame>, from: usize)
    requires
        trellis.wf(),
        trellis.graph().is_chain(nodes_of(old(path)@)),
        forward_frames(trellis.last(), old(path)@),
        from == end_of(nodes_of(old(path)@)),
    ensures
        trellis.graph().is_complete(nodes_of(final(path)@)),
        forward_frames(trellis.last(), final(path)@),
        final(path)@.len() >= old(path)@.len(),
        final(path)@.take(old(path)@.len() as int) == old(path)@,
        trellis.graph().before(nodes_of(final(path)@)) == trellis.graph().before(
            nodes_of(old(path)@),
        ),
{
    let ghost g = trellis.graph();
    let last: usize = trellis.bounds.len() - 1;
    let mut current: usize = from;
    proof {
        if path@.len() > 0 {
            lemma_chain_increasing(g, nodes_of(path@), path@.len() - 1);
        }
        assert(path@.take(path@.len() as int) =~= path@);
    }
    while current != last
        invariant
            trellis.wf(),
            g == trellis.graph(),
            last == trellis.last(),
            g.is_chain(nodes_of(path@)),
            forward_frames(last as int, path@),
            current == end_of(nodes_of(path@)),
            0 <= current <= last,
            path@.len() >= old(path)@.len(),
            path@.take(old(path)@.len() as int) == old(path)@,
            g.before(nodes_of(path@)) == g.before(nodes_of(old(path)@)),
        decreases last - current,
    {
        let row = get_row_bounds(current, last);
        proof {
            lemma_bit_index(last as int, current as int, last as int);
            assert(g.has_edge(current as int));
            let j = choose|j: int| g.edge(current as int, j);
            lemma_bit_index(last as int, current as int, j);
            assert(has_bit(trellis.tree@, last as int, current as int, j));
        }
        match trellis.tree.first_one_in(row.0, row.1) {
            None => {
                proof {
                    assert(false);
                }
            },
            Some(offset) => {
                let next: usize = current + offset + 1;
                let ghost before_nodes = nodes_of(path@);
                let ghost before_path = path@;
                proof {
                    lemma_bit_index(last as int, current as int, next as int);
                    assert(has_bit(trellis.tree@, last as int, current as int, next as int));
                    assert(g.edge(current as int, next as int));
                    assert forall|j: int| current + 1 <= j < next implies !g.edge(
                        current as int,
                        j,
                    ) by {
                        lemma_bit_index(last as int, current as int, j);
                        assert(!trellis.tree@[bit_index(last as int, current as int, j)]);
                    }
                    lemma_count_between_none(g, current as int, current + 1, next as int);
                    lemma_chain_push(g, before_nodes, next as int);
                }
                path.push(Frame { node: next, start: row.0 + offset + 1, end: row.1 });
                proof {
                    assert(nodes_of(path@) =~= before_nodes.push(next as int));
                    assert(path@.take(old(path)@.len() as int) =~= before_path.take(
                        old(path)@.len() as int,
                    ));
                    assert forall|k: int| 0 <= k < path@.len() implies #[trigger] forward_frame(
                        last as int,
                        path@,
                        k,
                    ) by {
                        if k < before_path.len() {
                            assert(forward_frame(last as int, before_path, k));
                            assert(path@[k] == before_path[k]);
                            assert(parent(nodes_of(path@), k) == parent(before_nodes, k));
                        }
                    }
                }
                current = next;
            },
        }
    }
}

/// Continues a backward path to the last boundary, at each boundary along the
/// edge to the greatest boundary.
pub(crate) fn extend_last(trellis: &Trellis, path: &mut Vec<Frame>, from: usize)
    requires
        trellis.wf(),
        trellis.graph().is_chain(nodes_of(old(path)@)),
        backward_frames(trellis.last(), old(path)@),
        from == end_of(nodes_of(old(path)@)),
    ensures
        trellis.graph().is_complete(nodes_of(final(path)@)),
        backward_frames(trellis.last(), final(path)@),
        final(path)@.len() >= old(path)@.len(),
        final(path)@.take(old(path)@.len() as int) == old(path)@,
        trellis.graph().after(nodes_of(final(path)@)) == trellis.graph().after(
            nodes_of(old(path)@),
        ),
{
    let ghost g = trellis.graph();
    let last: usize = trellis.bounds.len() - 1;
    let mut current: usize = from;
    proof {
        if path@.len() > 0 {
            lemma_chain_increasing(g, nodes_of(path@), path@.len() - 1);
        }
        assert(path@.take(path@.len() as int) =~= path@);
    }
    while current != last
        invariant
            trellis.wf(),
            g == trellis.graph(),
            last == trellis.last(),
            g.is_chain(nodes_of(path@)),
            backward_frames(last as int, path@),
            current == end_of(nodes_of(path@)),
            0 <= current <= last,
            path@.len() >= old(path)@.len(),
            path@.take(old(path)@.len() as int) == old(path)@,
            g.after(nodes_of(path@)) == g.after(nodes_of(old(path)@)),
        decreases last - current,
    {
        let row = get_row_bounds(current, last);
        proof {
            lemma_bit_index(last as int, current as int, last as int);
            assert(g.has_edge(current as int));
            let j = choose|j: int| g.edge(current as int, j);
            lemma_bit_index(last as int, current as int, j);
            assert(has_bit(trellis.tree@, last as int, current as int, j));
        }
        match trellis.tree.last_one_in(row.0, row.1) {
            None => {
                proof {
                    assert(false);
                }
            },
            Some(offset) => {
                let next: usize = current + offset + 1;
                let ghost before_nodes = nodes_of(path@);
                let ghost before_path = path@;
                proof {
                    lemma_bit_index(last as int, current as int, next as int);
                    assert(has_bit(trellis.tree@, last as int, current as int, next as int));
                    assert(g.edge(current as int, next as int));
                    assert forall|j: int| next + 1 <= j < last + 1 implies !g.edge(
                        current as int,
                        j,
                    ) by {
                        lemma_bit_index(last as int, current as int, j);
                        assert(!trellis.tree@[bit_index(last as int, current as int, j)]);
                    }
                    lemma_count_between_none(g, current as int, next + 1, last + 1);
                    lemma_chain_push(g, before_nodes, next as int);
                }
                path.push(Frame { node: next, start: row.0, end: row.0 + offset });
                proof {
                    assert(nodes_of(path@) =~= before_nodes.push(next as int));
                    assert(path@.take(old(path)@.len() as int) =~= before_path.take(
                        old(path)@.len() as int,
                    ));
                    assert forall|k: int| 0 <= k < path@.len() implies #[trigger] backward_frame(
                        last as int,
                        path@,
                        k,
                    ) by {
                        if k < before_path.len() {
                            assert(backward_frame(last as int, before_path, k));
                            assert(path@[k] == before_path[k]);
                            assert(parent(nodes_of(path@), k) == parent(before_nodes, k));
                        }
                    }
                }
                current = next;
            },
        }
    }
}

/// Moves a forward path to the next path in lexicographic order: the deepest
/// step that has an edge to a greater boundary takes the smallest such edge,
/// and from there the path continues along smallest edges.
pub(crate) fn advance_forward(trellis: &Trellis, path: &mut Vec<Frame>)
    requires
        trellis.wf(),
        trellis.graph().is_complete(nodes_of(old(path)@)),
        forward_frames(trellis.last(), old(path)@),
        trellis.graph().after(nodes_of(old(path)@)) > 0,
    ensures
        trellis.graph().is_complete(nodes_of(final(path)@)),
        forward_frames(trellis.last(), final(path)@),
        trellis.graph().before(nodes_of(final(path)@)) == trellis.graph().before(
            nodes_of(old(path)@),
        ) + 1,
{
    let ghost g = trellis.graph();
    let ghost full = nodes_of(path@);
    let ghost frames = path@;
    let last: usize = trellis.bounds.len() - 1;
    proof {
        assert(full.take(full.len() as int) =~= full);
        assert(path@.take(path@.len() as int) =~= path@);
    }
    loop
        invariant_except_break
            path@ == frames.take(path@.len() as int),
            path@.len() <= frames.len(),
            g.after(full) == g.after(full.take(path@.len() as int)),
        invariant
            trellis.wf(),
            g == trellis.graph(),
            last == trellis.last(),
            full == nodes_of(frames),
            g.is_complete(full),
            forward_frames(last as int, frames),
            g.after(full) > 0,
        ensures
            g.is_complete(nodes_of(path@)),
            forward_frames(last as int, path@),
            g.before(nodes_of(path@)) == g.before(full) + 1,
        decreases path@.len(),
    {
        let depth: usize = path.len();
        proof {
            if depth == 0 {
                assert(full.take(0) =~= Seq::<int>::empty());
                assert(g.after(full.take(0)) == 0);
                assert(false);
            }
        }
        let level: usize = depth - 1;
        let top: Frame = path[level];
        let ghost from: int = parent(full, level as int);
        proof {
            assert(top == frames[level as int]);
            assert(forward_frame(last as int, frames, level as int));
            assert(full[level as int] == top.node);
            assert(g.step_ok(full, level as int));
            lemma_bit_index(last as int, from, top.node as int);
            lemma_bit_index(last as int, from, last as int);
            lemma_take_step(g, full, level as int);
        }
        match trellis.tree.first_one_in(top.start, top.end) {
            None => {
                proof {
                    assert forall|j: int| top.node + 1 <= j < last + 1 implies !g.edge(from, j) by {
                        lemma_bit_index(last as int, from, j);
                        assert(!trellis.tree@[bit_index(last as int, from, j)]);
                    }
                    lemma_count_between_none(g, from, top.node + 1, last + 1);
                }
                path.pop();
                proof {
                    assert(path@ =~= frames.take(path@.len() as int));
                }
            },
            Some(offset) => {
                let node: usize = top.node + offset + 1;
                proof {
                    lemma_bit_index(last as int, from, node as int);
                    assert(has_bit(trellis.tree@, last as int, from, node as int));
                    assert(g.edge(from, node as int));
                    assert forall|j: int| top.node + 1 <= j < node implies !g.edge(from, j) by {
                        lemma_bit_index(last as int, from, j);
                        assert(!trellis.tree@[bit_index(last as int, from, j)]);
                    }
                    lemma_count_between_none(g, from, top.node + 1, node as int);
                    lemma_count_between_split(g, from, from + 1, top.node as int, node as int);
                    lemma_count_between_split(g, from, top.node as int, top.node + 1, node as int);
                    lemma_count_between_one(g, from, top.node as int);
                    lemma_balance(g, full, level + 1);
                    lemma_chain_prefix(g, full, level as int);
                    assert(end_of(full.take(level as int)) == from);
                    lemma_chain_push(g, full.take(level as int), node as int);
                }
                path.set(level, Frame { node, start: top.start + offset + 1, end: top.end });
                proof {
                    let stem = full.take(level as int).push(node as int);
                    assert(nodes_of(path@) =~= stem);
                    assert forall|k: int| 0 <= k < path@.len() implies #[trigger] forward_frame(
                        last as int,
                        path@,
                        k,
                    ) by {
                        assert(forward_frame(last as int, frames, k));
                        assert(parent(nodes_of(path@), k) == parent(full, k));
                        if k < level {
                            assert(path@[k] == frames[k]);
                        }
                    }
                    assert(g.before(stem) == g.before(full) + 1);
                }
                extend_first(trellis, path, node);
                break;
            },
        }
    }
}

/// Continues a forward path to the last boundary along the path that stands
/// at position `index` among the paths from the boundary that it has reached.
pub(crate) fn descend_first(trellis: &Trellis, path: &mut Vec<Frame>, from: usize, index: usize)
    requires
        trellis.wf(),
        trellis.graph().is_chain(nodes_of(old(path)@)),
        forward_frames(trellis.last(), old(path)@),
        from == end_of(nodes_of(old(path)@)),
        index < trellis.graph().count(from as int),
    ensures
        trellis.graph().is_complete(nodes_of(final(path)@)),
        forward_frames(trellis.last(), final(path)@),
        trellis.graph().before(nodes_of(final(path)@)) == trellis.graph().before(
            nodes_of(old(path)@),
        ) + index,
{
    let ghost g = trellis.graph();
    let last: usize = trellis.bounds.len() - 1;
    let mut current: usize = from;
    let mut rest: usize = index;
    proof {
        if path@.len() > 0 {
            lemma_chain_increasing(g, nodes_of(path@), path@.len() - 1);
        }
    }
    while current != last
        invariant
            trellis.wf(),
            g == trellis.graph(),
            last == trellis.last(),
            g.is_chain(nodes_of(path@)),
            forward_frames(last as int, path@),
            current == end_of(nodes_of(path@)),
            0 <= current <= last,
            rest < g.count(current as int),
            g.before(nodes_of(path@)) + rest == g.before(nodes_of(old(path)@)) + index,
        decreases last - current,
    {
        let row = get_row_bounds(current, last);
        proof {
            lemma_bit_index(last as int, current as int, current + 1);
        }
        match locate(
            &trellis.tree,
            &trellis.subcounts,
            last,
            Ghost(current as int),
            row.0,
            row.1,
            current + 1,
            rest,
        ) {
            Err(_) => {
                proof {
                    assert(false);
                }
            },
            Ok((next, left)) => {
                let ghost before_nodes = nodes_of(path@);
                let ghost before_path = path@;
                proof {
                    lemma_bit_index(last as int, current as int, next as int);
                    lemma_chain_push(g, before_nodes, next as int);
                }
                path.push(Frame { node: next, start: row.0 + (next - current), end: row.1 });
                proof {
                    assert(nodes_of(path@) =~= before_nodes.push(next as int));
                    assert forall|k: int| 0 <= k < path@.len() implies #[trigger] forward_frame(
                        last as int,
                        path@,
                        k,
                    ) by {
                        if k < before_path.len() {
                            assert(forward_frame(last as int, before_path, k));
                            assert(path@[k] == before_path[k]);
                            assert(parent(nodes_of(path@), k) == parent(before_nodes, k));
                        }
                    }
                }
                current = next;
                rest = left;
            },
        }
    }
}

/// Moves a forward path `n` paths on in lexicographic order: up to the
/// deepest step from which that many paths branch off to greater boundaries,
/// and from there down into the branch that holds the path.
pub(crate) fn skip_forward(trellis: &Trellis, path: &mut Vec<Frame>, n: usize)
    requires
        trellis.wf(),
        trellis.graph().is_complete(nodes_of(old(path)@)),
        forward_frames(trellis.last(), old(path)@),
        1 <= n <= trellis.graph().after(nodes_of(old(path)@)),
    ensures
        trellis.graph().is_complete(nodes_of(final(path)@)),
        forward_frames(trellis.last(), final(path)@),
        trellis.graph().before(nodes_of(final(path)@)) == trellis.graph().before(
            nodes_of(old(path)@),
        ) + n,
{
    let ghost g = trellis.graph();
    let ghost full = nodes_of(path@);
    let ghost frames = path@;
    let last: usize = trellis.bounds.len() - 1;
    let mut remaining: usize = n;
    proof {
        assert(full.take(full.len() as int) =~= full);
        assert(path@.take(path@.len() as int) =~= path@);
    }
    loop
        invariant_except_break
            path@ == frames.take(path@.len() as int),
            path@.len() <= frames.len(),
            remaining >= 1,
            g.after(full.take(path@.len() as int)) <= g.after(full),
            remaining + (g.after(full) - g.after(full.take(path@.len() as int))) == n,
        invariant
            trellis.wf(),
            g == trellis.graph(),
            last == trellis.last(),
            full == nodes_of(frames),
            g.is_complete(full),
            forward_frames(last as int, frames),
            n <= g.after(full),
        ensures
            g.is_complete(nodes_of(path@)),
            forward_frames(last as int, path@),
            g.before(nodes_of(path@)) == g.before(full) + n,
        decreases path@.len(),
    {
        let depth: usize = path.len();
        proof {
            if depth == 0 {
                assert(full.take(0) =~= Seq::<int>::empty());
                assert(g.after(full.take(0)) == 0);
                assert(false);
            }
        }
        let level: usize = depth - 1;
        let top: Frame = path[level];
        let ghost from: int = parent(full, level as int);
        proof {
            assert(top == frames[level as int]);
            assert(forward_frame(last as int, frames, level as int));
            assert(full[level as int] == top.node);
            assert(g.step_ok(full, level as int));
            lemma_bit_index(last as int, from, top.node as int);
            lemma_bit_index(last as int, from, last as int);
            lemma_take_step(g, full, level as int);
        }
        match locate(
            &trellis.tree,
            &trellis.subcounts,
            last,
            Ghost(from),
            top.start,
            top.end,
            top.node + 1,
            remaining - 1,
        ) {
            Err(rest) => {
                remaining = rest + 1;
                path.pop();
                proof {
                    assert(path@ =~= frames.take(path@.len() as int));
                }
            },
            Ok((node, rest)) => {
                proof {
                    lemma_bit_index(last as int, from, node as int);
                    lemma_count_between_split(g, from, from + 1, top.node as int, node as int);
                    lemma_count_between_split(g, from, top.node as int, top.node + 1, node as int);
                    lemma_count_between_one(g, from, top.node as int);
                    lemma_balance(g, full, level + 1);
                    lemma_chain_prefix(g, full, level as int);
                    assert(end_of(full.take(level as int)) == from);
                    lemma_chain_push(g, full.take(level as int), node as int);
                }
                path.set(
                    level,
                    Frame { node, start: top.start + (node - top.node), end: top.end },
                );
                proof {
                    let stem = full.take(level as int).push(node as int);
                    assert(nodes_of(path@) =~= stem);
                    assert forall|k: int| 0 <= k < path@.len() implies #[trigger] forward_frame(
                        last as int,
                        path@,
                        k,
                    ) by {
                        assert(forward_frame(last as int, frames, k));
                        assert(parent(nodes_of(path@), k) == parent(full, k));
                        if k < level {
                            assert(path@[k] == frames[k]);
                        }
                    }
                    assert(g.before(stem) + rest == g.before(full) + n);
                }
                descend_first(trellis, path, node, rest);
                break ;
            },
        }
    }
}

/// Moves a backward path to the path before it in lexicographic order: the
/// deepest step that has an edge to a smaller boundary takes the greatest such
/// edge, and from there the path continues along greatest edges.
pub(crate) fn retreat_backward(trellis: &Trellis, path: &mut Vec<Frame>)
    requires
        trellis.wf(),
        trellis.graph().is_complete(nodes_of(old(path)@)),
        backward_frames(trellis.last(), old(path)@),
        trellis.graph().before(nodes_of(old(path)@)) > 0,
    ensures
        trellis.graph().is_complete(nodes_of(final(path)@)),
        backward_frames(trellis.last(), final(path)@),
        trellis.graph().after(nodes_of(final(path)@)) == trellis.graph().after(
            nodes_of(old(path)@),
        ) + 1,
{
    let ghost g = trellis.graph();
    let ghost full = nodes_of(path@);
    let ghost frames = path@;
    let last: usize = trellis.bounds.len() - 1;
    proof {
        assert(full.take(full.len() as int) =~= full);
        assert(path@.take(path@.len() as int) =~= path@);
    }
    loop
        invariant_except_break
            path@ == frames.take(path@.len() as int),
            path@.len() <= frames.len(),
            g.before(full) == g.before(full.take(path@.len() as int)),
        invariant
            trellis.wf(),
            g == trellis.graph(),
            last == trellis.last(),
            full == nodes_of(frames),
            g.is_complete(full),
            backward_frames(last as int, frames),
            g.before(full) > 0,
        ensures
            g.is_complete(nodes_of(path@)),
            backward_frames(last as int, path@),
            g.after(nodes_of(path@)) == g.after(full) + 1,
        decreases path@.len(),
    {
        let depth: usize = path.len();
        proof {
            if depth == 0 {
                assert(full.take(0) =~= Seq::<int>::empty());
                assert(g.before(full.take(0)) == 0);
                assert(false);
            }
        }
        let level: usize = depth - 1;
        let top: Frame = path[level];
        let ghost from: int = parent(full, level as int);
        proof {
            assert(top == frames[level as int]);
            assert(backward_frame(last as int, frames, level as int));
            assert(full[level as int] == top.node);
            assert(g.step_ok(full, level as int));
            lemma_bit_index(last as int, from, top.node as int);
            lemma_bit_index(last as int, from, last as int);
            lemma_take_step(g, full, level as int);
        }
        match trellis.tree.last_one_in(top.start, top.end) {
            None => {
                proof {
                    assert forall|j: int| from + 1 <= j < top.node implies !g.edge(from, j) by {
                        lemma_bit_index(last as int, from, j);
                        assert(!trellis.tree@[bit_index(last as int, from, j)]);
                    }
                    lemma_count_between_none(g, from, from + 1, top.node as int);
                }
                path.pop();
                proof {
                    assert(path@ =~= frames.take(path@.len() as int));
                }
            },
            Some(offset) => {
                let back: usize = top.end - top.start - offset;
                let node: usize = top.node - back;
                proof {
                    assert(node == from + 1 + offset);
                    lemma_bit_index(last as int, from, node as int);
                    assert(has_bit(trellis.tree@, last as int, from, node as int));
                    assert(g.edge(from, node as int));
                    assert forall|j: int| node + 1 <= j < top.node implies !g.edge(from, j) by {
                        lemma_bit_index(last as int, from, j);
                        assert(!trellis.tree@[bit_index(last as int, from, j)]);
                    }
                    lemma_count_between_none(g, from, node + 1, top.node as int);
                    lemma_count_between_split(g, from, node + 1, top.node as int, last + 1);
                    lemma_count_between_split(g, from, top.node as int, top.node + 1, last + 1);
                    lemma_count_between_one(g, from, top.node as int);
                    lemma_balance(g, full, level + 1);
                    lemma_chain_prefix(g, full, level as int);
                    assert(end_of(full.take(level as int)) == from);
                    lemma_chain_push(g, full.take(level as int), node as int);
                }
                path.set(level, Frame { node, start: top.start, end: top.end - back });
                proof {
                    let stem = full.take(level as int).push(node as int);
                    assert(nodes_of(path@) =~= stem);
                    assert forall|k: int| 0 <= k < path@.len() implies #[trigger] backward_frame(
                        last as int,
                        path@,
                        k,
                    ) by {
                        assert(backward_frame(last as int, frames, k));
                        assert(parent(nodes_of(path@), k) == parent(full, k));
                        if k < level {
                            assert(path@[k] == frames[k]);
                        }
                    }
                    assert(g.after(stem) == g.after(full) + 1);
                }
                extend_last(trellis, path, node);
                break;
            },
        }
    }
}

/// Continues a backward path to the last boundary along the path that stands
/// at position `index` from the end among the paths from the boundary that it
/// has reached.
pub(crate) fn descend_last(trellis: &Trellis, path: &mut Vec<Frame>, from: usize, index: usize)
    requires
        trellis.wf(),
        trellis.graph().is_chain(nodes_of(old(path)@)),
        backward_frames(trellis.last(), old(path)@),
        from == end_of(nodes_of(old(path)@)),
        index < trellis.graph().count(from as int),
    ensures
        trellis.graph().is_complete(nodes_of(final(path)@)),
        backward_frames(trellis.last(), final(path)@),
        trellis.graph().after(nodes_of(final(path)@)) == trellis.graph().after(
            nodes_of(old(path)@),
        ) + index,
{
    let ghost g = trellis.graph();
    let last: usize = trellis.bounds.len() - 1;
    let mut current: usize = from;
    let mut rest: usize = index;
    proof {
        if path@.len() > 0 {
            lemma_chain_increasing(g, nodes_of(path@), path@.len() - 1);
        }
    }
    while current != last
        invariant
            trellis.wf(),
            g == trellis.graph(),
            last == trellis.last(),
            g.is_chain(nodes_of(path@)),
            backward_frames(last as int, path@),
            current == end_of(nodes_of(path@)),
            0 <= current <= last,
            rest < g.count(current as int),
            g.after(nodes_of(path@)) + rest == g.after(nodes_of(old(path)@)) + index,
        decreases last - current,
    {
        let row = get_row_bounds(current, last);
        proof {
            lemma_bit_index(last as int, current as int, current + 1);
        }
        match locate_back(
            &trellis.tree,
            &trellis.subcounts,
            last,
            Ghost(current as int),
            row.0,
            row.1,
            current + 1,
            rest,
        ) {
            Err(_) => {
                proof {
                    assert(false);
                }
            },
            Ok((next, left)) => {
                let ghost before_nodes = nodes_of(path@);
                let ghost before_path = path@;
                proof {
                    lemma_bit_index(last as int, current as int, next as int);
                    lemma_chain_push(g, before_nodes, next as int);
                }
                path.push(Frame { node: next, start: row.0, end: row.0 + (next - current - 1) });
                proof {
                    assert(nodes_of(path@) =~= before_nodes.push(next as int));
                    assert forall|k: int| 0 <= k < path@.len() implies #[trigger] backward_frame(
                        last as int,
                        path@,
                        k,
                    ) by {
                        if k < before_path.len() {
                            assert(backward_frame(last as int, before_path, k));
                            assert(path@[k] == before_path[k]);
                            assert(parent(nodes_of(path@), k) == parent(before_nodes, k));
                        }
                    }
                }
                current = next;
                rest = left;
            },
        }
    }
}

/// Moves a backward path `n` paths back in lexicographic order: up to the
/// deepest step from which that many paths branch off to smaller boundaries,
/// and from there down into the branch that holds the path.
pub(crate) fn skip_backward(trellis: &Trellis, path: &mut Vec<Frame>, n: usize)
    requires
        trellis.wf(),
        trellis.graph().is_complete(nodes_of(old(path)@)),
        backward_frames(trellis.last(), old(path)@),
        1 <= n <= trellis.graph().before(nodes_of(old(path)@)),
    ensures
        trellis.graph().is_complete(nodes_of(final(path)@)),
        backward_frames(trellis.last(), final(path)@),
        trellis.graph().after(nodes_of(final(path)@)) == trellis.graph().after(
            nodes_of(old(path)@),
        ) + n,
{
    let ghost g = trellis.graph();
    let ghost full = nodes_of(path@);
    let ghost frames = path@;
    let last: usize = trellis.bounds.len() - 1;
    let mut remaining: usize = n;
    proof {
        assert(full.take(full.len() as int) =~= full);
        assert(path@.take(path@.len() as int) =~= path@);
    }
    loop
        invariant_except_break
            path@ == frames.take(path@.len() as int),
            path@.len() <= frames.len(),
            remaining >= 1,
            g.before(full.take(path@.len() as int)) <= g.before(full),
            remaining + (g.before(full) - g.before(full.take(path@.len() as int))) == n,
        invariant
            trellis.wf(),
            g == trellis.graph(),
            last == trellis.last(),
            full == nodes_of(frames),
            g.is_complete(full),
            backward_frames(last as int, frames),
            n <= g.before(full),
        ensures
            g.is_complete(nodes_of(path@)),
            backward_frames(last as int, path@),
            g.after(nodes_of(path@)) == g.after(full) + n,
        decreases path@.len(),
    {
        let depth: usize = path.len();
        proof {
            if depth == 0 {
                assert(full.take(0) =~= Seq::<int>::empty());
                assert(g.before(full.take(0)) == 0);
                assert(false);
            }
        }
        let level: usize = depth - 1;
        let top: Frame = path[level];
        let ghost from: int = parent(full, level as int);
        proof {
            assert(top == frames[level as int]);
            assert(backward_frame(last as int, frames, level as int));
            assert(full[level as int] == top.node);
            assert(g.step_ok(full, level as int));
            lemma_bit_index(last as int, from, top.node as int);
            lemma_bit_index(last as int, from, from + 1);
            lemma_take_step(g, full, level as int);
        }
        let first_node: usize = top.node - (top.end - top.start);
        match locate_back(
            &trellis.tree,
            &trellis.subcounts,
            last,
            Ghost(from),
            top.start,
            top.end,
            first_node,
            remaining - 1,
        ) {
            Err(rest) => {
                remaining = rest + 1;
                path.pop();
                proof {
                    assert(path@ =~= frames.take(path@.len() as int));
                }
            },
            Ok((node, rest)) => {
                proof {
                    lemma_bit_index(last as int, from, node as int);
                    lemma_count_between_split(g, from, node + 1, top.node as int, last + 1);
                    lemma_count_between_split(g, from, top.node as int, top.node + 1, last + 1);
                    lemma_count_between_one(g, from, top.node as int);
                    lemma_balance(g, full, level + 1);
                    lemma_chain_prefix(g, full, level as int);
                    assert(end_of(full.take(level as int)) == from);
                    lemma_chain_push(g, full.take(level as int), node as int);
                }
                path.set(
                    level,
                    Frame { node, start: top.start, end: top.start + (node - first_node) },
                );
                proof {
                    let stem = full.take(level as int).push(node as int);
                    assert(nodes_of(path@) =~= stem);
                    assert forall|k: int| 0 <= k < path@.len() implies #[trigger] backward_frame(
                        last as int,
                        path@,
                        k,
                    ) by {
                        assert(backward_frame(last as int, frames, k));
                        assert(parent(nodes_of(path@), k) == parent(full, k));
                        if k < level {
                            assert(path@[k] == frames[k]);
                        }
                    }
                    assert(g.after(stem) + rest == g.after(full) + n);
                }
                descend_last(trellis, path, node, rest);
                break ;
            },
        }
    }
}

/// The first step at which two paths reach different boundaries, if there is
/// one before either path ends.
pub(crate) fn find_split(forward: &Vec<Frame>, backward: &Vec<Frame>) -> (r: Option<usize>)
    ensures
        match r {
            Some(split) => {
                &&& split < forward.len()
                &&& split < backward.len()
                &&& nodes_of(forward@).take(split as int) == nodes_of(backward@).take(split as int)
                &&& nodes_of(forward@)[split as int] != nodes_of(backward@)[split as int]
            },
            None => if forward.len() <= backward.len() {
                nodes_of(backward@).take(forward.len() as int) == nodes_of(forward@)
            } else {
                nodes_of(forward@).take(backward.len() as int) == nodes_of(backward@)
            },
        },
{
    let ghost f = nodes_of(forward@);
    let ghost b = nodes_of(backward@);
    let mut split: usize = 0;
    proof {
        assert(f.take(0) =~= b.take(0));
    }
    while split < forward.len() && split < backward.len()
        invariant
            f == nodes_of(forward@),
            b == nodes_of(backward@),
            split <= f.len(),
            split <= b.len(),
            f.take(split as int) == b.take(split as int),
        decreases f.len() - split,
    {
        if forward[split].node != backward[split].node {
            return Some(split);
        }
        proof {
            assert(f.take(split + 1) =~= f.take(split as int).push(f[split as int]));
            assert(b.take(split + 1) =~= b.take(split as int).push(b[split as int]));
        }
        split = split + 1;
    }
    proof {
        if forward.len() <= backward.len() {
            assert(f.take(split as int) =~= f);
        } else {
            assert(b.take(split as int) =~= b);
        }
    }
    None
}

/// The number of paths that leave a forward path to greater boundaries after
/// step `split`.
pub(crate) fn forward_tail(trellis: &Trellis, path: &Vec<Frame>, split: usize) -> (r: Option<usize>)
    requires
        trellis.wf(),
        trellis.graph().is_complete(nodes_of(path@)),
        forward_frames(trellis.last(), path@),
        split < path.len(),
    ensures
        trellis.graph().after(nodes_of(path@).take(split + 1)) <= trellis.graph().after(
            nodes_of(path@),
        ),
        r == capped(
            (trellis.graph().after(nodes_of(path@)) - trellis.graph().after(
                nodes_of(path@).take(split + 1),
            )) as nat,
        ),
{
    let ghost g = trellis.graph();
    let ghost f = nodes_of(path@);
    let last: usize = trellis.bounds.len() - 1;
    let mut total: Option<usize> = Some(0);
    let mut level: usize = split + 1;
    while level < path.len()
        invariant
            trellis.wf(),
            g == trellis.graph(),
            last == trellis.last(),
            f == nodes_of(path@),
            g.is_complete(f),
            forward_frames(last as int, path@),
            split + 1 <= level <= f.len(),
            g.after(f.take(split + 1)) <= g.after(f.take(level as int)),
            total == capped((g.after(f.take(level as int)) - g.after(f.take(split + 1))) as nat),
        decreases f.len() - level,
    {
        let frame: Frame = path[level];
        let ghost from = parent(f, level as int);
        proof {
            assert(f[level as int] == frame.node);
            assert(g.step_ok(f, level as int));
            assert(forward_frame(last as int, path@, level as int));
            lemma_bit_index(last as int, from, frame.node as int);
            lemma_take_step(g, f, level as int);
            lemma_capped_sum(
                (g.after(f.take(level as int)) - g.after(f.take(split + 1))) as nat,
                g.count_between(from, frame.node + 1, last + 1),
            );
        }
        let part = sum_counts(
            &trellis.tree,
            &trellis.subcounts,
            last,
            Ghost(from),
            frame.start,
            frame.end,
            frame.node + 1,
        );
        total = capped_add(total, part);
        level = level + 1;
    }
    proof {
        assert(f.take(f.len() as int) =~= f);
    }
    total
}

/// The number of paths that leave a backward path to smaller boundaries after
/// step `split`.
pub(crate) fn backward_tail(trellis: &Trellis, path: &Vec<Frame>, split: usize) -> (r: Option<usize>)
    requires
        trellis.wf(),
        trellis.graph().is_complete(nodes_of(path@)),
        backward_frames(trellis.last(), path@),
        split < path.len(),
    ensures
        trellis.graph().before(nodes_of(path@).take(split + 1)) <= trellis.graph().before(
            nodes_of(path@),
        ),
        r == capped(
            (trellis.graph().before(nodes_of(path@)) - trellis.graph().before(
                nodes_of(path@).take(split + 1),
            )) as nat,
        ),
{
    let ghost g = trellis.graph();
    let ghost b = nodes_of(path@);
    let last: usize = trellis.bounds.len() - 1;
    let mut total: Option<usize> = Some(0);
    let mut level: usize = split + 1;
    while level < path.len()
        invariant
            trellis.wf(),
            g == trellis.graph(),
            last == trellis.last(),
            b == nodes_of(path@),
            g.is_complete(b),
            backward_frames(last as int, path@),
            split + 1 <= level <= b.len(),
            g.before(b.take(split + 1)) <= g.before(b.take(level as int)),
            total == capped((g.before(b.take(level as int)) - g.before(b.take(split + 1))) as nat),
        decreases b.len() - level,
    {
        let frame: Frame = path[level];
        let ghost from = parent(b, level as int);
        proof {
            assert(b[level as int] == frame.node);
            assert(g.step_ok(b, level as int));
            assert(backward_frame(last as int, path@, level as int));
            lemma_bit_index(last as int, from, frame.node as int);
            lemma_take_step(g, b, level as int);
            lemma_capped_sum(
                (g.before(b.take(level as int)) - g.before(b.take(split + 1))) as nat,
                g.count_between(from, from + 1, frame.node as int),
            );
        }
        let first_node: usize = frame.node - (frame.end - frame.start);
        let part = sum_counts(
            &trellis.tree,
            &trellis.subcounts,
            last,
            Ghost(from),
            frame.start,
            frame.end,
            first_node,
        );
        total = capped_add(total, part);
        level = level + 1;
    }
    proof {
        assert(b.take(b.len() as int) =~= b);
    }
    total
}

/// The pieces of a text one after the other.
pub open spec fn concat_bytes(words: Seq<&str>) -> Seq<u8>
    decreases words.len(),
{
    if words.len() == 0 {
        Seq::<u8>::empty()
    } else {
        concat_bytes(words.drop_last()) + words.last().spec_bytes()
    }
}

/// The pieces that a path from the first to the last boundary cuts out make
/// up the text.
pub proof fn lemma_words_cover(
    g: Graph,
    path: Seq<int>,
    bounds: Seq<usize>,
    bytes: Seq<u8>,
    words: Seq<&str>,
    n: int,
)
    requires
        g.last == bounds.len() - 1,
        g.is_complete(path),
        bounds_fit(bounds, bytes),
        forall|i: int, j: int| 0 <= i < j < bounds.len() ==> bounds[i] < bounds[j],
        words_match(words, bytes, offsets(path, bounds)),
        0 <= n <= words.len(),
    ensures
        concat_bytes(words.take(n)) == bytes.subrange(0, bounds[parent(path, n)] as int),
        n == words.len() ==> concat_bytes(words) == bytes,
    decreases n,
{
    let cuts = offsets(path, bounds);
    if n == 0 {
        assert(words.take(0) =~= Seq::<&str>::empty());
        assert(bytes.subrange(0, 0) =~= Seq::<u8>::empty());
    } else {
        lemma_words_cover(g, path, bounds, bytes, words, n - 1);
        lemma_chain_increasing(g, path, n - 1);
        if n >= 2 {
            lemma_chain_increasing(g, path, n - 2);
        }
        let front = words.take(n);
        assert(front.drop_last() =~= words.take(n - 1));
        assert(front.last() == words[n - 1]);
        assert(parent(cuts, n - 1) == bounds[parent(path, n - 1)] as int);
        assert(cuts[n - 1] == bounds[path[n - 1]] as int);
        assert(bounds[parent(path, n - 1)] < bounds[path[n - 1]]);
        assert(bounds[path[n - 1]] <= bytes.len()) by {
            if path[n - 1] < bounds.len() - 1 {
                assert(bounds[path[n - 1]] < bounds[bounds.len() - 1]);
            }
        }
        assert(bytes.subrange(0, bounds[parent(path, n - 1)] as int) + bytes.subrange(
            bounds[parent(path, n - 1)] as int,
            bounds[path[n - 1]] as int,
        ) =~= bytes.subrange(0, bounds[path[n - 1]] as int));
    }
    if n == words.len() {
        assert(words.take(n) =~= words);
        assert(bytes.subrange(0, bytes.len() as int) =~= bytes);
    }
}

/// `Arc::clone` of std: another handle to the same value.
#[verifier::external_body]
pub(crate) fn share(trellis: &Arc<Trellis>) -> (r: Arc<Trellis>)
    ensures
        r == *trellis,
{
    Arc::clone(trellis)
}

/// The segmentations of one input that have not been given out yet, in
/// lexicographic order of their cut points. `next` gives out the first of
/// them and `next_back` the last.
#[derive(Debug)]
pub struct WordSegmentations<'s> {
    input: &'s str,
    trellis: Option<Arc<Trellis>>,
    forward: Vec<Frame>,
    backward: Vec<Frame>,
}

impl<'s> View for WordSegmentations<'s> {
    type V = Seq<Seq<int>>;

    /// The segmentations that are left, in order. Each is the byte offsets in
    /// the input at which its words end.
    closed spec fn view(&self) -> Seq<Seq<int>> {
        match self.trellis {
            None => if self.forward.len() > 0 {
                seq![Seq::<int>::empty()]
            } else {
                Seq::<Seq<int>>::empty()
            },
            Some(t) => cuts_from(t.graph(), t.bounds@, 0).subrange(
                t.graph().before(nodes_of(self.forward@)) as int,
                t.graph().before(nodes_of(self.backward@)) as int + 1,
            ),
        }
    }
}

impl<'s> WordSegmentations<'s> {
    /// The input.
    pub closed spec fn input(&self) -> &'s str {
        self.input
    }

    /// Whether the enumerator has let go of its trellis and its paths.
    pub closed spec fn released(&self) -> bool {
        self.trellis is None && self.forward.len() == 0 && self.backward.len() == 0
    }

    /// An enumerator with no segmentation left holds no trellis and no path,
    /// and only such an enumerator.
    pub proof fn lemma_released(&self)
        requires
            self.wf(),
        ensures
            self.released() <==> self@.len() == 0,
    {
        match self.trellis {
            None => {},
            Some(t) => {
                let g = t.graph();
                lemma_rank(g, nodes_of(self.backward@));
                lemma_paths_len(g, 0);
            },
        }
    }

    /// What holds of every enumerator: where segmentations are left, its two
    /// paths are paths of its trellis from the first to the last boundary,
    /// the forward one not after the backward one.
    pub closed spec fn wf(&self) -> bool {
        match self.trellis {
            None => {
                &&& self.forward.len() == self.backward.len()
                &&& self.forward.len() <= 1
                &&& self.forward.len() == 1 ==> self.input.spec_bytes().len() == 0
            },
            Some(t) => {
                &&& t.wf()
                &&& bounds_fit(t.bounds@, self.input.spec_bytes())
                &&& t.graph().is_complete(nodes_of(self.forward@))
                &&& t.graph().is_complete(nodes_of(self.backward@))
                &&& forward_frames(t.last(), self.forward@)
                &&& backward_frames(t.last(), self.backward@)
                &&& t.graph().before(nodes_of(self.forward@)) <= t.graph().before(
                    nodes_of(self.backward@),
                )
            },
        }
    }

    /// Creates the enumerator of all segmentations of `input` into words of
    /// `dictionary`.
    pub fn new(dictionary: &Dictionary, input: &'s str) -> (r: Self)
        requires
            dictionary.wf(),
            input@.len() > 0 ==> segmentable(input@),
        ensures
            r.wf(),
            r.input() == input,
            r@ == segmentations(dictionary.bytes(), input@),
    {
        if input.is_empty() {
            let mut forward: Vec<Frame> = Vec::new();
            forward.push(Frame { node: 0, start: 0, end: 0 });
            let mut backward: Vec<Frame> = Vec::new();
            backward.push(Frame { node: 0, start: 0, end: 0 });
            proof {
                assert(input.spec_bytes() =~= Seq::<u8>::empty());
            }
            WordSegmentations { input, trellis: None, forward, backward }
        } else {
            let index = BoundaryIndex::of(input);
            WordSegmentations::from_parts(
                dictionary,
                input,
                index.bounds,
                index.normal.as_str().as_bytes(),
                &index.normal_bounds,
            )
        }
    }

    /// Creates the enumerator of all segmentations of `input`, given the
    /// grapheme boundaries of the input (`bounds`), its canonical
    /// decomposition as bytes (`nfd`) and the grapheme boundaries of that
    /// (`nfd_bounds`). Boundary `i` of the one corresponds to boundary `i` of
    /// the other.
    pub fn from_parts(
        dictionary: &Dictionary,
        input: &'s str,
        bounds: Vec<usize>,
        nfd: &[u8],
        nfd_bounds: &Vec<usize>,
    ) -> (r: Self)
        requires
            dictionary.wf(),
            bounds.len() == nfd_bounds.len(),
            is_boundary_seq(bounds@, input.spec_bytes().len() as int),
            is_boundary_seq(nfd_bounds@, nfd@.len() as int),
            forall|a: int|
                0 <= a < bounds.len() ==> is_char_boundary(
                    input.spec_bytes(),
                    #[trigger] bounds@[a] as int,
                ),
            triangle(bounds.len() as int) <= crate::bits::max_bits(),
        ensures
            r.wf(),
            r.input() == input,
            r@ == cuts_from(span_graph(dictionary.bytes(), nfd@, nfd_bounds@), bounds@, 0),
    {
        let ghost h = span_graph(dictionary.bytes(), nfd@, nfd_bounds@);
        if bounds.len() == 1 {
            let mut forward: Vec<Frame> = Vec::new();
            forward.push(Frame { node: 0, start: 0, end: 0 });
            let mut backward: Vec<Frame> = Vec::new();
            backward.push(Frame { node: 0, start: 0, end: 0 });
            proof {
                assert(offsets(Seq::<int>::empty(), bounds@) =~= Seq::<int>::empty());
                assert(cuts_from(h, bounds@, 0) =~= seq![Seq::<int>::empty()]);
            }
            return WordSegmentations { input, trellis: None, forward, backward };
        }
        proof {
            dictionary.lemma_bytes();
        }
        match Trellis::build(&dictionary.fst, nfd, nfd_bounds, bounds) {
            None => {
                proof {
                    assert(cuts_from(h, bounds@, 0) =~= Seq::<Seq<int>>::empty());
                }
                WordSegmentations {
                    input,
                    trellis: None,
                    forward: Vec::new(),
                    backward: Vec::new(),
                }
            },
            Some(trellis) => {
                let mut forward: Vec<Frame> = Vec::new();
                let mut backward: Vec<Frame> = Vec::new();
                let ghost g = trellis.graph();
                proof {
                    assert(nodes_of(forward@) =~= Seq::<int>::empty());
                    assert(nodes_of(backward@) =~= Seq::<int>::empty());
                }
                extend_first(&trellis, &mut forward, 0);
                extend_last(&trellis, &mut backward, 0);
                proof {
                    let f = nodes_of(forward@);
                    let b = nodes_of(backward@);
                    lemma_balance(g, b, 0);
                    assert(b.take(0) =~= Seq::<int>::empty());
                    crate::paths::lemma_paths_len(g, 0);
                    let all = cuts_from(g, trellis.bounds@, 0);
                    assert(all.subrange(0, g.before(b) as int + 1) =~= all);
                    assert forall|a: int| 0 <= a < trellis.bounds.len() implies is_char_boundary(
                        input.spec_bytes(),
                        #[trigger] trellis.bounds@[a] as int,
                    ) by {
                        let i = choose|i: int|
                            0 <= i < bounds@.len() && bounds@[i] == trellis.bounds@[a];
                    }
                }
                WordSegmentations { input, trellis: Some(Arc::new(trellis)), forward, backward }
            },
        }
    }

    /// Gives out the first of the segmentations that are left, as the words
    /// into which it divides the input.
    pub fn next(&mut self) -> (r: Option<Vec<&'s str>>)
        requires
            old(self).wf(),
        ensures
            final(self).wf(),
            final(self).input() == old(self).input(),
            final(self)@.len() == 0 ==> final(self).released(),
            old(self)@.len() == 0 ==> r is None && final(self)@ == old(self)@,
            old(self)@.len() > 0 ==> final(self)@ == old(self)@.drop_first(),
            old(self)@.len() > 0 ==> (r matches Some(words) && words_match(
                words@,
                old(self).input().spec_bytes(),
                old(self)@[0],
            ) && concat_bytes(words@) == old(self).input().spec_bytes()),
    {
        let mut exhausted = false;
        let ghost before = self@;
        let result = match &self.trellis {
            None => {
                if self.forward.len() == 0 {
                    None
                } else {
                    exhausted = true;
                    let words: Vec<&'s str> = Vec::new();
                    proof {
                        assert(concat_bytes(words@) =~= Seq::<u8>::empty());
                        assert(self.input.spec_bytes() =~= Seq::<u8>::empty());
                        assert(before.drop_first() =~= Seq::<Seq<int>>::empty());
                    }
                    Some(words)
                }
            },
            Some(shared) => {
                let ghost g = shared.graph();
                let ghost f = nodes_of(self.forward@);
                let ghost b = nodes_of(self.backward@);
                let ghost all = cuts_from(g, shared.bounds@, 0);
                let words = materialize(self.input, &shared.bounds, &self.forward, Ghost(g));
                proof {
                    lemma_rank(g, f);
                    lemma_rank(g, b);
                    crate::paths::lemma_paths_len(g, 0);
                    assert(before == all.subrange(g.before(f) as int, g.before(b) as int + 1));
                    assert(before[0] == offsets(f, shared.bounds@));
                    lemma_words_cover(
                        g,
                        f,
                        shared.bounds@,
                        self.input.spec_bytes(),
                        words@,
                        words@.len() as int,
                    );
                }
                if same_nodes(&self.forward, &self.backward) {
                    exhausted = true;
                    proof {
                        assert(before.drop_first() =~= Seq::<Seq<int>>::empty());
                    }
                } else {
                    proof {
                        if g.before(f) == g.before(b) {
                            lemma_rank_injective(g, f, b);
                        }
                        lemma_balance(g, f, 0);
                        lemma_balance(g, b, 0);
                        assert(f.take(0) =~= Seq::<int>::empty());
                        assert(b.take(0) =~= Seq::<int>::empty());
                    }
                    advance_forward(shared, &mut self.forward);
                    proof {
                        assert(all.subrange(g.before(f) as int + 1, g.before(b) as int + 1)
                            =~= before.drop_first());
                    }
                }
                Some(words)
            },
        };
        if exhausted {
            self.trellis = None;
            self.forward = Vec::new();
            self.backward = Vec::new();
        }
        result
    }
}

impl<'s> WordSegmentations<'s> {
    /// Gives out the last of the segmentations that are left, as the words
    /// into which it divides the input.
    pub fn next_back(&mut self) -> (r: Option<Vec<&'s str>>)
        requires
            old(self).wf(),
        ensures
            final(self).wf(),
            final(self).input() == old(self).input(),
            final(self)@.len() == 0 ==> final(self).released(),
            old(self)@.len() == 0 ==> r is None && final(self)@ == old(self)@,
            old(self)@.len() > 0 ==> final(self)@ == old(self)@.drop_last(),
            old(self)@.len() > 0 ==> (r matches Some(words) && words_match(
                words@,
                old(self).input().spec_bytes(),
                old(self)@.last(),
            ) && concat_bytes(words@) == old(self).input().spec_bytes()),
    {
        let mut exhausted = false;
        let ghost before = self@;
        let result = match &self.trellis {
            None => {
                if self.backward.len() == 0 {
                    None
                } else {
                    exhausted = true;
                    let words: Vec<&'s str> = Vec::new();
                    proof {
                        assert(concat_bytes(words@) =~= Seq::<u8>::empty());
                        assert(self.input.spec_bytes() =~= Seq::<u8>::empty());
                        assert(before.drop_last() =~= Seq::<Seq<int>>::empty());
                    }
                    Some(words)
                }
            },
            Some(shared) => {
                let ghost g = shared.graph();
                let ghost f = nodes_of(self.forward@);
                let ghost b = nodes_of(self.backward@);
                let ghost all = cuts_from(g, shared.bounds@, 0);
                let words = materialize(self.input, &shared.bounds, &self.backward, Ghost(g));
                proof {
                    lemma_rank(g, f);
                    lemma_rank(g, b);
                    lemma_paths_len(g, 0);
                    assert(before == all.subrange(g.before(f) as int, g.before(b) as int + 1));
                    assert(before.last() == offsets(b, shared.bounds@));
                    lemma_words_cover(
                        g,
                        b,
                        shared.bounds@,
                        self.input.spec_bytes(),
                        words@,
                        words@.len() as int,
                    );
                }
                if same_nodes(&self.backward, &self.forward) {
                    exhausted = true;
                    proof {
                        assert(before.drop_last() =~= Seq::<Seq<int>>::empty());
                    }
                } else {
                    proof {
                        if g.before(f) == g.before(b) {
                            lemma_rank_injective(g, f, b);
                        }
                        lemma_balance(g, b, 0);
                        assert(b.take(0) =~= Seq::<int>::empty());
                    }
                    retreat_backward(shared, &mut self.backward);
                    proof {
                        let c = nodes_of(self.backward@);
                        lemma_balance(g, c, 0);
                        assert(c.take(0) =~= Seq::<int>::empty());
                        assert(g.before(c) + 1 == g.before(b));
                        assert(all.subrange(g.before(f) as int, g.before(b) as int)
                            =~= before.drop_last());
                    }
                }
                Some(words)
            },
        };
        if exhausted {
            self.trellis = None;
            self.forward = Vec::new();
            self.backward = Vec::new();
        }
        result
    }

    /// How many segmentations are left: the number twice, or, where a `usize`
    /// cannot hold it, the greatest `usize` and no upper bound.
    pub fn size_hint(&self) -> (r: (usize, Option<usize>))
        requires
            self.wf(),
        ensures
            r == (if self@.len() <= usize::MAX {
                (self@.len() as usize, Some(self@.len() as usize))
            } else {
                (usize::MAX, None::<usize>)
            }),
    {
        match &self.trellis {
            None => {
                if self.forward.len() == 0 {
                    (0, Some(0))
                } else {
                    (1, Some(1))
                }
            },
            Some(shared) => {
                let ghost g = shared.graph();
                let ghost f = nodes_of(self.forward@);
                let ghost b = nodes_of(self.backward@);
                let last: usize = shared.bounds.len() - 1;
                proof {
                    lemma_rank(g, f);
                    lemma_rank(g, b);
                    lemma_paths_len(g, 0);
                }
                match find_split(&self.forward, &self.backward) {
                    None => {
                        proof {
                            if f.len() <= b.len() {
                                lemma_complete_prefix(g, f, b);
                            } else {
                                lemma_complete_prefix(g, b, f);
                            }
                            assert(self@.len() == 1);
                        }
                        (1, Some(1))
                    },
                    Some(split) => {
                        let ghost from = parent(f, split as int);
                        let first: Frame = self.forward[split];
                        let second: Frame = self.backward[split];
                        proof {
                            lemma_order(g, f, b, split as int);
                            lemma_gap(g, f, b, split as int);
                            assert(parent(b, split as int) == from) by {
                                if split > 0 {
                                    assert(f.take(split as int)[split - 1] == f[split - 1]);
                                    assert(b.take(split as int)[split - 1] == b[split - 1]);
                                }
                            }
                            assert(f[split as int] == first.node);
                            assert(b[split as int] == second.node);
                            assert(g.step_ok(f, split as int));
                            assert(g.step_ok(b, split as int));
                            assert(forward_frame(last as int, self.forward@, split as int));
                            assert(backward_frame(last as int, self.backward@, split as int));
                            lemma_bit_index(last as int, from, first.node as int);
                            lemma_bit_index(last as int, from, second.node as int);
                        }
                        let ahead = forward_tail(shared, &self.forward, split);
                        let between = sum_counts(
                            &shared.tree,
                            &shared.subcounts,
                            last,
                            Ghost(from),
                            first.start,
                            second.end,
                            first.node + 1,
                        );
                        let behind = backward_tail(shared, &self.backward, split);
                        let ghost fa: nat = (g.after(f) - g.after(f.take(split + 1))) as nat;
                        let ghost middle: nat = g.count_between(
                            from,
                            first.node + 1,
                            second.node as int,
                        );
                        let ghost bb: nat = (g.before(b) - g.before(b.take(split + 1))) as nat;
                        proof {
                            lemma_capped_sum(fa, 1);
                            lemma_capped_sum(fa + 1, middle);
                            lemma_capped_sum(fa + 1 + middle, bb);
                            lemma_capped_sum(fa + 1 + middle + bb, 1);
                            assert(self@.len() == g.before(b) - g.before(f) + 1);
                        }
                        let total = capped_add(
                            capped_add(capped_add(capped_add(ahead, Some(1)), between), behind),
                            Some(1),
                        );
                        match total {
                            Some(count) => (count, Some(count)),
                            None => (usize::MAX, None),
                        }
                    },
                }
            },
        }
    }

    /// The number of segmentations that are left, which a `usize` must be able
    /// to hold.
    pub fn count(self) -> (r: usize)
        requires
            self.wf(),
            self@.len() <= usize::MAX,
        ensures
            r == self@.len(),
    {
        self.size_hint().0
    }

    /// The last of the segmentations that are left.
    pub fn last(self) -> (r: Option<Vec<&'s str>>)
        requires
            self.wf(),
        ensures
            self@.len() == 0 ==> r is None,
            self@.len() > 0 ==> (r matches Some(words) && words_match(
                words@,
                self.input().spec_bytes(),
                self@.last(),
            ) && concat_bytes(words@) == self.input().spec_bytes()),
    {
        let mut rest = self;
        rest.next_back()
    }

    /// The greatest of the segmentations that are left, which is the last.
    pub fn max(self) -> (r: Option<Vec<&'s str>>)
        requires
            self.wf(),
        ensures
            self@.len() == 0 ==> r is None,
            self@.len() > 0 ==> (r matches Some(words) && words_match(
                words@,
                self.input().spec_bytes(),
                self@.last(),
            ) && concat_bytes(words@) == self.input().spec_bytes()),
    {
        let mut rest = self;
        rest.next_back()
    }

    /// The smallest of the segmentations that are left, which is the first.
    pub fn min(self) -> (r: Option<Vec<&'s str>>)
        requires
            self.wf(),
        ensures
            self@.len() == 0 ==> r is None,
            self@.len() > 0 ==> (r matches Some(words) && words_match(
                words@,
                self.input().spec_bytes(),
                self@[0],
            ) && concat_bytes(words@) == self.input().spec_bytes()),
    {
        let mut rest = self;
        rest.next()
    }
}

impl<'s> WordSegmentations<'s> {
    /// Passes over the first `n` segmentations that are left, without walking
    /// through them one by one. Where fewer are left, all are passed over and
    /// the error holds how many there were.
    pub fn advance_by(&mut self, n: usize) -> (r: Result<(), usize>)
        requires
            old(self).wf(),
        ensures
            final(self).wf(),
            final(self).input() == old(self).input(),
            final(self)@.len() == 0 ==> final(self).released(),
            n <= old(self)@.len() ==> r == Ok::<(), usize>(()) && final(self)@ == old(self)@.skip(
                n as int,
            ),
            n > old(self)@.len() ==> r == Err::<(), usize>(old(self)@.len() as usize) && final(self)@.len()
                == 0,
    {
        let ghost before = self@;
        if n == 0 {
            proof {
                assert(before.skip(0) =~= before);
                self.lemma_released();
            }
            return Ok(());
        }
        let left = self.size_hint().1;
        match left {
            Some(count) => {
                if n >= count {
                    self.trellis = None;
                    self.forward = Vec::new();
                    self.backward = Vec::new();
                    proof {
                        if n == count {
                            assert(before.skip(n as int) =~= Seq::<Seq<int>>::empty());
                        }
                    }
                    return if n == count {
                        Ok(())
                    } else {
                        Err(count)
                    };
                }
            },
            None => {},
        }
        match &self.trellis {
            None => {
                proof {
                    assert(false);
                }
            },
            Some(shared) => {
                let ghost g = shared.graph();
                let ghost f = nodes_of(self.forward@);
                let ghost b = nodes_of(self.backward@);
                let ghost all = cuts_from(g, shared.bounds@, 0);
                proof {
                    lemma_rank(g, f);
                    lemma_rank(g, b);
                    lemma_paths_len(g, 0);
                    lemma_balance(g, f, 0);
                    assert(f.take(0) =~= Seq::<int>::empty());
                    assert(before == all.subrange(g.before(f) as int, g.before(b) as int + 1));
                }
                skip_forward(shared, &mut self.forward, n);
                proof {
                    assert(all.subrange(g.before(f) as int + n, g.before(b) as int + 1)
                        =~= before.skip(n as int));
                }
            },
        }
        Ok(())
    }

    /// Passes over the last `n` segmentations that are left, without walking
    /// through them one by one. Where fewer are left, all are passed over and
    /// the error holds how many there were.
    pub fn advance_back_by(&mut self, n: usize) -> (r: Result<(), usize>)
        requires
            old(self).wf(),
        ensures
            final(self).wf(),
            final(self).input() == old(self).input(),
            final(self)@.len() == 0 ==> final(self).released(),
            n <= old(self)@.len() ==> r == Ok::<(), usize>(()) && final(self)@ == old(self)@.take(
                old(self)@.len() - n,
            ),
            n > old(self)@.len() ==> r == Err::<(), usize>(old(self)@.len() as usize) && final(self)@.len()
                == 0,
    {
        let ghost before = self@;
        if n == 0 {
            proof {
                assert(before.take(before.len() as int) =~= before);
                self.lemma_released();
            }
            return Ok(());
        }
        let left = self.size_hint().1;
        match left {
            Some(count) => {
                if n >= count {
                    self.trellis = None;
                    self.forward = Vec::new();
                    self.backward = Vec::new();
                    proof {
                        if n == count {
                            assert(before.take(before.len() - n) =~= Seq::<Seq<int>>::empty());
                        }
                    }
                    return if n == count {
                        Ok(())
                    } else {
                        Err(count)
                    };
                }
            },
            None => {},
        }
        match &self.trellis {
            None => {
                proof {
                    assert(false);
                }
            },
            Some(shared) => {
                let ghost g = shared.graph();
                let ghost f = nodes_of(self.forward@);
                let ghost b = nodes_of(self.backward@);
                let ghost all = cuts_from(g, shared.bounds@, 0);
                proof {
                    lemma_rank(g, f);
                    lemma_rank(g, b);
                    lemma_paths_len(g, 0);
                    lemma_balance(g, b, 0);
                    assert(b.take(0) =~= Seq::<int>::empty());
                    assert(before == all.subrange(g.before(f) as int, g.before(b) as int + 1));
                }
                skip_backward(shared, &mut self.backward, n);
                proof {
                    let c = nodes_of(self.backward@);
                    lemma_balance(g, c, 0);
                    assert(c.take(0) =~= Seq::<int>::empty());
                    assert(g.before(c) + n == g.before(b));
                    assert(all.subrange(g.before(f) as int, g.before(b) as int + 1 - n)
                        =~= before.take(before.len() - n));
                }
            },
        }
        Ok(())
    }

    /// Passes over the first `n` segmentations that are left and gives out the
    /// one after them.
    pub fn nth(&mut self, n: usize) -> (r: Option<Vec<&'s str>>)
        requires
            old(self).wf(),
        ensures
            final(self).wf(),
            final(self).input() == old(self).input(),
            n >= old(self)@.len() ==> r is None && final(self)@.len() == 0,
            n < old(self)@.len() ==> final(self)@ == old(self)@.skip(n + 1),
            n < old(self)@.len() ==> (r matches Some(words) && words_match(
                words@,
                old(self).input().spec_bytes(),
                old(self)@[n as int],
            ) && concat_bytes(words@) == old(self).input().spec_bytes()),
    {
        match self.advance_by(n) {
            Ok(_) => {
                let ghost rest = self@;
                let found = self.next();
                proof {
                    if n < old(self)@.len() {
                        assert(rest.drop_first() =~= old(self)@.skip(n + 1));
                    }
                }
                found
            },
            Err(_) => None,
        }
    }

    /// Passes over the last `n` segmentations that are left and gives out the
    /// one before them.
    pub fn nth_back(&mut self, n: usize) -> (r: Option<Vec<&'s str>>)
        requires
            old(self).wf(),
        ensures
            final(self).wf(),
            final(self).input() == old(self).input(),
            n >= old(self)@.len() ==> r is None && final(self)@.len() == 0,
            n < old(self)@.len() ==> final(self)@ == old(self)@.take(old(self)@.len() - n - 1),
            n < old(self)@.len() ==> (r matches Some(words) && words_match(
                words@,
                old(self).input().spec_bytes(),
                old(self)@[old(self)@.len() - n - 1],
            ) && concat_bytes(words@) == old(self).input().spec_bytes()),
    {
        match self.advance_back_by(n) {
            Ok(_) => {
                let ghost rest = self@;
                let found = self.next_back();
                proof {
                    if n < old(self)@.len() {
                        assert(rest.drop_last() =~= old(self)@.take(old(self)@.len() - n - 1));
                    }
                }
                found
            },
            Err(_) => None,
        }
    }

    /// All segmentations that are left, first to last.
    pub fn collect(self) -> (r: Vec<Vec<&'s str>>)
        requires
            self.wf(),
        ensures
            r.len() == self@.len(),
            forall|k: int|
                0 <= k < r.len() ==> words_match(
                    (#[trigger] r@[k])@,
                    self.input().spec_bytes(),
                    self@[k],
                ) && concat_bytes(r@[k]@) == self.input().spec_bytes(),
    {
        let mut rest = self;
        let mut found: Vec<Vec<&'s str>> = Vec::new();
        proof {
            assert(self@.skip(0) =~= self@);
        }
        loop
            invariant
                rest.wf(),
                rest.input() == self.input(),
                found.len() <= self@.len(),
                rest@ == self@.skip(found.len() as int),
                forall|k: int|
                    0 <= k < found.len() ==> words_match(
                        (#[trigger] found@[k])@,
                        self.input().spec_bytes(),
                        self@[k],
                    ) && concat_bytes(found@[k]@) == self.input().spec_bytes(),
            ensures
                found.len() == self@.len(),
                forall|k: int|
                    0 <= k < found.len() ==> words_match(
                        (#[trigger] found@[k])@,
                        self.input().spec_bytes(),
                        self@[k],
                    ) && concat_bytes(found@[k]@) == self.input().spec_bytes(),
            decreases rest@.len(),
        {
            let ghost before = rest@;
            match rest.next() {
                None => {
                    break ;
                },
                Some(words) => {
                    proof {
                        assert(before.drop_first() =~= self@.skip(found.len() + 1));
                    }
                    found.push(words);
                },
            }
        }
        found
    }

    /// All segmentations that are left, last to first: what `collect` gives,
    /// in reverse.
    pub fn collect_back(self) -> (r: Vec<Vec<&'s str>>)
        requires
            self.wf(),
        ensures
            r.len() == self@.len(),
            forall|k: int|
                0 <= k < r.len() ==> words_match(
                    (#[trigger] r@[k])@,
                    self.input().spec_bytes(),
                    self@.reverse()[k],
                ) && concat_bytes(r@[k]@) == self.input().spec_bytes(),
    {
        let mut rest = self;
        let mut found: Vec<Vec<&'s str>> = Vec::new();
        proof {
            assert(self@.take(self@.len() as int) =~= self@);
        }
        loop
            invariant
                rest.wf(),
                rest.input() == self.input(),
                found.len() <= self@.len(),
                rest@ == self@.take(self@.len() - found.len()),
                forall|k: int|
                    0 <= k < found.len() ==> words_match(
                        (#[trigger] found@[k])@,
                        self.input().spec_bytes(),
                        self@[self@.len() - 1 - k],
                    ) && concat_bytes(found@[k]@) == self.input().spec_bytes(),
            ensures
                found.len() == self@.len(),
                forall|k: int|
                    0 <= k < found.len() ==> words_match(
                        (#[trigger] found@[k])@,
                        self.input().spec_bytes(),
                        self@[self@.len() - 1 - k],
                    ) && concat_bytes(found@[k]@) == self.input().spec_bytes(),
            decreases rest@.len(),
        {
            let ghost before = rest@;
            match rest.next_back() {
                None => {
                    break ;
                },
                Some(words) => {
                    proof {
                        assert(before.drop_last() =~= self@.take(
                            self@.len() - (found.len() + 1),
                        ));
                    }
                    found.push(words);
                },
            }
        }
        found
    }
}

/// A copy of a path.
pub(crate) fn copy_frames(path: &Vec<Frame>) -> (r: Vec<Frame>)
    ensures
        r@ == path@,
{
    let mut copy: Vec<Frame> = Vec::new();
    let mut index: usize = 0;
    while index < path.len()
        invariant
            0 <= index <= path.len(),
            copy@ == path@.take(index as int),
        decreases path.len() - index,
    {
        copy.push(path[index]);
        proof {
            assert(copy@ =~= path@.take(index + 1));
        }
        index = index + 1;
    }
    proof {
        assert(path@.take(path.len() as int) =~= path@);
    }
    copy
}

impl<'s> Clone for WordSegmentations<'s> {
    /// An enumerator of its own over the same segmentations: it shares the
    /// trellis and has its own two paths.
    fn clone(&self) -> (r: Self)
        ensures
            r@ == self@,
            r.wf() == self.wf(),
            r.input() == self.input(),
    {
        let trellis = match &self.trellis {
            None => None,
            Some(shared) => Some(share(shared)),
        };
        WordSegmentations {
            input: self.input,
            trellis,
            forward: copy_frames(&self.forward),
            backward: copy_frames(&self.backward),
        }
    }
}

/// Two lists of words that are the pieces into which the same cuts divide the
/// same text hold the same words. So two enumerators with the same input and
/// the same segmentations left, such as an enumerator and its clone, give out
/// the same words, call by call.
pub proof fn lemma_same_words(a: Seq<&str>, b: Seq<&str>, bytes: Seq<u8>, cuts: Seq<int>)
    requires
        words_match(a, bytes, cuts),
        words_match(b, bytes, cuts),
    ensures
        a.len() == b.len(),
        forall|k: int| 0 <= k < a.len() ==> (#[trigger] a[k])@ == b[k]@,
{
    assert forall|k: int| 0 <= k < a.len() implies (#[trigger] a[k])@ == b[k]@ by {
        assert(a[k].spec_bytes() == b[k].spec_bytes());
        vstd::utf8::encode_utf8_decode_utf8(a[k]@);
        vstd::utf8::encode_utf8_decode_utf8(b[k]@);
    }
}

} // verus!
