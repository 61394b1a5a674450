//! Forward graphs on the nodes `0..=last`, their complete paths from node 0 to
//! the last node in lexicographic order, and the arithmetic of ranks.

use vstd::prelude::*;

verus! {

/// A graph on the nodes `0..=last` whose edges lead from a node to a greater
/// one.
pub struct Graph {
    /// The number of the last node.
    pub last: int,
    /// The edges, each as the pair of the node it leaves and the node it
    /// reaches.
    pub edges: Set<(int, int)>,
}

/// The node from which step `k` of the path `p` starts: node 0 for the first
/// step, else the node that the step before reached.
pub open spec fn parent(p: Seq<int>, k: int) -> int {
    if k <= 0 {
        0
    } else {
        p[k - 1]
    }
}

/// The node at which the path `p` from node 0 ends.
pub open spec fn end_of(p: Seq<int>) -> int {
    parent(p, p.len() as int)
}

/// Each path of `ps` with the node `n` put in front.
pub open spec fn prepend_each(n: int, ps: Seq<Seq<int>>) -> Seq<Seq<int>> {
    ps.map_values(|p: Seq<int>| seq![n] + p)
}

impl Graph {
    /// Whether the graph has the edge from `i` to `j`.
    pub open spec fn edge(self, i: int, j: int) -> bool {
        0 <= i < j <= self.last && self.edges.contains((i, j))
    }

    /// Whether some edge leaves `i`.
    pub open spec fn has_edge(self, i: int) -> bool {
        exists|j: int| self.edge(i, j)
    }

    /// Whether an edge leaves every node but the last, so that every node lies
    /// on a path to the last node.
    pub open spec fn alive(self) -> bool {
        forall|i: int| 0 <= i < self.last ==> #[trigger] self.has_edge(i)
    }

    /// Whether some edge leads to `i`.
    pub open spec fn has_entry(self, i: int) -> bool {
        exists|k: int| self.edge(k, i)
    }

    /// Whether an edge leads to every node but node 0, so that every node can
    /// be reached from node 0.
    pub open spec fn rooted(self) -> bool {
        forall|i: int| 0 < i <= self.last ==> #[trigger] self.has_entry(i)
    }

    /// The number of paths from `i` to the last node.
    pub open spec fn count(self, i: int) -> nat
        decreases self.last - i, self.last - i + 1,
    {
        if i >= self.last {
            1
        } else {
            self.count_between(i, i + 1, self.last + 1)
        }
    }

    /// The number of paths from `i` to the last node whose first step leads to
    /// a node from `lo` up to, not including, `hi`.
    pub open spec fn count_between(self, i: int, lo: int, hi: int) -> nat
        decreases self.last - i, hi - lo,
    {
        if hi <= lo {
            0
        } else {
            self.count_between(i, lo, hi - 1) + if self.edge(i, hi - 1) {
                self.count(hi - 1)
            } else {
                0
            }
        }
    }

    /// The paths from `i` to the last node, each as the nodes after `i`, in
    /// lexicographic order.
    pub open spec fn paths(self, i: int) -> Seq<Seq<int>>
        decreases self.last - i, self.last - i + 1,
    {
        if i >= self.last {
            seq![Seq::<int>::empty()]
        } else {
            self.paths_between(i, i + 1, self.last + 1)
        }
    }

    /// The paths from `i` to the last node whose first step leads to a node
    /// from `lo` up to, not including, `hi`, in lexicographic order.
    pub open spec fn paths_between(self, i: int, lo: int, hi: int) -> Seq<Seq<int>>
        decreases self.last - i, hi - lo,
    {
        if hi <= lo {
            Seq::<Seq<int>>::empty()
        } else {
            self.paths_between(i, lo, hi - 1) + if self.edge(i, hi - 1) {
                prepend_each(hi - 1, self.paths(hi - 1))
            } else {
                Seq::<Seq<int>>::empty()
            }
        }
    }

    /// Whether step `k` of `p` goes along an edge.
    pub open spec fn step_ok(self, p: Seq<int>, k: int) -> bool {
        self.edge(parent(p, k), p[k])
    }

    /// Whether `p` is a walk from node 0 along edges.
    pub open spec fn is_chain(self, p: Seq<int>) -> bool {
        forall|k: int| 0 <= k < p.len() ==> #[trigger] self.step_ok(p, k)
    }

    /// Whether `p` is a path from node 0 to the last node.
    pub open spec fn is_complete(self, p: Seq<int>) -> bool {
        self.is_chain(p) && end_of(p) == self.last
    }

    /// The number of complete paths that branch off the walk `p` to a smaller
    /// node: those that come before every complete path that starts with `p`.
    pub open spec fn before(self, p: Seq<int>) -> nat
        decreases p.len(),
    {
        if p.len() == 0 {
            0
        } else {
            let from = end_of(p.drop_last());
            self.before(p.drop_last()) + self.count_between(from, from + 1, p.last())
        }
    }

    /// The number of complete paths that branch off the walk `p` to a greater
    /// node: those that come after every complete path that starts with `p`.
    pub open spec fn after(self, p: Seq<int>) -> nat
        decreases p.len(),
    {
        if p.len() == 0 {
            0
        } else {
            let from = end_of(p.drop_last());
            self.after(p.drop_last()) + self.count_between(from, p.last() + 1, self.last + 1)
        }
    }
}

/// The paths through a range of children are those through its lower part and
/// those through its upper part.
pub proof fn lemma_count_between_split(g: Graph, i: int, lo: int, mid: int, hi: int)
    requires
        lo <= mid <= hi,
    ensures
        g.count_between(i, lo, hi) == g.count_between(i, lo, mid) + g.count_between(i, mid, hi),
    decreases hi - mid,
{
    if mid < hi {
        lemma_count_between_split(g, i, lo, mid, hi - 1);
    }
}

/// Through a range of nodes to which no edge leads there is no path.
pub proof fn lemma_count_between_none(g: Graph, i: int, lo: int, hi: int)
    requires
        forall|j: int| lo <= j < hi ==> !g.edge(i, j),
    ensures
        g.count_between(i, lo, hi) == 0,
    decreases hi - lo,
{
    if lo < hi {
        lemma_count_between_none(g, i, lo, hi - 1);
    }
}

/// Through one child there are as many paths as from the child.
pub proof fn lemma_count_between_one(g: Graph, i: int, j: int)
    ensures
        g.count_between(i, j, j + 1) == if g.edge(i, j) {
            g.count(j)
        } else {
            0
        },
{
    assert(g.count_between(i, j, j) == 0);
}

/// The paths through one child are among the paths of the parent.
pub proof fn lemma_count_child(g: Graph, i: int, j: int)
    requires
        g.edge(i, j),
    ensures
        g.count(i) == g.count_between(i, i + 1, j) + g.count(j) + g.count_between(
            i,
            j + 1,
            g.last + 1,
        ),
{
    lemma_count_between_split(g, i, i + 1, j, g.last + 1);
    lemma_count_between_split(g, i, j, j + 1, g.last + 1);
    lemma_count_between_one(g, i, j);
}

/// The list of the paths from a node has as many entries as there are paths.
pub proof fn lemma_paths_len(g: Graph, i: int)
    ensures
        g.paths(i).len() == g.count(i),
    decreases g.last - i, g.last - i + 1,
{
    if i < g.last {
        lemma_paths_between_len(g, i, i + 1, g.last + 1);
    }
}

/// The list of the paths through a range of children has as many entries as
/// there are such paths.
pub proof fn lemma_paths_between_len(g: Graph, i: int, lo: int, hi: int)
    ensures
        g.paths_between(i, lo, hi).len() == g.count_between(i, lo, hi),
    decreases g.last - i, hi - lo,
{
    if lo < hi {
        lemma_paths_between_len(g, i, lo, hi - 1);
        if g.edge(i, hi - 1) {
            lemma_paths_len(g, hi - 1);
        }
    }
}

/// In a graph where every node lies on a path to the last node, at least one
/// path leads from each node to the last.
pub proof fn lemma_count_positive(g: Graph, i: int)
    requires
        g.alive(),
        0 <= i <= g.last,
    ensures
        g.count(i) >= 1,
    decreases g.last - i,
{
    if i < g.last {
        assert(g.has_edge(i));
        let j = choose|j: int| g.edge(i, j);
        lemma_count_positive(g, j);
        lemma_count_child(g, i, j);
    }
}

/// The paths through one child stand together among the paths through the
/// children below `hi`.
proof fn lemma_level_upto(g: Graph, i: int, j: int, x: int, hi: int)
    requires
        g.edge(i, j),
        0 <= x < g.count(j),
        j < hi <= g.last + 1,
    ensures
        g.count_between(i, i + 1, j) + x < g.paths_between(i, i + 1, hi).len(),
        g.paths_between(i, i + 1, hi)[g.count_between(i, i + 1, j) + x] == seq![j] + g.paths(j)[x],
    decreases hi - j,
{
    lemma_paths_between_len(g, i, i + 1, j);
    lemma_paths_len(g, j);
    if hi == j + 1 {
        let tail = prepend_each(j, g.paths(j));
        assert(g.paths_between(i, i + 1, hi) == g.paths_between(i, i + 1, j) + tail);
        assert(tail[x] == seq![j] + g.paths(j)[x]);
    } else {
        lemma_level_upto(g, i, j, x, hi - 1);
    }
}

/// The paths of a node through one of its children stand together among the
/// paths of the node, in the order they have at the child.
pub proof fn lemma_single_level(g: Graph, i: int, j: int, x: int)
    requires
        g.edge(i, j),
        0 <= x < g.count(j),
    ensures
        g.count_between(i, i + 1, j) + x < g.count(i),
        g.paths(i)[g.count_between(i, i + 1, j) + x] == seq![j] + g.paths(j)[x],
{
    lemma_level_upto(g, i, j, x, g.last + 1);
    lemma_paths_len(g, i);
}

/// The start of a walk is a walk.
pub proof fn lemma_chain_prefix(g: Graph, p: Seq<int>, n: int)
    requires
        g.is_chain(p),
        0 <= n <= p.len(),
    ensures
        g.is_chain(p.take(n)),
{
    let r = p.take(n);
    assert forall|k: int| 0 <= k < r.len() implies #[trigger] g.step_ok(r, k) by {
        assert(g.step_ok(p, k));
    }
}

/// The complete paths that start with the walk `q` stand together among all
/// complete paths, after the `before(q)` that branch off to smaller nodes.
pub proof fn lemma_extension(g: Graph, q: Seq<int>, x: int)
    requires
        g.is_chain(q),
        0 <= x < g.count(end_of(q)),
    ensures
        g.before(q) + x < g.count(0),
        g.paths(0)[g.before(q) + x] == q + g.paths(end_of(q))[x],
    decreases q.len(),
{
    if q.len() == 0 {
        assert(q + g.paths(0)[x] =~= g.paths(0)[x]);
    } else {
        let r = q.drop_last();
        let from = end_of(r);
        let to = q.last();
        assert(from == parent(q, q.len() - 1));
        assert(g.step_ok(q, q.len() - 1));
        lemma_chain_prefix(g, q, q.len() - 1);
        assert(q.take(q.len() - 1) =~= r);
        lemma_single_level(g, from, to, x);
        let y = g.count_between(from, from + 1, to) + x;
        lemma_extension(g, r, y);
        assert(end_of(q) == to);
        assert(r + (seq![to] + g.paths(to)[x]) =~= q + g.paths(to)[x]);
    }
}

/// A complete path stands among all complete paths at the index that is the
/// number of paths before it.
pub proof fn lemma_rank(g: Graph, p: Seq<int>)
    requires
        g.is_complete(p),
    ensures
        g.before(p) < g.count(0),
        g.paths(0)[g.before(p) as int] == p,
{
    lemma_extension(g, p, 0);
    assert(p + g.paths(g.last)[0] =~= p);
}

/// Two complete paths with the same number of paths before them are the same.
pub proof fn lemma_rank_injective(g: Graph, p: Seq<int>, q: Seq<int>)
    requires
        g.is_complete(p),
        g.is_complete(q),
        g.before(p) == g.before(q),
    ensures
        p == q,
{
    lemma_rank(g, p);
    lemma_rank(g, q);
}

/// What one more step adds to the counts before and after a walk.
pub proof fn lemma_take_step(g: Graph, p: Seq<int>, k: int)
    requires
        0 <= k < p.len(),
    ensures
        g.before(p.take(k + 1)) == g.before(p.take(k)) + g.count_between(
            parent(p, k),
            parent(p, k) + 1,
            p[k],
        ),
        g.after(p.take(k + 1)) == g.after(p.take(k)) + g.count_between(
            parent(p, k),
            p[k] + 1,
            g.last + 1,
        ),
{
    let t = p.take(k + 1);
    assert(t.drop_last() =~= p.take(k));
    assert(t.last() == p[k]);
    assert(end_of(p.take(k)) == parent(p, k));
}

/// Of the paths from the node that a complete path has reached after `k`
/// steps, one is the rest of that path, and the others are those that the rest
/// leaves to smaller and to greater nodes.
pub proof fn lemma_balance(g: Graph, p: Seq<int>, k: int)
    requires
        g.is_complete(p),
        0 <= k <= p.len(),
    ensures
        g.before(p.take(k)) <= g.before(p),
        g.after(p.take(k)) <= g.after(p),
        (g.before(p) - g.before(p.take(k))) + (g.after(p) - g.after(p.take(k))) + 1 == g.count(
            parent(p, k),
        ),
    decreases p.len() - k,
{
    if k == p.len() {
        assert(p.take(k) =~= p);
    } else {
        lemma_balance(g, p, k + 1);
        lemma_take_step(g, p, k);
        assert(g.step_ok(p, k));
        lemma_count_child(g, parent(p, k), p[k]);
        assert(parent(p, k + 1) == p[k]);
    }
}

/// The nodes of a walk increase, from above node 0 up to at most the last
/// node.
pub proof fn lemma_chain_increasing(g: Graph, p: Seq<int>, k: int)
    requires
        g.is_chain(p),
        0 <= k < p.len(),
    ensures
        parent(p, k) < p[k] <= g.last,
        k as int <= parent(p, k),
    decreases k,
{
    assert(g.step_ok(p, k));
    if k > 0 {
        lemma_chain_increasing(g, p, k - 1);
    }
}

/// No complete path is the start of a longer one.
pub proof fn lemma_complete_prefix(g: Graph, p: Seq<int>, q: Seq<int>)
    requires
        g.is_complete(p),
        g.is_complete(q),
        p.len() <= q.len(),
        q.take(p.len() as int) == p,
    ensures
        p == q,
{
    if p.len() < q.len() {
        let n = p.len() as int;
        lemma_chain_increasing(g, q, n);
        assert(parent(q, n) == end_of(p)) by {
            if n > 0 {
                assert(q.take(n)[n - 1] == q[n - 1]);
            }
        }
        assert(false);
    } else {
        assert(q.take(p.len() as int) =~= q);
    }
}

/// From a node of a set that no edge leaves and that lacks the last node, no
/// path leads to the last node.
pub proof fn lemma_dead_end(h: Graph, dead: Set<int>, i: int)
    requires
        dead.contains(i),
        forall|a: int| dead.contains(a) ==> 0 <= a < h.last,
        forall|a: int, b: int| dead.contains(a) && #[trigger] h.edge(a, b) ==> dead.contains(b),
    ensures
        h.paths(i).len() == 0,
    decreases h.last - i, h.last - i + 1,
{
    lemma_dead_end_between(h, dead, i, i + 1, h.last + 1);
}

/// From a node of such a set no path leads through a range of children.
proof fn lemma_dead_end_between(h: Graph, dead: Set<int>, i: int, lo: int, hi: int)
    requires
        dead.contains(i),
        forall|a: int| dead.contains(a) ==> 0 <= a < h.last,
        forall|a: int, b: int| dead.contains(a) && #[trigger] h.edge(a, b) ==> dead.contains(b),
    ensures
        h.paths_between(i, lo, hi).len() == 0,
    decreases h.last - i, hi - lo,
{
    if lo < hi {
        lemma_dead_end_between(h, dead, i, lo, hi - 1);
        if h.edge(i, hi - 1) {
            lemma_dead_end(h, dead, hi - 1);
        }
    }
}

/// A graph `g` has the same paths as a graph `h` from every node of a set that
/// the edges of `g` do not leave, if `g` has there no edge that `h` lacks, and
/// lacks only edges of `h` that lead to nodes without paths.
pub proof fn lemma_same_paths(g: Graph, h: Graph, relevant: Set<int>, i: int)
    requires
        g.last == h.last,
        relevant.contains(i),
        forall|a: int, b: int|
            relevant.contains(a) && #[trigger] g.edge(a, b) ==> h.edge(a, b) && relevant.contains(
                b,
            ),
        forall|a: int, b: int|
            relevant.contains(a) && #[trigger] h.edge(a, b) && !g.edge(a, b) ==> h.paths(b).len()
                == 0,
    ensures
        g.paths(i) == h.paths(i),
    decreases g.last - i, g.last - i + 1,
{
    if i < g.last {
        lemma_same_paths_between(g, h, relevant, i, i + 1, g.last + 1);
    }
}

/// Such graphs have the same paths from a node of the set through a range of
/// children.
proof fn lemma_same_paths_between(g: Graph, h: Graph, relevant: Set<int>, i: int, lo: int, hi: int)
    requires
        g.last == h.last,
        relevant.contains(i),
        forall|a: int, b: int|
            relevant.contains(a) && #[trigger] g.edge(a, b) ==> h.edge(a, b) && relevant.contains(
                b,
            ),
        forall|a: int, b: int|
            relevant.contains(a) && #[trigger] h.edge(a, b) && !g.edge(a, b) ==> h.paths(b).len()
                == 0,
    ensures
        g.paths_between(i, lo, hi) == h.paths_between(i, lo, hi),
    decreases g.last - i, hi - lo,
{
    if lo < hi {
        lemma_same_paths_between(g, h, relevant, i, lo, hi - 1);
        if g.edge(i, hi - 1) {
            lemma_same_paths(g, h, relevant, hi - 1);
        } else if h.edge(i, hi - 1) {
            assert(prepend_each(hi - 1, h.paths(hi - 1)) =~= Seq::<Seq<int>>::empty());
        }
    }
}

/// The byte offsets of the boundaries that a path visits.
pub open spec fn offsets(p: Seq<int>, bounds: Seq<usize>) -> Seq<int> {
    p.map_values(|n: int| bounds[n] as int)
}

/// The paths from `i` to the last node, each as the byte offsets of the
/// boundaries it visits, in lexicographic order.
pub open spec fn cuts_from(g: Graph, bounds: Seq<usize>, i: int) -> Seq<Seq<int>> {
    g.paths(i).map_values(|p: Seq<int>| offsets(p, bounds))
}

/// The list of the paths through a range of children is the list for its
/// lower part followed by the list for its upper part.
pub proof fn lemma_paths_between_split(g: Graph, i: int, lo: int, mid: int, hi: int)
    requires
        lo <= mid <= hi,
    ensures
        g.paths_between(i, lo, hi) == g.paths_between(i, lo, mid) + g.paths_between(i, mid, hi),
    decreases hi - mid,
{
    if mid < hi {
        lemma_paths_between_split(g, i, lo, mid, hi - 1);
        let step = if g.edge(i, hi - 1) {
            prepend_each(hi - 1, g.paths(hi - 1))
        } else {
            Seq::<Seq<int>>::empty()
        };
        assert(g.paths_between(i, lo, hi) =~= g.paths_between(i, lo, mid) + (g.paths_between(
            i,
            mid,
            hi - 1,
        ) + step));
    } else {
        assert(g.paths_between(i, lo, hi) =~= g.paths_between(i, lo, mid) + g.paths_between(
            i,
            mid,
            hi,
        ));
    }
}

/// The list of the paths through a range of nodes to which no edge leads is
/// empty.
pub proof fn lemma_paths_between_none(g: Graph, i: int, lo: int, hi: int)
    requires
        forall|j: int| lo <= j < hi ==> !g.edge(i, j),
    ensures
        g.paths_between(i, lo, hi) == Seq::<Seq<int>>::empty(),
    decreases hi - lo,
{
    if lo < hi {
        lemma_paths_between_none(g, i, lo, hi - 1);
    }
}

/// Where a renumbering sends the node after the last: after the last.
pub open spec fn renumbered(psi: Seq<int>, last: int, b: int) -> int {
    if b >= psi.len() {
        last + 1
    } else {
        psi[b]
    }
}

/// A graph `n` that is the graph `p` with its nodes renumbered in order (node
/// `a` of `n` is node `psi[a]` of `p`, and no edge of `p` leads to a node that
/// has no number in `n`) has the same paths as `p`, each through the same
/// byte offsets.
pub proof fn lemma_relabel(
    n: Graph,
    nb: Seq<usize>,
    p: Graph,
    ob: Seq<usize>,
    psi: Seq<int>,
    inv: Seq<int>,
    a: int,
)
    requires
        psi.len() == n.last + 1,
        nb.len() == psi.len(),
        inv.len() == p.last + 1,
        ob.len() == p.last + 1,
        0 <= a <= n.last,
        forall|k: int, l: int| 0 <= k < l < psi.len() ==> psi[k] < psi[l],
        forall|k: int| 0 <= k < psi.len() ==> 0 <= #[trigger] psi[k] <= p.last,
        psi[n.last] == p.last,
        forall|k: int| 0 <= k < psi.len() ==> #[trigger] nb[k] == ob[psi[k]],
        forall|c: int, d: int|
            0 <= c < d <= n.last ==> #[trigger] n.edge(c, d) == p.edge(psi[c], psi[d]),
        forall|i: int, j: int|
            #[trigger] p.edge(i, j) ==> 0 <= inv[j] < psi.len() && psi[inv[j]] == j,
    ensures
        cuts_from(n, nb, a) == cuts_from(p, ob, psi[a]),
    decreases n.last - a, n.last - a + 2,
{
    if a < n.last {
        lemma_relabel_between(n, nb, p, ob, psi, inv, a, n.last + 1);
        assert(n.paths(a) == n.paths_between(a, a + 1, n.last + 1));
        assert(psi[a] < psi[n.last]);
        assert(p.paths(psi[a]) == p.paths_between(psi[a], psi[a] + 1, p.last + 1));
    } else {
        assert(cuts_from(n, nb, a) =~= seq![Seq::<int>::empty()]) by {
            assert(offsets(Seq::<int>::empty(), nb) =~= Seq::<int>::empty());
        }
        assert(cuts_from(p, ob, psi[a]) =~= seq![Seq::<int>::empty()]) by {
            assert(offsets(Seq::<int>::empty(), ob) =~= Seq::<int>::empty());
        }
    }
}

/// The paths of the renumbered graph through the children below `b` go
/// through the same byte offsets as those of the other graph through the
/// children below the node that `b` stands for.
proof fn lemma_relabel_between(
    n: Graph,
    nb: Seq<usize>,
    p: Graph,
    ob: Seq<usize>,
    psi: Seq<int>,
    inv: Seq<int>,
    a: int,
    b: int,
)
    requires
        psi.len() == n.last + 1,
        nb.len() == psi.len(),
        inv.len() == p.last + 1,
        ob.len() == p.last + 1,
        0 <= a < n.last,
        a < b <= n.last + 1,
        forall|k: int, l: int| 0 <= k < l < psi.len() ==> psi[k] < psi[l],
        forall|k: int| 0 <= k < psi.len() ==> 0 <= #[trigger] psi[k] <= p.last,
        psi[n.last] == p.last,
        forall|k: int| 0 <= k < psi.len() ==> #[trigger] nb[k] == ob[psi[k]],
        forall|c: int, d: int|
            0 <= c < d <= n.last ==> #[trigger] n.edge(c, d) == p.edge(psi[c], psi[d]),
        forall|i: int, j: int|
            #[trigger] p.edge(i, j) ==> 0 <= inv[j] < psi.len() && psi[inv[j]] == j,
    ensures
        n.paths_between(a, a + 1, b).map_values(|q: Seq<int>| offsets(q, nb)) == p.paths_between(
            psi[a],
            psi[a] + 1,
            renumbered(psi, p.last, b),
        ).map_values(|q: Seq<int>| offsets(q, ob)),
    decreases n.last - a, b - a,
{
    let from = psi[a];
    let map_n = |q: Seq<int>| offsets(q, nb);
    let map_p = |q: Seq<int>| offsets(q, ob);
    if b == a + 1 {
        assert forall|j: int| from + 1 <= j < psi[a + 1] implies !p.edge(from, j) by {
            if p.edge(from, j) {
                let c = inv[j];
                if c <= a {
                    if c < a {
                        assert(psi[c] < psi[a]);
                    }
                } else if c > a + 1 {
                    assert(psi[a + 1] < psi[c]);
                }
            }
        }
        lemma_paths_between_none(p, from, from + 1, psi[a + 1]);
        assert(n.paths_between(a, a + 1, b).map_values(map_n) =~= p.paths_between(
            from,
            from + 1,
            psi[a + 1],
        ).map_values(map_p));
    } else {
        let c = b - 1;
        let to = psi[c];
        let next = renumbered(psi, p.last, b);
        lemma_relabel_between(n, nb, p, ob, psi, inv, a, c);
        assert(from < to);
        assert(to < next) by {
            if b < psi.len() {
                assert(psi[c] < psi[b]);
            }
        }
        lemma_paths_between_split(p, from, from + 1, to, next);
        lemma_paths_between_split(p, from, to, to + 1, next);
        assert forall|j: int| to + 1 <= j < next implies !p.edge(from, j) by {
            if p.edge(from, j) {
                let d = inv[j];
                if d <= c {
                    if d < c {
                        assert(psi[d] < psi[c]);
                    }
                } else if d > b {
                    assert(psi[b] < psi[d]);
                }
            }
        }
        lemma_paths_between_none(p, from, to + 1, next);
        assert(p.paths_between(from, to, to) =~= Seq::<Seq<int>>::empty());
        let step_n = if n.edge(a, c) {
            prepend_each(c, n.paths(c))
        } else {
            Seq::<Seq<int>>::empty()
        };
        let step_p = if p.edge(from, to) {
            prepend_each(to, p.paths(to))
        } else {
            Seq::<Seq<int>>::empty()
        };
        assert(p.paths_between(from, to, to + 1) =~= step_p);
        assert(n.paths_between(a, a + 1, b) == n.paths_between(a, a + 1, c) + step_n);
        assert(n.edge(a, c) == p.edge(from, to));
        assert(step_n.map_values(map_n) =~= step_p.map_values(map_p)) by {
            if n.edge(a, c) {
                lemma_relabel(n, nb, p, ob, psi, inv, c);
                assert(cuts_from(n, nb, c) == cuts_from(p, ob, to));
                assert(n.paths(c).len() == p.paths(to).len());
                assert forall|x: int| 0 <= x < step_n.len() implies step_n.map_values(map_n)[x]
                    == step_p.map_values(map_p)[x] by {
                    let qn = n.paths(c)[x];
                    let qp = p.paths(to)[x];
                    assert(cuts_from(n, nb, c)[x] == cuts_from(p, ob, to)[x]);
                    assert(offsets(qn, nb) == offsets(qp, ob));
                    assert(offsets(seq![c] + qn, nb) =~= seq![nb[c] as int] + offsets(qn, nb));
                    assert(offsets(seq![to] + qp, ob) =~= seq![ob[to] as int] + offsets(qp, ob));
                }
            }
        }
        assert((n.paths_between(a, a + 1, c) + step_n).map_values(map_n) =~= n.paths_between(
            a,
            a + 1,
            c,
        ).map_values(map_n) + step_n.map_values(map_n));
        assert((p.paths_between(from, from + 1, to) + step_p).map_values(map_p)
            =~= p.paths_between(from, from + 1, to).map_values(map_p) + step_p.map_values(map_p));
        assert(p.paths_between(from, from + 1, next) =~= p.paths_between(from, from + 1, to)
            + step_p);
    }
}

/// How far apart two complete paths stand that part at step `d`, the first to
/// a smaller node: between them stand the paths that leave the rest of the
/// first to greater nodes, those through the nodes between the two, and those
/// that leave the rest of the second to smaller nodes.
pub proof fn lemma_gap(g: Graph, f: Seq<int>, b: Seq<int>, d: int)
    requires
        g.is_complete(f),
        g.is_complete(b),
        0 <= d < f.len(),
        d < b.len(),
        f.take(d) == b.take(d),
        f[d] < b[d],
    ensures
        g.before(f) <= g.before(b),
        g.after(f.take(d + 1)) <= g.after(f),
        g.before(b.take(d + 1)) <= g.before(b),
        g.before(b) - g.before(f) + 1 == (g.after(f) - g.after(f.take(d + 1))) + 1
            + g.count_between(parent(f, d), f[d] + 1, b[d]) + (g.before(b) - g.before(
            b.take(d + 1),
        )) + 1,
{
    let from = parent(f, d);
    assert(parent(b, d) == from) by {
        if d > 0 {
            assert(f.take(d)[d - 1] == f[d - 1]);
            assert(b.take(d)[d - 1] == b[d - 1]);
        }
    }
    lemma_take_step(g, f, d);
    lemma_take_step(g, b, d);
    lemma_balance(g, f, d + 1);
    lemma_balance(g, b, d + 1);
    assert(g.step_ok(f, d));
    lemma_count_between_split(g, from, from + 1, f[d], b[d]);
    lemma_count_between_split(g, from, f[d], f[d] + 1, b[d]);
    lemma_count_between_one(g, from, f[d]);
    assert(parent(f, d + 1) == f[d]);
}

/// Of two complete paths that part at step `d`, the one that goes to the
/// smaller node there comes first.
pub proof fn lemma_order(g: Graph, f: Seq<int>, b: Seq<int>, d: int)
    requires
        g.is_complete(f),
        g.is_complete(b),
        0 <= d < f.len(),
        d < b.len(),
        f.take(d) == b.take(d),
        f[d] != b[d],
        g.before(f) <= g.before(b),
    ensures
        f[d] < b[d],
{
    if b[d] < f[d] {
        lemma_gap(g, b, f, d);
    }
}

/// Among the paths from `i` whose first step leads to a node from `lo` up to
/// `hi`, the one at index `x` goes through the child that this returns.
pub proof fn lemma_locate_child(g: Graph, i: int, lo: int, hi: int, x: int) -> (j: int)
    requires
        0 <= x < g.count_between(i, lo, hi),
    ensures
        lo <= j < hi,
        g.edge(i, j),
        g.count_between(i, lo, j) <= x < g.count_between(i, lo, j) + g.count(j),
    decreases hi - lo,
{
    if x < g.count_between(i, lo, hi - 1) {
        lemma_locate_child(g, i, lo, hi - 1, x)
    } else {
        hi - 1
    }
}

/// Each entry of the list of complete paths that starts with the walk `q` is a
/// complete path, and stands at the index that is the number of paths before
/// it.
pub proof fn lemma_listed_from(g: Graph, q: Seq<int>, x: int)
    requires
        g.is_chain(q),
        0 <= end_of(q) <= g.last,
        0 <= x < g.count(end_of(q)),
    ensures
        g.before(q) + x < g.count(0),
        g.is_complete(g.paths(0)[g.before(q) + x]),
        g.before(g.paths(0)[g.before(q) + x]) == g.before(q) + x,
    decreases g.last - end_of(q),
{
    let e = end_of(q);
    lemma_extension(g, q, x);
    if e == g.last {
        assert(q + g.paths(e)[x] =~= q);
    } else {
        let j = lemma_locate_child(g, e, e + 1, g.last + 1, x);
        let r = q.push(j);
        assert(r.drop_last() =~= q);
        assert forall|k: int| 0 <= k < r.len() implies #[trigger] g.step_ok(r, k) by {
            if k < q.len() {
                assert(g.step_ok(q, k));
            }
        }
        lemma_listed_from(g, r, x - g.count_between(e, e + 1, j));
    }
}

/// Each entry of the list of complete paths is a complete path, and stands at
/// the index that is the number of paths before it. With `lemma_rank`: the
/// list holds the complete paths, each once.
pub proof fn lemma_listed(g: Graph, x: int)
    requires
        0 <= g.last,
        0 <= x < g.count(0),
    ensures
        g.is_complete(g.paths(0)[x]),
        g.before(g.paths(0)[x]) == x,
{
    lemma_listed_from(g, Seq::<int>::empty(), x);
}

/// The list of complete paths is in lexicographic order: of two complete paths
/// that part at step `d`, the one that goes to the smaller node there stands
/// at the smaller index.
pub proof fn lemma_lexicographic(g: Graph, f: Seq<int>, b: Seq<int>, d: int)
    requires
        g.is_complete(f),
        g.is_complete(b),
        0 <= d < f.len(),
        d < b.len(),
        f.take(d) == b.take(d),
        f[d] < b[d],
    ensures
        g.before(f) < g.before(b),
        g.before(b) < g.count(0),
        g.paths(0)[g.before(f) as int] == f,
        g.paths(0)[g.before(b) as int] == b,
{
    lemma_gap(g, f, b, d);
    lemma_rank(g, f);
    lemma_rank(g, b);
}

/// Along an edge the number of paths to the last node does not grow: a node
/// has at least as many as each node that it has an edge to.
pub proof fn lemma_count_monotonic(g: Graph, i: int, j: int)
    requires
        g.edge(i, j),
    ensures
        g.count(j) <= g.count(i),
{
    lemma_count_child(g, i, j);
}

/// A walk stays a walk when a step along an edge is added.
pub proof fn lemma_chain_push(g: Graph, p: Seq<int>, x: int)
    requires
        g.is_chain(p),
        g.edge(end_of(p), x),
    ensures
        g.is_chain(p.push(x)),
        end_of(p.push(x)) == x,
        g.before(p.push(x)) == g.before(p) + g.count_between(end_of(p), end_of(p) + 1, x),
        g.after(p.push(x)) == g.after(p) + g.count_between(end_of(p), x + 1, g.last + 1),
{
    let q = p.push(x);
    assert(q.drop_last() =~= p);
    assert forall|k: int| 0 <= k < q.len() implies #[trigger] g.step_ok(q, k) by {
        if k < p.len() {
            assert(g.step_ok(p, k));
        }
    }
}

/// A walk from node 0 to the node `i`, in a graph where every node can be
/// reached from node 0.
pub proof fn lemma_reach(g: Graph, i: int) -> (q: Seq<int>)
    requires
        g.rooted(),
        0 <= i <= g.last,
    ensures
        g.is_chain(q),
        end_of(q) == i,
        i > 0 ==> q.len() > 0 && q.last() == i,
    decreases i,
{
    if i == 0 {
        Seq::<int>::empty()
    } else {
        assert(g.has_entry(i));
        let k = choose|k: int| g.edge(k, i);
        let stem = lemma_reach(g, k);
        lemma_chain_push(g, stem, i);
        stem.push(i)
    }
}

/// A complete path that starts with the walk `q`, in a graph where every node
/// lies on a path to the last node.
pub proof fn lemma_finish(g: Graph, q: Seq<int>) -> (p: Seq<int>)
    requires
        g.alive(),
        g.is_chain(q),
        0 <= end_of(q) <= g.last,
    ensures
        g.is_complete(p),
        q.len() <= p.len(),
        p.take(q.len() as int) == q,
    decreases g.last - end_of(q),
{
    if end_of(q) == g.last {
        assert(q.take(q.len() as int) =~= q);
        q
    } else {
        assert(g.has_edge(end_of(q)));
        let j = choose|j: int| g.edge(end_of(q), j);
        lemma_chain_push(g, q, j);
        let p = lemma_finish(g, q.push(j));
        assert(p.take(q.len() as int) =~= p.take(q.len() as int + 1).take(q.len() as int));
        assert(q.push(j).take(q.len() as int) =~= q);
        p
    }
}

/// In a graph where every node can be reached from node 0 and lies on a path
/// to the last node, every node lies on a complete path.
pub proof fn lemma_on_a_path(g: Graph, i: int) -> (p: Seq<int>)
    requires
        g.alive(),
        g.rooted(),
        0 <= i <= g.last,
    ensures
        g.is_complete(p),
        i == 0 || p.contains(i),
{
    let q = lemma_reach(g, i);
    let p = lemma_finish(g, q);
    if i > 0 {
        assert(p.take(q.len() as int)[q.len() - 1] == p[q.len() - 1]);
        assert(p[q.len() - 1] == i);
    }
    p
}

} // verus!
