//! The layout of the edge bits: one row of bits for each node but the last,
//! the rows of later nodes first.

use vstd::prelude::*;

verus! {

/// The number of ordered pairs `(i, j)` with `i < j` among `n` nodes.
pub open spec fn triangle(n: int) -> int
    decreases n,
{
    if n <= 0 {
        0
    } else {
        triangle(n - 1) + (n - 1)
    }
}

/// The index of the first bit of the row of `node`.
pub open spec fn row_start(last: int, node: int) -> int {
    triangle(last - node)
}

/// The index after the last bit of the row of `node`.
pub open spec fn row_end(last: int, node: int) -> int {
    triangle(last - node + 1)
}

/// The index of the bit for the edge from `i` to `j`.
pub open spec fn bit_index(last: int, i: int, j: int) -> int {
    row_start(last, i) + (j - i - 1)
}

/// Among `n` nodes there are `n (n - 1) / 2` pairs.
pub proof fn lemma_triangle_closed_form(n: int)
    requires
        0 <= n,
    ensures
        2 * triangle(n) == n * (n - 1),
        triangle(n) >= 0,
    decreases n,
{
    if n > 0 {
        lemma_triangle_closed_form(n - 1);
        assert(2 * (triangle(n - 1) + (n - 1)) == n * (n - 1)) by (nonlinear_arith)
            requires
                2 * triangle(n - 1) == (n - 1) * (n - 1 - 1),
        ;
    } else {
        assert(n * (n - 1) == 0) by (nonlinear_arith)
            requires
                n == 0,
        ;
    }
}

/// More nodes make more pairs, at least one more for each node there was.
pub proof fn lemma_triangle_monotonic(m: int, n: int)
    requires
        0 <= m <= n,
    ensures
        0 <= triangle(m) <= triangle(n),
        m < n ==> triangle(m) + m <= triangle(n),
    decreases n - m,
{
    lemma_triangle_closed_form(m);
    if m < n {
        lemma_triangle_monotonic(m + 1, n);
    }
}

/// The rows tile the bit array: the bit of an edge lies in the row of its
/// start, and different edges have different bits.
pub proof fn lemma_bit_index(last: int, i: int, j: int)
    requires
        0 <= i < j <= last,
    ensures
        row_start(last, i) <= bit_index(last, i, j) < row_end(last, i),
        row_end(last, i) == row_start(last, i) + (last - i),
        0 <= row_start(last, i),
        row_end(last, i) <= triangle(last + 1),
        i > 0 ==> row_end(last, i) == row_start(last, i - 1),
{
    lemma_triangle_monotonic(last - i, last - i + 1);
    lemma_triangle_monotonic(last - i + 1, last + 1);
}

/// Different edges have different bits.
pub proof fn lemma_bit_index_injective(last: int, i: int, j: int, k: int, l: int)
    requires
        0 <= i < j <= last,
        0 <= k < l <= last,
        bit_index(last, i, j) == bit_index(last, k, l),
    ensures
        i == k,
        j == l,
{
    lemma_bit_index(last, i, j);
    lemma_bit_index(last, k, l);
    if i < k {
        lemma_triangle_monotonic(last - k + 1, last - i);
    } else if k < i {
        lemma_triangle_monotonic(last - i + 1, last - k);
    }
}

/// The bits of the row of `starting_node` in a graph whose last node is
/// `last_node_index`: the index of its first bit, and the index after its last.
pub fn get_row_bounds(starting_node: usize, last_node_index: usize) -> (r: (usize, usize))
    requires
        starting_node <= last_node_index,
        triangle(last_node_index + 1) <= usize::MAX,
    ensures
        r.0 == row_start(last_node_index as int, starting_node as int),
        r.1 == row_end(last_node_index as int, starting_node as int),
        r.1 - r.0 == last_node_index - starting_node,
{
    let nodes_after_this: usize = last_node_index - starting_node;
    proof {
        lemma_triangle_closed_form(nodes_after_this as int);
        lemma_triangle_monotonic(nodes_after_this as int, nodes_after_this as int + 1);
        lemma_triangle_monotonic(nodes_after_this as int + 1, last_node_index as int + 1);
    }
    if nodes_after_this == 0 {
        return (0, 0);
    }
    let half: usize = if nodes_after_this % 2 == 0 {
        let h: usize = nodes_after_this / 2;
        assert(h * (nodes_after_this - 1) == triangle(nodes_after_this as int)) by (nonlinear_arith)
            requires
                2 * triangle(nodes_after_this as int) == nodes_after_this * (nodes_after_this - 1),
                nodes_after_this == 2 * h,
        ;
        h * (nodes_after_this - 1)
    } else {
        let h: usize = (nodes_after_this - 1) / 2;
        assert(nodes_after_this * h == triangle(nodes_after_this as int)) by (nonlinear_arith)
            requires
                2 * triangle(nodes_after_this as int) == nodes_after_this * (nodes_after_this - 1),
                nodes_after_this - 1 == 2 * h,
        ;
        nodes_after_this * h
    };
    (half, half + nodes_after_this)
}

/// Whether one bit array can hold the edge bits of a graph on `node_count`
/// nodes.
pub fn edge_bits_fit(node_count: usize) -> (r: bool)
    ensures
        r == (triangle(node_count as int) <= crate::bits::max_bits()),
{
    proof {
        lemma_triangle_closed_form(node_count as int);
    }
    if node_count == 0 {
        return true;
    }
    let product: Option<usize> = if node_count % 2 == 0 {
        let half: usize = node_count / 2;
        assert(half * (node_count - 1) == triangle(node_count as int)) by (nonlinear_arith)
            requires
                2 * triangle(node_count as int) == node_count * (node_count - 1),
                node_count == 2 * half,
        ;
        half.checked_mul(node_count - 1)
    } else {
        let half: usize = (node_count - 1) / 2;
        assert(half * node_count == triangle(node_count as int)) by (nonlinear_arith)
            requires
                2 * triangle(node_count as int) == node_count * (node_count - 1),
                node_count - 1 == 2 * half,
        ;
        half.checked_mul(node_count)
    };
    match product {
        Some(bits) => bits <= usize::MAX / 8,
        None => false,
    }
}

} // verus!
