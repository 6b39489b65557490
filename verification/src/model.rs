//! Mathematical model of the flat-tree layout.
//!
//! A complete binary tree is laid out in a single zero-indexed sequence:
//! even indices are leaves, odd indices are interior nodes.  The node at
//! `depth` (distance from the leaf level) and `offset` (left-to-right rank
//! among the nodes of that depth) sits at flat index
//! `offset * 2^(depth+1) + 2^depth - 1`.  The spec functions below define
//! that map and its inverse; the lemmas establish that the two directions
//! are mutually inverse and give the step formulas the executable code and
//! the cursor rely on.

use vstd::prelude::*;
use vstd::arithmetic::power2::{
    pow2, lemma_pow2_adds, lemma_pow2_pos, lemma_pow2_strictly_increases, lemma_pow2_unfold,
    lemma2_to64,
};
use vstd::arithmetic::div_mod::{lemma_fundamental_div_mod, lemma_fundamental_div_mod_converse};
use vstd::arithmetic::mul::lemma_mul_inequality;

verus! {

/// Flat index of the node at `depth` and `offset`.
pub open spec fn node_index(depth: nat, offset: nat) -> nat {
    (offset * pow2(depth + 1) + pow2(depth) - 1) as nat
}

/// Depth of the node at flat index `i`: the number of times `i` stays odd
/// while being halved (the count of trailing one-bits of `i`).
pub open spec fn node_depth(i: nat) -> nat
    decreases i,
{
    if i % 2 == 0 {
        0
    } else {
        1 + node_depth(((i - 1) / 2) as nat)
    }
}

/// Offset of the node at flat index `i`, trusting the supplied `depth`.
pub open spec fn node_offset_at(i: nat, depth: nat) -> nat {
    if i % 2 == 0 {
        i / 2
    } else {
        i / pow2(depth + 1)
    }
}

/// Offset of the node at flat index `i`.
pub open spec fn node_offset(i: nat) -> nat {
    node_offset_at(i, node_depth(i))
}

/// Parent of the node at flat index `i`, trusting the supplied `depth`.
pub open spec fn parent_at(i: nat, depth: nat) -> nat {
    node_index(depth + 1, node_offset_at(i, depth) / 2)
}

/// Parent of the node at flat index `i`.
pub open spec fn node_parent(i: nat) -> nat {
    parent_at(i, node_depth(i))
}

/// The other offset of a sibling pair: toggles the low bit of `o`.
pub open spec fn flip(o: nat) -> nat {
    if o % 2 == 0 {
        o + 1
    } else {
        (o - 1) as nat
    }
}

/// Sibling of the node at flat index `i`: same depth, paired offset.
pub open spec fn node_sibling(i: nat) -> nat {
    node_index(node_depth(i), flip(node_offset(i)))
}

/// Left child of the node at `i`, trusting the supplied `depth` (meaningful
/// for odd `i`, whose depth is at least 1).
pub open spec fn left_child_at(i: nat, depth: nat) -> nat {
    node_index((depth - 1) as nat, 2 * node_offset_at(i, depth))
}

/// Right child of the node at `i`, trusting the supplied `depth`.
pub open spec fn right_child_at(i: nat, depth: nat) -> nat {
    node_index((depth - 1) as nat, 2 * node_offset_at(i, depth) + 1)
}

/// Left child of the (odd) node at flat index `i`.
pub open spec fn node_left_child(i: nat) -> nat {
    left_child_at(i, node_depth(i))
}

/// Right child of the (odd) node at flat index `i`.
pub open spec fn node_right_child(i: nat) -> nat {
    right_child_at(i, node_depth(i))
}

/// Leftmost leaf index spanned by the subtree rooted at `i`, trusting `depth`.
pub open spec fn left_span_at(i: nat, depth: nat) -> nat {
    if depth == 0 {
        i
    } else {
        node_offset_at(i, depth) * pow2(depth + 1)
    }
}

/// Rightmost leaf index spanned by the subtree rooted at `i`, trusting `depth`.
pub open spec fn right_span_at(i: nat, depth: nat) -> nat {
    if depth == 0 {
        i
    } else {
        ((node_offset_at(i, depth) + 1) * pow2(depth + 1) - 2) as nat
    }
}

/// Leftmost leaf index spanned by the subtree rooted at `i`.
pub open spec fn node_left_span(i: nat) -> nat {
    left_span_at(i, node_depth(i))
}

/// Rightmost leaf index spanned by the subtree rooted at `i`.
pub open spec fn node_right_span(i: nat) -> nat {
    right_span_at(i, node_depth(i))
}

/// Number of nodes (leaves and interior) of a perfect subtree whose root
/// has the given depth.
pub open spec fn node_count_at(depth: nat) -> nat {
    (pow2(depth + 1) - 1) as nat
}

/// Number of nodes of the perfect subtree rooted at `i`.
pub open spec fn node_count(i: nat) -> nat {
    node_count_at(node_depth(i))
}

/// The largest `usize` value is one less than two to the word width.
pub proof fn lemma_usize_max_pow2()
    ensures
        usize::MAX as nat == pow2(usize::BITS as nat) - 1,
        usize::BITS >= 32,
{
    vstd::layout::unsigned_int_max_values();
}

/// Canonical form of a flat index: `node_index(d, o) + 1 == (2*o + 1) * 2^d`.
pub proof fn lemma_index_plus_one(d: nat, o: nat)
    ensures
        node_index(d, o) + 1 == (2 * o + 1) * pow2(d),
{
    lemma_pow2_pos(d);
    lemma_pow2_unfold(d + 1);
    assert(o * pow2(d + 1) == o * (2 * pow2(d)));
    assert(o * (2 * pow2(d)) + pow2(d) == (2 * o + 1) * pow2(d)) by (nonlinear_arith);
}

/// A flat index is even exactly when its construction depth is zero.
pub proof fn lemma_index_parity(d: nat, o: nat)
    ensures
        d == 0 ==> node_index(d, o) % 2 == 0,
        d > 0 ==> node_index(d, o) % 2 == 1,
{
    lemma_index_plus_one(d, o);
    if d == 0 {
        lemma2_to64();
        assert(node_index(0, o) == o * 2);
        lemma_fundamental_div_mod_converse((o * 2) as int, 2, o as int, 0);
    } else {
        lemma_pow2_unfold(d);
        lemma_pow2_pos((d - 1) as nat);
        let w = (2 * o + 1) * pow2((d - 1) as nat);
        assert((2 * o + 1) * (2 * pow2((d - 1) as nat)) == 2 * ((2 * o + 1) * pow2(
            (d - 1) as nat,
        ))) by (nonlinear_arith);
        assert(node_index(d, o) == 2 * (w - 1) + 1);
        lemma_fundamental_div_mod_converse(node_index(d, o) as int, 2, w - 1, 1);
    }
}

/// Dividing a flat index by the node spacing of its own level recovers the
/// offset; the remainder is fixed by the depth alone.
pub proof fn lemma_index_div(d: nat, o: nat)
    ensures
        node_index(d, o) / pow2(d + 1) == o,
        node_index(d, o) % pow2(d + 1) == pow2(d) - 1,
{
    lemma_pow2_pos(d);
    lemma_pow2_strictly_increases(d, d + 1);
    lemma_fundamental_div_mod_converse(
        node_index(d, o) as int,
        pow2(d + 1) as int,
        o as int,
        pow2(d) - 1,
    );
}

/// Extracting the depth from a constructed index gives the construction depth back.
pub proof fn lemma_depth_of_index(d: nat, o: nat)
    ensures
        node_depth(node_index(d, o)) == d,
    decreases d,
{
    let v = node_index(d, o);
    lemma_index_parity(d, o);
    if d == 0 {
        assert(node_depth(v) == 0);
    } else {
        lemma_index_plus_one(d, o);
        lemma_index_plus_one((d - 1) as nat, o);
        lemma_pow2_unfold(d);
        let w = node_index((d - 1) as nat, o);
        assert((2 * o + 1) * (2 * pow2((d - 1) as nat)) == 2 * ((2 * o + 1) * pow2(
            (d - 1) as nat,
        ))) by (nonlinear_arith);
        assert(v == 2 * w + 1);
        lemma_fundamental_div_mod_converse((v - 1) as int, 2, w as int, 0);
        assert(((v - 1) / 2) as nat == w);
        lemma_depth_of_index((d - 1) as nat, o);
    }
}

/// Extracting the offset from a constructed index gives the construction offset back.
pub proof fn lemma_offset_of_index(d: nat, o: nat)
    ensures
        node_offset_at(node_index(d, o), d) == o,
        node_offset(node_index(d, o)) == o,
{
    let v = node_index(d, o);
    lemma_index_parity(d, o);
    lemma_index_div(d, o);
    lemma_depth_of_index(d, o);
    if d == 0 {
        lemma2_to64();
        assert(v / 2 == v / pow2(1));
    }
}

/// Every flat index is reconstructed from its own depth and offset.
pub proof fn lemma_node_reconstruct(i: nat)
    ensures
        node_index(node_depth(i), node_offset(i)) == i,
    decreases i,
{
    if i % 2 == 0 {
        lemma_fundamental_div_mod(i as int, 2);
        lemma_index_plus_one(0, i / 2);
        lemma2_to64();
    } else {
        lemma_fundamental_div_mod(i as int, 2);
        let j = ((i - 1) / 2) as nat;
        lemma_fundamental_div_mod_converse((i - 1) as int, 2, j as int, 0);
        lemma_node_reconstruct(j);
        let dj = node_depth(j);
        let oj = node_offset(j);
        lemma_index_plus_one(dj, oj);
        lemma_index_plus_one(dj + 1, oj);
        lemma_pow2_unfold(dj + 1);
        assert((2 * oj + 1) * (2 * pow2(dj)) == 2 * ((2 * oj + 1) * pow2(dj)))
            by (nonlinear_arith);
        assert(node_index(dj + 1, oj) == 2 * j + 1);
        assert(node_depth(i) == dj + 1);
        lemma_offset_of_index(dj + 1, oj);
        assert(node_offset(i) == oj);
    }
}

/// Bound on the level start: if a constructed index stays below `2^b`, the
/// whole slot of its offset stays within `2^b` as well.
pub proof fn lemma_index_fits(d: nat, o: nat, b: nat)
    requires
        d < b,
        node_index(d, o) < pow2(b),
    ensures
        (o + 1) * pow2(d + 1) <= pow2(b),
{
    lemma_pow2_pos(d);
    lemma_pow2_pos(d + 1);
    lemma_pow2_adds(d + 1, (b - d - 1) as nat);
    let m = pow2(d + 1);
    let k = pow2((b - d - 1) as nat);
    assert(o * m <= node_index(d, o));
    assert(o * m < k * m) by (nonlinear_arith)
        requires
            o * m < pow2(b),
            pow2(b) == m * k,
    ;
    assert(o < k) by (nonlinear_arith)
        requires
            o * m < k * m,
            m > 0,
    ;
    lemma_mul_inequality((o + 1) as int, k as int, m as int);
}

/// A constructed index is at least as large as its offset and close to the
/// size of its own perfect subtree.
pub proof fn lemma_index_lower(d: nat, o: nat)
    ensures
        node_index(d, o) >= o,
        node_index(d, o) + 1 >= pow2(d),
{
    lemma_pow2_pos(d);
    lemma_pow2_unfold(d + 1);
    assert(o * pow2(d + 1) >= o * 2) by (nonlinear_arith)
        requires
            pow2(d + 1) >= 2,
    ;
}

/// Two nodes of the same depth with adjacent offsets are `2^(depth+1)` apart.
pub proof fn lemma_adjacent(d: nat, o: nat)
    ensures
        node_index(d, o + 1) == node_index(d, o) + pow2(d + 1),
{
    lemma_index_plus_one(d, o);
    lemma_index_plus_one(d, o + 1);
    lemma_pow2_unfold(d + 1);
    assert((2 * (o + 1) + 1) * pow2(d) == (2 * o + 1) * pow2(d) + 2 * pow2(d))
        by (nonlinear_arith);
}

/// The parent of a node sits `2^depth` above it (left node, even offset) or
/// `2^depth` below it (right node, odd offset).
pub proof fn lemma_parent_step(i: nat)
    ensures
        node_offset(i) % 2 == 0 ==> node_parent(i) == i + pow2(node_depth(i)),
        node_offset(i) % 2 == 1 ==> i >= pow2(node_depth(i)) && node_parent(i) == i - pow2(
            node_depth(i),
        ),
{
    let d = node_depth(i);
    let o = node_offset(i);
    lemma_node_reconstruct(i);
    lemma_index_plus_one(d, o);
    lemma_index_plus_one(d + 1, o / 2);
    lemma_pow2_unfold(d + 1);
    lemma_pow2_pos(d);
    if o % 2 == 0 {
        assert(o == 2 * (o / 2));
        assert((2 * (o / 2) + 1) * (2 * pow2(d)) == (2 * o + 1) * pow2(d) + pow2(d))
            by (nonlinear_arith)
            requires
                o == 2 * (o / 2),
        ;
    } else {
        assert(o == 2 * (o / 2) + 1);
        assert((2 * (o / 2) + 1) * (2 * pow2(d)) == (2 * o + 1) * pow2(d) - pow2(d))
            by (nonlinear_arith)
            requires
                o == 2 * (o / 2) + 1,
        ;
        assert((2 * o + 1) * pow2(d) >= 3 * pow2(d)) by (nonlinear_arith)
            requires
                o >= 1,
                pow2(d) > 0,
        ;
    }
}

/// A parent index stays below any power-of-two bound its child is below.
pub proof fn lemma_parent_fits(i: nat, b: nat)
    requires
        i < pow2(b),
        node_depth(i) < b,
    ensures
        node_parent(i) < pow2(b),
{
    let d = node_depth(i);
    let o = node_offset(i);
    lemma_node_reconstruct(i);
    lemma_parent_step(i);
    lemma_pow2_pos(d);
    if o % 2 == 0 {
        lemma_index_fits(d, o, b);
        lemma_pow2_unfold(d + 1);
        assert((o + 1) * pow2(d + 1) == o * pow2(d + 1) + pow2(d + 1)) by (nonlinear_arith);
    }
}

/// The sibling of a node sits one level spacing away: above a left node,
/// below a right node.
pub proof fn lemma_sibling_step(i: nat)
    ensures
        node_offset(i) % 2 == 0 ==> node_sibling(i) == i + pow2(node_depth(i) + 1),
        node_offset(i) % 2 == 1 ==> i >= pow2(node_depth(i) + 1) && node_sibling(i) == i - pow2(
            node_depth(i) + 1,
        ),
{
    let d = node_depth(i);
    let o = node_offset(i);
    lemma_node_reconstruct(i);
    if o % 2 == 0 {
        lemma_adjacent(d, o);
    } else {
        lemma_adjacent(d, (o - 1) as nat);
    }
}

/// A sibling index stays below a power-of-two bound as long as the node's
/// level is at least one level below that bound.
pub proof fn lemma_sibling_fits(i: nat, b: nat)
    requires
        i < pow2(b),
        node_depth(i) + 1 < b,
    ensures
        node_sibling(i) < pow2(b),
{
    let d = node_depth(i);
    let o = node_offset(i);
    lemma_node_reconstruct(i);
    lemma_sibling_step(i);
    if o % 2 == 0 {
        lemma_index_fits(d, o, b);
        let m = pow2(d + 1);
        let k = pow2((b - d - 1) as nat);
        lemma_pow2_adds(d + 1, (b - d - 1) as nat);
        lemma_pow2_pos(d + 1);
        assert(o + 1 <= k) by (nonlinear_arith)
            requires
                (o + 1) * m <= k * m,
                m > 0,
        ;
        if o + 1 == k {
            lemma_pow2_unfold((b - d - 1) as nat);
            lemma_pow2_pos((b - d - 2) as nat);
            lemma_fundamental_div_mod_converse(
                o as int,
                2,
                pow2((b - d - 2) as nat) - 1,
                1,
            );
        }
        lemma_mul_inequality((o + 2) as int, k as int, m as int);
        lemma_pow2_strictly_increases(d, d + 1);
        assert((o + 2) * m == (o + 1) * m + m) by (nonlinear_arith);
        assert(node_sibling(i) == (o + 1) * m + pow2(d) - 1) by {
            lemma_index_plus_one(d, o + 1);
            lemma_pow2_unfold(d + 1);
            assert((2 * (o + 1) + 1) * pow2(d) == (o + 1) * (2 * pow2(d)) + pow2(d))
                by (nonlinear_arith);
        }
    }
}

/// The children of an interior node sit `2^(depth-1)` below and above it.
pub proof fn lemma_child_step(i: nat)
    requires
        i % 2 == 1,
    ensures
        node_depth(i) >= 1,
        i >= pow2((node_depth(i) - 1) as nat),
        node_left_child(i) == i - pow2((node_depth(i) - 1) as nat),
        node_right_child(i) == i + pow2((node_depth(i) - 1) as nat),
{
    let d = node_depth(i);
    let o = node_offset(i);
    assert(d >= 1);
    let e = (d - 1) as nat;
    lemma_node_reconstruct(i);
    lemma_index_plus_one(d, o);
    lemma_index_plus_one(e, 2 * o);
    lemma_pow2_unfold(d);
    lemma_pow2_pos(e);
    assert((2 * o + 1) * (2 * pow2(e)) == (2 * (2 * o) + 1) * pow2(e) + pow2(e))
        by (nonlinear_arith);
    lemma_adjacent(e, 2 * o);
}

/// A right-child index stays below any power-of-two bound its parent is below.
pub proof fn lemma_child_fits(i: nat, b: nat)
    requires
        i % 2 == 1,
        i < pow2(b),
        node_depth(i) < b,
    ensures
        node_right_child(i) < pow2(b),
{
    let d = node_depth(i);
    let o = node_offset(i);
    lemma_node_reconstruct(i);
    lemma_child_step(i);
    let e = (d - 1) as nat;
    lemma_index_fits(d, o, b);
    lemma_pow2_unfold(d + 1);
    lemma_pow2_unfold(d);
    lemma_pow2_pos(e);
    assert((o + 1) * pow2(d + 1) == o * pow2(d + 1) + pow2(d + 1)) by (nonlinear_arith);
}

/// Span endpoints in terms of the node itself: the subtree rooted at `i`
/// covers the even (leaf) indices from `i + 1 - 2^depth` through
/// `i + 2^depth - 1`.
pub proof fn lemma_span_bounds(i: nat)
    ensures
        i + 1 >= pow2(node_depth(i)),
        node_left_span(i) == i + 1 - pow2(node_depth(i)),
        node_right_span(i) == i + pow2(node_depth(i)) - 1,
        node_left_span(i) % 2 == 0,
        node_right_span(i) % 2 == 0,
{
    let d = node_depth(i);
    let o = node_offset(i);
    lemma_node_reconstruct(i);
    lemma_index_plus_one(d, o);
    lemma_pow2_pos(d);
    if d == 0 {
        lemma2_to64();
        if i % 2 != 0 {
            assert(node_depth(i) >= 1);
        }
    } else {
        lemma_pow2_unfold(d + 1);
        assert(o * (2 * pow2(d)) == (2 * o + 1) * pow2(d) - pow2(d)) by (nonlinear_arith);
        assert((o + 1) * (2 * pow2(d)) == (2 * o + 1) * pow2(d) + pow2(d)) by (nonlinear_arith);
        assert(o * (2 * pow2(d)) == 2 * (o * pow2(d))) by (nonlinear_arith);
        lemma_fundamental_div_mod_converse(
            node_left_span(i) as int,
            2,
            (o * pow2(d)) as int,
            0,
        );
        lemma_fundamental_div_mod_converse(
            node_right_span(i) as int,
            2,
            o * pow2(d) + pow2(d) - 1,
            0,
        );
    }
}

/// Both span endpoints stay below any power-of-two bound the node is below;
/// the left endpoint never exceeds the node itself.
pub proof fn lemma_span_fits(i: nat, b: nat)
    requires
        i < pow2(b),
        node_depth(i) < b,
    ensures
        node_left_span(i) <= i,
        node_right_span(i) + 2 <= pow2(b),
{
    let d = node_depth(i);
    let o = node_offset(i);
    lemma_node_reconstruct(i);
    lemma_span_bounds(i);
    lemma_pow2_pos(d);
    if d == 0 {
        lemma_pow2_unfold(b);
        lemma_pow2_pos((b - 1) as nat);
        if i == pow2(b) - 1 {
            lemma_fundamental_div_mod_converse(i as int, 2, pow2((b - 1) as nat) - 1, 1);
        }
    } else {
        lemma_index_fits(d, o, b);
        lemma_pow2_unfold(d + 1);
        assert((o + 1) * pow2(d + 1) == o * pow2(d + 1) + pow2(d + 1)) by (nonlinear_arith);
    }
}

/// Round trip: reading the depth and offset back out of a constructed index
/// recovers exactly the depth and offset it was built from.
pub proof fn lemma_round_trip(depth: nat, offset: nat)
    ensures
        node_depth(node_index(depth, offset)) == depth,
        node_offset_at(node_index(depth, offset), depth) == offset,
{
    lemma_depth_of_index(depth, offset);
    lemma_offset_of_index(depth, offset);
}

/// Taking the sibling twice returns to the starting node, for every index.
pub proof fn lemma_sibling_involution(i: nat)
    ensures
        node_sibling(node_sibling(i)) == i,
{
    let d = node_depth(i);
    let o = node_offset(i);
    lemma_node_reconstruct(i);
    lemma_depth_of_index(d, flip(o));
    lemma_offset_of_index(d, flip(o));
    assert(flip(flip(o)) == o);
}

/// The parent lies above its child in index order whenever the child is a
/// left node (even offset); for a right node the parent lies below it, as
/// `lemma_parent_step` shows.
pub proof fn lemma_parent_exceeds(i: nat)
    requires
        node_offset(i) % 2 == 0,
    ensures
        node_parent(i) > i,
{
    lemma_parent_step(i);
    lemma_pow2_pos(node_depth(i));
}

/// Leaf-count relation: the span of a node covers exactly `2^depth` leaves.
pub proof fn lemma_span_leaf_count(i: nat)
    ensures
        (node_right_span(i) - node_left_span(i)) / 2 + 1 == pow2(node_depth(i)),
{
    let d = node_depth(i);
    lemma_span_bounds(i);
    lemma_pow2_pos(d);
    assert(node_right_span(i) - node_left_span(i) == 2 * (pow2(d) - 1));
    lemma_fundamental_div_mod_converse(2 * (pow2(d) - 1), 2, pow2(d) - 1, 0);
}

} // verus!
