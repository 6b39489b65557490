//! Flat-tree addressing: map the nodes of an unbounded complete binary tree
//! onto a single flat, zero-indexed integer sequence, and navigate the tree
//! (parent, sibling, children, spans, counts) with constant-time arithmetic
//! on those indices.
//!
//! Even indices are leaves; odd indices are interior nodes.  Every function
//! carries a contract phrased over the spec-level model in [`model`], which
//! pins each result to the mathematical depth/offset map.

pub mod iterator;
pub mod model;
pub mod roots;

pub use crate::iterator::Iterator;
pub use crate::roots::{FullRootsIterator, OddIndexError, full_roots, iter_full_roots};

use vstd::prelude::*;
use vstd::arithmetic::power2::{pow2, lemma_pow2_pos, lemma_pow2_strictly_increases, lemma2_to64,
    lemma_pow2_unfold, lemma_pow2_adds};
use vstd::bits::{lemma_usize_pow2_no_overflow, lemma_usize_shl_is_mul};
use crate::model::{node_index, node_depth, node_offset_at, node_offset, parent_at, flip,
    node_parent, node_sibling, left_child_at, right_child_at, node_left_child, node_right_child,
    left_span_at, right_span_at, node_left_span, node_right_span, node_count_at, node_count,
    lemma_usize_max_pow2, lemma_index_lower, lemma_adjacent, lemma_depth_of_index,
    lemma_parent_fits, lemma_sibling_fits, lemma_child_fits, lemma_span_fits};

verus! {

/// Power of two `2^n`, computed in two shifts so that exponents close to the
/// word width stay clear of a shift-overflow trap.
pub fn two_pow(n: usize) -> (r: usize)
    requires
        n < usize::BITS,
    ensures
        r as nat == pow2(n as nat),
{
    if n < 31 {
        proof {
            lemma_usize_pow2_no_overflow(n as nat);
            lemma_usize_shl_is_mul(1, n);
        }
        1 << n
    } else {
        proof {
            lemma_usize_pow2_no_overflow(30);
            lemma_usize_shl_is_mul(1, 30);
            lemma_usize_pow2_no_overflow((n - 30) as nat);
            lemma_usize_shl_is_mul(1, (n - 30) as usize);
            lemma_pow2_adds(30, (n - 30) as nat);
            lemma_usize_pow2_no_overflow(n as nat);
        }
        (1 << 30usize) * (1 << (n - 30))
    }
}

/// True when `num` is even, which for a flat-tree index means a leaf.
pub fn is_even(num: usize) -> (r: bool)
    ensures
        r == (num % 2 == 0),
{
    num % 2 == 0
}

/// True when `num` is odd, which for a flat-tree index means an interior node.
pub fn is_odd(num: usize) -> (r: bool)
    ensures
        r == (num % 2 != 0),
{
    num % 2 != 0
}

/// Flat index of the node at the given depth and offset.
pub fn index(depth: usize, offset: usize) -> (r: usize)
    requires
        depth + 1 < usize::BITS,
        node_index(depth as nat, offset as nat) <= usize::MAX,
    ensures
        r as nat == node_index(depth as nat, offset as nat),
{
    proof {
        lemma_pow2_pos(depth as nat);
    }
    let p = two_pow(depth + 1);
    let base = two_pow(depth) - 1;
    offset * p + base
}

/// Depth of a node: how many times the index stays odd while being halved.
pub fn depth(i: usize) -> (r: usize)
    ensures
        r as nat == node_depth(i as nat),
{
    let mut n: usize = i;
    let mut d: usize = 0;
    proof {
        lemma2_to64();
        lemma_usize_max_pow2();
    }
    while n % 2 == 1
        invariant
            node_depth(i as nat) == d + node_depth(n as nat),
            (n as nat + 1) * pow2(d as nat) <= i as nat + 1,
            d <= usize::BITS,
        decreases n,
    {
        proof {
            let nn = n as nat;
            let dd = d as nat;
            assert(node_depth(nn) == 1 + node_depth(((nn - 1) / 2) as nat));
            vstd::arithmetic::div_mod::lemma_fundamental_div_mod(nn as int, 2);
            vstd::arithmetic::div_mod::lemma_fundamental_div_mod_converse(
                (nn - 1) as int,
                2,
                (nn / 2) as int,
                0,
            );
            lemma_pow2_unfold(dd + 1);
            assert((nn / 2 + 1) * pow2(dd + 1) == (nn + 1) * pow2(dd)) by (nonlinear_arith)
                requires
                    nn % 2 == 1,
                    nn == 2 * (nn / 2) + 1,
                    pow2(dd + 1) == 2 * pow2(dd),
            ;
            lemma_pow2_pos(dd);
            assert(2 * pow2(dd) <= (nn + 1) * pow2(dd)) by (nonlinear_arith)
                requires
                    nn >= 1,
                    pow2(dd) > 0,
            ;
            lemma_usize_max_pow2();
            if dd + 1 > usize::BITS {
                lemma_pow2_strictly_increases(usize::BITS as nat, dd + 1);
            }
        }
        n = n / 2;
        d = d + 1;
    }
    d
}

/// Offset of a node among the nodes of its depth, trusting the caller's depth.
pub fn offset_with_depth(i: usize, depth: usize) -> (r: usize)
    requires
        i % 2 == 1 ==> depth + 1 < usize::BITS,
    ensures
        r as nat == node_offset_at(i as nat, depth as nat),
{
    if is_even(i) {
        i / 2
    } else {
        proof {
            lemma_pow2_pos(depth as nat + 1);
        }
        i / two_pow(depth + 1)
    }
}

/// Offset of a node among the nodes of its depth.
pub fn offset(i: usize) -> (r: usize)
    requires
        node_depth(i as nat) + 1 < usize::BITS,
    ensures
        r as nat == node_offset(i as nat),
{
    let d = depth(i);
    offset_with_depth(i, d)
}

/// Parent of a node, trusting the caller's depth.
pub fn parent_with_depth(i: usize, depth: usize) -> (r: usize)
    requires
        depth + 2 < usize::BITS,
        parent_at(i as nat, depth as nat) <= usize::MAX,
    ensures
        r as nat == parent_at(i as nat, depth as nat),
{
    let o = offset_with_depth(i, depth);
    index(depth + 1, o / 2)
}

/// Parent of a node.  Repeated application never terminates: the tree has no
/// materialized root, every node has a parent further up.
pub fn parent(i: usize) -> (r: usize)
    requires
        node_depth(i as nat) + 2 < usize::BITS,
    ensures
        r as nat == node_parent(i as nat),
{
    let d = depth(i);
    proof {
        lemma_usize_max_pow2();
        lemma_parent_fits(i as nat, usize::BITS as nat);
    }
    parent_with_depth(i, d)
}

/// Sibling of a node, trusting the caller's depth for the rebuilt index while
/// re-deriving the offset from the index itself.
pub fn sibling_with_depth(i: usize, depth: usize) -> (r: usize)
    requires
        node_depth(i as nat) + 1 < usize::BITS,
        depth + 1 < usize::BITS,
        node_index(depth as nat, flip(node_offset(i as nat))) <= usize::MAX,
    ensures
        r as nat == node_index(depth as nat, flip(node_offset(i as nat))),
{
    let o = offset(i);
    proof {
        lemma_index_lower(depth as nat, flip(node_offset(i as nat)));
    }
    let f = if is_even(o) {
        o + 1
    } else {
        o - 1
    };
    index(depth, f)
}

/// Sibling of a node: the other child of its parent.
pub fn sibling(i: usize) -> (r: usize)
    requires
        node_depth(i as nat) + 1 < usize::BITS,
    ensures
        r as nat == node_sibling(i as nat),
{
    let d = depth(i);
    proof {
        lemma_usize_max_pow2();
        lemma_sibling_fits(i as nat, usize::BITS as nat);
    }
    sibling_with_depth(i, d)
}

/// Sibling of the parent of a node, trusting the caller's depth.
pub fn uncle_with_depth(i: usize, depth: usize) -> (r: usize)
    requires
        depth + 2 < usize::BITS,
        parent_at(i as nat, depth as nat) <= usize::MAX,
        node_index(depth as nat + 1, flip(node_offset(parent_at(i as nat, depth as nat))))
            <= usize::MAX,
    ensures
        r as nat == node_index(
            depth as nat + 1,
            flip(node_offset(parent_at(i as nat, depth as nat))),
        ),
{
    let p = parent_with_depth(i, depth);
    proof {
        lemma_depth_of_index(depth as nat + 1, node_offset_at(i as nat, depth as nat) / 2);
    }
    sibling_with_depth(p, depth + 1)
}

/// Sibling of the parent of a node.
pub fn uncle(i: usize) -> (r: usize)
    requires
        node_depth(i as nat) + 2 < usize::BITS,
    ensures
        r as nat == node_sibling(node_parent(i as nat)),
{
    let d = depth(i);
    proof {
        lemma_usize_max_pow2();
        lemma_parent_fits(i as nat, usize::BITS as nat);
        lemma_depth_of_index(
            node_depth(i as nat) + 1,
            node_offset_at(i as nat, node_depth(i as nat)) / 2,
        );
        lemma_sibling_fits(node_parent(i as nat), usize::BITS as nat);
    }
    uncle_with_depth(i, d)
}

/// Both children of a node, trusting the caller's depth.  Leaves (even
/// indices) have no children.  An odd index together with a zero depth is a
/// caller-contract violation, ruled out by the precondition: no consistent
/// depth of an odd index is zero.
pub fn children_with_depth(i: usize, depth: usize) -> (r: Option<(usize, usize)>)
    requires
        i % 2 == 1 ==> 1 <= depth && depth + 1 < usize::BITS && right_child_at(
            i as nat,
            depth as nat,
        ) <= usize::MAX,
    ensures
        i % 2 == 0 ==> r is None,
        i % 2 == 1 ==> (r matches Some(c) && c.0 as nat == left_child_at(i as nat, depth as nat)
            && c.1 as nat == right_child_at(i as nat, depth as nat)),
{
    if is_even(i) {
        None
    } else {
        let o = offset_with_depth(i, depth);
        proof {
            let e = (depth - 1) as nat;
            let oo = node_offset_at(i as nat, depth as nat);
            lemma_index_lower(e, 2 * oo + 1);
            lemma_adjacent(e, 2 * oo);
        }
        let o2 = o * 2;
        Some((index(depth - 1, o2), index(depth - 1, o2 + 1)))
    }
}

/// Both children of a node; `None` for a leaf.
pub fn children(i: usize) -> (r: Option<(usize, usize)>)
    requires
        node_depth(i as nat) + 1 < usize::BITS,
    ensures
        i % 2 == 0 ==> r is None,
        i % 2 == 1 ==> (r matches Some(c) && c.0 as nat == node_left_child(i as nat)
            && c.1 as nat == node_right_child(i as nat)),
{
    let d = depth(i);
    proof {
        if i % 2 == 1 {
            assert(node_depth(i as nat) >= 1);
            lemma_usize_max_pow2();
            lemma_child_fits(i as nat, usize::BITS as nat);
            lemma_adjacent(
                (node_depth(i as nat) - 1) as nat,
                2 * node_offset_at(i as nat, node_depth(i as nat)),
            );
        }
    }
    children_with_depth(i, d)
}

/// Left child of a node, trusting the caller's depth; `None` for a leaf.
pub fn left_child_with_depth(i: usize, depth: usize) -> (r: Option<usize>)
    requires
        i % 2 == 1 ==> 1 <= depth && depth + 1 < usize::BITS && left_child_at(
            i as nat,
            depth as nat,
        ) <= usize::MAX,
    ensures
        i % 2 == 0 ==> r is None,
        i % 2 == 1 ==> (r matches Some(c) && c as nat == left_child_at(i as nat, depth as nat)),
{
    if is_even(i) {
        None
    } else {
        let o = offset_with_depth(i, depth);
        proof {
            lemma_index_lower((depth - 1) as nat, 2 * node_offset_at(i as nat, depth as nat));
        }
        Some(index(depth - 1, o * 2))
    }
}

/// Left child of a node; `None` for a leaf.
pub fn left_child(i: usize) -> (r: Option<usize>)
    requires
        node_depth(i as nat) + 1 < usize::BITS,
    ensures
        i % 2 == 0 ==> r is None,
        i % 2 == 1 ==> (r matches Some(c) && c as nat == node_left_child(i as nat)),
{
    let d = depth(i);
    proof {
        if i % 2 == 1 {
            assert(node_depth(i as nat) >= 1);
            lemma_usize_max_pow2();
            lemma_child_fits(i as nat, usize::BITS as nat);
            lemma_adjacent(
                (node_depth(i as nat) - 1) as nat,
                2 * node_offset_at(i as nat, node_depth(i as nat)),
            );
        }
    }
    left_child_with_depth(i, d)
}

/// Right child of a node, trusting the caller's depth; `None` for a leaf.
pub fn right_child_with_depth(i: usize, depth: usize) -> (r: Option<usize>)
    requires
        i % 2 == 1 ==> 1 <= depth && depth + 1 < usize::BITS && right_child_at(
            i as nat,
            depth as nat,
        ) <= usize::MAX,
    ensures
        i % 2 == 0 ==> r is None,
        i % 2 == 1 ==> (r matches Some(c) && c as nat == right_child_at(i as nat, depth as nat)),
{
    if is_even(i) {
        None
    } else {
        let o = offset_with_depth(i, depth);
        proof {
            let e = (depth - 1) as nat;
            let oo = node_offset_at(i as nat, depth as nat);
            lemma_index_lower(e, 2 * oo + 1);
            lemma_adjacent(e, 2 * oo);
        }
        Some(index(depth - 1, o * 2 + 1))
    }
}

/// Right child of a node; `None` for a leaf.
pub fn right_child(i: usize) -> (r: Option<usize>)
    requires
        node_depth(i as nat) + 1 < usize::BITS,
    ensures
        i % 2 == 0 ==> r is None,
        i % 2 == 1 ==> (r matches Some(c) && c as nat == node_right_child(i as nat)),
{
    let d = depth(i);
    proof {
        if i % 2 == 1 {
            assert(node_depth(i as nat) >= 1);
            lemma_usize_max_pow2();
            lemma_child_fits(i as nat, usize::BITS as nat);
        }
    }
    right_child_with_depth(i, d)
}

/// Leftmost leaf spanned by the subtree rooted at a node, trusting the
/// caller's depth.
pub fn left_span_with_depth(i: usize, depth: usize) -> (r: usize)
    requires
        (i % 2 == 1 || depth > 0) ==> depth + 1 < usize::BITS,
        depth > 0 ==> left_span_at(i as nat, depth as nat) <= usize::MAX,
    ensures
        r as nat == left_span_at(i as nat, depth as nat),
{
    if depth == 0 {
        i
    } else {
        let o = offset_with_depth(i, depth);
        o * two_pow(depth + 1)
    }
}

/// Leftmost leaf spanned by the subtree rooted at a node.
pub fn left_span(i: usize) -> (r: usize)
    requires
        node_depth(i as nat) + 1 < usize::BITS,
    ensures
        r as nat == node_left_span(i as nat),
{
    let d = depth(i);
    proof {
        lemma_usize_max_pow2();
        lemma_span_fits(i as nat, usize::BITS as nat);
    }
    left_span_with_depth(i, d)
}

/// Rightmost leaf spanned by the subtree rooted at a node, trusting the
/// caller's depth.
pub fn right_span_with_depth(i: usize, depth: usize) -> (r: usize)
    requires
        (i % 2 == 1 || depth > 0) ==> depth + 1 < usize::BITS,
        depth > 0 ==> right_span_at(i as nat, depth as nat) <= usize::MAX,
    ensures
        r as nat == right_span_at(i as nat, depth as nat),
{
    if depth == 0 {
        i
    } else {
        let o = offset_with_depth(i, depth);
        let p = two_pow(depth + 1);
        proof {
            let oo = node_offset_at(i as nat, depth as nat);
            lemma_pow2_pos(depth as nat);
            lemma_pow2_unfold(depth as nat + 1);
            assert((oo + 1) * pow2(depth as nat + 1) == oo * pow2(depth as nat + 1) + pow2(
                depth as nat + 1,
            )) by (nonlinear_arith);
        }
        let l = o * p;
        l + (p - 2)
    }
}

/// Rightmost leaf spanned by the subtree rooted at a node.
pub fn right_span(i: usize) -> (r: usize)
    requires
        node_depth(i as nat) + 1 < usize::BITS,
    ensures
        r as nat == node_right_span(i as nat),
{
    let d = depth(i);
    proof {
        lemma_usize_max_pow2();
        lemma_span_fits(i as nat, usize::BITS as nat);
    }
    right_span_with_depth(i, d)
}

/// Both span endpoints of the subtree rooted at a node, trusting the
/// caller's depth.
pub fn spans_with_depth(i: usize, depth: usize) -> (r: (usize, usize))
    requires
        (i % 2 == 1 || depth > 0) ==> depth + 1 < usize::BITS,
        depth > 0 ==> right_span_at(i as nat, depth as nat) <= usize::MAX,
    ensures
        r.0 as nat == left_span_at(i as nat, depth as nat),
        r.1 as nat == right_span_at(i as nat, depth as nat),
{
    proof {
        if depth > 0 {
            let oo = node_offset_at(i as nat, depth as nat);
            lemma_pow2_pos(depth as nat);
            lemma_pow2_unfold(depth as nat + 1);
            assert((oo + 1) * pow2(depth as nat + 1) == oo * pow2(depth as nat + 1) + pow2(
                depth as nat + 1,
            )) by (nonlinear_arith);
        }
    }
    (left_span_with_depth(i, depth), right_span_with_depth(i, depth))
}

/// Both span endpoints of the subtree rooted at a node.
pub fn spans(i: usize) -> (r: (usize, usize))
    requires
        node_depth(i as nat) + 1 < usize::BITS,
    ensures
        r.0 as nat == node_left_span(i as nat),
        r.1 as nat == node_right_span(i as nat),
{
    let d = depth(i);
    proof {
        lemma_usize_max_pow2();
        lemma_span_fits(i as nat, usize::BITS as nat);
    }
    spans_with_depth(i, d)
}

/// Number of nodes of a perfect subtree whose root has the given depth; the
/// index argument only mirrors the depth-free variant and is not read.
pub fn count_with_depth(_i: usize, depth: usize) -> (r: usize)
    requires
        depth + 1 < usize::BITS,
    ensures
        r as nat == node_count_at(depth as nat),
{
    proof {
        lemma_pow2_pos(depth as nat + 1);
    }
    two_pow(depth + 1) - 1
}

/// Number of nodes (leaves and interior) of the perfect subtree rooted at a
/// node, determined by its depth alone.
pub fn count(i: usize) -> (r: usize)
    requires
        node_depth(i as nat) + 1 < usize::BITS,
    ensures
        r as nat == node_count(i as nat),
{
    let d = depth(i);
    count_with_depth(i, d)
}

} // verus!
