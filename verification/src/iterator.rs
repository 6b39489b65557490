//! Navigational cursor over the flat tree.
//!
//! The cursor keeps three fields: the current flat `index`, its `offset`
//! among the nodes of its depth, and `factor`, the index-space distance
//! between consecutive nodes of that depth (`2^(depth+1)`).  Every move is
//! constant-time arithmetic on the triple; only [`Iterator::seek`] walks the
//! index to recompute the depth.  The well-formedness predicate
//! [`Iterator::wf`] states that the cached fields agree with the index, and
//! every operation's contract shows that the move lands on exactly the node
//! the stateless functions of the crate root compute.

use vstd::prelude::*;
use vstd::arithmetic::power2::{pow2, lemma_pow2_pos, lemma_pow2_unfold,
    lemma_pow2_strictly_increases, lemma2_to64};
use crate::model::{node_index, node_depth, node_offset, node_parent, node_sibling,
    node_left_child, node_right_child, node_left_span, node_right_span, lemma_usize_max_pow2,
    lemma_node_reconstruct, lemma_adjacent, lemma_depth_of_index, lemma_offset_of_index,
    lemma_index_lower, lemma_parent_step, lemma_parent_fits, lemma_sibling_step,
    lemma_sibling_fits, lemma_child_step, lemma_child_fits, lemma_span_bounds, lemma_span_fits};
use crate::{depth, offset, two_pow, is_odd, is_even};

verus! {

/// Stateful cursor over a flat tree, supporting constant-time moves.
#[derive(Debug)]
pub struct Iterator {
    /// Flat index of the current node.
    pub index: usize,
    /// Offset of the current node among the nodes of its depth.
    pub offset: usize,
    /// Index-space distance between consecutive nodes of the current depth.
    pub factor: usize,
}

/// A well-formed cursor sits at a depth whose level spacing leaves room in
/// the word: its factor is at least 2 and its depth at least one step below
/// the word width.
proof fn lemma_wf_level(c: Iterator)
    requires
        c.wf(),
    ensures
        node_depth(c.index as nat) + 1 < usize::BITS,
        c.factor >= 2,
{
    lemma_usize_max_pow2();
    let d = node_depth(c.index as nat);
    if d + 1 >= usize::BITS {
        if d + 1 > usize::BITS {
            lemma_pow2_strictly_increases(usize::BITS as nat, d + 1);
        }
        assert(false);
    }
    lemma_pow2_unfold(d + 1);
    lemma_pow2_pos(d);
}

impl Iterator {
    /// The cached fields agree with the index: `offset` is the node's rank
    /// within its depth and `factor` is the spacing `2^(depth+1)` of that
    /// depth.
    pub open spec fn wf(&self) -> bool {
        self.offset as nat == node_offset(self.index as nat) && self.factor as nat == pow2(
            node_depth(self.index as nat) + 1,
        )
    }

    /// Create a cursor positioned on the given flat index.
    pub fn new(index: usize) -> (r: Self)
        requires
            node_depth(index as nat) + 1 < usize::BITS,
        ensures
            r.wf(),
            r.index == index,
    {
        let mut instance = Iterator { index: 0, offset: 0, factor: 0 };
        instance.seek(index);
        instance
    }

    /// Current flat index.
    pub fn index(&self) -> (r: usize)
        ensures
            r == self.index,
    {
        self.index
    }

    /// Current offset among the nodes of the current depth.
    pub fn offset(&self) -> (r: usize)
        ensures
            r == self.offset,
    {
        self.offset
    }

    /// Reposition the cursor on an arbitrary index, recomputing the cached
    /// offset and factor.  This is the one walk proportional to the depth;
    /// every other move is constant-time.
    pub fn seek(&mut self, index: usize)
        requires
            node_depth(index as nat) + 1 < usize::BITS,
        ensures
            final(self).index == index,
            final(self).wf(),
    {
        self.index = index;
        if is_odd(index) {
            self.offset = offset(index);
            let d = depth(index);
            self.factor = two_pow(d + 1);
        } else {
            proof {
                lemma2_to64();
            }
            self.offset = index / 2;
            self.factor = 2;
        }
    }

    /// True when the current node is a left child (even offset).
    pub fn is_left(&self) -> (r: bool)
        ensures
            r == (self.offset % 2 == 0),
    {
        is_even(self.offset)
    }

    /// True when the current node is a right child (odd offset).
    pub fn is_right(&self) -> (r: bool)
        ensures
            r == (self.offset % 2 == 1),
    {
        is_odd(self.offset)
    }

    /// Move to the next node of the same depth, to the right, and return it.
    pub fn next(&mut self) -> (r: Option<usize>)
        requires
            old(self).wf(),
            old(self).index + old(self).factor <= usize::MAX,
        ensures
            final(self).wf(),
            final(self).offset == old(self).offset + 1,
            final(self).factor == old(self).factor,
            final(self).index == old(self).index + old(self).factor,
            final(self).index as nat == node_index(
                node_depth(old(self).index as nat),
                node_offset(old(self).index as nat) + 1,
            ),
            r == Some(final(self).index),
    {
        proof {
            let i = old(self).index as nat;
            let d = node_depth(i);
            let o = node_offset(i);
            lemma_node_reconstruct(i);
            lemma_adjacent(d, o);
            lemma_depth_of_index(d, o + 1);
            lemma_offset_of_index(d, o + 1);
            lemma_index_lower(d, o + 1);
        }
        self.offset = self.offset + 1;
        self.index = self.index + self.factor;
        Some(self.index)
    }

    /// Move to the previous node of the same depth and return it; on the
    /// leftmost node of a depth (offset 0) this is a no-op, not an error.
    pub fn prev(&mut self) -> (r: usize)
        requires
            old(self).wf(),
        ensures
            final(self).wf(),
            final(self).factor == old(self).factor,
            r == final(self).index,
            old(self).offset == 0 ==> *final(self) == *old(self),
            old(self).offset > 0 ==> final(self).offset == old(self).offset - 1 && final(self).index == old(self).index
                - old(self).factor && final(self).index as nat == node_index(
                node_depth(old(self).index as nat),
                (node_offset(old(self).index as nat) - 1) as nat,
            ),
    {
        if self.offset == 0 {
            return self.index;
        }
        proof {
            let i = old(self).index as nat;
            let d = node_depth(i);
            let o = node_offset(i);
            lemma_node_reconstruct(i);
            lemma_adjacent(d, (o - 1) as nat);
            lemma_depth_of_index(d, (o - 1) as nat);
            lemma_offset_of_index(d, (o - 1) as nat);
        }
        self.offset = self.offset - 1;
        self.index = self.index - self.factor;
        self.index
    }

    /// Move to the sibling of the current node and return it: one step right
    /// from a left node, one step left from a right node.
    pub fn sibling(&mut self) -> (r: usize)
        requires
            old(self).wf(),
        ensures
            final(self).wf(),
            final(self).factor == old(self).factor,
            r == final(self).index,
            final(self).index as nat == node_sibling(old(self).index as nat),
    {
        proof {
            let i = old(self).index as nat;
            lemma_node_reconstruct(i);
            lemma_sibling_step(i);
            lemma_wf_level(*old(self));
            lemma_usize_max_pow2();
            lemma_sibling_fits(i, usize::BITS as nat);
        }
        if self.is_left() {
            let n = self.next();
            n.unwrap()
        } else {
            self.prev()
        }
    }

    /// Move to the parent of the current node and return it.
    pub fn parent(&mut self) -> (r: usize)
        requires
            old(self).wf(),
            node_depth(old(self).index as nat) + 2 < usize::BITS,
        ensures
            final(self).wf(),
            r == final(self).index,
            final(self).index as nat == node_parent(old(self).index as nat),
            final(self).factor == 2 * old(self).factor,
            final(self).offset == old(self).offset / 2,
    {
        proof {
            let i = old(self).index as nat;
            let d = node_depth(i);
            let o = node_offset(i);
            lemma_node_reconstruct(i);
            lemma_parent_step(i);
            lemma_usize_max_pow2();
            lemma_parent_fits(i, usize::BITS as nat);
            lemma_pow2_unfold(d + 1);
            lemma_pow2_unfold(d + 2);
            lemma_pow2_pos(d);
            vstd::bits::lemma_usize_pow2_no_overflow(d + 2);
            lemma_depth_of_index(d + 1, o / 2);
            lemma_offset_of_index(d + 1, o / 2);
        }
        if is_odd(self.offset) {
            self.index = self.index - self.factor / 2;
            self.offset = (self.offset - 1) / 2;
        } else {
            self.index = self.index + self.factor / 2;
            self.offset = self.offset / 2;
        }
        self.factor = self.factor * 2;
        self.index
    }

    /// Move to the leftmost leaf under the current subtree and return it.
    pub fn left_span(&mut self) -> (r: usize)
        requires
            old(self).wf(),
        ensures
            final(self).wf(),
            r == final(self).index,
            final(self).index as nat == node_left_span(old(self).index as nat),
            final(self).offset == final(self).index / 2,
            final(self).factor == 2,
    {
        proof {
            let i = old(self).index as nat;
            let d = node_depth(i);
            lemma_span_bounds(i);
            lemma_pow2_unfold(d + 1);
            lemma_pow2_pos(d);
            lemma2_to64();
        }
        self.index = self.index - (self.factor / 2 - 1);
        self.offset = self.index / 2;
        self.factor = 2;
        self.index
    }

    /// Move to the rightmost leaf under the current subtree and return it.
    pub fn right_span(&mut self) -> (r: usize)
        requires
            old(self).wf(),
        ensures
            final(self).wf(),
            r == final(self).index,
            final(self).index as nat == node_right_span(old(self).index as nat),
            final(self).offset == final(self).index / 2,
            final(self).factor == 2,
    {
        proof {
            let i = old(self).index as nat;
            let d = node_depth(i);
            lemma_span_bounds(i);
            lemma_wf_level(*old(self));
            lemma_usize_max_pow2();
            lemma_span_fits(i, usize::BITS as nat);
            lemma_pow2_unfold(d + 1);
            lemma_pow2_pos(d);
            lemma2_to64();
        }
        self.index = self.index + (self.factor / 2 - 1);
        self.offset = self.index / 2;
        self.factor = 2;
        self.index
    }

    /// Move to the left child of the current node and return it; on a leaf
    /// (factor 2) this is a no-op, not an error.
    pub fn left_child(&mut self) -> (r: usize)
        requires
            old(self).wf(),
        ensures
            final(self).wf(),
            r == final(self).index,
            node_depth(old(self).index as nat) == 0 ==> *final(self) == *old(self),
            node_depth(old(self).index as nat) > 0 ==> final(self).index as nat == node_left_child(
                old(self).index as nat,
            ) && final(self).factor == old(self).factor / 2 && final(self).offset == 2 * old(self).offset,
    {
        proof {
            lemma2_to64();
            if node_depth(old(self).index as nat) >= 1 {
                lemma_pow2_strictly_increases(1, node_depth(old(self).index as nat) + 1);
            }
        }
        if self.factor == 2 {
            return self.index;
        }
        proof {
            let i = old(self).index as nat;
            let d = node_depth(i);
            let o = node_offset(i);
            let e = (d - 1) as nat;
            lemma_node_reconstruct(i);
            lemma_child_step(i);
            lemma_depth_of_index(e, 2 * o);
            lemma_offset_of_index(e, 2 * o);
            lemma_index_lower(e, 2 * o);
            lemma_pow2_unfold(d + 1);
            lemma_pow2_unfold(d);
            lemma_pow2_pos(e);
        }
        self.factor = self.factor / 2;
        self.index = self.index - self.factor / 2;
        self.offset = self.offset * 2;
        self.index
    }

    /// Move to the right child of the current node and return it; on a leaf
    /// (factor 2) this is a no-op, not an error.
    pub fn right_child(&mut self) -> (r: usize)
        requires
            old(self).wf(),
        ensures
            final(self).wf(),
            r == final(self).index,
            node_depth(old(self).index as nat) == 0 ==> *final(self) == *old(self),
            node_depth(old(self).index as nat) > 0 ==> final(self).index as nat == node_right_child(
                old(self).index as nat,
            ) && final(self).factor == old(self).factor / 2 && final(self).offset == 2 * old(self).offset + 1,
    {
        proof {
            lemma2_to64();
            if node_depth(old(self).index as nat) >= 1 {
                lemma_pow2_strictly_increases(1, node_depth(old(self).index as nat) + 1);
            }
        }
        if self.factor == 2 {
            return self.index;
        }
        proof {
            let i = old(self).index as nat;
            let d = node_depth(i);
            let o = node_offset(i);
            let e = (d - 1) as nat;
            lemma_node_reconstruct(i);
            lemma_child_step(i);
            lemma_wf_level(*old(self));
            lemma_usize_max_pow2();
            lemma_child_fits(i, usize::BITS as nat);
            lemma_depth_of_index(e, 2 * o + 1);
            lemma_offset_of_index(e, 2 * o + 1);
            lemma_index_lower(e, 2 * o + 1);
            lemma_pow2_unfold(d + 1);
            lemma_pow2_unfold(d);
            lemma_pow2_pos(e);
        }
        self.factor = self.factor / 2;
        self.index = self.index + self.factor / 2;
        self.offset = 2 * self.offset + 1;
        self.index
    }
}

impl Default for Iterator {
    /// A fresh cursor positioned on index 0.
    fn default() -> (r: Self)
        ensures
            r.wf(),
            r.index == 0,
    {
        proof {
            lemma_usize_max_pow2();
        }
        Iterator::new(0)
    }
}

} // verus!
