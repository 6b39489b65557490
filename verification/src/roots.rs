//! Full-roots decomposition.
//!
//! An even index `2*n` marks the boundary after `n` leaves.  The prefix of
//! `n` leaves is covered by a unique minimal sequence of maximal perfect
//! subtrees — the binary decomposition of `n` into powers of two, largest
//! block first.  [`iter_full_roots`] yields the root index of each block
//! lazily; [`full_roots`] collects them into a vector.  An odd boundary is
//! rejected with a typed error rather than a panic, since boundary values
//! may come from untrusted callers.

use vstd::prelude::*;
use vstd::arithmetic::power2::{pow2, lemma_pow2_pos, lemma_pow2_unfold, lemma_pow2_adds,
    lemma_pow2_strictly_increases, lemma2_to64};
use vstd::arithmetic::div_mod::{lemma_fundamental_div_mod, lemma_mod_multiples_basic};
use crate::model::{node_depth, node_left_span, node_right_span, node_index,
    lemma_depth_of_index, lemma_span_bounds};
use crate::is_odd;

verus! {

/// Error returned when a full-roots decomposition is asked of an odd index,
/// which does not denote a leaf-count boundary.
#[derive(Debug, Clone, Copy, PartialEq, Eq)]
pub struct OddIndexError;

/// Largest power of two that is at most `n`, for `n >= 1`.
pub open spec fn largest_pow2_le(n: nat) -> nat
    decreases n,
{
    if n <= 1 {
        1
    } else {
        2 * largest_pow2_le(n / 2)
    }
}

/// Floor of the base-2 logarithm of `n`.
pub open spec fn floor_log2(n: nat) -> nat
    decreases n,
{
    if n <= 1 {
        0
    } else {
        1 + floor_log2(n / 2)
    }
}

/// `largest_pow2_le` is the power of two at `floor_log2`, and `n` lies in
/// the half-open window it starts.
pub proof fn lemma_largest_pow2_le_bounds(n: nat)
    requires
        n >= 1,
    ensures
        largest_pow2_le(n) == pow2(floor_log2(n)),
        1 <= largest_pow2_le(n),
        largest_pow2_le(n) <= n,
        n < 2 * largest_pow2_le(n),
    decreases n,
{
    if n <= 1 {
        lemma2_to64();
    } else {
        lemma_largest_pow2_le_bounds(n / 2);
        lemma_pow2_unfold(floor_log2(n / 2) + 1);
        lemma_fundamental_div_mod(n as int, 2);
    }
}

/// A power-of-two window pins the decomposition factor down uniquely.
pub proof fn lemma_largest_pow2_le_unique(n: nat, e: nat)
    requires
        pow2(e) <= n,
        n < 2 * pow2(e),
    ensures
        largest_pow2_le(n) == pow2(e),
{
    lemma_pow2_pos(e);
    lemma_largest_pow2_le_bounds(n);
    let l = floor_log2(n);
    lemma_pow2_unfold(e + 1);
    lemma_pow2_unfold(l + 1);
    if e < l {
        if e + 1 < l {
            lemma_pow2_strictly_increases(e + 1, l);
        }
        assert(false);
    }
    if e > l {
        if l + 1 < e {
            lemma_pow2_strictly_increases(l + 1, e);
        }
        assert(false);
    }
}

/// Root indices of the maximal perfect subtrees that cover `tmp` more
/// leaves, the next one starting at index-space offset `off`: the standard
/// binary decomposition of `tmp`, largest block first.
pub open spec fn roots_from(off: nat, tmp: nat) -> Seq<nat>
    decreases tmp via roots_from_decreases
{
    if tmp == 0 {
        Seq::empty()
    } else {
        let f = largest_pow2_le(tmp);
        seq![(off + f - 1) as nat] + roots_from(off + 2 * f, (tmp - f) as nat)
    }
}

#[via_fn]
proof fn roots_from_decreases(off: nat, tmp: nat) {
    if tmp > 0 {
        lemma_largest_pow2_le_bounds(tmp);
    }
}

/// The full-subtree roots that cover the first `n` leaves.
pub open spec fn full_roots_of(n: nat) -> Seq<nat> {
    roots_from(0, n)
}

/// View of a vector of indices as the mathematical sequence it holds.
pub open spec fn as_nats(s: Seq<usize>) -> Seq<nat> {
    s.map_values(|v: usize| v as nat)
}

/// Total number of leaves covered by the subtrees rooted at the listed
/// indices: each root at depth `d` spans `2^d` leaves.
pub open spec fn sum_leaves(s: Seq<nat>) -> nat
    decreases s.len(),
{
    if s.len() == 0 {
        0
    } else {
        pow2(node_depth(s[0])) + sum_leaves(s.drop_first())
    }
}

/// Induction core of the coverage law.  Starting at an index-space offset
/// aligned to the first block, the decomposition emits blocks whose leaf
/// spans tile `[off, off + 2*tmp)` gaplessly from left to right, with
/// strictly decreasing depths, covering `tmp` leaves in total.
proof fn lemma_roots_from_props(off: nat, tmp: nat)
    requires
        tmp > 0 ==> off % (2 * largest_pow2_le(tmp)) == 0,
    ensures
        roots_from(off, tmp).len() == 0 <==> tmp == 0,
        tmp > 0 ==> node_depth(roots_from(off, tmp)[0]) == floor_log2(tmp),
        tmp > 0 ==> node_left_span(roots_from(off, tmp)[0]) == off,
        tmp > 0 ==> node_right_span(
            roots_from(off, tmp)[roots_from(off, tmp).len() - 1],
        ) == off + 2 * tmp - 2,
        forall|k: int|
            #![trigger roots_from(off, tmp)[k]]
            0 <= k < roots_from(off, tmp).len() - 1 ==> node_left_span(
                roots_from(off, tmp)[k + 1],
            ) == node_right_span(roots_from(off, tmp)[k]) + 2 && node_depth(
                roots_from(off, tmp)[k + 1],
            ) < node_depth(roots_from(off, tmp)[k]),
        sum_leaves(roots_from(off, tmp)) == tmp,
    decreases tmp,
{
    if tmp > 0 {
        lemma_largest_pow2_le_bounds(tmp);
        let f = largest_pow2_le(tmp);
        let e = floor_log2(tmp);
        let r0 = (off + f - 1) as nat;
        let q = off / (2 * f);
        lemma_fundamental_div_mod(off as int, (2 * f) as int);
        lemma_pow2_unfold(e + 1);
        assert(q * pow2(e + 1) == off) by (nonlinear_arith)
            requires
                pow2(e + 1) == 2 * f,
                off == (2 * f) * q,
        ;
        assert(r0 == node_index(e, q));
        lemma_depth_of_index(e, q);
        lemma_span_bounds(r0);
        let off2 = off + 2 * f;
        let tmp2 = (tmp - f) as nat;
        let s = roots_from(off, tmp);
        let s2 = roots_from(off2, tmp2);
        assert(s == seq![r0] + s2);
        if tmp2 > 0 {
            lemma_largest_pow2_le_bounds(tmp2);
            let f2 = largest_pow2_le(tmp2);
            let e2 = floor_log2(tmp2);
            if e2 >= e {
                if e2 > e {
                    lemma_pow2_strictly_increases(e, e2);
                }
                assert(false);
            }
            lemma_pow2_adds(e2 + 1, (e - e2) as nat);
            assert(off2 == ((q + 1) * pow2((e - e2) as nat)) * pow2(e2 + 1)) by (nonlinear_arith)
                requires
                    off == (2 * f) * q,
                    pow2(e + 1) == 2 * f,
                    off2 == off + 2 * f,
                    pow2(e + 1) == pow2(e2 + 1) * pow2((e - e2) as nat),
            ;
            lemma_mod_multiples_basic(
                ((q + 1) * pow2((e - e2) as nat)) as int,
                pow2(e2 + 1) as int,
            );
            lemma_pow2_unfold(e2 + 1);
        }
        lemma_roots_from_props(off2, tmp2);
        assert(s[0] == r0);
        assert(s.len() == 1 + s2.len());
        assert(s.drop_first() =~= s2);
        assert(sum_leaves(s) == pow2(e) + sum_leaves(s2));
        if tmp2 > 0 {
            lemma_span_bounds(s2[0]);
        }
        assert forall|k: int|
            0 <= k < s.len() - 1 implies node_left_span(#[trigger] s[k + 1]) == node_right_span(
            s[k],
        ) + 2 && node_depth(s[k + 1]) < node_depth(s[k]) by {
            if k == 0 {
                assert(s[1] == s2[0]);
            } else {
                assert(s[k] == s2[k - 1]);
                assert(s[k + 1] == s2[k]);
                assert(s2[(k - 1) + 1] == s2[k]);
            }
        }
    }
}

/// Coverage of the full-roots decomposition: for a boundary after `n`
/// leaves, the emitted roots' leaf spans are contiguous, non-overlapping and
/// left-to-right, starting at leaf index 0 and ending at `2*n - 2`; the
/// subtree sizes strictly decrease; and the spanned leaves add up to
/// exactly `n`.
pub proof fn lemma_full_roots_cover(n: nat)
    ensures
        full_roots_of(n).len() == 0 <==> n == 0,
        n > 0 ==> node_left_span(full_roots_of(n)[0]) == 0,
        n > 0 ==> node_right_span(
            full_roots_of(n)[full_roots_of(n).len() - 1],
        ) == 2 * n - 2,
        forall|k: int|
            #![trigger full_roots_of(n)[k]]
            0 <= k < full_roots_of(n).len() - 1 ==> node_left_span(
                full_roots_of(n)[k + 1],
            ) == node_right_span(full_roots_of(n)[k]) + 2,
        forall|k: int|
            #![trigger full_roots_of(n)[k]]
            0 <= k < full_roots_of(n).len() - 1 ==> pow2(node_depth(full_roots_of(n)[k + 1]))
                < pow2(node_depth(full_roots_of(n)[k])),
        sum_leaves(full_roots_of(n)) == n,
{
    if n > 0 {
        lemma_largest_pow2_le_bounds(n);
        lemma_pow2_pos(floor_log2(n));
        lemma_mod_multiples_basic(0, (2 * largest_pow2_le(n)) as int);
    }
    lemma_roots_from_props(0, n);
    let s = full_roots_of(n);
    assert forall|k: int|
        0 <= k < s.len() - 1 implies pow2(node_depth(#[trigger] s[k + 1])) < pow2(
        node_depth(s[k]),
    ) by {
        lemma_pow2_strictly_increases(node_depth(s[k + 1]), node_depth(s[k]));
    }
}

/// Lazily yields the full-subtree roots below an even boundary.
pub struct FullRootsIterator {
    tmp: usize,
    offset: usize,
}

impl FullRootsIterator {
    /// The running offset plus twice the remaining leaf count stays within
    /// the word, so every index the iterator will emit fits in a `usize`.
    pub closed spec fn wf(&self) -> bool {
        self.offset + 2 * self.tmp <= usize::MAX
    }

    /// The root indices still to be emitted.
    pub closed spec fn remaining(&self) -> Seq<nat> {
        roots_from(self.offset as nat, self.tmp as nat)
    }

    /// Emit the next full root, or `None` once the boundary is covered.
    pub fn next(&mut self) -> (r: Option<usize>)
        requires
            old(self).wf(),
        ensures
            final(self).wf(),
            old(self).remaining().len() == 0 ==> r is None && *final(self) == *old(self),
            old(self).remaining().len() > 0 ==> (r matches Some(x) && x as nat == old(
                self,
            ).remaining()[0] && final(self).remaining() == old(self).remaining().drop_first()),
    {
        if self.tmp == 0 {
            return None;
        }
        let tmp = self.tmp;
        let off = self.offset;
        let mut factor: usize = 1;
        let ghost mut e: nat = 0;
        proof {
            lemma2_to64();
        }
        while factor * 2 <= tmp
            invariant
                factor as nat == pow2(e),
                1 <= factor <= tmp,
                2 * tmp <= usize::MAX,
            decreases tmp - factor,
        {
            factor = factor * 2;
            proof {
                e = e + 1;
                lemma_pow2_unfold(e);
            }
        }
        proof {
            lemma_largest_pow2_le_unique(tmp as nat, e);
        }
        let result = off + factor - 1;
        self.offset = off + 2 * factor;
        self.tmp = tmp - factor;
        proof {
            assert(old(self).remaining() =~= seq![result as nat] + self.remaining());
            assert(old(self).remaining().drop_first() =~= self.remaining());
        }
        Some(result)
    }
}

/// Iterator over the full-subtree roots below the boundary `i == 2*n`: the
/// perfect subtrees that exactly and disjointly cover leaves `0 .. n`,
/// largest first.  Fails on an odd index, which is no leaf-count boundary.
pub fn iter_full_roots(i: usize) -> (r: Result<FullRootsIterator, OddIndexError>)
    ensures
        (i % 2 == 0) <==> r is Ok,
        r matches Ok(it) ==> it.wf() && it.remaining() == full_roots_of((i / 2) as nat),
{
    if is_odd(i) {
        return Result::Err(OddIndexError);
    }
    proof {
        lemma_fundamental_div_mod(i as int, 2);
    }
    let it = FullRootsIterator { tmp: i / 2, offset: 0 };
    Result::Ok(it)
}

/// Append to `nodes` all the full-subtree roots below the boundary `i`.
/// Fails on an odd index, leaving `nodes` untouched.
pub fn full_roots(i: usize, nodes: &mut Vec<usize>) -> (r: Result<(), OddIndexError>)
    ensures
        (i % 2 == 0) <==> r is Ok,
        i % 2 == 1 ==> final(nodes)@ == old(nodes)@,
        i % 2 == 0 ==> as_nats(final(nodes)@) == as_nats(old(nodes)@) + full_roots_of(
            (i / 2) as nat,
        ),
{
    let it_res = iter_full_roots(i);
    match it_res {
        Result::Err(e) => Result::Err(e),
        Result::Ok(mut it) => {
            let ghost nodes0: Seq<usize> = nodes@;
            loop
                invariant
                    it.wf(),
                    as_nats(nodes@) + it.remaining() == as_nats(nodes0) + full_roots_of(
                        (i / 2) as nat,
                    ),
                ensures
                    as_nats(nodes@) == as_nats(nodes0) + full_roots_of((i / 2) as nat),
                decreases it.remaining().len(),
            {
                let ghost rem_before = it.remaining();
                let n = it.next();
                match n {
                    Option::Some(x) => {
                        let ghost prev = nodes@;
                        nodes.push(x);
                        proof {
                            assert(as_nats(nodes@) =~= as_nats(prev).push(x as nat));
                            assert(as_nats(prev).push(x as nat) + it.remaining() =~= as_nats(
                                prev,
                            ) + rem_before);
                        }
                    },
                    Option::None => {
                        proof {
                            assert(as_nats(nodes@) + it.remaining() =~= as_nats(nodes@));
                        }
                        break;
                    },
                }
            }
            Result::Ok(())
        },
    }
}

} // verus!
