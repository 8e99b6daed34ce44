//! One octree node packed into a 32-bit word.
//!
//! Bits 0 to 15 hold the index of the node's first child, bits 16 to 23 the
//! bitmask of filled children, bit 24 marks a leaf and bit 25 a subdivided
//! node. Bits 26 to 31 are unused by the node operations and kept as they are.

use vstd::prelude::*;
use vstd::arithmetic::power2::{pow2, lemma2_to64};
use crate::bits::{bit_of, with_bit, set_bit, bitcheck, read_bitrange, write_bitrange, range_mask};

verus! {

/// The fields of a node word.
pub struct NodeFields {
    pub first_child: u32,
    pub child_mask: u32,
    pub leaf: bool,
    pub subdiv: bool,
    pub upper: u32,
}

/// The fields that the word `x` holds.
pub open spec fn node_fields(x: u32) -> NodeFields {
    NodeFields {
        first_child: x % 0x1_0000,
        child_mask: (x / 0x1_0000) % 0x100,
        leaf: (x / 0x100_0000) % 2 == 1,
        subdiv: (x / 0x200_0000) % 2 == 1,
        upper: x / 0x400_0000,
    }
}

/// Index of the first child stored in `x`.
pub open spec fn first_child(x: u32) -> u32 {
    node_fields(x).first_child
}

/// Whether `x` is marked as subdivided.
pub open spec fn is_subdiv_word(x: u32) -> bool {
    node_fields(x).subdiv
}

/// Whether `x` is marked as a leaf.
pub open spec fn is_leaf_word(x: u32) -> bool {
    node_fields(x).leaf
}

/// Whether child `i` (below 8) is marked as filled in `x`.
pub open spec fn child_filled(x: u32, i: u32) -> bool {
    (node_fields(x).child_mask / pow2_small(i)) % 2 == 1
}

/// `2^i` for the eight child positions.
pub open spec fn pow2_small(i: u32) -> u32 {
    if i == 0 { 1 } else if i == 1 { 2 } else if i == 2 { 4 } else if i == 3 { 8 }
    else if i == 4 { 16 } else if i == 5 { 32 } else if i == 6 { 64 } else { 128 }
}

/// Two words with the same fields are the same word.
pub proof fn lemma_node_fields_injective(x: u32, y: u32)
    requires
        node_fields(x) == node_fields(y),
    ensures
        x == y,
{
    let fx = node_fields(x);
    let fy = node_fields(y);
    assert(fx.first_child == fy.first_child && fx.child_mask == fy.child_mask && fx.leaf == fy.leaf
        && fx.subdiv == fy.subdiv && fx.upper == fy.upper);
    assert(x == y) by (bit_vector)
        requires
            x % 0x1_0000 == y % 0x1_0000,
            (x / 0x1_0000) % 0x100 == (y / 0x1_0000) % 0x100,
            ((x / 0x100_0000) % 2 == 1) == ((y / 0x100_0000) % 2 == 1),
            ((x / 0x200_0000) % 2 == 1) == ((y / 0x200_0000) % 2 == 1),
            x / 0x400_0000 == y / 0x400_0000,
    ;
}

/// The operations on a node word.
pub trait Octant: Sized {
    fn set_subdiv(&self, subdiv: bool) -> Self;

    fn set_leaf(&self, leaf: bool) -> Self;

    fn has_children(&self) -> bool;

    fn is_leaf(&self) -> bool;

    fn is_subdiv(&self) -> bool;

    fn check_child_filled(&self, child_idx: u32) -> bool
        requires
            child_idx < 16,
    ;

    fn set_child_filled(&self, child_idx: u32, filled: bool) -> Self
        requires
            child_idx < 16,
    ;

    fn get_child_bitmask(&self) -> u32;

    fn get_first_child_idx(&self) -> Self;

    fn set_first_child_idx(&self, child_offset: u32) -> Self;
}

impl Octant for u32 {
    fn set_leaf(&self, leaf: bool) -> (r: u32)
        ensures
            node_fields(r) == (NodeFields { leaf, ..node_fields(*self) }),
            r == with_bit(*self, 24, leaf),
    {
        let r = set_bit(*self, 24, leaf);
        proof {
            lemma_with_leaf(*self, leaf);
        }
        r
    }

    fn set_subdiv(&self, subdiv: bool) -> (r: u32)
        ensures
            node_fields(r) == (NodeFields { subdiv, ..node_fields(*self) }),
            r == with_bit(*self, 25, subdiv),
    {
        let r = set_bit(*self, 25, subdiv);
        proof {
            lemma_with_subdiv(*self, subdiv);
        }
        r
    }

    fn has_children(&self) -> (r: bool)
        ensures
            r == (node_fields(*self).child_mask > 0),
    {
        let mask = read_bitrange(*self, 16, 23);
        proof {
            lemma2_to64();
        }
        mask > 0
    }

    fn is_leaf(&self) -> (r: bool)
        ensures
            r == node_fields(*self).leaf,
    {
        let x = *self;
        let r = bitcheck(x, 24);
        proof {
            assert(((x >> 24u32) & 1u32 == 1u32) == ((x / 0x100_0000) % 2 == 1)) by (bit_vector);
        }
        r
    }

    fn is_subdiv(&self) -> (r: bool)
        ensures
            r == node_fields(*self).subdiv,
    {
        let x = *self;
        let r = bitcheck(x, 25);
        proof {
            assert(((x >> 25u32) & 1u32 == 1u32) == ((x / 0x200_0000) % 2 == 1)) by (bit_vector);
        }
        r
    }

    fn check_child_filled(&self, child_idx: u32) -> (r: bool)
        ensures
            r == bit_of(*self, (16 + child_idx) as u32),
            child_idx < 8 ==> r == child_filled(*self, child_idx),
    {
        let x = *self;
        let r = bitcheck(x, 16 + child_idx);
        proof {
            if child_idx < 8 {
                lemma_child_bit(x, child_idx);
            }
        }
        r
    }

    fn set_child_filled(&self, child_idx: u32, filled: bool) -> (r: u32)
        ensures
            forall|j: u32|
                j < 32 ==> (bit_of(r, j) == if j == 16 + child_idx {
                    filled
                } else {
                    bit_of(*self, j)
                }),
            child_idx < 8 ==> {
                &&& node_fields(r).first_child == node_fields(*self).first_child
                &&& node_fields(r).leaf == node_fields(*self).leaf
                &&& node_fields(r).subdiv == node_fields(*self).subdiv
                &&& node_fields(r).upper == node_fields(*self).upper
                &&& child_filled(r, child_idx) == filled
                &&& forall|k: u32| k < 8 && k != child_idx ==> child_filled(r, k) == child_filled(*self, k)
            },
            r == with_bit(*self, (16 + child_idx) as u32, filled),
    {
        let x = *self;
        let r = set_bit(x, 16 + child_idx, filled);
        proof {
            if child_idx < 8 {
                lemma_set_child(x, child_idx, filled, r);
            }
        }
        r
    }

    fn get_child_bitmask(&self) -> (r: u32)
        ensures
            r == node_fields(*self).child_mask,
    {
        let r = read_bitrange(*self, 16, 23);
        proof {
            lemma2_to64();
        }
        r
    }

    fn get_first_child_idx(&self) -> (r: u32)
        ensures
            r == node_fields(*self).first_child,
    {
        let r = read_bitrange(*self, 0, 15);
        proof {
            lemma2_to64();
        }
        r
    }

    fn set_first_child_idx(&self, child_offset: u32) -> (r: u32)
        ensures
            node_fields(r) == (NodeFields { first_child: child_offset % 0x1_0000, ..node_fields(*self) }),
            r == with_first_child(*self, child_offset),
    {
        let r = write_bitrange(*self, child_offset, 0, 15);
        proof {
            let x = *self;
            assert(range_mask(0, 16) == 0xFFFFu32) by (bit_vector);
            assert(r == with_first_child(x, child_offset)) by (bit_vector)
                requires
                    r == (x & !0xFFFFu32) | ((child_offset << 0u32) & 0xFFFFu32),
            ;
            lemma_with_first_child(x, child_offset);
        }
        r
    }
}

/// `x` with its first-child index replaced by the low 16 bits of `off`.
pub open spec fn with_first_child(x: u32, off: u32) -> u32 {
    (x & !0xFFFFu32) | (off & 0xFFFFu32)
}

/// Setting the leaf bit changes the leaf field alone.
pub proof fn lemma_with_leaf(x: u32, v: bool)
    ensures
        node_fields(with_bit(x, 24, v)) == (NodeFields { leaf: v, ..node_fields(x) }),
{
    let r = with_bit(x, 24, v);
    assert(
        r % 0x1_0000 == x % 0x1_0000
        && (r / 0x1_0000) % 0x100 == (x / 0x1_0000) % 0x100
        && ((r / 0x100_0000) % 2 == 1) == v
        && (r / 0x200_0000) % 2 == (x / 0x200_0000) % 2
        && r / 0x400_0000 == x / 0x400_0000
    ) by (bit_vector)
        requires
            r == if v { x | (1u32 << 24u32) } else { x & !(1u32 << 24u32) },
    ;
}

/// Setting the subdivide bit changes the subdivide field alone.
pub proof fn lemma_with_subdiv(x: u32, v: bool)
    ensures
        node_fields(with_bit(x, 25, v)) == (NodeFields { subdiv: v, ..node_fields(x) }),
{
    let r = with_bit(x, 25, v);
    assert(
        r % 0x1_0000 == x % 0x1_0000
        && (r / 0x1_0000) % 0x100 == (x / 0x1_0000) % 0x100
        && (r / 0x100_0000) % 2 == (x / 0x100_0000) % 2
        && ((r / 0x200_0000) % 2 == 1) == v
        && r / 0x400_0000 == x / 0x400_0000
    ) by (bit_vector)
        requires
            r == if v { x | (1u32 << 25u32) } else { x & !(1u32 << 25u32) },
    ;
}

/// Replacing the first-child index changes that field alone.
pub proof fn lemma_with_first_child(x: u32, off: u32)
    ensures
        node_fields(with_first_child(x, off)) == (NodeFields { first_child: off % 0x1_0000, ..node_fields(x) }),
{
    let r = with_first_child(x, off);
    assert(
        r % 0x1_0000 == off % 0x1_0000
        && (r / 0x1_0000) % 0x100 == (x / 0x1_0000) % 0x100
        && (r / 0x100_0000) % 2 == (x / 0x100_0000) % 2
        && (r / 0x200_0000) % 2 == (x / 0x200_0000) % 2
        && r / 0x400_0000 == x / 0x400_0000
    ) by (bit_vector)
        requires
            r == (x & !0xFFFFu32) | (off & 0xFFFFu32),
    ;
}

/// Marking child `i` filled or empty changes that child's bit alone.
pub proof fn lemma_with_child(x: u32, i: u32, filled: bool)
    requires
        i < 8,
    ensures
        ({
            let r = with_bit(x, (16 + i) as u32, filled);
            &&& node_fields(r).first_child == node_fields(x).first_child
            &&& node_fields(r).leaf == node_fields(x).leaf
            &&& node_fields(r).subdiv == node_fields(x).subdiv
            &&& node_fields(r).upper == node_fields(x).upper
            &&& child_filled(r, i) == filled
            &&& forall|k: u32| k < 8 && k != i ==> child_filled(r, k) == child_filled(x, k)
        }),
{
    lemma_set_child(x, i, filled, with_bit(x, (16 + i) as u32, filled));
}

proof fn lemma_child_bit(x: u32, i: u32)
    requires
        i < 8,
    ensures
        bit_of(x, (16 + i) as u32) == child_filled(x, i),
{
    let p = pow2_small(i);
    assert(bit_of(x, (16 + i) as u32) == ((((x / 0x1_0000) % 0x100) / p) % 2 == 1)) by (bit_vector)
        requires
            i < 8,
            p == if i == 0 { 1u32 } else if i == 1 { 2u32 } else if i == 2 { 4u32 } else if i == 3 { 8u32 }
                else if i == 4 { 16u32 } else if i == 5 { 32u32 } else if i == 6 { 64u32 } else { 128u32 },
    ;
}

proof fn lemma_set_child(x: u32, i: u32, filled: bool, r: u32)
    requires
        i < 8,
        r == if filled { x | (1u32 << ((16 + i) as u32)) } else { x & !(1u32 << ((16 + i) as u32)) },
    ensures
        node_fields(r).first_child == node_fields(x).first_child,
        node_fields(r).leaf == node_fields(x).leaf,
        node_fields(r).subdiv == node_fields(x).subdiv,
        node_fields(r).upper == node_fields(x).upper,
        child_filled(r, i) == filled,
        forall|k: u32| k < 8 && k != i ==> child_filled(r, k) == child_filled(x, k),
{
    assert(
        r % 0x1_0000 == x % 0x1_0000
        && (r / 0x100_0000) % 2 == (x / 0x100_0000) % 2
        && (r / 0x200_0000) % 2 == (x / 0x200_0000) % 2
        && r / 0x400_0000 == x / 0x400_0000
    ) by (bit_vector)
        requires
            i < 8,
            r == if filled { x | (1u32 << ((16 + i) as u32)) } else { x & !(1u32 << ((16 + i) as u32)) },
    ;
    assert forall|k: u32| k < 8 implies child_filled(r, k) == if k == i { filled } else { child_filled(x, k) } by {
        let p = pow2_small(k);
        assert(((((r / 0x1_0000) % 0x100) / p) % 2 == 1) == if k == i {
            filled
        } else {
            (((x / 0x1_0000) % 0x100) / p) % 2 == 1
        }) by (bit_vector)
            requires
                i < 8,
                k < 8,
                r == if filled { x | (1u32 << ((16 + i) as u32)) } else { x & !(1u32 << ((16 + i) as u32)) },
                p == if k == 0 { 1u32 } else if k == 1 { 2u32 } else if k == 2 { 4u32 } else if k == 3 { 8u32 }
                    else if k == 4 { 16u32 } else if k == 5 { 32u32 } else if k == 6 { 64u32 } else { 128u32 },
        ;
    }
}

} // verus!
