//! The octree: a flat list of node words, the root at index 0 and the eight
//! children of a subdivided node stored next to each other, starting at the
//! node's first-child index.
//!
//! A walk down the tree is recorded as one `BranchInfo` per depth. Where the
//! walk goes is given as a path of child positions, one per depth below the
//! root; the caller derives it from a position in space.

use vstd::prelude::*;
use crate::bits::with_bit;
use crate::octant::{
    Octant, NodeFields, node_fields, first_child, is_subdiv_word, is_leaf_word, with_first_child,
    lemma_with_leaf, lemma_with_subdiv, lemma_with_first_child, lemma_with_child,
};

verus! {

pub const MAX_DEPTH: usize = 6;

pub const MAX_DEPTH_LIMIT: usize = 16;

/// One step of a walk: the node reached, where it is stored, its parent, its
/// edge length and its position in the parent.
#[derive(Clone, Copy)]
pub struct BranchInfo {
    pub parent_idx: u32,
    pub parent: u32,
    pub idx: u32,
    pub node: u32,
    pub span: u32,
    pub mask: u32,
}

/// The depth a walk has reached.
#[derive(Clone, Copy)]
pub struct PosInfo {
    pub depth: u32,
}

/// The branch with every field zero.
pub open spec fn empty_branch() -> BranchInfo {
    BranchInfo { parent_idx: 0, parent: 0, idx: 0, node: 0, span: 0, mask: 0 }
}

impl Default for BranchInfo {
    fn default() -> (r: BranchInfo)
        ensures
            r == empty_branch(),
    {
        BranchInfo { parent_idx: 0, parent: 0, idx: 0, node: 0, span: 0, mask: 0 }
    }
}

impl Default for PosInfo {
    fn default() -> (r: PosInfo)
        ensures
            r.depth == 0,
    {
        PosInfo { depth: 0 }
    }
}

/// The branch one level below `b`, before the child is chosen: it knows its
/// parent and its span, half of the parent's.
pub open spec fn child_template(b: BranchInfo) -> BranchInfo {
    BranchInfo { parent_idx: b.idx, parent: b.node, idx: 0, node: 0, span: b.span / 2, mask: 0 }
}

impl BranchInfo {
    pub fn idx(&self) -> (r: usize)
        ensures
            r == self.idx,
    {
        self.idx as usize
    }

    pub fn parent_idx(&self) -> (r: usize)
        ensures
            r == self.parent_idx,
    {
        self.parent_idx as usize
    }

    /// Index of the parent's first child.
    pub fn first_child_idx(&self) -> (r: u32)
        ensures
            r == first_child(self.parent),
    {
        self.parent.get_first_child_idx()
    }

    /// Index and word of the parent's child at position `child_mask`.
    pub fn get_child(&self, octant_data: &Vec<u32>, child_mask: u32) -> (r: (u32, u32))
        requires
            first_child(self.parent) + child_mask < octant_data.len(),
            first_child(self.parent) + child_mask <= u32::MAX,
        ensures
            r.0 == first_child(self.parent) + child_mask,
            r.1 == octant_data@[r.0 as int],
    {
        let child_idx = self.first_child_idx() + child_mask;
        (child_idx, octant_data[child_idx as usize])
    }

    /// The sibling at position `neighbor_mask` of this branch's node.
    pub fn move_to_neighbor(&self, octant_data: &Vec<u32>, neighbor_mask: u32) -> (r: BranchInfo)
        requires
            self.mask <= self.idx,
            self.idx - self.mask + neighbor_mask < octant_data.len(),
            self.idx - self.mask + neighbor_mask <= u32::MAX,
        ensures
            r == (BranchInfo {
                idx: (self.idx - self.mask + neighbor_mask) as u32,
                node: octant_data@[self.idx - self.mask + neighbor_mask],
                mask: neighbor_mask,
                ..*self
            }),
    {
        let mut branch = *self;
        branch.idx = branch.idx - branch.mask + neighbor_mask;
        branch.node = octant_data[branch.idx()];
        branch.mask = neighbor_mask;
        branch
    }
}

impl PosInfo {
    pub fn depth_idx(&self) -> (r: usize)
        ensures
            r == self.depth,
    {
        self.depth as usize
    }

    /// The branch at the current depth.
    pub fn branch(&self, branch_data: &[BranchInfo; MAX_DEPTH]) -> (r: BranchInfo)
        requires
            self.depth < MAX_DEPTH,
        ensures
            r == branch_data@[self.depth as int],
    {
        branch_data[self.depth_idx()]
    }

    /// The neighbour in direction `dir_mask` of the node at the current
    /// depth, as far as this walk goes: when the current branch's position
    /// already lies on that side (`mask & dir_mask` non-zero) the walk moves
    /// up until `max_depth` levels are used and no neighbour is given;
    /// otherwise the sibling at `mask | dir_mask` is looked up and, when it
    /// is not subdivided, the position itself is given back.
    pub fn neighbor(
        &self,
        octant_data: &Vec<u32>,
        branch_data: &mut [BranchInfo; MAX_DEPTH],
        max_depth: usize,
        dir_mask: u32,
    ) -> (r: Option<PosInfo>)
        requires
            self.depth < MAX_DEPTH,
            ({
                let b = old(branch_data)@[self.depth as int];
                let n = b.idx - b.mask + (b.mask | dir_mask);
                self.depth < max_depth ==> if b.mask & dir_mask > 0 {
                    max_depth - self.depth <= self.depth
                } else {
                    &&& b.mask <= b.idx
                    &&& n < octant_data.len()
                    &&& n <= u32::MAX
                    &&& !is_subdiv_word(octant_data@[n])
                }
            }),
        ensures
            final(branch_data)@ == old(branch_data)@,
            r == if max_depth <= self.depth {
                None
            } else if old(branch_data)@[self.depth as int].mask & dir_mask > 0 {
                None
            } else {
                Some(*self)
            },
    {
        let mut pos_info = *self;
        let mut step: usize = self.depth_idx();
        while step < max_depth
            invariant
                self.depth <= step <= max_depth || max_depth <= self.depth,
                self.depth < MAX_DEPTH,
                step >= self.depth,
                pos_info.depth == self.depth - (step - self.depth),
                pos_info.depth >= 0,
                self.depth < max_depth ==> old(branch_data)@[self.depth as int].mask & dir_mask > 0
                    ==> max_depth - self.depth <= self.depth,
                step > self.depth ==> old(branch_data)@[self.depth as int].mask & dir_mask > 0,
                branch_data@ == old(branch_data)@,
                ({
                    let b = old(branch_data)@[self.depth as int];
                    let n = b.idx - b.mask + (b.mask | dir_mask);
                    self.depth < max_depth && b.mask & dir_mask == 0 ==> {
                        &&& b.mask <= b.idx
                        &&& n < octant_data.len()
                        &&& n <= u32::MAX
                        &&& !is_subdiv_word(octant_data@[n])
                    }
                }),
            decreases max_depth - step,
        {
            let branch = branch_data[self.depth_idx()];
            let new_mask = branch.mask | dir_mask;
            let move_up = branch.mask & dir_mask;
            if move_up > 0 {
                pos_info.move_up();
            } else {
                let neighbor = self.branch(branch_data).move_to_neighbor(octant_data, new_mask);
                assert(!is_subdiv_word(neighbor.node));
                return Some(pos_info);
            }
            step = step + 1;
        }
        None
    }

    /// Goes up one level.
    pub fn move_up(&mut self)
        requires
            0 < old(self).depth < MAX_DEPTH,
        ensures
            final(self).depth == old(self).depth - 1,
    {
        self.depth = self.depth - 1;
    }

    /// Goes down one level: the new branch is built by `update` from the
    /// child template of the current branch and stored at the new depth.
    pub fn update_branch_to_child<F: FnOnce(&BranchInfo) -> BranchInfo>(
        &mut self,
        branch_data: &mut [BranchInfo; MAX_DEPTH],
        update: F,
    )
        requires
            old(self).depth + 1 < MAX_DEPTH,
            update.requires((&child_template(old(branch_data)@[old(self).depth as int]),)),
        ensures
            final(self).depth == old(self).depth + 1,
            update.ensures(
                (&child_template(old(branch_data)@[old(self).depth as int]),),
                final(branch_data)@[final(self).depth as int],
            ),
            forall|d: int|
                0 <= d < MAX_DEPTH && d != final(self).depth ==> final(branch_data)@[d] == old(
                    branch_data,
                )@[d],
    {
        let old_branch = branch_data[self.depth_idx()];
        self.depth = self.depth + 1;
        let template = BranchInfo {
            parent_idx: old_branch.idx,
            parent: old_branch.node,
            idx: 0,
            node: 0,
            span: old_branch.span / 2,
            mask: 0,
        };
        let branch = update(&template);
        branch_data[self.depth_idx()] = branch;
    }

    /// Goes down one level into the child at position `mask`: `select_idx`
    /// is handed the child template with that position and returns the
    /// branch to store.
    pub fn move_into_child<F: FnOnce(BranchInfo) -> BranchInfo>(
        &mut self,
        branch_data: &mut [BranchInfo; MAX_DEPTH],
        mask: u32,
        select_idx: F,
    )
        requires
            old(self).depth + 1 < MAX_DEPTH,
            select_idx.requires(
                (BranchInfo { mask, ..child_template(old(branch_data)@[old(self).depth as int]) },),
            ),
        ensures
            final(self).depth == old(self).depth + 1,
            select_idx.ensures(
                (BranchInfo { mask, ..child_template(old(branch_data)@[old(self).depth as int]) },),
                final(branch_data)@[final(self).depth as int],
            ),
            forall|d: int|
                0 <= d < MAX_DEPTH && d != final(self).depth ==> final(branch_data)@[d] == old(
                    branch_data,
                )@[d],
    {
        let old_branch = branch_data[self.depth_idx()];
        self.depth = self.depth + 1;
        let template = BranchInfo {
            parent_idx: old_branch.idx,
            parent: old_branch.node,
            idx: 0,
            node: 0,
            span: old_branch.span / 2,
            mask,
        };
        let branch = select_idx(template);
        branch_data[self.depth_idx()] = branch;
    }
}

/// A node list that can be walked: it has a root, and every subdivided
/// node's eight children lie inside the list.
pub open spec fn tree_bounds(data: Seq<u32>) -> bool {
    &&& data.len() >= 1
    &&& forall|k: int|
        0 <= k < data.len() && #[trigger] is_subdiv_word(data[k]) ==> first_child(data[k]) + 8 <= data.len()
}

/// A node list whose children come after their parents: it can be walked,
/// and every subdivided node's eight children lie after it.
pub open spec fn tree_wf(data: Seq<u32>) -> bool {
    &&& tree_bounds(data)
    &&& forall|k: int| 0 <= k < data.len() && #[trigger] is_subdiv_word(data[k]) ==> k < first_child(data[k])
}

/// A path of child positions long enough for a full walk.
pub open spec fn valid_path(path: Seq<u32>) -> bool {
    &&& path.len() >= MAX_DEPTH - 1
    &&& forall|i: int| 0 <= i < MAX_DEPTH - 1 ==> #[trigger] path[i] < 8
}

/// The branch of the root.
pub open spec fn root_branch(data: Seq<u32>, root_span: u32) -> BranchInfo {
    BranchInfo { parent_idx: 0, parent: data[0], idx: 0, node: data[0], span: root_span, mask: 0 }
}

/// The branch of the child at position `mask` of the node of `b`.
pub open spec fn descend(data: Seq<u32>, b: BranchInfo, mask: u32) -> BranchInfo {
    let i = first_child(b.node) + mask;
    BranchInfo {
        parent_idx: b.idx,
        parent: b.node,
        idx: i as u32,
        node: data[i],
        span: b.span / 2,
        mask,
    }
}

/// `b` completed with the index and word of the child it names.
pub open spec fn with_chosen_child(data: Seq<u32>, b: BranchInfo) -> BranchInfo {
    let i = first_child(b.parent) + b.mask;
    BranchInfo { idx: i as u32, node: data[i], ..b }
}

/// The branch reached after following `path` for `d` levels.
pub open spec fn walk_branch(data: Seq<u32>, root_span: u32, path: Seq<u32>, d: nat) -> BranchInfo
    decreases d,
{
    if d == 0 {
        root_branch(data, root_span)
    } else {
        descend(data, walk_branch(data, root_span, path, (d - 1) as nat), path[d - 1])
    }
}

/// The depth at which a walk along `path` from depth `d` stops: at the first
/// node that is not subdivided, or at the deepest level.
pub open spec fn walk_depth(data: Seq<u32>, root_span: u32, path: Seq<u32>, d: nat) -> nat
    decreases MAX_DEPTH - 1 - d,
{
    if d >= MAX_DEPTH - 1 {
        (MAX_DEPTH - 1) as nat
    } else if !is_subdiv_word(walk_branch(data, root_span, path, d).node) {
        d
    } else {
        walk_depth(data, root_span, path, d + 1)
    }
}


/// One level of an insertion below branch `b`, towards the child at
/// position `mask`: a node that is not yet subdivided gets eight empty
/// children appended to the list and becomes subdivided; the child is marked
/// filled in its parent; the walk moves into the child. Gives the new list
/// and the child's branch.
pub open spec fn insert_step(data: Seq<u32>, b: BranchInfo, mask: u32) -> (Seq<u32>, BranchInfo) {
    let split = !is_subdiv_word(b.node);
    let parent = if split {
        with_first_child(with_bit(b.node, 25, true), data.len() as u32)
    } else {
        b.node
    };
    let grown = if split {
        data + Seq::new(8, |k: int| 0u32)
    } else {
        data
    };
    let written = grown.update(b.idx as int, with_bit(parent, (16 + mask) as u32, true));
    let i = first_child(parent) + mask;
    (
        written,
        BranchInfo {
            parent_idx: b.idx,
            parent,
            idx: i as u32,
            node: written[i],
            span: b.span / 2,
            mask,
        },
    )
}

/// The list and branch after `d` levels of inserting along `path`.
pub open spec fn insert_walk(data: Seq<u32>, root_span: u32, path: Seq<u32>, d: nat) -> (Seq<u32>, BranchInfo)
    decreases d,
{
    if d == 0 {
        (data, root_branch(data, root_span))
    } else {
        let prev = insert_walk(data, root_span, path, (d - 1) as nat);
        insert_step(prev.0, prev.1, path[d - 1])
    }
}

/// The list after inserting a leaf along `path`: every level is walked, and
/// the deepest node reached is marked as a leaf.
pub open spec fn insert_result(data: Seq<u32>, root_span: u32, path: Seq<u32>) -> Seq<u32> {
    let last = insert_walk(data, root_span, path, (MAX_DEPTH - 1) as nat);
    last.0.update(last.1.idx as int, with_bit(last.0[last.1.idx as int], 24, true))
}

/// One insertion level keeps the list walkable (and ordered, moving to a
/// later index, where it was ordered), and changes only the parent's word
/// among the old entries.
proof fn lemma_insert_step(data: Seq<u32>, b: BranchInfo, mask: u32)
    requires
        tree_bounds(data),
        b.idx < data.len(),
        b.node == data[b.idx as int],
        !is_subdiv_word(b.node) ==> data.len() + 8 <= 0x1_0000,
        mask < 8,
    ensures
        ({
            let (d2, c) = insert_step(data, b, mask);
            &&& tree_bounds(d2)
            &&& tree_wf(data) ==> tree_wf(d2) && b.idx < c.idx
            &&& d2.len() <= data.len() + 8
            &&& d2.len() >= data.len()
            &&& c.idx < d2.len()
            &&& c.node == d2[c.idx as int]
            &&& c.parent_idx == b.idx
            &&& is_subdiv_word(c.parent)
            &&& first_child(c.parent) + mask == c.idx
            &&& d2[b.idx as int] == with_bit(c.parent, (16 + mask) as u32, true)
            &&& forall|k: int| 0 <= k < data.len() && k != b.idx ==> d2[k] == data[k]
        }),
{
    let split = !is_subdiv_word(b.node);
    let (d2, c) = insert_step(data, b, mask);
    let parent = c.parent;
    if split {
        lemma_with_subdiv(b.node, true);
        lemma_with_first_child(with_bit(b.node, 25, true), data.len() as u32);
        assert(first_child(parent) == data.len());
    } else {
        lemma_child_in_bounds(data, b.idx as int, mask);
    }
    lemma_with_child(parent, mask, true);
    let grown = if split { data + Seq::new(8, |k: int| 0u32) } else { data };
    assert(tree_bounds(d2)) by {
        assert forall|k: int|
            0 <= k < d2.len() && #[trigger] is_subdiv_word(d2[k]) implies first_child(d2[k]) + 8 <= d2.len() by {
            if k == b.idx {
            } else if k < data.len() {
                assert(d2[k] == data[k]);
            } else {
                assert(d2[k] == 0u32);
                assert(!is_subdiv_word(0u32));
            }
        }
    }
    if tree_wf(data) {
        if !split {
            lemma_child_in_bounds(data, b.idx as int, mask);
        }
        assert forall|k: int| 0 <= k < d2.len() && #[trigger] is_subdiv_word(d2[k]) implies k < first_child(d2[k]) by {
            if k == b.idx {
            } else if k < data.len() {
                assert(d2[k] == data[k]);
            } else {
                assert(d2[k] == 0u32);
                assert(!is_subdiv_word(0u32));
            }
        }
    }
}

/// The nodes an insertion along `path` adds: a block of eight for each
/// level from the one where a walk along the path stops down to the one
/// above the deepest level.
pub open spec fn insert_growth(data: Seq<u32>, root_span: u32, path: Seq<u32>) -> int {
    8 * (MAX_DEPTH - 1 - walk_depth(data, root_span, path, 0))
}

/// A walk from depth `d0` passes subdivided nodes until the depth where it
/// stops, and the node there is not subdivided unless it is the deepest.
proof fn lemma_walk_depth_facts(data: Seq<u32>, root_span: u32, path: Seq<u32>, d0: nat)
    requires
        d0 <= MAX_DEPTH - 1,
    ensures
        ({
            let w = walk_depth(data, root_span, path, d0);
            &&& d0 <= w <= MAX_DEPTH - 1
            &&& forall|e: nat| d0 <= e < w ==> is_subdiv_word(#[trigger] walk_branch(data, root_span, path, e).node)
            &&& w < MAX_DEPTH - 1 ==> !is_subdiv_word(walk_branch(data, root_span, path, w).node)
        }),
    decreases MAX_DEPTH - 1 - d0,
{
    if d0 < MAX_DEPTH - 1 && is_subdiv_word(walk_branch(data, root_span, path, d0).node) {
        lemma_walk_depth_facts(data, root_span, path, d0 + 1);
    }
}

/// Along an insertion, the lists stay walkable (and ordered where they
/// were) and the branches stay consistent with them. Down to the depth where
/// a walk along the path stops, the insertion follows that walk, adds
/// nothing and changes no first-child index or subdivision; below it, each
/// level adds a block of eight and reaches a new empty node.
#[verifier::rlimit(80)]
#[verifier::spinoff_prover]
proof fn lemma_insert_walk(data: Seq<u32>, root_span: u32, path: Seq<u32>, d: nat)
    requires
        tree_bounds(data),
        valid_path(path),
        data.len() + insert_growth(data, root_span, path) <= 0x1_0000,
        d <= MAX_DEPTH - 1,
    ensures
        ({
            let (dd, b) = insert_walk(data, root_span, path, d);
            let w = walk_depth(data, root_span, path, 0);
            &&& tree_bounds(dd)
            &&& tree_wf(data) ==> tree_wf(dd)
            &&& data.len() <= dd.len() <= data.len() + 8 * d
            &&& b.idx < dd.len()
            &&& b.node == dd[b.idx as int]
            &&& d <= w ==> {
                &&& dd.len() == data.len()
                &&& b.idx == walk_branch(data, root_span, path, d).idx
                &&& forall|k: int|
                    0 <= k < data.len() ==> first_child(#[trigger] dd[k]) == first_child(data[k])
                        && is_subdiv_word(dd[k]) == is_subdiv_word(data[k])
            }
            &&& d > w ==> dd.len() == data.len() + 8 * (d - w) && b.node == 0
            &&& d < MAX_DEPTH - 1 && !is_subdiv_word(b.node) ==> dd.len() + 8 <= 0x1_0000
        }),
    decreases d,
{
    let w = walk_depth(data, root_span, path, 0);
    lemma_walk_depth_facts(data, root_span, path, 0);
    if d == 0 {
        if w > 0 {
            assert(is_subdiv_word(walk_branch(data, root_span, path, 0).node));
        }
    } else {
        let e = (d - 1) as nat;
        lemma_insert_walk(data, root_span, path, e);
        let (pd, pb) = insert_walk(data, root_span, path, e);
        lemma_insert_step(pd, pb, path[e as int]);
        let (dd, b) = insert_walk(data, root_span, path, d);
        let m = path[e as int];
        if e < w {
            let wb = walk_branch(data, root_span, path, e);
            assert(is_subdiv_word(wb.node));
            assert forall|f: nat| f < e implies is_subdiv_word(#[trigger] walk_branch(data, root_span, path, f).node) by {}
            lemma_walk_consistent(data, root_span, path, e);
            lemma_child_in_bounds(data, wb.idx as int, m);
            assert(pd[pb.idx as int] == pb.node);
            assert(first_child(pd[pb.idx as int]) == first_child(data[wb.idx as int]));
            assert(is_subdiv_word(pb.node));
            lemma_with_child(pb.node, m, true);
            assert(dd =~= pd.update(pb.idx as int, with_bit(pb.node, (16 + m) as u32, true)));
            assert forall|k: int|
                0 <= k < data.len() implies first_child(#[trigger] dd[k]) == first_child(data[k])
                    && is_subdiv_word(dd[k]) == is_subdiv_word(data[k]) by {
                if k == pb.idx {
                    assert(dd[k] == with_bit(pb.node, (16 + m) as u32, true));
                } else {
                    assert(dd[k] == pd[k]);
                }
            }
            assert(b.idx == first_child(wb.node) + m);
            if d < w {
                assert(is_subdiv_word(walk_branch(data, root_span, path, d).node));
            }
        } else {
            assert(!is_subdiv_word(pb.node)) by {
                if e > w {
                    assert(pb.node == 0);
                    assert(!is_subdiv_word(0u32));
                }
            }
            lemma_with_subdiv(pb.node, true);
            lemma_with_first_child(with_bit(pb.node, 25, true), pd.len() as u32);
            assert(first_child(b.parent) == pd.len());
            assert(dd[b.idx as int] == 0u32);
            assert(!is_subdiv_word(0u32));
        }
    }
}

/// Along an insertion the branch indices strictly increase.
proof fn lemma_insert_indices_increase(data: Seq<u32>, root_span: u32, path: Seq<u32>, d: nat, e: nat)
    requires
        tree_wf(data),
        valid_path(path),
        data.len() + insert_growth(data, root_span, path) <= 0x1_0000,
        d < e <= MAX_DEPTH - 1,
    ensures
        insert_walk(data, root_span, path, d).1.idx < insert_walk(data, root_span, path, e).1.idx,
    decreases e - d,
{
    let p = (e - 1) as nat;
    lemma_insert_walk(data, root_span, path, p);
    let (pd, pb) = insert_walk(data, root_span, path, p);
    lemma_insert_step(pd, pb, path[p as int]);
    if d < p {
        lemma_insert_indices_increase(data, root_span, path, d, p);
    }
}

/// The word that an insertion writes for the node at depth `d`, once the
/// walk has moved below it: its parent word with the child taken marked.
pub open spec fn insert_parent_word(data: Seq<u32>, root_span: u32, path: Seq<u32>, d: nat) -> u32 {
    with_bit(insert_walk(data, root_span, path, d + 1).1.parent, (16 + path[d as int]) as u32, true)
}

/// Later levels of an insertion leave the words written for earlier levels
/// as they are.
proof fn lemma_insert_parent_kept(data: Seq<u32>, root_span: u32, path: Seq<u32>, d: nat, e: nat)
    requires
        tree_wf(data),
        valid_path(path),
        data.len() + insert_growth(data, root_span, path) <= 0x1_0000,
        d < e <= MAX_DEPTH - 1,
    ensures
        insert_walk(data, root_span, path, e).0[insert_walk(data, root_span, path, d).1.idx as int]
            == insert_parent_word(data, root_span, path, d),
    decreases e - d,
{
    let p = (e - 1) as nat;
    lemma_insert_walk(data, root_span, path, p);
    let (pd, pb) = insert_walk(data, root_span, path, p);
    lemma_insert_step(pd, pb, path[p as int]);
    if d < p {
        lemma_insert_parent_kept(data, root_span, path, d, p);
        lemma_insert_indices_increase(data, root_span, path, d, p);
        lemma_insert_walk(data, root_span, path, d);
        let i = insert_walk(data, root_span, path, d).1.idx as int;
        assert(i < pd.len());
    }
}

/// After an insertion, the node at depth `d` of the insertion's walk (above
/// the deepest level) holds the word written for it: subdivided, with the
/// child taken at the next index of the walk.
proof fn lemma_word_after_insert(data: Seq<u32>, root_span: u32, path: Seq<u32>, d: nat)
    requires
        tree_wf(data),
        valid_path(path),
        data.len() + insert_growth(data, root_span, path) <= 0x1_0000,
        d < MAX_DEPTH - 1,
    ensures
        ({
            let after = insert_result(data, root_span, path);
            let i = insert_walk(data, root_span, path, d).1.idx as int;
            &&& after[i] == insert_parent_word(data, root_span, path, d)
            &&& is_subdiv_word(after[i])
            &&& first_child(after[i]) + path[d as int] == insert_walk(data, root_span, path, d + 1).1.idx
        }),
{
    let last = (MAX_DEPTH - 1) as nat;
    let after = insert_result(data, root_span, path);
    lemma_insert_walk(data, root_span, path, last);
    lemma_insert_parent_kept(data, root_span, path, d, last);
    lemma_insert_indices_increase(data, root_span, path, d, last);
    lemma_insert_walk(data, root_span, path, d);
    let (pd, pb) = insert_walk(data, root_span, path, d);
    lemma_insert_step(pd, pb, path[d as int]);
    let nb = insert_walk(data, root_span, path, d + 1).1;
    lemma_with_child(nb.parent, path[d as int], true);
}

/// After an insertion, a walk along the same path follows the nodes that
/// the insertion went through.
proof fn lemma_walk_after_insert(data: Seq<u32>, root_span: u32, path: Seq<u32>, d: nat)
    requires
        tree_wf(data),
        valid_path(path),
        data.len() + insert_growth(data, root_span, path) <= 0x1_0000,
        d <= MAX_DEPTH - 1,
    ensures
        walk_branch(insert_result(data, root_span, path), root_span, path, d).idx
            == insert_walk(data, root_span, path, d).1.idx,
        walk_branch(insert_result(data, root_span, path), root_span, path, d).node
            == insert_result(data, root_span, path)[insert_walk(data, root_span, path, d).1.idx as int],
    decreases d,
{
    if d > 0 {
        let e = (d - 1) as nat;
        lemma_walk_after_insert(data, root_span, path, e);
        lemma_word_after_insert(data, root_span, path, e);
    }
}

/// Inserting a leaf along a path and then walking that path reaches the
/// deepest level, at the node the insertion marked, and that node is a leaf.
/// The tree stays well formed.
pub proof fn law_insert_then_find(data: Seq<u32>, root_span: u32, path: Seq<u32>)
    requires
        tree_wf(data),
        valid_path(path),
        data.len() + insert_growth(data, root_span, path) <= 0x1_0000,
    ensures
        ({
            let after = insert_result(data, root_span, path);
            let found = walk_branch(after, root_span, path, (MAX_DEPTH - 1) as nat);
            &&& tree_wf(after)
            &&& walk_depth(after, root_span, path, 0) == MAX_DEPTH - 1
            &&& found.idx == insert_walk(data, root_span, path, (MAX_DEPTH - 1) as nat).1.idx
            &&& is_leaf_word(found.node)
            &&& is_leaf_word(after[found.idx as int])
        }),
{
    let last = (MAX_DEPTH - 1) as nat;
    let after = insert_result(data, root_span, path);
    lemma_insert_walk(data, root_span, path, last);
    let (ld, lb) = insert_walk(data, root_span, path, last);
    lemma_with_leaf(ld[lb.idx as int], true);
    assert forall|e: nat| e < last implies is_subdiv_word(#[trigger] walk_branch(after, root_span, path, e).node) by {
        lemma_walk_after_insert(data, root_span, path, e);
        lemma_word_after_insert(data, root_span, path, e);
    }
    lemma_walk_after_insert(data, root_span, path, last);
    lemma_walk_depth_from(after, root_span, path, 0, last);
    assert(tree_wf(after)) by {
        assert forall|k: int|
            0 <= k < after.len() && #[trigger] is_subdiv_word(after[k]) implies k < first_child(after[k])
                && first_child(after[k]) + 8 <= after.len() by {
            if k == lb.idx {
                assert(is_subdiv_word(ld[k]));
            } else {
                assert(after[k] == ld[k]);
            }
        }
    }
}

/// Setting a bit that is already set leaves the word as it is.
proof fn lemma_with_bit_again(x: u32, k: u32)
    ensures
        with_bit(with_bit(x, k, true), k, true) == with_bit(x, k, true),
{
    assert((x | (1u32 << k)) | (1u32 << k) == x | (1u32 << k)) by (bit_vector);
}

/// Inserting along a path a second time walks the nodes of the first
/// insertion and changes none of them.
proof fn lemma_insert_walk_again(data: Seq<u32>, root_span: u32, path: Seq<u32>, e: nat)
    requires
        tree_wf(data),
        valid_path(path),
        data.len() + insert_growth(data, root_span, path) <= 0x1_0000,
        e <= MAX_DEPTH - 1,
    ensures
        ({
            let after = insert_result(data, root_span, path);
            insert_walk(after, root_span, path, e) == (after, walk_branch(after, root_span, path, e))
        }),
    decreases e,
{
    if e > 0 {
        let p = (e - 1) as nat;
        let after = insert_result(data, root_span, path);
        lemma_insert_walk_again(data, root_span, path, p);
        lemma_walk_after_insert(data, root_span, path, p);
        lemma_word_after_insert(data, root_span, path, p);
        lemma_insert_walk(data, root_span, path, (MAX_DEPTH - 1) as nat);
        lemma_insert_walk(data, root_span, path, p);
        lemma_insert_indices_increase(data, root_span, path, p, (MAX_DEPTH - 1) as nat);
        let wb = walk_branch(after, root_span, path, p);
        let m = path[p as int];
        let parent = insert_walk(data, root_span, path, e).1.parent;
        lemma_with_bit_again(parent, (16 + m) as u32);
        assert(with_bit(wb.node, (16 + m) as u32, true) == wb.node);
        let written = after.update(wb.idx as int, with_bit(wb.node, (16 + m) as u32, true));
        assert(written =~= after);
    }
}

/// Inserting the same leaf a second time adds no nodes, so it needs no
/// room, and leaves the list as the first insertion left it.
pub proof fn law_insert_idempotent(data: Seq<u32>, root_span: u32, path: Seq<u32>)
    requires
        tree_wf(data),
        valid_path(path),
        data.len() + insert_growth(data, root_span, path) <= 0x1_0000,
    ensures
        insert_growth(insert_result(data, root_span, path), root_span, path) == 0,
        insert_result(insert_result(data, root_span, path), root_span, path) == insert_result(
            data,
            root_span,
            path,
        ),
{
    let last = (MAX_DEPTH - 1) as nat;
    let after = insert_result(data, root_span, path);
    lemma_insert_walk_again(data, root_span, path, last);
    lemma_walk_after_insert(data, root_span, path, last);
    lemma_insert_walk(data, root_span, path, last);
    let (ld, lb) = insert_walk(data, root_span, path, last);
    lemma_with_bit_again(ld[lb.idx as int], 24);
    let again = after.update(lb.idx as int, with_bit(after[lb.idx as int], 24, true));
    assert(again =~= after);
    law_insert_then_find(data, root_span, path);
}

/// A word with no children recorded: first-child index and child mask
/// (its low 24 bits) zero.
pub open spec fn childless_word(x: u32) -> bool {
    first_child(x) == 0 && node_fields(x).child_mask == 0
}

/// The shape of a node list that only insertions built from a single empty
/// root: walkable, made of the root and whole blocks of eight, every
/// subdivided word pointing at the start of a block that no other
/// subdivided word points at, and every other word childless.
pub open spec fn tree_inv(data: Seq<u32>) -> bool {
    &&& tree_bounds(data)
    &&& data.len() % 8 == 1
    &&& forall|k: int| 0 <= k < data.len() && #[trigger] is_subdiv_word(data[k]) ==> first_child(data[k]) % 8 == 1
    &&& forall|k: int| 0 <= k < data.len() && !#[trigger] is_subdiv_word(data[k]) ==> childless_word(data[k])
    &&& forall|j: int, k: int|
        0 <= j < k < data.len() && #[trigger] is_subdiv_word(data[j]) && #[trigger] is_subdiv_word(data[k])
            ==> first_child(data[j]) != first_child(data[k])
}

/// Words only gain bits: `y` keeps every bit of `x`.
pub open spec fn keeps_bits(y: u32, x: u32) -> bool {
    y & x == x
}

proof fn lemma_keeps_bits_set(x: u32, k: u32)
    ensures
        keeps_bits(with_bit(x, k, true), x),
{
    assert((x | (1u32 << k)) & x == x) by (bit_vector);
}

proof fn lemma_keeps_bits_trans(a: u32, b: u32, c: u32)
    requires
        keeps_bits(b, a),
        keeps_bits(c, b),
    ensures
        keeps_bits(c, a),
{
    assert(c & b == b && b & a == a ==> c & a == a) by (bit_vector);
}

/// Subdividing a childless word and recording a child only adds bits.
proof fn lemma_keeps_bits_split(x: u32, off: u32, m: u32)
    requires
        childless_word(x),
        m < 8,
    ensures
        keeps_bits(with_bit(with_first_child(with_bit(x, 25, true), off), (16 + m) as u32, true), x),
{
    assert(x % 0x1_0000 == 0 ==> ((((x | (1u32 << 25u32)) & !0xFFFFu32) | (off & 0xFFFFu32)) | (1u32 << ((16
        + m) as u32))) & x == x) by (bit_vector)
        requires
            m < 8,
    ;
}

/// One insertion level keeps the shape, only adds bits to the old words,
/// and marks no word as a leaf.
#[verifier::rlimit(60)]
proof fn lemma_insert_step_inv(data: Seq<u32>, b: BranchInfo, mask: u32)
    requires
        tree_inv(data),
        b.idx < data.len(),
        b.node == data[b.idx as int],
        !is_subdiv_word(b.node) ==> data.len() + 8 <= 0x1_0000,
        mask < 8,
    ensures
        ({
            let (d2, c) = insert_step(data, b, mask);
            &&& tree_inv(d2)
            &&& forall|k: int| 0 <= k < data.len() ==> keeps_bits(#[trigger] d2[k], data[k])
            &&& forall|k: int| 0 <= k < d2.len() ==> (is_leaf_word(#[trigger] d2[k]) <==> k < data.len() && is_leaf_word(data[k]))
        }),
{
    lemma_insert_step(data, b, mask);
    let (d2, c) = insert_step(data, b, mask);
    let split = !is_subdiv_word(b.node);
    let i = b.idx as int;
    let parent = c.parent;
    if split {
        lemma_with_subdiv(b.node, true);
        lemma_with_first_child(with_bit(b.node, 25, true), data.len() as u32);
        lemma_keeps_bits_split(b.node, data.len() as u32, mask);
    } else {
        lemma_keeps_bits_set(b.node, (16 + mask) as u32);
    }
    lemma_with_child(parent, mask, true);
    assert(d2[i] == with_bit(parent, (16 + mask) as u32, true));
    assert(!is_subdiv_word(0u32) && childless_word(0u32) && !is_leaf_word(0u32));
    assert forall|k: int| 0 <= k < d2.len() && k != i implies d2[k] == (if k < data.len() { data[k] } else { 0u32 }) by {}
    assert forall|k: int| 0 <= k < data.len() implies keeps_bits(#[trigger] d2[k], data[k]) by {
        if k != i {
            assert(d2[k] == data[k]);
            assert(data[k] & data[k] == data[k]) by (bit_vector);
        }
    }
    assert forall|k: int| 0 <= k < d2.len() implies (is_leaf_word(#[trigger] d2[k]) <==> k < data.len() && is_leaf_word(data[k])) by {}
    assert forall|k: int| 0 <= k < d2.len() && #[trigger] is_subdiv_word(d2[k]) implies first_child(d2[k]) % 8 == 1 by {
        if k != i {
            assert(d2[k] == data[k]);
        }
    }
    assert forall|k: int| 0 <= k < d2.len() && !#[trigger] is_subdiv_word(d2[k]) implies childless_word(d2[k]) by {
        if k != i && k < data.len() {
            assert(d2[k] == data[k]);
        }
    }
    assert forall|j: int, k: int|
        0 <= j < k < d2.len() && #[trigger] is_subdiv_word(d2[j]) && #[trigger] is_subdiv_word(d2[k]) implies first_child(d2[j]) != first_child(d2[k]) by {
        if j != i && k != i {
            assert(d2[j] == data[j] && d2[k] == data[k]);
        } else if j == i {
            assert(d2[k] == data[k]);
            if split {
                assert(first_child(data[k]) + 8 <= data.len());
            } else {
                assert(is_subdiv_word(data[j]));
            }
        } else {
            assert(d2[j] == data[j]);
            if split {
                assert(first_child(data[j]) + 8 <= data.len());
            } else {
                assert(is_subdiv_word(data[k]));
            }
        }
    }
}

/// Along an insertion the shape is kept, the old words only gain bits, and
/// no word becomes a leaf.
proof fn lemma_insert_walk_inv(data: Seq<u32>, root_span: u32, path: Seq<u32>, d: nat)
    requires
        tree_inv(data),
        valid_path(path),
        data.len() + insert_growth(data, root_span, path) <= 0x1_0000,
        d <= MAX_DEPTH - 1,
    ensures
        ({
            let dd = insert_walk(data, root_span, path, d).0;
            &&& tree_inv(dd)
            &&& forall|k: int| 0 <= k < data.len() ==> keeps_bits(#[trigger] dd[k], data[k])
            &&& forall|k: int| 0 <= k < dd.len() ==> (is_leaf_word(#[trigger] dd[k]) <==> k < data.len() && is_leaf_word(data[k]))
        }),
    decreases d,
{
    if d == 0 {
        assert forall|k: int| 0 <= k < data.len() implies keeps_bits(#[trigger] data[k], data[k]) by {
            let x = data[k];
            assert(x & x == x) by (bit_vector);
        }
    } else {
        let e = (d - 1) as nat;
        lemma_insert_walk_inv(data, root_span, path, e);
        lemma_insert_walk(data, root_span, path, e);
        let (pd, pb) = insert_walk(data, root_span, path, e);
        lemma_insert_step_inv(pd, pb, path[e as int]);
        let dd = insert_walk(data, root_span, path, d).0;
        assert forall|k: int| 0 <= k < data.len() implies keeps_bits(#[trigger] dd[k], data[k]) by {
            assert(keeps_bits(pd[k], data[k]));
            assert(keeps_bits(dd[k], pd[k]));
            lemma_keeps_bits_trans(data[k], pd[k], dd[k]);
        }
        assert forall|k: int| 0 <= k < dd.len() implies (is_leaf_word(#[trigger] dd[k]) <==> k < data.len()
            && is_leaf_word(data[k])) by {
            if k < pd.len() {
                assert(is_leaf_word(pd[k]) <==> k < data.len() && is_leaf_word(data[k]));
            }
        }
    }
}

/// The single empty root has the shape of `tree_inv`.
pub proof fn law_root_has_inv()
    ensures
        tree_inv(seq![0u32]),
{
    assert(!is_subdiv_word(0u32) && childless_word(0u32));
}

/// Inserting a leaf keeps the shape of a list that insertions built from a
/// single empty root.
pub proof fn law_insert_keeps_inv(data: Seq<u32>, root_span: u32, path: Seq<u32>)
    requires
        tree_inv(data),
        valid_path(path),
        data.len() + insert_growth(data, root_span, path) <= 0x1_0000,
    ensures
        tree_inv(insert_result(data, root_span, path)),
{
    let last = (MAX_DEPTH - 1) as nat;
    lemma_insert_walk_inv(data, root_span, path, last);
    lemma_insert_walk(data, root_span, path, last);
    let (ld, lb) = insert_walk(data, root_span, path, last);
    let t = lb.idx as int;
    let after = insert_result(data, root_span, path);
    lemma_with_leaf(ld[t], true);
    assert forall|k: int| 0 <= k < after.len() && k != t implies after[k] == ld[k] by {}
    assert forall|k: int| 0 <= k < after.len() && #[trigger] is_subdiv_word(after[k]) implies first_child(after[k]) % 8
        == 1 by {
        assert(is_subdiv_word(ld[k]));
    }
    assert forall|k: int| 0 <= k < after.len() && !#[trigger] is_subdiv_word(after[k]) implies childless_word(
        after[k],
    ) by {
        assert(!is_subdiv_word(ld[k]));
    }
    assert forall|j: int, k: int|
        0 <= j < k < after.len() && #[trigger] is_subdiv_word(after[j]) && #[trigger] is_subdiv_word(after[k])
            implies first_child(after[j]) != first_child(after[k]) by {
        assert(is_subdiv_word(ld[j]) && is_subdiv_word(ld[k]));
    }
    assert forall|k: int| 0 <= k < after.len() && #[trigger] is_subdiv_word(after[k]) implies first_child(after[k]) + 8
        <= after.len() by {
        assert(is_subdiv_word(ld[k]));
    }
}

/// An insertion grows the list by a block of eight for each level below the
/// depth where a walk along the path stopped, so by whole blocks and by at
/// most one block per level below the root; the words that were there only
/// gain bits, so no block of children moves; and the only word that becomes
/// a leaf is the one inserted.
pub proof fn law_insert_growth(data: Seq<u32>, root_span: u32, path: Seq<u32>)
    requires
        tree_inv(data),
        valid_path(path),
        data.len() + insert_growth(data, root_span, path) <= 0x1_0000,
    ensures
        ({
            let after = insert_result(data, root_span, path);
            let t = insert_walk(data, root_span, path, (MAX_DEPTH - 1) as nat).1.idx as int;
            &&& after.len() == data.len() + insert_growth(data, root_span, path)
            &&& data.len() <= after.len() <= data.len() + 8 * (MAX_DEPTH - 1)
            &&& (after.len() - data.len()) % 8 == 0
            &&& forall|k: int| 0 <= k < data.len() ==> keeps_bits(#[trigger] after[k], data[k])
            &&& forall|k: int|
                0 <= k < after.len() && k != t ==> (is_leaf_word(#[trigger] after[k]) <==> k < data.len()
                    && is_leaf_word(data[k]))
            &&& is_leaf_word(after[t])
        }),
{
    let last = (MAX_DEPTH - 1) as nat;
    lemma_walk_depth_facts(data, root_span, path, 0);
    lemma_insert_walk_inv(data, root_span, path, last);
    lemma_insert_walk(data, root_span, path, last);
    let (ld, lb) = insert_walk(data, root_span, path, last);
    let t = lb.idx as int;
    let after = insert_result(data, root_span, path);
    lemma_keeps_bits_set(ld[t], 24);
    assert forall|k: int| 0 <= k < data.len() implies keeps_bits(#[trigger] after[k], data[k]) by {
        assert(keeps_bits(ld[k], data[k]));
        if k == t {
            lemma_keeps_bits_trans(data[k], ld[k], after[k]);
        }
    }
    assert forall|k: int|
        0 <= k < after.len() && k != t implies (is_leaf_word(#[trigger] after[k]) <==> k < data.len()
            && is_leaf_word(data[k])) by {
        assert(after[k] == ld[k]);
    }
    lemma_with_leaf(ld[t], true);
}

/// What a collected entry records: the depth and the branches of the walk.
pub open spec fn entry_view(e: (PosInfo, [BranchInfo; MAX_DEPTH])) -> (nat, Seq<BranchInfo>) {
    (e.0.depth as nat, e.1@)
}

/// The records of a list of collected entries.
pub open spec fn entries_view(s: Seq<(PosInfo, [BranchInfo; MAX_DEPTH])>) -> Seq<(nat, Seq<BranchInfo>)> {
    s.map_values(|e: (PosInfo, [BranchInfo; MAX_DEPTH])| entry_view(e))
}

/// Collecting below the node of branch `bd[depth]`: the children are visited
/// in order of position. Each child gets a branch one level down (its
/// template, with its position, stored at `depth + 1`). A subdivided child
/// above `max_depth` is stored with its index and word and collected
/// recursively; otherwise a leaf or subdivided child is recorded with the
/// branches as they stand. Gives the branches at the end and the records.
pub open spec fn collect_spec(data: Seq<u32>, bd: Seq<BranchInfo>, depth: nat, max_depth: nat) -> (
    Seq<BranchInfo>,
    Seq<(nat, Seq<BranchInfo>)>,
)
    decreases max_depth - depth, 9nat,
{
    collect_from(data, bd, depth, max_depth, 0)
}

/// Collecting the children from position `k` on; see `collect_spec`.
pub open spec fn collect_from(data: Seq<u32>, bd: Seq<BranchInfo>, depth: nat, max_depth: nat, k: nat) -> (
    Seq<BranchInfo>,
    Seq<(nat, Seq<BranchInfo>)>,
)
    decreases max_depth - depth, 8 - k,
{
    if k >= 8 {
        (bd, Seq::empty())
    } else {
        let t = BranchInfo { mask: k as u32, ..child_template(bd[depth as int]) };
        let bd1 = bd.update((depth + 1) as int, t);
        let child = with_chosen_child(data, t);
        if is_subdiv_word(child.node) && depth + 1 < max_depth {
            let inner = collect_spec(data, bd1.update((depth + 1) as int, child), depth + 1, max_depth);
            let rest = collect_from(data, inner.0, depth, max_depth, k + 1);
            (rest.0, inner.1 + rest.1)
        } else if is_leaf_word(child.node) || is_subdiv_word(child.node) {
            let rest = collect_from(data, bd1, depth, max_depth, k + 1);
            (rest.0, seq![((depth + 1) as nat, bd1)] + rest.1)
        } else {
            collect_from(data, bd1, depth, max_depth, k + 1)
        }
    }
}

/// The number of entries a collection below the word `w` at depth `d`
/// records: the sum over all eight of its children.
pub open spec fn collect_count(data: Seq<u32>, w: u32, d: nat, max_depth: nat) -> nat
    decreases max_depth - d, 1nat,
{
    child_count(data, w, d, max_depth, 0) + child_count(data, w, d, max_depth, 1) + child_count(
        data,
        w,
        d,
        max_depth,
        2,
    ) + child_count(data, w, d, max_depth, 3) + child_count(data, w, d, max_depth, 4) + child_count(
        data,
        w,
        d,
        max_depth,
        5,
    ) + child_count(data, w, d, max_depth, 6) + child_count(data, w, d, max_depth, 7)
}

/// The entries recorded for the child at position `k` of the word `w` at
/// depth `d`: all those below it when it is subdivided above `max_depth`;
/// else one when it is a leaf or subdivided; else none.
pub open spec fn child_count(data: Seq<u32>, w: u32, d: nat, max_depth: nat, k: nat) -> nat
    decreases max_depth - d, 0nat,
{
    let c = data[first_child(w) + k];
    if is_subdiv_word(c) && d + 1 < max_depth {
        collect_count(data, c, d + 1, max_depth)
    } else if is_leaf_word(c) || is_subdiv_word(c) {
        1
    } else {
        0
    }
}

/// The entries recorded for the children of `w` from position `k` on.
spec fn children_count_from(data: Seq<u32>, w: u32, d: nat, max_depth: nat, k: nat) -> nat
    decreases 8 - k,
{
    if k >= 8 {
        0
    } else {
        child_count(data, w, d, max_depth, k) + children_count_from(data, w, d, max_depth, k + 1)
    }
}

proof fn lemma_collect_count_sum(data: Seq<u32>, w: u32, d: nat, max_depth: nat)
    ensures
        collect_count(data, w, d, max_depth) == children_count_from(data, w, d, max_depth, 0),
{
    reveal_with_fuel(children_count_from, 9);
}

/// Collecting from the child at position `k` on records as many entries as
/// those children count, and keeps the branches down to `depth`.
proof fn lemma_collect_count_from(data: Seq<u32>, bd: Seq<BranchInfo>, depth: nat, max_depth: nat, k: nat)
    requires
        bd.len() == MAX_DEPTH,
        depth + 1 < MAX_DEPTH,
        !collect_too_deep_from(data, bd[depth as int].node, depth, max_depth, k),
    ensures
        ({
            let res = collect_from(data, bd, depth, max_depth, k);
            &&& res.0.len() == bd.len()
            &&& forall|d: int| 0 <= d <= depth ==> res.0[d] == bd[d]
            &&& res.1.len() == children_count_from(data, bd[depth as int].node, depth, max_depth, k)
        }),
    decreases max_depth - depth, 8 - k,
{
    if k < 8 {
        let w = bd[depth as int].node;
        let t = BranchInfo { mask: k as u32, ..child_template(bd[depth as int]) };
        let bd1 = bd.update((depth + 1) as int, t);
        let child = with_chosen_child(data, t);
        assert(child.node == data[first_child(w) + k]);
        assert(bd1.len() == bd.len());
        assert(bd1[depth as int] == bd[depth as int]);
        assert forall|d: int| 0 <= d <= depth implies bd1[d] == bd[d] by {}
        if is_subdiv_word(child.node) && depth + 1 < max_depth {
            let bd2 = bd1.update((depth + 1) as int, child);
            assert(bd2[(depth + 1) as int] == child);
            assert forall|d: int| 0 <= d <= depth implies bd2[d] == bd[d] by {}
            lemma_collect_count_from(data, bd2, depth + 1, max_depth, 0);
            lemma_collect_count_sum(data, child.node, depth + 1, max_depth);
            let inner = collect_spec(data, bd2, depth + 1, max_depth);
            assert(inner == collect_from(data, bd2, depth + 1, max_depth, 0));
            assert(inner.0[depth as int] == bd[depth as int]);
            lemma_collect_count_from(data, inner.0, depth, max_depth, k + 1);
            let rest = collect_from(data, inner.0, depth, max_depth, k + 1);
            assert(collect_from(data, bd, depth, max_depth, k) == (rest.0, inner.1 + rest.1));
            assert forall|d: int| 0 <= d <= depth implies rest.0[d] == bd[d] by {
                assert(inner.0[d] == bd2[d]);
            }
        } else if is_leaf_word(child.node) || is_subdiv_word(child.node) {
            lemma_collect_count_from(data, bd1, depth, max_depth, k + 1);
            let rest = collect_from(data, bd1, depth, max_depth, k + 1);
            assert(collect_from(data, bd, depth, max_depth, k) == (rest.0, seq![((depth + 1) as nat, bd1)] + rest.1));
        } else {
            lemma_collect_count_from(data, bd1, depth, max_depth, k + 1);
            assert(collect_from(data, bd, depth, max_depth, k) == collect_from(data, bd1, depth, max_depth, k + 1));
        }
    }
}

/// A collection visits every one of the eight children of the node it
/// starts from, and below each subdivided child above the limit every one
/// of its children: it records exactly `collect_count` entries.
pub proof fn law_collect_records_every_child(data: Seq<u32>, bd: Seq<BranchInfo>, depth: nat, max_depth: nat)
    requires
        bd.len() == MAX_DEPTH,
        depth + 1 < MAX_DEPTH,
        !collect_too_deep_from(data, bd[depth as int].node, depth, max_depth, 0),
    ensures
        collect_spec(data, bd, depth, max_depth).1.len() == collect_count(data, bd[depth as int].node, depth, max_depth),
{
    lemma_collect_count_from(data, bd, depth, max_depth, 0);
    lemma_collect_count_sum(data, bd[depth as int].node, depth, max_depth);
}

/// Collecting from the child at position `k` on keeps the branches down to
/// `depth` and their number, and records only entries below `depth`, at most
/// at `max_depth`, each with as many branches.
proof fn lemma_collect_from(data: Seq<u32>, bd: Seq<BranchInfo>, depth: nat, max_depth: nat, k: nat)
    requires
        depth < max_depth < bd.len(),
    ensures
        ({
            let res = collect_from(data, bd, depth, max_depth, k);
            &&& res.0.len() == bd.len()
            &&& forall|d: int| 0 <= d <= depth ==> res.0[d] == bd[d]
            &&& forall|i: int|
                0 <= i < res.1.len() ==> depth < (#[trigger] res.1[i]).0 <= max_depth && res.1[i].1.len() == bd.len()
        }),
    decreases max_depth - depth, 8 - k,
{
    if k < 8 {
        let t = BranchInfo { mask: k as u32, ..child_template(bd[depth as int]) };
        let bd1 = bd.update((depth + 1) as int, t);
        let child = with_chosen_child(data, t);
        assert(bd1.len() == bd.len());
        assert forall|d: int| 0 <= d <= depth implies bd1[d] == bd[d] by {}
        if is_subdiv_word(child.node) && depth + 1 < max_depth {
            let bd2 = bd1.update((depth + 1) as int, child);
            assert forall|d: int| 0 <= d <= depth implies bd2[d] == bd[d] by {}
            lemma_collect_from(data, bd2, depth + 1, max_depth, 0);
            let inner = collect_spec(data, bd2, depth + 1, max_depth);
            assert(inner == collect_from(data, bd2, depth + 1, max_depth, 0));
            assert forall|d: int| 0 <= d <= depth implies inner.0[d] == bd[d] by {
                assert(inner.0[d] == bd2[d]);
            }
            lemma_collect_from(data, inner.0, depth, max_depth, k + 1);
            let rest = collect_from(data, inner.0, depth, max_depth, k + 1);
            let all = inner.1 + rest.1;
            assert(collect_from(data, bd, depth, max_depth, k) == (rest.0, all));
            assert forall|i: int| 0 <= i < all.len() implies depth < (#[trigger] all[i]).0 <= max_depth
                && all[i].1.len() == bd.len() by {
                if i < inner.1.len() {
                    assert(all[i] == inner.1[i]);
                } else {
                    assert(all[i] == rest.1[i - inner.1.len()]);
                }
            }
        } else if is_leaf_word(child.node) || is_subdiv_word(child.node) {
            lemma_collect_from(data, bd1, depth, max_depth, k + 1);
            let rest = collect_from(data, bd1, depth, max_depth, k + 1);
            let all = seq![((depth + 1) as nat, bd1)] + rest.1;
            assert(collect_from(data, bd, depth, max_depth, k) == (rest.0, all));
            assert forall|i: int| 0 <= i < all.len() implies depth < (#[trigger] all[i]).0 <= max_depth
                && all[i].1.len() == bd.len() by {
                if i > 0 {
                    assert(all[i] == rest.1[i - 1]);
                }
            }
        } else {
            lemma_collect_from(data, bd1, depth, max_depth, k + 1);
            assert(collect_from(data, bd, depth, max_depth, k) == collect_from(data, bd1, depth, max_depth, k + 1));
        }
    }
}

/// Collecting the leaves below a branch leaves the branches down to its
/// depth as they were, and every entry it records lies below that depth,
/// at most at `max_depth`.
pub proof fn law_collect_stays_below(data: Seq<u32>, bd: Seq<BranchInfo>, depth: nat, max_depth: nat)
    requires
        depth < max_depth < bd.len(),
    ensures
        ({
            let res = collect_spec(data, bd, depth, max_depth);
            &&& res.0.len() == bd.len()
            &&& forall|d: int| 0 <= d <= depth ==> res.0[d] == bd[d]
            &&& forall|i: int|
                0 <= i < res.1.len() ==> depth < (#[trigger] res.1[i]).0 <= max_depth && res.1[i].1.len() == bd.len()
        }),
{
    lemma_collect_from(data, bd, depth, max_depth, 0);
}

/// Whether collecting the children of the word `w` at depth `d`, from
/// position `k` on, would descend into a subdivided child (above
/// `max_depth`) that has no level left below it for its own children, at
/// once or further down.
pub open spec fn collect_too_deep_from(data: Seq<u32>, w: u32, d: nat, max_depth: nat, k: nat) -> bool
    decreases MAX_DEPTH - d, 8 - k,
{
    if k >= 8 {
        false
    } else {
        let c = data[first_child(w) + k];
        if is_subdiv_word(c) && d + 1 < max_depth {
            if d + 2 >= MAX_DEPTH {
                true
            } else if collect_too_deep_from(data, c, d + 1, max_depth, 0) {
                true
            } else {
                collect_too_deep_from(data, w, d, max_depth, k + 1)
            }
        } else {
            collect_too_deep_from(data, w, d, max_depth, k + 1)
        }
    }
}

/// The octree of packed node words, with the edge length of the root.
pub struct Octree {
    pub octant_data: Vec<u32>,
    pub root_span: u32,
}

impl Default for Octree {
    fn default() -> (r: Octree)
        ensures
            r.octant_data@ == seq![0u32],
            r.root_span == 64,
            tree_inv(r.octant_data@),
    {
        proof {
            law_root_has_inv();
        }
        let mut octant_data: Vec<u32> = Vec::new();
        octant_data.push(0);
        let root_span = 1u32 << (MAX_DEPTH as u32);
        assert(1u32 << 6u32 == 64u32) by (bit_vector);
        Octree { octant_data, root_span }
    }
}

/// A subdivided node of a walkable list has its children inside it, after
/// it where the list is ordered.
proof fn lemma_child_in_bounds(data: Seq<u32>, k: int, mask: u32)
    requires
        tree_bounds(data),
        0 <= k < data.len(),
        is_subdiv_word(data[k]),
        mask < 8,
    ensures
        first_child(data[k]) + mask < data.len(),
        tree_wf(data) ==> k < first_child(data[k]) + mask,
{
}

/// Along a walk, each branch's node is the word stored at its index.
proof fn lemma_walk_consistent(data: Seq<u32>, root_span: u32, path: Seq<u32>, d: nat)
    requires
        tree_bounds(data),
        valid_path(path),
        d <= MAX_DEPTH - 1,
        forall|e: nat| e < d ==> is_subdiv_word(#[trigger] walk_branch(data, root_span, path, e).node),
    ensures
        walk_branch(data, root_span, path, d).idx < data.len(),
        walk_branch(data, root_span, path, d).node == data[walk_branch(data, root_span, path, d).idx as int],
    decreases d,
{
    if d > 0 {
        let e = (d - 1) as nat;
        lemma_walk_consistent(data, root_span, path, e);
        let b = walk_branch(data, root_span, path, e);
        assert(is_subdiv_word(b.node));
        lemma_child_in_bounds(data, b.idx as int, path[e as int]);
    }
}

/// A walk whose first `d` nodes are subdivided stops where a walk from `d`
/// stops.
proof fn lemma_walk_depth_from(data: Seq<u32>, root_span: u32, path: Seq<u32>, e: nat, d: nat)
    requires
        e <= d <= MAX_DEPTH - 1,
        forall|k: nat| k < d ==> is_subdiv_word(#[trigger] walk_branch(data, root_span, path, k).node),
    ensures
        walk_depth(data, root_span, path, e) == walk_depth(data, root_span, path, d),
    decreases d - e,
{
    if e < d {
        lemma_walk_depth_from(data, root_span, path, e + 1, d);
    }
}

impl Octree {
    /// Whether the node list can be walked: see `tree_bounds`.
    pub open spec fn wf(&self) -> bool {
        tree_bounds(self.octant_data@)
    }

    /// The start of a walk: the root branch at depth zero, the other branches
    /// empty.
    pub fn get_new_root_info(&self) -> (r: ([BranchInfo; MAX_DEPTH], PosInfo))
        requires
            self.octant_data.len() >= 1,
        ensures
            r.0@[0] == root_branch(self.octant_data@, self.root_span),
            forall|d: int| 1 <= d < MAX_DEPTH ==> r.0@[d] == empty_branch(),
            r.1.depth == 0,
    {
        let empty = BranchInfo { parent_idx: 0, parent: 0, idx: 0, node: 0, span: 0, mask: 0 };
        let mut branch_data = [empty; MAX_DEPTH];
        let root = self.octant_data[0];
        branch_data[0] = BranchInfo {
            parent_idx: 0,
            parent: root,
            idx: 0,
            node: root,
            span: self.root_span,
            mask: 0,
        };
        (branch_data, PosInfo { depth: 0 })
    }

    /// Walks down along `child_path` while the node reached is subdivided,
    /// at most to the deepest level.
    pub fn node_at_pos(&self, child_path: &Vec<u32>) -> (r: ([BranchInfo; MAX_DEPTH], PosInfo))
        requires
            self.wf(),
            valid_path(child_path@),
        ensures
            r.1.depth == walk_depth(self.octant_data@, self.root_span, child_path@, 0),
            forall|d: int|
                0 <= d <= r.1.depth ==> r.0@[d] == walk_branch(
                    self.octant_data@,
                    self.root_span,
                    child_path@,
                    d as nat,
                ),
            forall|d: int| r.1.depth < d < MAX_DEPTH ==> r.0@[d] == empty_branch(),
    {
        let ghost data = self.octant_data@;
        let ghost rs = self.root_span;
        let ghost path = child_path@;
        let (mut branch_data, mut pos_info) = self.get_new_root_info();
        while pos_info.depth < (MAX_DEPTH - 1) as u32 && pos_info.branch(&branch_data).node.is_subdiv()
            invariant
                self.wf(),
                data == self.octant_data@,
                rs == self.root_span,
                path == child_path@,
                valid_path(path),
                pos_info.depth <= MAX_DEPTH - 1,
                forall|d: int|
                    0 <= d <= pos_info.depth ==> branch_data@[d] == walk_branch(data, rs, path, d as nat),
                forall|d: int| pos_info.depth < d < MAX_DEPTH ==> branch_data@[d] == empty_branch(),
                forall|e: nat|
                    e < pos_info.depth ==> is_subdiv_word(#[trigger] walk_branch(data, rs, path, e).node),
            decreases MAX_DEPTH - 1 - pos_info.depth,
        {
            let ghost d = pos_info.depth as nat;
            proof {
                lemma_walk_consistent(data, rs, path, d);
                lemma_child_in_bounds(data, walk_branch(data, rs, path, d).idx as int, path[d as int]);
            }
            let mask = child_path[pos_info.depth_idx()];
            let octant_data = &self.octant_data;
            let select = |branch: BranchInfo| -> (c: BranchInfo)
                requires
                    first_child(branch.parent) + branch.mask < octant_data.len(),
                    branch.mask < 8,
                ensures
                    c == with_chosen_child(octant_data@, branch),
                {
                    let mut branch = branch;
                    let (idx, node) = branch.get_child(octant_data, branch.mask);
                    branch.idx = idx;
                    branch.node = node;
                    branch
                };
            pos_info.move_into_child(&mut branch_data, mask, select);
            proof {
                assert(branch_data@[(d + 1) as int] == walk_branch(data, rs, path, (d + 1) as nat));
            }
        }
        proof {
            let d = pos_info.depth as nat;
            lemma_walk_depth_from(data, rs, path, 0, d);
        }
        (branch_data, pos_info)
    }

    /// One level of an insertion: see `insert_step`.
    fn insert_level(&mut self, old_branch: BranchInfo, mask: u32) -> (c: BranchInfo)
        requires
            tree_bounds(old(self).octant_data@),
            old_branch.idx < old(self).octant_data.len(),
            old_branch.node == old(self).octant_data@[old_branch.idx as int],
            !is_subdiv_word(old_branch.node) ==> old(self).octant_data.len() + 8 <= 0x1_0000,
            mask < 8,
        ensures
            (final(self).octant_data@, c) == insert_step(old(self).octant_data@, old_branch, mask),
            final(self).root_span == old(self).root_span,
    {
        proof {
            lemma_insert_step(self.octant_data@, old_branch, mask);
        }
        let ghost next = insert_step(self.octant_data@, old_branch, mask);
        let mut branch = BranchInfo {
            parent_idx: old_branch.idx,
            parent: old_branch.node,
            idx: 0,
            node: 0,
            span: old_branch.span / 2,
            mask,
        };
        if !branch.parent.is_subdiv() {
            let offset = self.octant_data.len() as u32;
            branch.parent = branch.parent.set_subdiv(true).set_first_child_idx(offset);
            let ghost before = self.octant_data@;
            let ghost span = self.root_span;
            let mut k: usize = 0;
            while k < 8
                invariant
                    k <= 8,
                    self.root_span == span,
                    self.octant_data@ == before + Seq::new(k as nat, |j: int| 0u32),
                decreases 8 - k,
            {
                self.octant_data.push(0);
                k = k + 1;
                proof {
                    assert(self.octant_data@ =~= before + Seq::new(k as nat, |j: int| 0u32));
                }
            }
        }
        let parent_word = branch.parent.set_child_filled(branch.mask, true);
        self.octant_data.set(branch.parent_idx(), parent_word);
        assert(self.octant_data@ =~= next.0);
        let (child_idx, child_node) = branch.get_child(&self.octant_data, branch.mask);
        branch.idx = child_idx;
        branch.node = child_node;
        branch
    }

    /// Marks the node at `idx` as a leaf.
    fn mark_leaf(&mut self, idx: usize)
        requires
            tree_bounds(old(self).octant_data@),
            idx < old(self).octant_data.len(),
        ensures
            final(self).octant_data@ == old(self).octant_data@.update(
                idx as int,
                with_bit(old(self).octant_data@[idx as int], 24, true),
            ),
            final(self).root_span == old(self).root_span,
            tree_bounds(final(self).octant_data@),
            tree_wf(old(self).octant_data@) ==> tree_wf(final(self).octant_data@),
    {
        let ghost before = self.octant_data@;
        let leaf_word = self.octant_data[idx].set_leaf(true);
        self.octant_data.set(idx, leaf_word);
        proof {
            lemma_with_leaf(before[idx as int], true);
            assert forall|k: int|
                0 <= k < self.octant_data@.len() && #[trigger] is_subdiv_word(self.octant_data@[k]) implies
                    first_child(self.octant_data@[k]) == first_child(before[k]) && is_subdiv_word(before[k]) by {
                if k == idx {
                } else {
                    assert(self.octant_data@[k] == before[k]);
                }
            }
        }
    }

    /// Inserts a leaf along `child_path`: walks all levels, subdividing the
    /// nodes on the way that are not subdivided yet and marking each child
    /// taken as filled, then marks the deepest node reached as a leaf. The
    /// list grows by `insert_growth`, which must keep first-child indices
    /// within 16 bits.
    pub fn insert_node(&mut self, child_path: &Vec<u32>) -> (r: ([BranchInfo; MAX_DEPTH], PosInfo))
        requires
            old(self).wf(),
            valid_path(child_path@),
            old(self).octant_data.len() + insert_growth(old(self).octant_data@, old(self).root_span, child_path@)
                <= 0x1_0000,
        ensures
            final(self).octant_data@ == insert_result(old(self).octant_data@, old(self).root_span, child_path@),
            final(self).octant_data.len() == old(self).octant_data.len() + insert_growth(
                old(self).octant_data@,
                old(self).root_span,
                child_path@,
            ),
            final(self).root_span == old(self).root_span,
            final(self).wf(),
            tree_wf(old(self).octant_data@) ==> tree_wf(final(self).octant_data@),
            tree_inv(old(self).octant_data@) ==> tree_inv(final(self).octant_data@),
            r.1.depth == MAX_DEPTH - 1,
            forall|d: int|
                0 <= d < MAX_DEPTH ==> r.0@[d] == insert_walk(
                    old(self).octant_data@,
                    old(self).root_span,
                    child_path@,
                    d as nat,
                ).1,
    {
        let ghost data0 = self.octant_data@;
        let ghost rs = self.root_span;
        let ghost path = child_path@;
        let (mut branch_data, mut pos_info) = self.get_new_root_info();
        let mut step: usize = 1;
        while step < MAX_DEPTH
            invariant
                1 <= step <= MAX_DEPTH,
                pos_info.depth == step - 1,
                rs == self.root_span,
                path == child_path@,
                valid_path(path),
                tree_bounds(data0),
                data0.len() + insert_growth(data0, rs, path) <= 0x1_0000,
                self.octant_data@ == insert_walk(data0, rs, path, pos_info.depth as nat).0,
                forall|d: int|
                    0 <= d <= pos_info.depth ==> branch_data@[d] == insert_walk(data0, rs, path, d as nat).1,
                forall|d: int| pos_info.depth < d < MAX_DEPTH ==> branch_data@[d] == empty_branch(),
            decreases MAX_DEPTH - step,
        {
            let ghost d = pos_info.depth as nat;
            proof {
                lemma_insert_walk(data0, rs, path, d);
            }
            let mask = child_path[step - 1];
            let old_branch = pos_info.branch(&branch_data);
            let branch = self.insert_level(old_branch, mask);
            pos_info.depth = pos_info.depth + 1;
            branch_data[pos_info.depth_idx()] = branch;
            step = step + 1;
        }
        proof {
            lemma_insert_walk(data0, rs, path, (MAX_DEPTH - 1) as nat);
        }
        let leaf_idx = pos_info.branch(&branch_data).idx();
        self.mark_leaf(leaf_idx);
        proof {
            lemma_walk_depth_facts(data0, rs, path, 0);
            if tree_inv(data0) {
                law_insert_keeps_inv(data0, rs, path);
            }
            if tree_wf(data0) {
                law_insert_then_find(data0, rs, path);
            }
        }
        (branch_data, pos_info)
    }

    /// Collects the leaves below the node of the current branch, down to
    /// `max_depth`; see `collect_spec`. Returns the branches as they stand at
    /// the end.
    pub fn collect_branch(
        &self,
        branch_data: &[BranchInfo; MAX_DEPTH],
        pos_info: &PosInfo,
        leaf_data: &mut Vec<(PosInfo, [BranchInfo; MAX_DEPTH])>,
        max_depth: u32,
    ) -> (r: [BranchInfo; MAX_DEPTH])
        requires
            self.wf(),
            pos_info.depth + 1 < MAX_DEPTH,
            first_child(branch_data@[pos_info.depth as int].node) + 8 <= self.octant_data.len(),
            !collect_too_deep_from(
                self.octant_data@,
                branch_data@[pos_info.depth as int].node,
                pos_info.depth as nat,
                max_depth as nat,
                0,
            ),
        ensures
            ({
                let res = collect_spec(self.octant_data@, branch_data@, pos_info.depth as nat, max_depth as nat);
                &&& r@ == res.0
                &&& final(leaf_data)@.len() == old(leaf_data)@.len() + res.1.len()
                &&& final(leaf_data)@.subrange(0, old(leaf_data)@.len() as int) == old(leaf_data)@
                &&& entries_view(final(leaf_data)@.subrange(old(leaf_data)@.len() as int, final(leaf_data)@.len() as int)) == res.1
            }),
            forall|d: int| 0 <= d <= pos_info.depth ==> r@[d] == branch_data@[d],
            final(leaf_data)@.len() == old(leaf_data)@.len() + collect_count(
                self.octant_data@,
                branch_data@[pos_info.depth as int].node,
                pos_info.depth as nat,
                max_depth as nat,
            ),
        decreases MAX_DEPTH - pos_info.depth,
    {
        let ghost data = self.octant_data@;
        let ghost depth = pos_info.depth as nat;
        let ghost md = max_depth as nat;
        let ghost total = collect_spec(data, branch_data@, depth, md);
        let ghost l0 = leaf_data@.len();
        let ghost old_leaves = leaf_data@;
        let mut bd = *branch_data;
        let mut idx: u32 = 0;
        while idx < 8
            invariant
                self.wf(),
                data == self.octant_data@,
                depth == pos_info.depth,
                md == max_depth,
                pos_info.depth + 1 < MAX_DEPTH,
                !collect_too_deep_from(data, branch_data@[depth as int].node, depth, md, idx as nat),
                idx <= 8,
                bd@[depth as int] == branch_data@[depth as int],
                forall|d: int| 0 <= d <= depth ==> bd@[d] == branch_data@[d],
                first_child(branch_data@[depth as int].node) + 8 <= data.len(),
                total == collect_spec(data, branch_data@, depth, md),
                collect_from(data, bd@, depth, md, idx as nat).0 == total.0,
                leaf_data@.len() >= l0,
                leaf_data@.subrange(0, l0 as int) == old_leaves,
                entries_view(leaf_data@.subrange(l0 as int, leaf_data@.len() as int))
                    + collect_from(data, bd@, depth, md, idx as nat).1 == total.1,
            decreases 8 - idx,
        {
            let ghost bd_before = bd@;
            let ghost leaves_before = leaf_data@;
            let ghost step = collect_from(data, bd@, depth, md, idx as nat);
            let mut pos = *pos_info;
            let position = idx;
            let set_position = move |b: &BranchInfo| -> (c: BranchInfo)
                ensures
                    c == (BranchInfo { mask: position, ..*b }),
                {
                    let mut c = *b;
                    c.mask = position;
                    c
                };
            pos.update_branch_to_child(&mut bd, set_position);
            let mut branch = pos.branch(&bd);
            let (child_idx, child_node) = branch.get_child(&self.octant_data, idx);
            branch.idx = child_idx;
            branch.node = child_node;
            let ghost t = BranchInfo { mask: idx, ..child_template(bd_before[depth as int]) };
            proof {
                assert(bd@ == bd_before.update((depth + 1) as int, t));
                assert(branch == with_chosen_child(data, t));
            }
            if branch.node.is_subdiv() && pos.depth < max_depth {
                bd[pos.depth_idx()] = branch;
                proof {
                    assert(tree_bounds(data));
                    assert(is_subdiv_word(data[child_idx as int]));
                }
                let ghost mid = leaf_data@;
                let ghost inner_in = bd@;
                bd = self.collect_branch(&bd, &pos, leaf_data, max_depth);
                proof {
                    let inner = collect_spec(data, inner_in, depth + 1, md);
                    assert(inner_in == bd_before.update((depth + 1) as int, t).update((depth + 1) as int, branch));
                    assert(step.1 == inner.1 + collect_from(data, bd@, depth, md, (idx + 1) as nat).1);
                    assert(leaf_data@.subrange(0, l0 as int) =~= old_leaves) by {
                        assert(leaf_data@.subrange(0, mid.len() as int) == mid);
                        assert(mid.subrange(0, l0 as int) == old_leaves);
                    }
                    let a = leaf_data@.subrange(l0 as int, leaf_data@.len() as int);
                    let b = mid.subrange(l0 as int, mid.len() as int);
                    let c = leaf_data@.subrange(mid.len() as int, leaf_data@.len() as int);
                    assert(a =~= b + c) by {
                        assert(leaf_data@.subrange(0, mid.len() as int) == mid);
                    }
                    assert(entries_view(a) =~= entries_view(b) + entries_view(c));
                }
            } else if branch.node.is_leaf() || branch.node.is_subdiv() {
                leaf_data.push((pos, bd));
                proof {
                    let a = leaf_data@.subrange(l0 as int, leaf_data@.len() as int);
                    let b = leaves_before.subrange(l0 as int, leaves_before.len() as int);
                    assert(a =~= b.push((pos, bd)));
                    assert(entries_view(a) =~= entries_view(b) + seq![((depth + 1) as nat, bd@)]);
                    assert(leaf_data@.subrange(0, l0 as int) =~= old_leaves) by {
                        assert(leaf_data@.subrange(0, l0 as int) =~= leaves_before.subrange(0, l0 as int));
                    }
                }
            }
            idx = idx + 1;
        }
        proof {
            assert(leaf_data@.subrange(l0 as int, leaf_data@.len() as int).len() == leaf_data@.len() - l0);
            law_collect_records_every_child(data, branch_data@, depth, md);
            assert(entries_view(leaf_data@.subrange(l0 as int, leaf_data@.len() as int)).len()
                == leaf_data@.len() - l0);
        }
        bd
    }
}

} // verus!
