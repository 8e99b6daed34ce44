//! An octree of linked nodes: nodes with explicit child indices and a node type
//! (0 empty, 1 subdivided, 2 leaf, 3 micro group). A walk is driven by the
//! child position (0 to 7) taken at each depth, which the caller derives
//! from a position in space.

use vstd::prelude::*;

verus! {

pub const MAX_DEPTH: usize = 10;

pub const MAX_NODE: usize = 8192;

/// A node: its children's indices, its type, its parent's index.
#[derive(Clone, Copy)]
pub struct TreeNode {
    pub children: [u32; 8],
    pub node_type: u32,
    pub parent: u32,
    pub micro_group: u32,
    pub padding: [u32; 1],
}

/// A position in a walk: the index of the node reached and its depth.
#[derive(Clone, Copy)]
pub struct PosInfo {
    pub index: u32,
    pub depth: i32,
}

/// The list is well formed: it has a root, and every subdivided node's
/// children lie after it and inside the list.
pub open spec fn legacy_wf(nodes: Seq<TreeNode>) -> bool {
    &&& nodes.len() >= 1
    &&& forall|k: int, c: int|
        0 <= k < nodes.len() && 0 <= c < 8 && #[trigger] nodes[k].node_type == 1 ==> k
            < #[trigger] nodes[k].children@[c] < nodes.len()
}

/// A path of child positions long enough for a full walk.
pub open spec fn legacy_path(path: Seq<usize>) -> bool {
    &&& path.len() >= MAX_DEPTH - 1
    &&& forall|i: int| 0 <= i < MAX_DEPTH - 1 ==> #[trigger] path[i] < 8
}

/// The index reached after following `path` for `d` levels.
pub open spec fn legacy_index(nodes: Seq<TreeNode>, path: Seq<usize>, d: nat) -> u32
    decreases d,
{
    if d == 0 {
        0
    } else {
        nodes[legacy_index(nodes, path, (d - 1) as nat) as int].children@[path[d - 1] as int]
    }
}

/// The depth at which a walk from depth `d` stops: at the first node that is
/// not subdivided, or at the deepest level.
pub open spec fn legacy_depth(nodes: Seq<TreeNode>, path: Seq<usize>, d: nat) -> nat
    decreases MAX_DEPTH - 1 - d,
{
    if d >= MAX_DEPTH - 1 {
        (MAX_DEPTH - 1) as nat
    } else if nodes[legacy_index(nodes, path, d) as int].node_type != 1 {
        d
    } else {
        legacy_depth(nodes, path, d + 1)
    }
}

impl Default for TreeNode {
    fn default() -> (r: TreeNode)
        ensures
            r.node_type == 0,
            r.parent == 0,
            r.micro_group == 0,
            r.children@ == Seq::new(8, |i: int| 0u32),
            r.padding@ == seq![0u32],
    {
        let r = TreeNode { children: [0u32; 8], node_type: 0, parent: 0, micro_group: 0, padding: [0u32; 1] };
        assert(r.children@ =~= Seq::new(8, |i: int| 0u32));
        assert(r.padding@ =~= seq![0u32]);
        r
    }
}

impl TreeNode {
    /// An empty node whose parent is at `parent` (the index kept to 32 bits).
    pub fn new(parent: usize) -> (r: TreeNode)
        ensures
            r.node_type == 0,
            r.parent == parent as u32,
            r.micro_group == 0,
            r.children@ == Seq::new(8, |i: int| 0u32),
            r.padding@ == seq![0u32],
    {
        let r = TreeNode {
            children: [0u32; 8],
            node_type: 0,
            parent: #[verifier::truncate] (parent as u32),
            micro_group: 0,
            padding: [0u32; 1],
        };
        assert(r.children@ =~= Seq::new(8, |i: int| 0u32));
        assert(r.padding@ =~= seq![0u32]);
        r
    }

    /// Sets the node type.
    pub fn set(&mut self, node_type: u32)
        ensures
            *final(self) == (TreeNode { node_type, ..*old(self) }),
    {
        self.node_type = node_type;
    }
}

impl PosInfo {
    pub fn index(&self) -> (r: usize)
        ensures
            r == self.index,
    {
        self.index as usize
    }

    /// The node reached.
    pub fn node(&self, node_data: &Vec<TreeNode>) -> (r: TreeNode)
        requires
            self.index < node_data.len(),
        ensures
            r == node_data@[self.index as int],
    {
        node_data[self.index()]
    }

    /// The parent of the node reached.
    pub fn parent(&self, node_data: &Vec<TreeNode>) -> (r: TreeNode)
        requires
            self.index < node_data.len(),
            node_data@[self.index as int].parent < node_data.len(),
        ensures
            r == node_data@[node_data@[self.index as int].parent as int],
    {
        node_data[self.node(node_data).parent as usize]
    }

    /// Goes up to the parent.
    pub fn move_up(&mut self, node_data: &Vec<TreeNode>)
        requires
            0 <= old(self).depth < MAX_DEPTH,
            old(self).index < node_data.len(),
        ensures
            final(self).depth == old(self).depth - 1,
            final(self).index == node_data@[old(self).index as int].parent,
    {
        self.depth = self.depth - 1;
        self.index = self.node(node_data).parent;
    }

    /// Goes down into the child at position `space_index`.
    pub fn move_into_child(&mut self, node_data: &Vec<TreeNode>, space_index: usize)
        requires
            -1 <= old(self).depth,
            old(self).depth + 1 < MAX_DEPTH,
            old(self).index < node_data.len(),
            space_index < 8,
        ensures
            final(self).depth == old(self).depth + 1,
            final(self).index == node_data@[old(self).index as int].children@[space_index as int],
    {
        self.depth = self.depth + 1;
        self.index = self.node(node_data).children[space_index];
    }
}

/// An empty node made as a child of the node at `parent`: no type, no
/// children, micro group and padding zero.
pub open spec fn empty_child(n: TreeNode, parent: u32) -> bool {
    &&& n.node_type == 0
    &&& n.parent == parent
    &&& n.micro_group == 0
    &&& n.padding@ == seq![0u32]
    &&& n.children@ == Seq::new(8, |c: int| 0u32)
}

/// The linked octree: the node list, root at index 0, and the edge length
/// of the root.
pub struct Octree {
    pub node_data: Vec<TreeNode>,
    pub root_span: u32,
}

impl Default for Octree {
    fn default() -> (r: Octree)
        ensures
            r.node_data.len() == 1,
            r.node_data@[0].node_type == 0,
            r.root_span == 1024,
    {
        let mut node_data: Vec<TreeNode> = Vec::new();
        node_data.push(TreeNode::default());
        let root_span = 1u32 << (MAX_DEPTH as u32);
        assert(1u32 << 10u32 == 1024u32) by (bit_vector);
        Octree { node_data, root_span }
    }
}

impl Octree {
    /// Whether the node list is well formed.
    pub open spec fn wf(&self) -> bool {
        legacy_wf(self.node_data@)
    }

    /// Gives the node at the position eight children, appended to the list,
    /// unless it is subdivided already, and marks it subdivided.
    pub fn create_children(&mut self, pos_info: &PosInfo)
        requires
            pos_info.index < old(self).node_data.len(),
            old(self).node_data.len() + 8 <= u32::MAX,
        ensures
            legacy_wf(old(self).node_data@) ==> legacy_wf(final(self).node_data@),
            final(self).root_span == old(self).root_span,
            ({
                let old_nodes = old(self).node_data@;
                let nodes = final(self).node_data@;
                let i = pos_info.index as int;
                if old_nodes[i].node_type == 1 {
                    nodes == old_nodes
                } else {
                    &&& nodes.len() == old_nodes.len() + 8
                    &&& nodes[i].node_type == 1
                    &&& nodes[i].parent == old_nodes[i].parent
                    &&& nodes[i].micro_group == old_nodes[i].micro_group
                    &&& nodes[i].padding == old_nodes[i].padding
                    &&& nodes[i].children@ == Seq::new(8, |c: int| (old_nodes.len() + c) as u32)
                    &&& forall|k: int| 0 <= k < old_nodes.len() && k != i ==> nodes[k] == old_nodes[k]
                    &&& forall|k: int| old_nodes.len() <= k < nodes.len() ==> empty_child(nodes[k], pos_info.index)
                }
            }),
    {
        let ghost old_nodes = self.node_data@;
        let idx = pos_info.index();
        let mut node = self.node_data[idx];
        if node.node_type != 1 {
            node.node_type = 1;
            let mut c: usize = 0;
            while c < 8
                invariant
                    c <= 8,
                    idx == pos_info.index,
                    idx < old_nodes.len(),
                    old_nodes.len() + 8 <= u32::MAX,
                    self.node_data@.len() == old_nodes.len() + c,
                    self.node_data@.subrange(0, old_nodes.len() as int) == old_nodes,
                    self.root_span == old(self).root_span,
                    node.node_type == 1,
                    node.parent == old_nodes[idx as int].parent,
                    node.micro_group == old_nodes[idx as int].micro_group,
                    node.padding == old_nodes[idx as int].padding,
                    forall|j: int| 0 <= j < c ==> node.children@[j] == old_nodes.len() + j,
                    forall|k: int| old_nodes.len() <= k < self.node_data@.len() ==> empty_child(
                        #[trigger] self.node_data@[k],
                        pos_info.index,
                    ),
                decreases 8 - c,
            {
                let ghost before = self.node_data@;
                node.children[c] = self.node_data.len() as u32;
                self.node_data.push(TreeNode::new(idx));
                proof {
                    assert(self.node_data@.subrange(0, old_nodes.len() as int) =~= before.subrange(0, old_nodes.len() as int));
                }
                c = c + 1;
            }
            self.node_data.set(idx, node);
            proof {
                let nodes = self.node_data@;
                assert(node.children@ =~= Seq::new(8, |c: int| (old_nodes.len() + c) as u32));
                assert forall|k: int| 0 <= k < old_nodes.len() && k != idx implies nodes[k] == old_nodes[k] by {
                    assert(nodes[k] == self.node_data@[k]);
                    assert(old_nodes[k] == old_nodes.subrange(0, old_nodes.len() as int)[k]);
                }
                if legacy_wf(old_nodes) {
                    assert forall|k: int, c: int|
                        0 <= k < nodes.len() && 0 <= c < 8 && #[trigger] nodes[k].node_type == 1 implies k
                            < #[trigger] nodes[k].children@[c] < nodes.len() by {
                        if k == idx {
                        } else if k < old_nodes.len() {
                            assert(nodes[k] == old_nodes[k]);
                        }
                    }
                }
            }
        }
    }

    /// Walks down along `child_path` while the node reached is subdivided,
    /// at most to the deepest level.
    pub fn node_at_pos(&self, child_path: &Vec<usize>) -> (r: PosInfo)
        requires
            self.wf(),
            legacy_path(child_path@),
        ensures
            r.depth == legacy_depth(self.node_data@, child_path@, 0),
            r.index == legacy_index(self.node_data@, child_path@, r.depth as nat),
    {
        let ghost nodes = self.node_data@;
        let ghost path = child_path@;
        let mut pos_info = PosInfo { index: 0, depth: 0 };
        while pos_info.depth < (MAX_DEPTH - 1) as i32 && pos_info.node(&self.node_data).node_type == 1
            invariant
                self.wf(),
                nodes == self.node_data@,
                path == child_path@,
                legacy_path(path),
                0 <= pos_info.depth <= MAX_DEPTH - 1,
                pos_info.index == legacy_index(nodes, path, pos_info.depth as nat),
                pos_info.index < nodes.len(),
                legacy_depth(nodes, path, 0) == legacy_depth(nodes, path, pos_info.depth as nat),
            decreases MAX_DEPTH - 1 - pos_info.depth,
        {
            let ghost d = pos_info.depth as nat;
            let space_index = child_path[pos_info.depth as usize];
            pos_info.move_into_child(&self.node_data, space_index);
            proof {
                assert(nodes[legacy_index(nodes, path, d) as int].node_type == 1);
                assert(legacy_index(nodes, path, d + 1) == pos_info.index);
            }
        }
        pos_info
    }

    /// Inserts a node of type `node_type` along `child_path`: every level is
    /// walked, giving each node on the way children if it has none, and the
    /// deepest node reached gets the type. Nodes off the path are left as
    /// they were; the nodes on the path keep their parent, micro group and
    /// padding (a new one has its creator as parent), and those that had
    /// children keep them; every other new node is an empty child of a node
    /// on the path.
    pub fn insert_node(&mut self, child_path: &Vec<usize>, node_type: u32) -> (r: PosInfo)
        requires
            old(self).wf(),
            legacy_path(child_path@),
            old(self).node_data.len() + 8 * (MAX_DEPTH - 1) <= u32::MAX,
        ensures
            node_type != 1 ==> final(self).wf(),
            final(self).root_span == old(self).root_span,
            r.depth == MAX_DEPTH - 1,
            r.index == legacy_index(final(self).node_data@, child_path@, (MAX_DEPTH - 1) as nat),
            final(self).node_data@[r.index as int].node_type == node_type,
            legacy_depth(final(self).node_data@, child_path@, 0) == MAX_DEPTH - 1,
            old(self).node_data.len() <= final(self).node_data.len(),
            forall|k: int|
                0 <= k < old(self).node_data.len() && !on_legacy_path(final(self).node_data@, child_path@, k)
                    ==> final(self).node_data@[k] == old(self).node_data@[k],
            forall|d: nat|
                d < MAX_DEPTH ==> #[trigger] legacy_keeps(
                    old(self).node_data@,
                    final(self).node_data@,
                    child_path@,
                    d,
                ),
            forall|d: nat|
                d < MAX_DEPTH - 1 ==> #[trigger] legacy_split_kept(
                    old(self).node_data@,
                    final(self).node_data@,
                    child_path@,
                    d,
                ),
            forall|k: int|
                old(self).node_data.len() <= k < final(self).node_data.len() && !on_legacy_path(
                    final(self).node_data@,
                    child_path@,
                    k,
                ) ==> legacy_fresh(final(self).node_data@, child_path@, k),
            r.index >= old(self).node_data.len() ==> final(self).node_data@[r.index as int].children@
                == Seq::new(8, |c: int| 0u32),
            forall|d: nat|
                d < MAX_DEPTH - 1 && legacy_was_split(
                    old(self).node_data@,
                    #[trigger] legacy_index(final(self).node_data@, child_path@, d),
                ) ==> legacy_new_block(
                    old(self).node_data.len() as int,
                    final(self).node_data@,
                    legacy_index(final(self).node_data@, child_path@, d),
                ),
            final(self).node_data.len() == old(self).node_data.len() + 8 * legacy_splits(
                old(self).node_data@,
                Seq::new((MAX_DEPTH - 1) as nat, |d: int| legacy_index(final(self).node_data@, child_path@, d as nat)),
            ),
    {
        let ghost path = child_path@;
        let ghost old0 = self.node_data@;
        let ghost n0 = self.node_data@.len();
        let ghost mut visited: Seq<u32> = seq![0u32];
        let mut pos_info = PosInfo { index: 0, depth: 0 };
        let mut step: usize = 1;
        while step < MAX_DEPTH
            invariant
                1 <= step <= MAX_DEPTH,
                pos_info.depth == step - 1,
                path == child_path@,
                legacy_path(path),
                self.wf(),
                legacy_wf(old0),
                n0 == old0.len(),
                self.root_span == old(self).root_span,
                n0 <= self.node_data@.len() <= n0 + 8 * (step - 1),
                self.node_data@.len() == n0 + 8 * legacy_splits(old0, visited.subrange(0, pos_info.depth as int)),
                forall|j: int|
                    0 <= j < pos_info.depth && legacy_was_split(old0, #[trigger] visited[j]) ==> legacy_new_block(
                        n0 as int,
                        self.node_data@,
                        visited[j],
                    ),
                n0 + 8 * (MAX_DEPTH - 1) <= u32::MAX,
                visited.len() == step,
                visited[0] == 0,
                visited[pos_info.depth as int] == pos_info.index,
                pos_info.index < self.node_data@.len(),
                forall|a: int, b: int| 0 <= a < b < visited.len() ==> visited[a] < visited[b],
                forall|d: int|
                    0 <= d < pos_info.depth ==> #[trigger] self.node_data@[visited[d] as int].node_type == 1
                        && self.node_data@[visited[d] as int].children@[path[d] as int] == visited[d + 1],
                forall|k: int|
                    0 <= k < n0 && !visited.contains(k as u32) ==> self.node_data@[k] == old0[k],
                forall|j: int| 0 <= j < visited.len() ==> kept_at(old0, self.node_data@, visited, j),
                forall|j: int|
                    0 <= j < pos_info.depth ==> children_kept_at(old0, self.node_data@, visited, j),
                pos_info.index < n0 ==> self.node_data@[pos_info.index as int] == old0[pos_info.index as int],
                pos_info.index >= n0 ==> self.node_data@[pos_info.index as int].node_type == 0
                    && self.node_data@[pos_info.index as int].children@ == Seq::new(8, |c: int| 0u32),
                forall|k: int|
                    n0 <= k < self.node_data@.len() && !visited.contains(k as u32) ==> fresh_at(
                        self.node_data@,
                        visited,
                        k,
                    ),
            decreases MAX_DEPTH - step,
        {
            let ghost before = self.node_data@;
            let ghost d = pos_info.depth;
            let ghost cur = pos_info.index as int;
            self.create_children(&pos_info);
            let ghost mid = self.node_data@;
            proof {
                assert forall|e: int|
                    0 <= e < d implies #[trigger] self.node_data@[visited[e] as int].node_type == 1
                        && self.node_data@[visited[e] as int].children@[path[e] as int] == visited[e + 1] by {
                    assert(visited[e] < visited[d as int]);
                    let k = visited[e] as int;
                    assert(before[k].node_type == 1);
                    if before[pos_info.index as int].node_type == 1 {
                        assert(self.node_data@ == before);
                    } else {
                        assert(self.node_data@[k] == before[k]);
                    }
                }
            }
            let space_index = child_path[step - 1];
            pos_info.move_into_child(&self.node_data, space_index);
            proof {
                let nxt = pos_info.index as int;
                let split = before[cur].node_type != 1;
                assert(mid[cur].node_type == 1);
                assert(cur < nxt);
                if !split {
                    assert(cur < n0);
                    assert(before[cur] == old0[cur]);
                    assert(mid == before);
                    assert(nxt < n0);
                } else {
                    assert(nxt == before.len() + space_index);
                    assert(mid[nxt] == mid[before.len() + space_index]);
                }
                let old_visited = visited;
                assert forall|j: int| 0 <= j < old_visited.len() implies old_visited[j] <= cur by {
                    if j < d {
                        assert(old_visited[j] < old_visited[d as int]);
                    }
                }
                assert(!old_visited.contains(nxt as u32));
                visited = visited.push(nxt as u32);
                assert(visited[d as int] == cur);
                assert(split == legacy_was_split(old0, cur as u32)) by {
                    if cur < n0 {
                        assert(before[cur] == old0[cur]);
                    }
                }
                assert(visited.subrange(0, d + 1).drop_last() =~= old_visited.subrange(0, d as int));
                assert(visited.subrange(0, d + 1).last() == cur as u32);
                assert forall|j: int|
                    0 <= j < d + 1 && legacy_was_split(old0, #[trigger] visited[j]) implies legacy_new_block(
                        n0 as int,
                        mid,
                        visited[j],
                    ) by {
                    if j == d {
                        assert(mid[cur].children@ =~= Seq::new(8, |c: int| (before.len() + c) as u32));
                    } else {
                        assert(visited[j] == old_visited[j]);
                        assert(legacy_new_block(n0 as int, before, old_visited[j]));
                        assert(old_visited[j] < old_visited[d as int]);
                        assert(mid[old_visited[j] as int] == before[old_visited[j] as int]);
                    }
                }
                // the nodes that the step left untouched
                assert forall|k: int| 0 <= k < before.len() && k != cur implies mid[k] == before[k] by {}
                assert forall|e: int|
                    0 <= e < pos_info.depth implies #[trigger] self.node_data@[visited[e] as int].node_type == 1
                        && self.node_data@[visited[e] as int].children@[path[e] as int] == visited[e + 1] by {
                    if e < d {
                        assert(visited[e] == old_visited[e]);
                        assert(visited[e + 1] == old_visited[e + 1]);
                    } else {
                        assert(e == d);
                        assert(visited[e] == cur as u32);
                        assert(visited[e + 1] == nxt as u32);
                        assert(path[e] == space_index);
                        assert(self.node_data@ == mid);
                    }
                }
                assert forall|k: int| 0 <= k < n0 && !visited.contains(k as u32) implies mid[k] == old0[k] by {
                    if old_visited.contains(k as u32) {
                        let j = choose|j: int| 0 <= j < old_visited.len() && old_visited[j] == k as u32;
                        assert(visited[j] == k as u32);
                    }
                    assert(k != cur) by {
                        assert(old_visited[d as int] == cur);
                    }
                }
                assert forall|j: int| 0 <= j < visited.len() implies kept_at(old0, mid, visited, j) by {
                    if j == d + 1 {
                        if nxt < n0 {
                            assert(!old_visited.contains(nxt as u32));
                            assert(mid[nxt] == before[nxt]);
                        }
                    } else {
                        assert(visited[j] == old_visited[j]);
                        assert(kept_at(old0, before, old_visited, j));
                        if j > 0 {
                            assert(visited[j - 1] == old_visited[j - 1]);
                        }
                    }
                }
                assert forall|j: int| 0 <= j < pos_info.depth implies children_kept_at(old0, mid, visited, j) by {
                    assert(visited[j] == old_visited[j]);
                    if j < d {
                        assert(children_kept_at(old0, before, old_visited, j));
                        assert(old_visited[j] < old_visited[d as int]);
                    }
                }
                if nxt < n0 {
                    assert(!old_visited.contains(nxt as u32));
                    assert(mid[nxt] == before[nxt]);
                }
                assert forall|k: int|
                    n0 <= k < mid.len() && !visited.contains(k as u32) implies fresh_at(mid, visited, k) by {
                    assert(k != nxt);
                    if k < before.len() {
                        assert(!old_visited.contains(k as u32)) by {
                            if old_visited.contains(k as u32) {
                                let j = choose|j: int| 0 <= j < old_visited.len() && old_visited[j] == k as u32;
                                assert(visited[j] == k as u32);
                            }
                        }
                        assert(fresh_at(before, old_visited, k));
                        assert(k != cur);
                        let j = choose|j: int|
                            0 <= j < old_visited.len() - 1 && #[trigger] old_visited[j] == before[k].parent
                                && before[old_visited[j] as int].children@.contains(k as u32);
                        assert(old_visited[j] < old_visited[d as int]);
                        assert(visited[j] == old_visited[j]);
                        assert(mid[old_visited[j] as int] == before[old_visited[j] as int]);
                    } else {
                        assert(split);
                        let c = k - before.len();
                        assert(mid[cur].children@[c] == k as u32);
                        assert(mid[cur].children@.contains(k as u32));
                    }
                }
            }
            step = step + 1;
        }
        let ghost before = self.node_data@;
        let idx = pos_info.index();
        let mut node = self.node_data[idx];
        node.set(node_type);
        self.node_data.set(idx, node);
        proof {
            let nodes = self.node_data@;
            let last = (MAX_DEPTH - 1) as int;
            let t = idx as int;
            assert forall|d: int| 0 <= d < last implies #[trigger] nodes[visited[d] as int].node_type == 1
                && nodes[visited[d] as int].children@[path[d] as int] == visited[d + 1] by {
                assert(visited[d] < visited[last]);
                assert(before[visited[d] as int].node_type == 1);
            }
            lemma_legacy_walk(nodes, path, visited);
            assert forall|k: int| 0 <= k < nodes.len() && k != t implies nodes[k] == before[k] by {}
            let idxs = Seq::new((MAX_DEPTH - 1) as nat, |d: int| legacy_index(nodes, path, d as nat));
            assert(idxs =~= visited.subrange(0, last)) by {
                assert forall|d: int| 0 <= d < last implies idxs[d] == visited.subrange(0, last)[d] by {
                    assert(legacy_index(nodes, path, d as nat) == visited[d]);
                }
            }
            assert forall|d: nat|
                d < MAX_DEPTH - 1 && legacy_was_split(old0, #[trigger] legacy_index(nodes, path, d)) implies legacy_new_block(
                    n0 as int,
                    nodes,
                    legacy_index(nodes, path, d),
                ) by {
                assert(legacy_index(nodes, path, d) == visited[d as int]);
                assert(visited[d as int] < visited[last]);
                assert(legacy_new_block(n0 as int, before, visited[d as int]));
                assert(nodes[visited[d as int] as int] == before[visited[d as int] as int]);
            }
            assert forall|k: int| 0 <= k < nodes.len() && on_legacy_path(nodes, path, k) implies visited.contains(
                k as u32,
            ) by {
                let d = choose|d: nat| d < MAX_DEPTH && #[trigger] legacy_index(nodes, path, d) == k;
                assert(visited[d as int] == k as u32);
            }
            assert forall|j: int| 0 <= j < MAX_DEPTH implies on_legacy_path(nodes, path, visited[j] as int) by {
                assert(legacy_index(nodes, path, j as nat) == visited[j]);
            }
            assert forall|k: int|
                0 <= k < n0 && !on_legacy_path(nodes, path, k) implies nodes[k] == old0[k] by {
                if visited.contains(k as u32) {
                    let j = choose|j: int| 0 <= j < visited.len() && visited[j] == k as u32;
                }
            }
            assert forall|d: nat| d < MAX_DEPTH implies #[trigger] legacy_keeps(old0, nodes, path, d) by {
                assert(kept_at(old0, before, visited, d as int));
                assert(legacy_index(nodes, path, d) == visited[d as int]);
                if d > 0 {
                    assert(legacy_index(nodes, path, (d - 1) as nat) == visited[d - 1]);
                }
            }
            assert forall|d: nat| d < MAX_DEPTH - 1 implies #[trigger] legacy_split_kept(old0, nodes, path, d) by {
                assert(legacy_index(nodes, path, d) == visited[d as int]);
                assert(visited[d as int] < visited[last]);
                assert(children_kept_at(old0, before, visited, d as int));
                assert(nodes[visited[d as int] as int].node_type == 1);
            }
            assert forall|k: int|
                n0 <= k < nodes.len() && !on_legacy_path(nodes, path, k) implies legacy_fresh(nodes, path, k) by {
                if visited.contains(k as u32) {
                    let j = choose|j: int| 0 <= j < visited.len() && visited[j] == k as u32;
                }
                assert(fresh_at(before, visited, k));
                let j = choose|j: int|
                    0 <= j < visited.len() - 1 && #[trigger] visited[j] == before[k].parent
                        && before[visited[j] as int].children@.contains(k as u32);
                assert(visited[j] < visited[last]);
                assert(legacy_index(nodes, path, j as nat) == visited[j]);
                assert(nodes[k] == before[k]);
                assert(nodes[visited[j] as int] == before[visited[j] as int]);
            }
            if node_type != 1 {
                assert forall|k: int, c: int|
                    0 <= k < nodes.len() && 0 <= c < 8 && #[trigger] nodes[k].node_type == 1 implies k
                        < #[trigger] nodes[k].children@[c] < nodes.len() by {
                    assert(k != idx);
                    assert(nodes[k] == before[k]);
                }
            }
        }
        pos_info
    }
}

/// Whether the node at `k` was given new children when an insertion
/// reached it: it was not in `old_nodes`, or was not subdivided there.
pub open spec fn legacy_was_split(old_nodes: Seq<TreeNode>, k: u32) -> bool {
    !(k < old_nodes.len() && old_nodes[k as int].node_type == 1)
}

/// How many of the nodes at `idxs` were given new children.
pub open spec fn legacy_splits(old_nodes: Seq<TreeNode>, idxs: Seq<u32>) -> nat
    decreases idxs.len(),
{
    if idxs.len() == 0 {
        0
    } else {
        legacy_splits(old_nodes, idxs.drop_last()) + if legacy_was_split(old_nodes, idxs.last()) {
            1nat
        } else {
            0nat
        }
    }
}

/// The children of the node at `k` are eight consecutive indices at or
/// after `n0` and inside `nodes`: a block of its own, appended.
pub open spec fn legacy_new_block(n0: int, nodes: Seq<TreeNode>, k: u32) -> bool {
    let b = nodes[k as int].children@[0] as int;
    &&& n0 <= b
    &&& b + 8 <= nodes.len()
    &&& nodes[k as int].children@ == Seq::new(8, |c: int| (b + c) as u32)
}

/// Whether the node at `k` is one that a walk along `path` visits.
pub open spec fn on_legacy_path(nodes: Seq<TreeNode>, path: Seq<usize>, k: int) -> bool {
    exists|d: nat| d < MAX_DEPTH && #[trigger] legacy_index(nodes, path, d) == k
}

/// The node at depth `d` of the walk along `path` in `nodes` keeps the
/// parent, micro group and padding it had in `old_nodes`; a node that was
/// not there before has the node above it on the walk as parent and micro
/// group and padding zero.
pub open spec fn legacy_keeps(old_nodes: Seq<TreeNode>, nodes: Seq<TreeNode>, path: Seq<usize>, d: nat) -> bool {
    let k = legacy_index(nodes, path, d) as int;
    if k < old_nodes.len() {
        &&& nodes[k].parent == old_nodes[k].parent
        &&& nodes[k].micro_group == old_nodes[k].micro_group
        &&& nodes[k].padding == old_nodes[k].padding
    } else {
        &&& d > 0
        &&& nodes[k].parent == legacy_index(nodes, path, (d - 1) as nat)
        &&& nodes[k].micro_group == 0
        &&& nodes[k].padding@ == seq![0u32]
    }
}

/// The node at depth `d` of the walk is subdivided, and keeps its children
/// if it was subdivided before.
pub open spec fn legacy_split_kept(old_nodes: Seq<TreeNode>, nodes: Seq<TreeNode>, path: Seq<usize>, d: nat) -> bool {
    let k = legacy_index(nodes, path, d) as int;
    &&& nodes[k].node_type == 1
    &&& (k < old_nodes.len() && old_nodes[k].node_type == 1 ==> nodes[k].children == old_nodes[k].children)
}

/// The node at `k` is an empty child of a node above the deepest level of
/// the walk along `path`.
pub open spec fn legacy_fresh(nodes: Seq<TreeNode>, path: Seq<usize>, k: int) -> bool {
    &&& empty_child(nodes[k], nodes[k].parent)
    &&& exists|d: nat|
        d < MAX_DEPTH - 1 && #[trigger] legacy_index(nodes, path, d) == nodes[k].parent
            && nodes[nodes[k].parent as int].children@.contains(k as u32)
}

/// The node visited at step `j` keeps its parent, micro group and padding,
/// or, if new, has the previous visited node as parent.
spec fn kept_at(old_nodes: Seq<TreeNode>, nodes: Seq<TreeNode>, visited: Seq<u32>, j: int) -> bool {
    let k = visited[j] as int;
    if k < old_nodes.len() {
        &&& nodes[k].parent == old_nodes[k].parent
        &&& nodes[k].micro_group == old_nodes[k].micro_group
        &&& nodes[k].padding == old_nodes[k].padding
    } else {
        &&& j > 0
        &&& nodes[k].parent == visited[j - 1]
        &&& nodes[k].micro_group == 0
        &&& nodes[k].padding@ == seq![0u32]
    }
}

/// The node visited at step `j` kept its children if it had any.
spec fn children_kept_at(old_nodes: Seq<TreeNode>, nodes: Seq<TreeNode>, visited: Seq<u32>, j: int) -> bool {
    let k = visited[j] as int;
    k < old_nodes.len() && old_nodes[k].node_type == 1 ==> nodes[k].children == old_nodes[k].children
}

/// The node at `k` is an empty child of a node visited before the last step.
spec fn fresh_at(nodes: Seq<TreeNode>, visited: Seq<u32>, k: int) -> bool {
    &&& empty_child(nodes[k], nodes[k].parent)
    &&& exists|j: int|
        0 <= j < visited.len() - 1 && #[trigger] visited[j] == nodes[k].parent
            && nodes[visited[j] as int].children@.contains(k as u32)
}

/// `visited` records a walk along `path` from the root to the deepest
/// level: each recorded node above it is subdivided, with the next recorded
/// index as the child taken.
spec fn recorded_walk(nodes: Seq<TreeNode>, path: Seq<usize>, visited: Seq<u32>) -> bool {
    &&& visited.len() == MAX_DEPTH
    &&& visited[0] == 0
    &&& forall|d: int|
        0 <= d < MAX_DEPTH - 1 ==> #[trigger] nodes[visited[d] as int].node_type == 1
            && nodes[visited[d] as int].children@[path[d] as int] == visited[d + 1]
}

/// A walk follows the recorded indices when each recorded node above the
/// deepest level is subdivided with the next recorded index as the child
/// taken.
proof fn lemma_legacy_walk(nodes: Seq<TreeNode>, path: Seq<usize>, visited: Seq<u32>)
    requires
        recorded_walk(nodes, path, visited),
    ensures
        forall|d: nat| d < MAX_DEPTH ==> #[trigger] legacy_index(nodes, path, d) == visited[d as int],
        legacy_depth(nodes, path, 0) == MAX_DEPTH - 1,
{
    assert forall|d: nat| d < MAX_DEPTH implies #[trigger] legacy_index(nodes, path, d) == visited[d as int] by {
        lemma_legacy_index(nodes, path, visited, d);
    }
    lemma_legacy_depth(nodes, path, visited, 0);
}

proof fn lemma_legacy_index(nodes: Seq<TreeNode>, path: Seq<usize>, visited: Seq<u32>, d: nat)
    requires
        recorded_walk(nodes, path, visited),
        d < MAX_DEPTH,
    ensures
        legacy_index(nodes, path, d) == visited[d as int],
    decreases d,
{
    if d > 0 {
        lemma_legacy_index(nodes, path, visited, (d - 1) as nat);
        let e: int = d - 1;
        assert(0 <= e < MAX_DEPTH - 1);
        assert(nodes[visited[e] as int].node_type == 1);
    }
}

proof fn lemma_legacy_depth(nodes: Seq<TreeNode>, path: Seq<usize>, visited: Seq<u32>, d: nat)
    requires
        recorded_walk(nodes, path, visited),
        d <= MAX_DEPTH - 1,
    ensures
        legacy_depth(nodes, path, d) == MAX_DEPTH - 1,
    decreases MAX_DEPTH - 1 - d,
{
    if d < MAX_DEPTH - 1 {
        lemma_legacy_index(nodes, path, visited, d);
        assert(nodes[visited[d as int] as int].node_type == 1);
        lemma_legacy_depth(nodes, path, visited, d + 1);
    }
}

} // verus!
