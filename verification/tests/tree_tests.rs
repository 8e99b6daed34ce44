use voxel_octree::octant::Octant;
use voxel_octree::tree::{BranchInfo, Octree, PosInfo, MAX_DEPTH};

fn path(m: [u32; 5]) -> Vec<u32> {
    m.to_vec()
}

#[test]
fn default_tree_is_a_single_empty_root() {
    let t = Octree::default();
    assert_eq!(t.octant_data, vec![0]);
    assert_eq!(t.root_span, 64);
    let (bd, pos) = t.get_new_root_info();
    assert_eq!(pos.depth, 0);
    assert_eq!(bd[0].node, 0);
    assert_eq!(bd[0].span, 64);
}

#[test]
fn insert_then_find_at_origin() {
    let mut t = Octree::default();
    let p = path([0, 0, 0, 0, 0]);
    let (bd, pos) = t.insert_node(&p);
    assert_eq!(pos.depth, 4 + 1);
    assert_eq!(t.octant_data.len(), 41);
    assert_eq!(bd[5].idx, 33);
    assert!(t.octant_data[33].is_leaf());
    assert!(t.octant_data[0].is_subdiv());
    assert_eq!(t.octant_data[0].get_first_child_idx(), 1);
    assert!(t.octant_data[0].check_child_filled(0));
    assert_eq!(bd[1].idx, 1);
    assert_eq!(bd[2].idx, 9);
    assert_eq!(bd[3].span, 8);

    let (found, fpos) = t.node_at_pos(&p);
    assert_eq!(fpos.depth, 5);
    assert_eq!(found[5].idx, 33);
    assert!(found[5].node.is_leaf());
}

#[test]
fn second_insert_shares_the_path() {
    let mut t = Octree::default();
    t.insert_node(&path([0, 0, 0, 0, 0]));
    let (bd, _) = t.insert_node(&path([0, 0, 0, 0, 7]));
    assert_eq!(t.octant_data.len(), 41);
    assert_eq!(bd[5].idx, 40);
    assert!(t.octant_data[40].is_leaf());
    assert_eq!(t.octant_data[25].get_child_bitmask(), 0b1000_0001);

    let (bd3, _) = t.insert_node(&path([0, 7, 7, 7, 7]));
    assert_eq!(t.octant_data.len(), 41 + 24);
    assert!(t.octant_data[bd3[5].idx as usize].is_leaf());
    assert_eq!(t.octant_data[0].get_child_bitmask(), 0b0000_0001);
    assert_eq!(t.octant_data[1].get_child_bitmask(), 0b1000_0001);
}

#[test]
fn inserting_twice_changes_nothing_more() {
    let mut t = Octree::default();
    t.insert_node(&path([3, 1, 4, 1, 5]));
    let once = t.octant_data.clone();
    let (bd, pos) = t.insert_node(&path([3, 1, 4, 1, 5]));
    assert_eq!(t.octant_data, once);
    assert_eq!(pos.depth, 5);
    assert!(t.octant_data[bd[5].idx as usize].is_leaf());
}

#[test]
fn walk_stops_at_a_node_that_is_not_subdivided() {
    let mut t = Octree::default();
    t.insert_node(&path([0, 0, 0, 0, 0]));
    let (bd, pos) = t.node_at_pos(&path([1, 0, 0, 0, 0]));
    assert_eq!(pos.depth, 1);
    assert_eq!(bd[1].idx, 2);
    assert_eq!(bd[1].node, 0);
    assert_eq!(bd[2].idx, 0);
    let empty = Octree::default();
    let (_, pos0) = empty.node_at_pos(&path([3, 3, 3, 3, 3]));
    assert_eq!(pos0.depth, 0);
}

#[test]
fn collect_finds_the_leaves() {
    let mut t = Octree::default();
    t.insert_node(&path([0, 0, 0, 0, 0]));
    t.insert_node(&path([0, 0, 0, 0, 7]));
    let (bd, pos) = t.get_new_root_info();
    let mut leaves: Vec<(PosInfo, [BranchInfo; MAX_DEPTH])> = Vec::new();
    let out = t.collect_branch(&bd, &pos, &mut leaves, 5);
    assert_eq!(leaves.len(), 2);
    assert_eq!(leaves[0].0.depth, 5);
    assert_eq!(leaves[1].0.depth, 5);
    assert_eq!(leaves[0].1[5].mask, 0);
    assert_eq!(leaves[1].1[5].mask, 7);
    assert_eq!(leaves[1].1[5].parent_idx, 25);
    assert_eq!(out[0].idx, 0);
    // Collecting only to depth 3 records the subdivided nodes there.
    let mut shallow: Vec<(PosInfo, [BranchInfo; MAX_DEPTH])> = Vec::new();
    t.collect_branch(&bd, &pos, &mut shallow, 3);
    assert_eq!(shallow.len(), 1);
    assert_eq!(shallow[0].0.depth, 3);
}

#[test]
fn branch_lookups() {
    let mut t = Octree::default();
    let (bd, _) = t.insert_node(&path([0, 0, 0, 0, 2]));
    let b = bd[5];
    assert_eq!(b.idx(), 35);
    assert_eq!(b.parent_idx(), 25);
    assert_eq!(b.first_child_idx(), 33);
    assert_eq!(b.get_child(&t.octant_data, 2), (35, t.octant_data[35]));
    let n = b.move_to_neighbor(&t.octant_data, 3);
    assert_eq!(n.idx, 36);
    assert_eq!(n.mask, 3);
    assert_eq!(n.node, 0);
}

#[test]
fn moving_through_depths() {
    let mut t = Octree::default();
    t.insert_node(&path([0, 0, 0, 0, 0]));
    let (mut bd, mut pos) = t.get_new_root_info();
    let data = t.octant_data.clone();
    pos.move_into_child(&mut bd, 0, |b: BranchInfo| {
        let mut b = b;
        let (i, n) = b.get_child(&data, b.mask);
        b.idx = i;
        b.node = n;
        b
    });
    assert_eq!(pos.depth, 1);
    assert_eq!(pos.branch(&bd).idx, 1);
    assert_eq!(pos.branch(&bd).span, 32);
    pos.update_branch_to_child(&mut bd, |b: &BranchInfo| *b);
    assert_eq!(pos.depth, 2);
    assert_eq!(bd[2].parent_idx, 1);
    assert_eq!(bd[2].idx, 0);
    pos.move_up();
    assert_eq!(pos.depth_idx(), 1);
}

#[test]
fn neighbors() {
    let mut t = Octree::default();
    let (mut bd, pos) = t.insert_node(&path([0, 0, 0, 0, 0]));
    // The leaf sits at position 0; its neighbour at position 1 is empty.
    assert_eq!(pos.neighbor(&t.octant_data, &mut bd, 6, 1).map(|p| p.depth), Some(5));
    // Beyond the depth limit there is nothing to look at.
    assert!(pos.neighbor(&t.octant_data, &mut bd, 5, 1).is_none());
    // A direction already taken moves up and gives nothing.
    let (mut bd2, pos2) = t.insert_node(&path([0, 0, 0, 0, 1]));
    assert!(pos2.neighbor(&t.octant_data, &mut bd2, 6, 1).is_none());
}

#[test]
fn insertion_grows_by_whole_blocks_and_keeps_old_bits() {
    let mut t = Octree::default();
    t.insert_node(&path([0, 0, 0, 0, 0]));
    assert_eq!(t.octant_data.len(), 1 + 8 * 5);
    let before = t.octant_data.clone();
    // The walk along this path stops at depth 3: two blocks are added.
    let (_, reached) = t.node_at_pos(&path([0, 0, 6, 1, 2]));
    assert_eq!(reached.depth, 3);
    t.insert_node(&path([0, 0, 6, 1, 2]));
    assert_eq!(t.octant_data.len(), before.len() + 8 * 2);
    assert_eq!((t.octant_data.len() - 1) % 8, 0);
    for (k, old) in before.iter().enumerate() {
        assert_eq!(t.octant_data[k] & old, *old);
    }
    let leaves_before = before.iter().filter(|w| w.is_leaf()).count();
    let leaves_after = t.octant_data.iter().filter(|w| w.is_leaf()).count();
    assert_eq!(leaves_after, leaves_before + 1);
}

#[test]
fn collect_at_or_past_the_depth_limit() {
    let mut t = Octree::default();
    t.insert_node(&path([0, 0, 0, 0, 0]));
    t.insert_node(&path([0, 0, 0, 0, 7]));
    let (bd, pos) = t.get_new_root_info();
    // At the limit already: the children are recorded without going down.
    let mut flat: Vec<(PosInfo, [BranchInfo; MAX_DEPTH])> = Vec::new();
    t.collect_branch(&bd, &pos, &mut flat, 0);
    assert_eq!(flat.len(), 1);
    assert_eq!(flat[0].0.depth, 1);
    // A limit past the deepest level collects as deep as the tree goes.
    let mut deep: Vec<(PosInfo, [BranchInfo; MAX_DEPTH])> = Vec::new();
    t.collect_branch(&bd, &pos, &mut deep, 10);
    assert_eq!(deep.len(), 2);
    assert_eq!(deep[0].0.depth, 5);
    assert_eq!(deep[1].1[5].mask, 7);
}
