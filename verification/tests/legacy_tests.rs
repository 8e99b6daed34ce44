use voxel_octree::legacy::{Octree, PosInfo, TreeNode};

#[test]
fn legacy_default_and_new_nodes() {
    let t = Octree::default();
    assert_eq!(t.node_data.len(), 1);
    assert_eq!(t.root_span, 1024);
    let n = TreeNode::new(7);
    assert_eq!(n.parent, 7);
    assert_eq!(n.node_type, 0);
    assert_eq!(n.children, [0; 8]);
    let mut m = TreeNode::default();
    m.set(2);
    assert_eq!(m.node_type, 2);
}

#[test]
fn legacy_create_children_once() {
    let mut t = Octree::default();
    let root = PosInfo { index: 0, depth: 0 };
    t.create_children(&root);
    assert_eq!(t.node_data.len(), 9);
    assert_eq!(t.node_data[0].node_type, 1);
    assert_eq!(t.node_data[0].children, [1, 2, 3, 4, 5, 6, 7, 8]);
    assert_eq!(t.node_data[5].parent, 0);
    // A subdivided node keeps its children.
    t.create_children(&root);
    assert_eq!(t.node_data.len(), 9);
}

#[test]
fn legacy_insert_then_find() {
    let mut t = Octree::default();
    let path = vec![0usize, 1, 2, 3, 4, 5, 6, 7, 0];
    let pos = t.insert_node(&path, 2);
    assert_eq!(pos.depth, 9);
    assert_eq!(t.node_data.len(), 1 + 8 * 9);
    assert_eq!(t.node_data[pos.index()].node_type, 2);
    let found = t.node_at_pos(&path);
    assert_eq!(found.depth, 9);
    assert_eq!(found.index, pos.index);
    assert_eq!(found.node(&t.node_data).node_type, 2);
    assert_eq!(found.parent(&t.node_data).node_type, 1);
    // A path that leaves the inserted branch stops below the root.
    let other = t.node_at_pos(&vec![1usize, 0, 0, 0, 0, 0, 0, 0, 0]);
    assert_eq!(other.depth, 1);
    assert_eq!(other.index, 2);
    let mut up = found;
    up.move_up(&t.node_data);
    assert_eq!(up.depth, 8);
    let mut down = up;
    down.move_into_child(&t.node_data, 0);
    assert_eq!(down.index, found.index);
}

#[test]
fn legacy_second_insert_keeps_the_first() {
    let mut t = Octree::default();
    let first = vec![0usize, 1, 2, 3, 4, 5, 6, 7, 0];
    let a = t.insert_node(&first, 2);
    let before: Vec<(u32, u32, u32, [u32; 8])> =
        t.node_data.iter().map(|n| (n.node_type, n.parent, n.micro_group, n.children)).collect();
    let second = vec![0usize, 1, 2, 5, 5, 5, 5, 5, 5];
    let b = t.insert_node(&second, 2);
    assert_eq!(t.node_data.len(), before.len() + 8 * 5);
    // The first insertion's leaf and every link on its path are kept.
    assert_eq!(t.node_data[a.index()].node_type, 2);
    assert_eq!(t.node_at_pos(&first).index, a.index);
    let mut up = t.node_at_pos(&first);
    while up.depth > 0 {
        up.move_up(&t.node_data);
    }
    assert_eq!(up.index, 0);
    // Nodes off the second path are unchanged, and the shared ones keep
    // their parents and children.
    let second_path: Vec<usize> = {
        let mut p = vec![0usize];
        let mut walk = PosInfo { index: 0, depth: 0 };
        for &c in second.iter() {
            walk.move_into_child(&t.node_data, c);
            p.push(walk.index());
        }
        p
    };
    for (k, (ty, parent, micro, children)) in before.iter().enumerate() {
        let n = &t.node_data[k];
        assert_eq!((n.parent, n.micro_group), (*parent, *micro));
        if !second_path.contains(&k) || *ty == 1 {
            assert_eq!(n.children, *children);
        }
    }
    // New nodes off the path are empty children of a node on the path.
    for k in before.len()..t.node_data.len() {
        if !second_path.contains(&k) {
            let n = &t.node_data[k];
            assert_eq!(n.node_type, 0);
            assert_eq!(n.children, [0; 8]);
            assert!(second_path.contains(&(n.parent as usize)));
            assert!(t.node_data[n.parent as usize].children.contains(&(k as u32)));
        }
    }
    assert_eq!(t.node_data[b.index()].node_type, 2);
    // Each node the second insertion split got a block of eight new,
    // consecutive nodes of its own.
    for &k in second_path.iter().take(9) {
        if k >= before.len() || before[k].0 != 1 {
            let first = t.node_data[k].children[0] as usize;
            assert!(first >= before.len() && first + 8 <= t.node_data.len());
            for c in 0..8 {
                assert_eq!(t.node_data[k].children[c] as usize, first + c);
            }
        }
    }
}
