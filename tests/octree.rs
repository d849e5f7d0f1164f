use voxtree::svo::{encode_node, InsertError, Octant, Position, DEFAULT_MAT, SVO};
use voxtree::vox::{morton_encode_3d_grid, pos_to_index};
use voxtree::filled_cube;

#[test]
fn node_fields() {
    let n = encode_node(0b1010_0001, 0x12_3456);
    assert_eq!(n, 0xA112_3456);
    assert_eq!(n.child_mask(), 0b1010_0001);
    assert_eq!(n.first_child_index(), 0x12_3456);
    assert!(n.has_children());
    assert!(n.check_child(0));
    assert!(!n.check_child(1));
    assert!(n.check_child(7));
    assert_eq!(n.child_count(), 3);
    assert_eq!(n.set_child(1), 0xA312_3456);
    assert_eq!(n.set_first_child_index(0xFF00_0007), 0xA100_0007);
    assert_eq!(n.set_child_mask(0), 0x0012_3456);
    assert!(!0x00FF_FFFFu32.has_children());
    assert_eq!(encode_node(1, 0x0100_0002), 0x0100_0002);
}

#[test]
fn new_tree_has_lone_root() {
    let svo = SVO::new(3);
    assert_eq!(svo.nodes, vec![0]);
    assert_eq!(svo.root_span, 8);
    assert_eq!(svo.count_notes(), 0);
    let d = SVO::default();
    assert_eq!(d.depth, 8);
    assert_eq!(d.root_span, 256);
}

#[test]
fn morton_insertion_builds_path() {
    let mut svo = SVO::new(2);
    svo.insert_node_morton(63, 5).unwrap();
    // root subdivided into nodes 1..9, octant 7 then subdivided into 9..17, octant 7 is the leaf
    assert_eq!(svo.nodes.len(), 17);
    assert_eq!(svo.nodes[0], encode_node(0x80, 1));
    assert_eq!(svo.nodes[8], encode_node(0x80, 9));
    assert_eq!(svo.nodes[16], 5);
    assert_eq!(svo.count_leaf_nodes(), 1);
    svo.insert_node_morton(0, 2).unwrap();
    assert_eq!(svo.nodes[0], encode_node(0x81, 1));
    assert_eq!(svo.nodes.len(), 25);
    assert_eq!(svo.count_leaf_nodes(), 2);
    assert_eq!(svo.count_notes(), 2);
}

#[test]
fn octant_out_of_range_is_refused() {
    let mut svo = SVO::new(1);
    assert_eq!(svo.insert_node_morton(8, 1), Err(InsertError::IndexOutOfRange));
    assert_eq!(svo.insert_node_morton(7, 1), Ok(()));
}

#[test]
fn position_insertion() {
    let mut svo = SVO::new(2);
    let leaf = svo.insert_node(Position { x: 3, y: 0, z: 4 }).unwrap();
    assert_eq!(svo.nodes[0], encode_node(0b0010_0000, 1));
    assert_eq!(svo.nodes[leaf], DEFAULT_MAT);
    let shallow = svo.insert_node_at_depth(Position { x: 0, y: 0, z: 0 }, 1).unwrap();
    assert_eq!(shallow, 1);
    assert_eq!(svo.nodes[1], DEFAULT_MAT);
}

#[test]
fn tiny_cube_has_eight_leaves() {
    let res = 8u32;
    let size = res * res * res;
    let mut chunk = vec![0u8; size as usize];
    for x in 2..4 {
        for y in 2..4 {
            for z in 2..4 {
                chunk[pos_to_index(x, y, z, res) as usize] = 1;
            }
        }
    }
    assert_eq!(filled_cube(res, 2, 4), chunk);
    let mut morton = vec![0u8; size as usize];
    morton_encode_3d_grid(&chunk, res, size, &mut morton);
    let svo = SVO::from_grid(&morton, res, 3).unwrap();
    assert_eq!(svo.count_leaf_nodes(), 8);
    assert_eq!(svo.count_notes(), 8);
    assert_eq!(svo.nodes.len(), 25);
}

#[test]
fn sub_cube_leaf_count_matches_voxels() {
    let res = 256u32;
    let size = res * res * res;
    let chunk = filled_cube(res, 64, 192);
    let mut morton = vec![0u8; size as usize];
    morton_encode_3d_grid(&chunk, res, size, &mut morton);
    let svo = SVO::from_grid(&morton, res, 8).unwrap();
    assert_eq!(svo.count_leaf_nodes(), 128 * 128 * 128);
    assert_eq!(svo.count_notes(), 128 * 128 * 128);
    assert_eq!(chunk.iter().filter(|&&v| v > 0).count(), 128 * 128 * 128);
}

#[test]
fn random_tree_is_reproducible() {
    let mut a = SVO::new(4);
    a.gen_random_svo(42).unwrap();
    let mut b = SVO::new(4);
    b.gen_random_svo(42).unwrap();
    assert_eq!(a.nodes, b.nodes);
    assert!(a.nodes.len() >= 9);
    assert_eq!(a.nodes[0].first_child_index(), 1);
    let mut c = SVO::new(4);
    c.gen_random_svo(43).unwrap();
    assert_ne!(a.nodes, c.nodes);
}

#[test]
fn subdivide_appends_a_block() {
    let mut svo = SVO::new(2);
    assert_eq!(svo.subdivide(0, 0b101), Ok(1));
    assert_eq!(svo.nodes, vec![encode_node(0b101, 1), 0, 0, 0, 0, 0, 0, 0, 0]);
}

#[test]
fn random_tree_of_depth_zero_is_a_leaf() {
    let mut svo = SVO::new(0);
    svo.gen_random_svo(7).unwrap();
    assert_eq!(svo.nodes, vec![DEFAULT_MAT]);
    let mut rng = <rand::rngs::StdRng as rand::SeedableRng>::seed_from_u64(1);
    let mut deeper = SVO::new(2);
    deeper.gen_random_branch(&mut rng, 0, 5).unwrap();
    assert_eq!(deeper.nodes, vec![DEFAULT_MAT]);
}

#[test]
fn random_tree_size_is_eight_per_interior_node() {
    let mut svo = SVO::new(5);
    svo.gen_random_svo(3).unwrap();
    // interior nodes: reached through set mask bits above the last level
    let mut interior = 0usize;
    let mut stack = vec![(0usize, 0u8)];
    while let Some((idx, level)) = stack.pop() {
        if level < svo.depth {
            interior += 1;
            let n = svo.nodes[idx];
            for o in 0..8 {
                if n.check_child(o) {
                    stack.push((n.first_child_index() as usize + o as usize, level + 1));
                }
            }
        } else {
            assert_eq!(svo.nodes[idx], DEFAULT_MAT);
        }
    }
    assert_eq!(svo.nodes.len(), 1 + 8 * interior);
}

#[test]
fn refused_root_leaves_the_tree_unchanged() {
    let mut svo = SVO::new(2);
    svo.insert_node_morton(5, 3).unwrap();
    let before = svo.nodes.clone();
    assert_eq!(svo.insert_node_morton(64, 3), Err(InsertError::IndexOutOfRange));
    assert_eq!(svo.nodes, before);
}
