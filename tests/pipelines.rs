use rand::distributions::{Bernoulli, Distribution};
use rand::thread_rng;
use voxtree::bsvo::get_bsvo_header;
use voxtree::bvox::get_bvox_header;
use voxtree::{
    cube_grid_and_svo, test_bsvo_read_write, test_bvox_append, test_bvox_compression,
    test_bvox_read_write, test_empty_bsvo_and_bvox, test_gen_random_svo, tiny_grid_and_svo,
    CHUNK_SIZE,
};

fn gen_rand_vox_grid(size: usize, probability_of_one: f64) -> Vec<u8> {
    let mut rng = thread_rng();
    let dist = Bernoulli::new(probability_of_one).unwrap();
    (0..size).map(|_| dist.sample(&mut rng) as u8).collect()
}

#[test]
fn gen_empty() {
    let (grid_file, tree_file) = test_empty_bsvo_and_bvox();
    assert!(get_bvox_header(&grid_file).is_ok());
    assert!(get_bsvo_header(&tree_file).is_ok());
}

#[test]
fn bvox_append() {
    let chunk = gen_rand_vox_grid(CHUNK_SIZE as usize, 0.1);
    let decoded = test_bvox_append(&chunk).unwrap();
    for i in 0..CHUNK_SIZE {
        assert_eq!(chunk[i as usize], decoded[i as usize]);
    }
}

#[test]
fn random_svo() {
    let (svo, read_svo) = test_gen_random_svo().unwrap();
    for i in 0..svo.nodes.len() {
        assert_eq!(svo.nodes[i], read_svo.nodes[i]);
    }
}

#[test]
fn bvox_rw() {
    let chunk = gen_rand_vox_grid(CHUNK_SIZE as usize, 0.1);
    let decoded = test_bvox_read_write(&chunk).unwrap();
    for i in 0..CHUNK_SIZE {
        assert_eq!(chunk[i as usize], decoded[i as usize]);
    }
}

#[test]
fn bvox_compression() {
    let chunk = gen_rand_vox_grid(CHUNK_SIZE as usize, 0.1);
    let (read_normal, read_rle) = test_bvox_compression(&chunk).unwrap();
    for i in 0..CHUNK_SIZE {
        assert_eq!(read_normal[0][i as usize], read_rle[0][i as usize]);
    }
}

#[test]
fn bsvo_rw() {
    let chunk = gen_rand_vox_grid(CHUNK_SIZE as usize, 0.1);
    let (svo, read_svo) = test_bsvo_read_write(&chunk).unwrap();
    for i in 0..read_svo.nodes.len() {
        assert_eq!(svo.nodes[i], read_svo.nodes[i]);
    }
    let svo_node_count = svo.count_leaf_nodes();
    let chunk_node_count = chunk.iter().filter(|&&v| v > 0).count() as u32;
    assert_eq!(svo_node_count, chunk_node_count);
}

#[test]
fn cube() {
    cube_grid_and_svo().unwrap();
}

#[test]
fn tiny_grid_and_svo_for_testing() {
    tiny_grid_and_svo().unwrap();
}
