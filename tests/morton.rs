use voxtree::vox::{
    compare_bits, index_to_pos, morton_decode_3d, morton_decode_3d_grid, morton_encode_3d,
    morton_encode_3d_grid, pos_to_index, spread_bits,
};

#[test]
fn spread_moves_bit_k_to_3k() {
    assert_eq!(spread_bits(0), 0);
    assert_eq!(spread_bits(1), 1);
    assert_eq!(spread_bits(2), 8);
    assert_eq!(spread_bits(3), 9);
    assert_eq!(spread_bits(0x80), 1 << 21);
    assert_eq!(spread_bits(0xFF), 0x0024_9249);
}

#[test]
fn compare_bits_gathers_every_third_bit() {
    assert_eq!(compare_bits(0x0024_9249), 0xFF);
    assert_eq!(compare_bits(8), 2);
    assert_eq!(compare_bits(0xFF00_0000), 0);
}

#[test]
fn morton_code_interleaves_axes() {
    assert_eq!(morton_encode_3d(1, 0, 0), 1);
    assert_eq!(morton_encode_3d(0, 1, 0), 2);
    assert_eq!(morton_encode_3d(0, 0, 1), 4);
    assert_eq!(morton_encode_3d(1, 1, 1), 7);
    assert_eq!(morton_encode_3d(2, 0, 0), 8);
    assert_eq!(morton_encode_3d(255, 255, 255), 0x00FF_FFFF);
    assert_eq!(morton_encode_3d(3, 5, 6), 0b110_101_011);
}

#[test]
fn morton_round_trip_every_coordinate() {
    for x in (0..=255u32).step_by(7) {
        for y in (0..=255u32).step_by(11) {
            for z in [0u32, 1, 128, 254, 255] {
                let code = morton_encode_3d(x as u8, y as u8, z as u8);
                assert_eq!(morton_decode_3d(code), (x as u8, y as u8, z as u8));
            }
        }
    }
}

#[test]
fn linear_index_and_position() {
    assert_eq!(pos_to_index(1, 2, 3, 4), 1 + 8 + 48);
    assert_eq!(index_to_pos(57, 4), (1, 2, 3));
    assert_eq!(index_to_pos(255, 256), (255, 0, 0));
    assert_eq!(pos_to_index(255, 255, 255, 256), 256 * 256 * 256 - 1);
}

#[test]
fn grid_morton_round_trip() {
    for res in [1u32, 2, 4, 8, 16] {
        let size = res * res * res;
        let grid: Vec<u8> = (0..size).map(|i| (i * 37 % 251) as u8).collect();
        let mut morton = vec![0u8; size as usize];
        morton_encode_3d_grid(&grid, res, size, &mut morton);
        let mut back = vec![0u8; size as usize];
        morton_decode_3d_grid(&morton, res, size, &mut back);
        assert_eq!(back, grid);
    }
}

#[test]
fn grid_morton_places_each_voxel_at_its_code() {
    let res = 4u32;
    let size = res * res * res;
    let grid: Vec<u8> = (0..size).map(|i| i as u8).collect();
    let mut morton = vec![0u8; size as usize];
    morton_encode_3d_grid(&grid, res, size, &mut morton);
    let index = pos_to_index(1, 2, 3, res);
    assert_eq!(morton[morton_encode_3d(1, 2, 3) as usize], grid[index as usize]);
    assert_eq!(morton[1], grid[1]);
    assert_eq!(morton[2], grid[4]);
    assert_eq!(morton[4], grid[16]);
}
