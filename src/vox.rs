//! Voxel grid indexing and the Morton (Z-order) transform.
use vstd::prelude::*;

verus! {

/// Material written into voxels that are simply "filled".
pub const DEFAULT_VOX_MAT: u8 = 1;

/// Moves bit `k` of `b` to bit `3k`, for `k` in `0..8`; all other bits are clear.
pub open spec fn spread(b: u8) -> u32 {
    let v = b as u32;
    (v & 0x01) | ((v & 0x02) << 2u32) | ((v & 0x04) << 4u32) | ((v & 0x08) << 6u32) | ((v & 0x10)
        << 8u32) | ((v & 0x20) << 10u32) | ((v & 0x40) << 12u32) | ((v & 0x80) << 14u32)
}

/// Gathers bit `3k` of `m` into bit `k`, for `k` in `0..8`.
pub open spec fn compact(m: u32) -> u8 {
    ((m & 0x01) | ((m >> 2u32) & 0x02) | ((m >> 4u32) & 0x04) | ((m >> 6u32) & 0x08) | ((m >> 8u32)
        & 0x10) | ((m >> 10u32) & 0x20) | ((m >> 12u32) & 0x40) | ((m >> 14u32) & 0x80)) as u8
}

/// The Morton code of `(x, y, z)`: bit `3k` is bit `k` of `x`, bit `3k + 1` is bit `k` of `y`,
/// bit `3k + 2` is bit `k` of `z`; bits `24..32` are clear.
pub open spec fn morton_code(x: u8, y: u8, z: u8) -> u32 {
    spread(x) | (spread(y) << 1u32) | (spread(z) << 2u32)
}

/// The coordinates that the low 24 bits of a Morton code stand for.
pub open spec fn morton_coords(m: u32) -> (u8, u8, u8) {
    (compact(m), compact(m >> 1u32), compact(m >> 2u32))
}

/// Linear position of `(x, y, z)` in a grid of side `res`.
pub open spec fn linear_index(x: int, y: int, z: int, res: int) -> int {
    x + y * res + z * res * res
}

/// The position `(x, y, z)` whose linear index in a grid of side `res` is `i`.
pub open spec fn grid_pos(i: int, res: int) -> (int, int, int) {
    (i % res, (i / res) % res, i / (res * res))
}

/// A grid side for which the Morton transform is a bijection on the grid: a power of two
/// no larger than 256.
pub open spec fn valid_resolution(res: u32) -> bool {
    res == 1 || res == 2 || res == 4 || res == 8 || res == 16 || res == 32 || res == 64 || res
        == 128 || res == 256
}

/// The Morton code of the voxel at linear index `i`.
pub open spec fn morton_of_linear(i: int, res: int) -> int {
    let p = grid_pos(i, res);
    morton_code(p.0 as u8, p.1 as u8, p.2 as u8) as int
}

/// The linear index of the voxel with Morton code `m`.
pub open spec fn linear_of_morton(m: int, res: int) -> int {
    let c = morton_coords(m as u32);
    linear_index(c.0 as int, c.1 as int, c.2 as int, res)
}

/// A linearly ordered grid rearranged in Morton order: entry `m` is the voxel whose Morton
/// code is `m`.
pub open spec fn morton_order(grid: Seq<u8>, res: u32) -> Seq<u8> {
    Seq::new(grid.len(), |m: int| grid[linear_of_morton(m, res as int)])
}

/// A Morton-ordered grid rearranged in linear order: entry `i` is the voxel whose linear
/// index is `i`.
pub open spec fn linear_order(morton_grid: Seq<u8>, res: u32) -> Seq<u8> {
    Seq::new(morton_grid.len(), |i: int| morton_grid[morton_of_linear(i, res as int)])
}

/// The linear index of `(x, y, z)` in a grid of side `res`.
pub fn pos_to_index(x: u32, y: u32, z: u32, res: u32) -> (r: u32)
    requires
        linear_index(x as int, y as int, z as int, res as int) <= u32::MAX,
    ensures
        r == linear_index(x as int, y as int, z as int, res as int),
{
    proof {
        let i = linear_index(x as int, y as int, z as int, res as int);
        assert(y * res <= i && z * res * res <= i && z * res <= u32::MAX) by (nonlinear_arith)
            requires
                i == x + y * res + z * res * res,
                i <= u32::MAX,
        ;
    }
    x + y * res + z * res * res
}

/// Spreads the bits of a byte three apart: bit `k` moves to bit `3k`.
pub fn spread_bits(byte: u8) -> (r: u32)
    ensures
        r == spread(byte),
{
    let b = byte;
    let mut x = byte as u32;
    let x0 = x;
    x = (x | (x << 16u32)) & 0x030000FF;
    let x1 = x;
    x = (x | (x << 8u32)) & 0x0300F00F;
    let x2 = x;
    x = (x | (x << 4u32)) & 0x030C30C3;
    let x3 = x;
    x = (x | (x << 2u32)) & 0x09249249;
    assert(x == spread(b)) by (bit_vector)
        requires
            x0 == b as u32,
            x1 == (x0 | (x0 << 16u32)) & 0x030000FF,
            x2 == (x1 | (x1 << 8u32)) & 0x0300F00F,
            x3 == (x2 | (x2 << 4u32)) & 0x030C30C3,
            x == (x3 | (x3 << 2u32)) & 0x09249249,
    ;
    x
}

/// The Morton code of `(x, y, z)`.
pub fn morton_encode_3d(x: u8, y: u8, z: u8) -> (r: u32)
    ensures
        r == morton_code(x, y, z),
{
    spread_bits(x) | (spread_bits(y) << 1u32) | (spread_bits(z) << 2u32)
}

/// Gathers every third bit of `x`, from bit 0, into a byte.
pub fn compare_bits(x: u32) -> (r: u8)
    ensures
        r == compact(x),
{
    let m = x;
    let mut x = x;
    x = x & 0x09249249;
    let x0 = x;
    x = (x | (x >> 2u32)) & 0x030C30C3;
    let x1 = x;
    x = (x | (x >> 4u32)) & 0x0300F00F;
    let x2 = x;
    x = (x | (x >> 8u32)) & 0x030000FF;
    let x3 = x;
    x = (x | (x >> 16u32)) & 0x000003FF;
    assert((x as u8) == compact(m)) by (bit_vector)
        requires
            x0 == m & 0x09249249,
            x1 == (x0 | (x0 >> 2u32)) & 0x030C30C3,
            x2 == (x1 | (x1 >> 4u32)) & 0x0300F00F,
            x3 == (x2 | (x2 >> 8u32)) & 0x030000FF,
            x == (x3 | (x3 >> 16u32)) & 0x000003FF,
    ;
    x as u8
}

/// The coordinates that a Morton code stands for; bits from 24 up are ignored.
pub fn morton_decode_3d(morton_code: u32) -> (r: (u8, u8, u8))
    ensures
        r == morton_coords(morton_code),
{
    let x = compare_bits(morton_code);
    let y = compare_bits(morton_code >> 1u32);
    let z = compare_bits(morton_code >> 2u32);
    (x, y, z)
}

/// Decoding a Morton code gives back the coordinates it was made from.
pub proof fn lemma_morton_round_trip(x: u8, y: u8, z: u8)
    ensures
        morton_coords(morton_code(x, y, z)) == (x, y, z),
        morton_code(x, y, z) < 0x100_0000,
{
    assert(compact(morton_code(x, y, z)) == x && compact(morton_code(x, y, z) >> 1u32) == y
        && compact(morton_code(x, y, z) >> 2u32) == z && morton_code(x, y, z) < 0x100_0000)
        by (bit_vector);
}

/// Encoding the coordinates of a code below `2^24` gives back that code.
pub proof fn lemma_morton_coords_round_trip(m: u32)
    requires
        m < 0x100_0000,
    ensures
        morton_code(morton_coords(m).0, morton_coords(m).1, morton_coords(m).2) == m,
{
    assert(morton_code(compact(m), compact(m >> 1u32), compact(m >> 2u32)) == m) by (bit_vector)
        requires
            m < 0x100_0000,
    ;
}

/// The position of linear index `index` in a grid of side `res`.
pub fn index_to_pos(index: u32, res: u32) -> (r: (u32, u32, u32))
    requires
        0 < res,
        res * res <= u32::MAX,
    ensures
        r.0 == grid_pos(index as int, res as int).0,
        r.1 == grid_pos(index as int, res as int).1,
        r.2 == grid_pos(index as int, res as int).2,
{
    assert(0 < res * res) by (nonlinear_arith)
        requires
            0 < res,
    ;
    (index % res, (index / res) % res, index / (res * res))
}

/// log2 of a valid resolution.
pub open spec fn resolution_bits(res: u32) -> u32 {
    if res <= 1 {
        0
    } else if res == 2 {
        1
    } else if res == 4 {
        2
    } else if res == 8 {
        3
    } else if res == 16 {
        4
    } else if res == 32 {
        5
    } else if res == 64 {
        6
    } else if res == 128 {
        7
    } else {
        8
    }
}

proof fn lemma_resolution_bits(res: u32)
    requires
        valid_resolution(res),
    ensures
        resolution_bits(res) <= 8,
        res == (1u32 << resolution_bits(res)),
        res * res * res == (1u32 << (3 * resolution_bits(res))),
        res * res * res <= 0x100_0000,
        res * res <= 0x1_0000,
{
    assert(resolution_bits(res) <= 8 && res == (1u32 << resolution_bits(res)) && (res as u64) * (
    res as u64) * (res as u64) == ((1u32 << (3 * resolution_bits(res))) as u64) && (res as u64) * (
    res as u64) * (res as u64) <= 0x100_0000 && (res as u64) * (res as u64) <= 0x1_0000) by (
    bit_vector)
        requires
            valid_resolution(res),
    ;
}

proof fn lemma_morton_bound(x: u8, y: u8, z: u8, p: u32)
    requires
        p <= 8,
        (x as u32) < (1u32 << p),
        (y as u32) < (1u32 << p),
        (z as u32) < (1u32 << p),
    ensures
        morton_code(x, y, z) < (1u32 << (3 * p)),
{
    assert(morton_code(x, y, z) < (1u32 << (3 * p))) by (bit_vector)
        requires
            p <= 8,
            (x as u32) < (1u32 << p),
            (y as u32) < (1u32 << p),
            (z as u32) < (1u32 << p),
    ;
}

proof fn lemma_coords_bound(m: u32, p: u32)
    requires
        p <= 8,
        m < (1u32 << (3 * p)),
    ensures
        (morton_coords(m).0 as u32) < (1u32 << p),
        (morton_coords(m).1 as u32) < (1u32 << p),
        (morton_coords(m).2 as u32) < (1u32 << p),
{
    assert((compact(m) as u32) < (1u32 << p) && (compact(m >> 1u32) as u32) < (1u32 << p) && (
    compact(m >> 2u32) as u32) < (1u32 << p)) by (bit_vector)
        requires
            p <= 8,
            m < (1u32 << (3 * p)),
    ;
}

proof fn lemma_pos_of_index(i: int, res: int)
    requires
        0 < res,
        0 <= i < res * res * res,
    ensures
        0 <= grid_pos(i, res).0 < res,
        0 <= grid_pos(i, res).1 < res,
        0 <= grid_pos(i, res).2 < res,
        linear_index(grid_pos(i, res).0, grid_pos(i, res).1, grid_pos(i, res).2, res) == i,
{
    let q = i / res;
    vstd::arithmetic::div_mod::lemma_fundamental_div_mod(i, res);
    vstd::arithmetic::div_mod::lemma_fundamental_div_mod(q, res);
    vstd::arithmetic::div_mod::lemma_div_denominator(i, res, res);
    vstd::arithmetic::div_mod::lemma_div_pos_is_pos(i, res);
    vstd::arithmetic::div_mod::lemma_div_pos_is_pos(q, res);
    vstd::arithmetic::div_mod::lemma_mod_pos_bound(i, res);
    vstd::arithmetic::div_mod::lemma_mod_pos_bound(q, res);
    assert(q / res < res) by (nonlinear_arith)
        requires
            0 < res,
            0 <= i < res * res * res,
            q == i / res,
            i == res * q + i % res,
            q == res * (q / res) + q % res,
            0 <= i % res,
            0 <= q % res,
            0 <= q / res,
    ;
    assert(linear_index(i % res, q % res, q / res, res) == i) by (nonlinear_arith)
        requires
            i == res * q + i % res,
            q == res * (q / res) + q % res,
    ;
}

proof fn lemma_index_of_pos(x: int, y: int, z: int, res: int)
    requires
        0 < res,
        0 <= x < res,
        0 <= y < res,
        0 <= z < res,
    ensures
        0 <= linear_index(x, y, z, res) < res * res * res,
        grid_pos(linear_index(x, y, z, res), res) == (x, y, z),
{
    let i = linear_index(x, y, z, res);
    let q = y + z * res;
    assert(i == res * q + x && 0 <= q < res * res && 0 <= i < res * res * res) by (nonlinear_arith)
        requires
            i == x + y * res + z * res * res,
            q == y + z * res,
            0 < res,
            0 <= x < res,
            0 <= y < res,
            0 <= z < res,
    ;
    vstd::arithmetic::div_mod::lemma_fundamental_div_mod_converse(i, res, q, x);
    vstd::arithmetic::div_mod::lemma_fundamental_div_mod_converse(q, res, z, y);
    vstd::arithmetic::div_mod::lemma_div_denominator(i, res, res);
}

/// For a valid resolution the Morton code is a bijection on the grid's index range: each
/// linear index maps to a code in range that maps back to it, and the other way round.
pub proof fn lemma_grid_bijection(res: u32)
    requires
        valid_resolution(res),
    ensures
        forall|i: int|
            0 <= i < res * res * res ==> 0 <= #[trigger] morton_of_linear(i, res as int) < res * res
                * res && linear_of_morton(morton_of_linear(i, res as int), res as int) == i,
        forall|m: int|
            0 <= m < res * res * res ==> 0 <= #[trigger] linear_of_morton(m, res as int) < res * res
                * res && morton_of_linear(linear_of_morton(m, res as int), res as int) == m,
{
    lemma_resolution_bits(res);
    let p = resolution_bits(res);
    let r = res as int;
    assert forall|i: int| 0 <= i < res * res * res implies 0 <= #[trigger] morton_of_linear(i, r)
        < res * res * res && linear_of_morton(morton_of_linear(i, r), r) == i by {
        lemma_pos_of_index(i, r);
        let g = grid_pos(i, r);
        lemma_morton_bound(g.0 as u8, g.1 as u8, g.2 as u8, p);
        lemma_morton_round_trip(g.0 as u8, g.1 as u8, g.2 as u8);
    }
    assert forall|m: int| 0 <= m < res * res * res implies 0 <= #[trigger] linear_of_morton(m, r)
        < res * res * res && morton_of_linear(linear_of_morton(m, r), r) == m by {
        lemma_coords_bound(m as u32, p);
        let c = morton_coords(m as u32);
        lemma_index_of_pos(c.0 as int, c.1 as int, c.2 as int, r);
        lemma_morton_coords_round_trip(m as u32);
    }
}

/// Writes `grid` into `morton_grid` in Morton order: each voxel goes to the index of its
/// Morton code.
pub fn morton_encode_3d_grid(grid: &[u8], res: u32, size: u32, morton_grid: &mut [u8])
    requires
        valid_resolution(res),
        size == res * res * res,
        grid@.len() == size,
        old(morton_grid)@.len() == size,
    ensures
        final(morton_grid)@ == morton_order(grid@, res),
{
    proof {
        lemma_grid_bijection(res);
        lemma_resolution_bits(res);
    }
    for i in 0..size
        invariant
            valid_resolution(res),
            size == res * res * res,
            grid@.len() == size,
            morton_grid@.len() == size,
            forall|j: int| 0 <= j < i ==> morton_grid@[#[trigger] morton_of_linear(j, res as int)] == grid@[j],
            forall|i: int|
                0 <= i < res * res * res ==> 0 <= #[trigger] morton_of_linear(i, res as int) < res
                    * res * res && linear_of_morton(morton_of_linear(i, res as int), res as int) == i,
    {
        proof {
            lemma_resolution_bits(res);
            lemma_pos_of_index(i as int, res as int);
        }
        let pos = index_to_pos(i, res);
        let m = morton_encode_3d(pos.0 as u8, pos.1 as u8, pos.2 as u8);
        assert(m == morton_of_linear(i as int, res as int));
        morton_grid[m as usize] = grid[i as usize];
    }
    proof {
        assert forall|m: int| 0 <= m < size implies morton_grid@[m] == morton_order(grid@, res)[m] by {
            let j = linear_of_morton(m, res as int);
            assert(morton_of_linear(j, res as int) == m);
        }
        assert(morton_grid@ =~= morton_order(grid@, res));
    }
}

/// Writes the Morton-ordered `morton_grid` back into `grid` in linear order.
pub fn morton_decode_3d_grid(morton_grid: &[u8], res: u32, size: u32, grid: &mut [u8])
    requires
        valid_resolution(res),
        size == res * res * res,
        morton_grid@.len() == size,
        old(grid)@.len() == size,
    ensures
        final(grid)@ == linear_order(morton_grid@, res),
{
    proof {
        lemma_grid_bijection(res);
        lemma_resolution_bits(res);
    }
    for i in 0..size
        invariant
            valid_resolution(res),
            size == res * res * res,
            morton_grid@.len() == size,
            grid@.len() == size,
            forall|j: int| 0 <= j < i ==> grid@[#[trigger] linear_of_morton(j, res as int)] == morton_grid@[j],
            forall|m: int|
                0 <= m < res * res * res ==> 0 <= #[trigger] linear_of_morton(m, res as int) < res
                    * res * res && morton_of_linear(linear_of_morton(m, res as int), res as int) == m,
    {
        let (x, y, z) = morton_decode_3d(i);
        proof {
            lemma_resolution_bits(res);
            lemma_coords_bound(i, resolution_bits(res));
            lemma_index_of_pos(x as int, y as int, z as int, res as int);
        }
        let index = pos_to_index(x as u32, y as u32, z as u32, res);
        assert(index == linear_of_morton(i as int, res as int));
        grid[index as usize] = morton_grid[i as usize];
    }
    proof {
        assert forall|k: int| 0 <= k < size implies grid@[k] == linear_order(morton_grid@, res)[k] by {
            let j = morton_of_linear(k, res as int);
            assert(linear_of_morton(j, res as int) == k);
        }
        assert(grid@ =~= linear_order(morton_grid@, res));
    }
}

/// Rearranging a grid in Morton order and back gives the grid again.
pub proof fn lemma_grid_morton_round_trip(grid: Seq<u8>, res: u32)
    requires
        valid_resolution(res),
        grid.len() == res * res * res,
    ensures
        linear_order(morton_order(grid, res), res) == grid,
        morton_order(linear_order(grid, res), res) == grid,
{
    lemma_grid_bijection(res);
    assert(linear_order(morton_order(grid, res), res) =~= grid);
    assert(morton_order(linear_order(grid, res), res) =~= grid);
}

} // verus!
