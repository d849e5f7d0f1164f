//! Voxel grids, sparse voxel octrees and their two binary container formats.
//!
//! Grids are Morton-ordered for locality, stored in the chunked grid container (optionally
//! run-length encoded), and built into packed-node octrees that the compact octree container
//! stores. Files are handled here as byte images; reading and writing them is the caller's.
use vstd::prelude::*;

pub mod bsvo;
pub mod bvox;
pub mod format;
pub mod leaves;
pub mod rle;
pub mod svo;
pub mod vox;

use crate::bsvo::{BsvoHeader, bsvo_image, write_bsvo, write_empty_bsvo, read_bsvo, bsvo_header_bytes, is_pow2_span, span_float_bits, span_to_float_bits, lemma_bsvo_round_trip, lemma_span_bits_round_trip};
use crate::bvox::{BvoxHeader, bvox_image, bvox_contents, bvox_header_bytes, write_bvox, write_empty_bvox, append_to_bvox, read_bvox, chunk_views, lemma_bvox_round_trip, lemma_append_matches_write, append_chain, CHUNK_SEPARATOR, DEFAULT_CHUNK_RES, DEFAULT_CHUNK_SIZE};
use crate::format::FormatError;
use crate::svo::{SVO, InsertError, grid_tree, generated_subtree, DEFAULT_SVO_MAX_DEPTH};
use crate::vox::{morton_order, linear_order, grid_pos, valid_resolution, morton_encode_3d_grid, morton_decode_3d_grid, index_to_pos, lemma_grid_bijection, lemma_grid_morton_round_trip, linear_of_morton, DEFAULT_VOX_MAT};

verus! {

/// Side of the chunks that the pipelines below work on.
pub const CHUNK_RES: u32 = DEFAULT_CHUNK_RES;

/// Voxels in such a chunk.
pub const CHUNK_SIZE: u32 = DEFAULT_CHUNK_SIZE;

/// Depth of the trees that the pipelines below build.
pub const SVO_MAX_DEPTH: u8 = DEFAULT_SVO_MAX_DEPTH;

/// A failure of one of the pipelines: in a container format or in building a tree.
#[derive(Debug, Clone, Copy, PartialEq, Eq, Structural)]
pub enum VoxError {
    Format(FormatError),
    Insert(InsertError),
}

/// No byte of `s` is the chunk separator.
pub open spec fn avoids_separator(s: Seq<u8>) -> bool {
    forall|k: int| 0 <= k < s.len() ==> s[k] != CHUNK_SEPARATOR
}

/// The header that the pipelines write grids with: run-length encoded and Morton ordered.
pub open spec fn pipeline_header(res: u32, size: u32) -> BvoxHeader {
    BvoxHeader {
        version: bvox::BVOX_VERSION,
        chunk_res: res,
        chunk_size: size,
        run_length_encoded: true,
        morton_encoded: true,
    }
}

/// The first chunk that reading `file` gives, if any.
pub open spec fn first_chunk(file: Seq<u8>) -> Option<Seq<u8>> {
    match bvox_contents(file) {
        Ok(c) => if c.1.len() > 0 {
            Some(c.1[0])
        } else {
            None
        },
        Err(_) => None,
    }
}

/// A grid of side `res` whose voxels with every coordinate in `min..max` hold the default
/// material, and whose other voxels are empty.
pub open spec fn cube_grid(res: u32, min: u32, max: u32) -> Seq<u8> {
    Seq::new(
        (res * res * res) as nat,
        |i: int|
            {
                let p = grid_pos(i, res as int);
                if min <= p.0 < max && min <= p.1 < max && min <= p.2 < max {
                    DEFAULT_VOX_MAT
                } else {
                    0u8
                }
            },
    )
}

/// A Morton-ordered grid of side `res` avoids the separator when the grid does.
proof fn lemma_morton_order_avoids_separator(grid: Seq<u8>, res: u32)
    requires
        valid_resolution(res),
        grid.len() == res * res * res,
        avoids_separator(grid),
    ensures
        avoids_separator(morton_order(grid, res)),
        morton_order(grid, res).len() == grid.len(),
{
    lemma_grid_bijection(res);
    assert forall|k: int| 0 <= k < morton_order(grid, res).len() implies morton_order(grid, res)[k]
        != CHUNK_SEPARATOR by {
        assert(0 <= linear_of_morton(k, res as int) < grid.len());
    }
}

/// The grid `cube_grid(res, min, max)`.
pub fn filled_cube(res: u32, min: u32, max: u32) -> (r: Vec<u8>)
    requires
        valid_resolution(res),
    ensures
        r@ == cube_grid(res, min, max),
{
    proof {
        assert(res * res <= 0x1_0000 && res * res * res <= 0x100_0000) by (nonlinear_arith)
            requires
                res <= 256,
        ;
    }
    let size = res * res * res;
    let mut grid: Vec<u8> = Vec::new();
    let mut i: u32 = 0;
    while i < size
        invariant
            i <= size,
            size == res * res * res,
            0 < res,
            res * res <= 0x1_0000,
            grid@ =~= cube_grid(res, min, max).take(i as int),
        decreases size - i,
    {
        let (x, y, z) = index_to_pos(i, res);
        if min <= x && x < max && min <= y && y < max && min <= z && z < max {
            grid.push(DEFAULT_VOX_MAT);
        } else {
            grid.push(0);
        }
        i += 1;
    }
    grid
}

/// The empty grid file and the empty octree file, each with the default header.
pub fn test_empty_bsvo_and_bvox() -> (r: (Vec<u8>, Vec<u8>))
    ensures
        r.0@ == bvox_header_bytes(bvox::default_bvox_header()),
        r.1@ == bsvo_header_bytes(bsvo::default_bsvo_header()),
{
    let bvox_header = BvoxHeader::default();
    let grid_file = write_empty_bvox(bvox_header);
    let bsvo_header = BsvoHeader::default();
    let tree_file = write_empty_bsvo(bsvo_header);
    (grid_file, tree_file)
}

/// Puts a chunk of side `CHUNK_RES` in Morton order.
fn morton_chunk(chunk: &[u8]) -> (r: Vec<u8>)
    requires
        chunk@.len() == CHUNK_SIZE,
    ensures
        r@ == morton_order(chunk@, CHUNK_RES),
{
    let mut out = vec![0u8; CHUNK_SIZE as usize];
    morton_encode_3d_grid(chunk, CHUNK_RES, CHUNK_SIZE, out.as_mut_slice());
    out
}

/// Puts a Morton-ordered chunk read back from a file in linear order.
fn linear_chunk(chunks: &Vec<Vec<u8>>) -> (r: Result<Vec<u8>, FormatError>)
    ensures
        match r {
            Ok(g) => chunks@.len() > 0 && chunks@[0]@.len() == CHUNK_SIZE && g@ == linear_order(
                chunks@[0]@,
                CHUNK_RES,
            ),
            Err(e) => e == FormatError::SizeMismatch && (chunks@.len() == 0
                || chunks@[0]@.len() != CHUNK_SIZE),
        },
{
    if chunks.len() == 0 || chunks[0].len() != CHUNK_SIZE as usize {
        return Err(FormatError::SizeMismatch);
    }
    let mut out = vec![0u8; CHUNK_SIZE as usize];
    morton_decode_3d_grid(chunks[0].as_slice(), CHUNK_RES, CHUNK_SIZE, out.as_mut_slice());
    Ok(out)
}

/// Morton-orders `chunk`, writes it to a run-length encoded grid file, reads the file back and
/// restores linear order. A chunk without the separator byte comes back unchanged.
pub fn test_bvox_read_write(chunk: &[u8]) -> (r: Result<Vec<u8>, FormatError>)
    requires
        chunk@.len() == CHUNK_SIZE,
    ensures
        r matches Ok(g) ==> first_chunk(
            bvox_image(seq![morton_order(chunk@, CHUNK_RES)], pipeline_header(CHUNK_RES, CHUNK_SIZE)),
        ) matches Some(c) && g@ == linear_order(c, CHUNK_RES),
        avoids_separator(chunk@) ==> (r matches Ok(g) && g@ == chunk@),
{
    let mc = morton_chunk(chunk);
    let ghost m = mc@;
    let chunk_data = vec![mc];
    let header = BvoxHeader::new(CHUNK_RES, CHUNK_SIZE, true, true);
    proof {
        assert(chunk_views(chunk_data@) =~= seq![m]);
        if avoids_separator(chunk@) {
            lemma_morton_order_avoids_separator(chunk@, CHUNK_RES);
            lemma_bvox_round_trip(seq![m], header);
            lemma_grid_morton_round_trip(chunk@, CHUNK_RES);
        }
    }
    let file = match write_bvox(chunk_data.as_slice(), header) {
        Ok(f) => f,
        Err(e) => {
            return Err(e);
        },
    };
    let read = match read_bvox(file.as_slice()) {
        Ok(v) => v,
        Err(e) => {
            return Err(e);
        },
    };
    proof {
        if read.1@.len() > 0 {
            assert(chunk_views(read.1@)[0] == read.1@[0]@);
        }
    }
    linear_chunk(&read.1)
}

/// Like `test_bvox_read_write`, but builds the file from an empty one by appending the chunk.
pub fn test_bvox_append(chunk: &[u8]) -> (r: Result<Vec<u8>, FormatError>)
    requires
        chunk@.len() == CHUNK_SIZE,
    ensures
        r matches Ok(g) ==> first_chunk(
            bvox_image(seq![morton_order(chunk@, CHUNK_RES)], pipeline_header(CHUNK_RES, CHUNK_SIZE)),
        ) matches Some(c) && g@ == linear_order(c, CHUNK_RES),
        avoids_separator(chunk@) ==> (r matches Ok(g) && g@ == chunk@),
{
    let mc = morton_chunk(chunk);
    let ghost m = mc@;
    let header = BvoxHeader::new(CHUNK_RES, CHUNK_SIZE, true, true);
    let mut file = write_empty_bvox(header);
    proof {
        let chunks = seq![m];
        assert(bvox::all_sized(chunks, CHUNK_SIZE));
        lemma_append_matches_write(chunks, header);
        assert(chunks.take(0) =~= Seq::<Seq<u8>>::empty());
        assert(chunks.drop_last() =~= Seq::<Seq<u8>>::empty());
        assert(append_chain(file@, chunks.take(0)) == file@);
        if avoids_separator(chunk@) {
            lemma_morton_order_avoids_separator(chunk@, CHUNK_RES);
            lemma_bvox_round_trip(chunks, header);
            lemma_grid_morton_round_trip(chunk@, CHUNK_RES);
        }
    }
    match append_to_bvox(&mut file, mc.as_slice()) {
        Ok(()) => {},
        Err(e) => {
            return Err(e);
        },
    }
    let read = match read_bvox(file.as_slice()) {
        Ok(v) => v,
        Err(e) => {
            return Err(e);
        },
    };
    proof {
        if read.1@.len() > 0 {
            assert(chunk_views(read.1@)[0] == read.1@[0]@);
        }
    }
    linear_chunk(&read.1)
}

/// Writes `chunk` to a plain grid file and to a run-length encoded one and reads both back.
/// A chunk without the separator byte comes back unchanged from both.
pub fn test_bvox_compression(chunk: &[u8]) -> (r: Result<(Vec<Vec<u8>>, Vec<Vec<u8>>), FormatError>)
    requires
        chunk@.len() == CHUNK_SIZE,
    ensures
        r matches Ok(v) ==> {
            &&& bvox_contents(
                bvox_image(
                    seq![chunk@],
                    BvoxHeader { run_length_encoded: false, morton_encoded: false, ..pipeline_header(CHUNK_RES, CHUNK_SIZE) },
                ),
            ) matches Ok(c) && c.1 == chunk_views(v.0@)
            &&& bvox_contents(
                bvox_image(
                    seq![chunk@],
                    BvoxHeader { morton_encoded: false, ..pipeline_header(CHUNK_RES, CHUNK_SIZE) },
                ),
            ) matches Ok(c) && c.1 == chunk_views(v.1@)
        },
        avoids_separator(chunk@) ==> (r matches Ok(v) && chunk_views(v.0@) == seq![chunk@]
            && chunk_views(v.1@) == seq![chunk@]),
{
    let mut copy: Vec<u8> = Vec::new();
    format::push_all(&mut copy, chunk);
    assert(copy@ =~= chunk@);
    let chunk_data = vec![copy];
    let header_normal = BvoxHeader::new(CHUNK_RES, CHUNK_SIZE, false, false);
    let header_rle = BvoxHeader::new(CHUNK_RES, CHUNK_SIZE, true, false);
    proof {
        assert(chunk_views(chunk_data@) =~= seq![chunk@]);
        if avoids_separator(chunk@) {
            lemma_bvox_round_trip(seq![chunk@], header_normal);
            lemma_bvox_round_trip(seq![chunk@], header_rle);
        }
    }
    let normal_file = match write_bvox(chunk_data.as_slice(), header_normal) {
        Ok(f) => f,
        Err(e) => {
            return Err(e);
        },
    };
    let rle_file = match write_bvox(chunk_data.as_slice(), header_rle) {
        Ok(f) => f,
        Err(e) => {
            return Err(e);
        },
    };
    let read_normal = match read_bvox(normal_file.as_slice()) {
        Ok(v) => v.1,
        Err(e) => {
            return Err(e);
        },
    };
    let read_rle = match read_bvox(rle_file.as_slice()) {
        Ok(v) => v.1,
        Err(e) => {
            return Err(e);
        },
    };
    Ok((read_normal, read_rle))
}

/// Puts a grid of side `res` in Morton order.
fn morton_grid(grid: &[u8], res: u32) -> (r: Vec<u8>)
    requires
        valid_resolution(res),
        grid@.len() == res * res * res,
    ensures
        r@ == morton_order(grid@, res),
{
    proof {
        assert(res * res <= 0x1_0000 && res * res * res <= 0x100_0000) by (nonlinear_arith)
            requires
                res <= 256,
        ;
    }
    let size = res * res * res;
    let mut out = vec![0u8; size as usize];
    morton_encode_3d_grid(grid, res, size, out.as_mut_slice());
    out
}

/// The header of the octree files that the pipelines write: the root span is the
/// single-precision pattern of the whole-voxel span `span`.
pub open spec fn tree_header(depth: u8, span: u32) -> BsvoHeader {
    BsvoHeader {
        version: bsvo::BSVO_VERSION,
        depth,
        root_span: span_float_bits(span),
        run_length_encoded: true,
    }
}

/// Morton-orders a grid of side `res`, writes it to a run-length encoded grid file, reads the
/// file back and builds a tree of the given depth from its first chunk; gives the grid file,
/// the tree and the octree file of the tree. For a grid without the separator byte, it fails
/// exactly when building the tree does.
fn grid_pipeline(grid: &[u8], res: u32, depth: u8) -> (r: Result<(Vec<u8>, SVO, Vec<u8>), VoxError>)
    requires
        valid_resolution(res),
        grid@.len() == res * res * res,
    ensures
        r matches Ok(v) ==> {
            &&& v.0@ == bvox_image(seq![morton_order(grid@, res)], pipeline_header(res, (res * res * res) as u32))
            &&& first_chunk(v.0@) matches Some(c) && grid_tree(c, res, depth) == Some(v.1.nodes@)
            &&& v.1.depth == depth
            &&& v.1.root_span == res
            &&& v.2@ == bsvo_image(v.1.nodes@, tree_header(depth, res))
        },
        avoids_separator(grid@) ==> match r {
            Ok(v) => grid_tree(morton_order(grid@, res), res, depth) == Some(v.1.nodes@),
            Err(e) => e == VoxError::Insert(InsertError::IndexOutOfRange) && grid_tree(
                morton_order(grid@, res),
                res,
                depth,
            ) is None,
        },
{
    proof {
        assert(res * res <= 0x1_0000 && res * res * res <= 0x100_0000) by (nonlinear_arith)
            requires
                res <= 256,
        ;
    }
    let size = res * res * res;
    let mc = morton_grid(grid, res);
    let ghost m = mc@;
    let chunk_data = vec![mc];
    let header = BvoxHeader::new(res, size, true, true);
    proof {
        assert(chunk_views(chunk_data@) =~= seq![m]);
        if avoids_separator(grid@) {
            lemma_morton_order_avoids_separator(grid@, res);
            lemma_bvox_round_trip(seq![m], header);
        }
    }
    let grid_file = match write_bvox(chunk_data.as_slice(), header) {
        Ok(f) => f,
        Err(e) => {
            return Err(VoxError::Format(e));
        },
    };
    let read = match read_bvox(grid_file.as_slice()) {
        Ok(v) => v,
        Err(e) => {
            return Err(VoxError::Format(e));
        },
    };
    if read.1.len() == 0 || read.1[0].len() != size as usize {
        return Err(VoxError::Format(FormatError::SizeMismatch));
    }
    proof {
        assert(chunk_views(read.1@)[0] == read.1@[0]@);
    }
    let svo = match SVO::from_grid(read.1[0].as_slice(), res, depth) {
        Ok(t) => t,
        Err(e) => {
            return Err(VoxError::Insert(e));
        },
    };
    assert(is_pow2_span(res)) by (bit_vector)
        requires
            valid_resolution(res),
    ;
    let tree_header = BsvoHeader::new(svo.depth, span_to_float_bits(svo.root_span), true);
    let tree_file = write_bsvo(&svo, tree_header);
    Ok((grid_file, svo, tree_file))
}

/// Runs a chunk of side `CHUNK_RES` through the grid file into a tree of depth
/// `SVO_MAX_DEPTH`, writes the tree to an octree file and reads it back; gives the tree and
/// the tree read back, which has the same nodes, depth and root span.
pub fn test_bsvo_read_write(chunk: &[u8]) -> (r: Result<(SVO, SVO), VoxError>)
    requires
        chunk@.len() == CHUNK_SIZE,
    ensures
        r matches Ok(v) ==> {
            &&& v.1.nodes@ == v.0.nodes@
            &&& v.1.depth == v.0.depth == SVO_MAX_DEPTH
            &&& v.1.root_span == v.0.root_span == CHUNK_RES
            &&& first_chunk(
                bvox_image(seq![morton_order(chunk@, CHUNK_RES)], pipeline_header(CHUNK_RES, CHUNK_SIZE)),
            ) matches Some(c) && grid_tree(c, CHUNK_RES, SVO_MAX_DEPTH) == Some(v.0.nodes@)
        },
        avoids_separator(chunk@) ==> match r {
            Ok(v) => grid_tree(morton_order(chunk@, CHUNK_RES), CHUNK_RES, SVO_MAX_DEPTH) == Some(
                v.0.nodes@,
            ),
            Err(e) => e == VoxError::Insert(InsertError::IndexOutOfRange) && grid_tree(
                morton_order(chunk@, CHUNK_RES),
                CHUNK_RES,
                SVO_MAX_DEPTH,
            ) is None,
        },
{
    let (_, svo, tree_file) = match grid_pipeline(chunk, CHUNK_RES, SVO_MAX_DEPTH) {
        Ok(v) => v,
        Err(e) => {
            return Err(e);
        },
    };
    proof {
        assert(is_pow2_span(256)) by (bit_vector);
        lemma_span_bits_round_trip(256);
        lemma_bsvo_round_trip(svo.nodes@, tree_header(SVO_MAX_DEPTH, CHUNK_RES));
    }
    let read = match read_bsvo(tree_file.as_slice()) {
        Ok(v) => v,
        Err(e) => {
            return Err(VoxError::Format(e));
        },
    };
    Ok((svo, read.1))
}

/// Builds a random tree of depth `SVO_MAX_DEPTH` from seed 0, writes it to an octree file and
/// reads it back; gives the tree and the tree read back, which has the same nodes.
pub fn test_gen_random_svo() -> (r: Result<(SVO, SVO), VoxError>)
    ensures
        r matches Ok(v) ==> {
            &&& v.1.nodes@ == v.0.nodes@
            &&& v.1.depth == v.0.depth == SVO_MAX_DEPTH
            &&& v.1.root_span == v.0.root_span
            &&& generated_subtree(v.0.nodes@, 0, SVO_MAX_DEPTH as nat, 1, v.0.nodes@.len() as int, 0)
        },
        r is Err ==> r == Err::<(SVO, SVO), VoxError>(VoxError::Insert(InsertError::IndexOutOfRange)),
{
    let mut svo = SVO::new(SVO_MAX_DEPTH);
    match svo.gen_random_svo(0) {
        Ok(()) => {},
        Err(e) => {
            return Err(VoxError::Insert(e));
        },
    }
    assert(is_pow2_span(1u32 << 8u32)) by (bit_vector);
    let header = BsvoHeader::new(svo.depth, span_to_float_bits(svo.root_span), false);
    let file = write_bsvo(&svo, header);
    proof {
        lemma_bsvo_round_trip(svo.nodes@, header);
    }
    let read = match read_bsvo(file.as_slice()) {
        Ok(v) => v,
        Err(e) => {
            return Err(VoxError::Format(e));
        },
    };
    Ok((svo, read.1))
}

/// The files for a grid of side `CHUNK_RES` holding a filled cube over the middle half of
/// each axis: the grid file and the octree file of its tree of depth `SVO_MAX_DEPTH`.
pub fn cube_grid_and_svo() -> (r: Result<(Vec<u8>, Vec<u8>), VoxError>)
    ensures
        ({
            let g = morton_order(cube_grid(CHUNK_RES, 64, 192), CHUNK_RES);
            match r {
                Ok(v) => v.0@ == bvox_image(seq![g], pipeline_header(CHUNK_RES, CHUNK_SIZE))
                    && (grid_tree(g, CHUNK_RES, SVO_MAX_DEPTH) matches Some(nodes) && v.1@
                    == bsvo_image(nodes, tree_header(SVO_MAX_DEPTH, CHUNK_RES))),
                Err(e) => e == VoxError::Insert(InsertError::IndexOutOfRange) && grid_tree(
                    g,
                    CHUNK_RES,
                    SVO_MAX_DEPTH,
                ) is None,
            }
        }),
{
    let min = CHUNK_RES / 4;
    let max = 3 * CHUNK_RES / 4;
    let chunk = filled_cube(CHUNK_RES, min, max);
    proof {
        assert(avoids_separator(chunk@));
    }
    match grid_pipeline(chunk.as_slice(), CHUNK_RES, SVO_MAX_DEPTH) {
        Ok(v) => Ok((v.0, v.2)),
        Err(e) => Err(e),
    }
}

/// The files for a grid of side 8 with voxels `2..4` on every axis filled: the grid file and
/// the octree file of its tree of depth 3.
pub fn tiny_grid_and_svo() -> (r: Result<(Vec<u8>, Vec<u8>), VoxError>)
    ensures
        ({
            let g = morton_order(cube_grid(8, 2, 4), 8);
            match r {
                Ok(v) => v.0@ == bvox_image(seq![g], pipeline_header(8, 512)) && (grid_tree(
                    g,
                    8,
                    3,
                ) matches Some(nodes) && v.1@ == bsvo_image(nodes, tree_header(3, 8))),
                Err(e) => e == VoxError::Insert(InsertError::IndexOutOfRange) && grid_tree(g, 8, 3)
                    is None,
            }
        }),
{
    let chunk_res: u32 = 8;
    let depth: u8 = 3;
    let chunk = filled_cube(chunk_res, 2, 4);
    proof {
        assert(avoids_separator(chunk@));
    }
    match grid_pipeline(chunk.as_slice(), chunk_res, depth) {
        Ok(v) => Ok((v.0, v.2)),
        Err(e) => Err(e),
    }
}

} // verus!
