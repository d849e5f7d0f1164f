//! Sparse voxel octree: an arena of packed 32-bit nodes addressed by index.
//!
//! A node's high 8 bits are its child mask; its low 24 bits are the index of its first child
//! when it has children, and its material when it is a leaf.
use vstd::prelude::*;
use rand::rngs::StdRng;

verus! {

pub const SVO_VERSION: u8 = 2;

/// Material given to the leaves of a generated tree.
pub const DEFAULT_MAT: u32 = 1;

pub const DEFAULT_SVO_MAX_DEPTH: u8 = 8;

/// Position of the child mask within a node.
pub const CHILD_OFFSET: u32 = 24;

/// The low 24 bits of a node.
pub const PAYLOAD_MASK: u32 = 0x00FF_FFFF;

/// The high 8 bits of a node.
pub const CHILD_MASK_BITS: u32 = 0xFF00_0000;

#[derive(Debug, Clone, Copy, PartialEq, Eq, Structural)]
pub enum InsertError {
    /// An octant or a child index fell outside what the tree can address.
    IndexOutOfRange,
}

/// The child mask of a node.
pub open spec fn node_mask(n: u32) -> u8 {
    (n >> 24u32) as u8
}

/// The first-child index of an interior node, or the material of a leaf.
pub open spec fn node_payload(n: u32) -> u32 {
    n & 0x00FF_FFFF
}

/// A node with the given mask and payload; the payload keeps its low 24 bits.
pub open spec fn pack_node(mask: u8, payload: u32) -> u32 {
    ((mask as u32) << 24u32) | (payload & 0x00FF_FFFF)
}

/// Number of set bits of a child mask.
pub open spec fn mask_population(m: u8) -> nat
    decreases m,
{
    if m == 0 {
        0
    } else {
        (m % 2) as nat + mask_population(m / 2)
    }
}

proof fn lemma_population_bound(m: u8, k: nat)
    requires
        (m as nat) < vstd::arithmetic::power2::pow2(k),
    ensures
        mask_population(m) <= k,
    decreases k,
{
    if m != 0 {
        if k == 0 {
            vstd::arithmetic::power2::lemma2_to64();
        } else {
            vstd::arithmetic::power2::lemma_pow2_unfold(k);
            lemma_population_bound(m / 2, (k - 1) as nat);
        }
    }
}

proof fn lemma_node_fields(n: u32)
    ensures
        n == pack_node(node_mask(n), node_payload(n)),
{
    assert(n == (((n >> 24u32) as u8 as u32) << 24u32) | ((n & 0x00FF_FFFF) & 0x00FF_FFFF)) by (
    bit_vector);
}

/// The operations on a packed octree node.
pub trait Octant {
    /// Sets the mask bit of `child`.
    fn set_child(&self, child: u32) -> u32
        requires
            child < 8,
    ;

    /// Whether the mask bit of `child` is set.
    fn check_child(&self, child: u32) -> bool
        requires
            child < 8,
    ;

    /// Whether any mask bit is set.
    fn has_children(&self) -> bool;

    /// Replaces the low 24 bits, keeping the mask.
    fn set_first_child_index(&self, index: u32) -> u32;

    fn first_child_index(&self) -> u32;

    fn child_mask(&self) -> u8;

    /// Replaces the mask, keeping the low 24 bits.
    fn set_child_mask(&self, mask: u8) -> u32;

    /// Number of set mask bits.
    fn child_count(&self) -> u32;
}

impl Octant for u32 {
    fn set_child(&self, child: u32) -> (r: u32)
        ensures
            node_mask(r) == node_mask(*self) | (1u8 << child),
            node_payload(r) == node_payload(*self),
    {
        let n = *self;
        assert(node_mask(n | (1u32 << (child + 24u32))) == node_mask(n) | (1u8 << child)
            && node_payload(n | (1u32 << (child + 24u32))) == node_payload(n)) by (bit_vector)
            requires
                child < 8,
        ;
        n | (1u32 << (child + CHILD_OFFSET))
    }

    fn check_child(&self, child: u32) -> (r: bool)
        ensures
            r == (node_mask(*self) & (1u8 << child) != 0),
    {
        let n = *self;
        assert((n & (1u32 << (child + 24u32)) > 0) == (node_mask(n) & (1u8 << child) != 0)) by (
        bit_vector)
            requires
                child < 8,
        ;
        n & (1u32 << (child + CHILD_OFFSET)) > 0
    }

    fn has_children(&self) -> (r: bool)
        ensures
            r == (node_mask(*self) != 0),
    {
        let n = *self;
        assert((n & 0xFF00_0000 > 0) == (node_mask(n) != 0)) by (bit_vector);
        n & CHILD_MASK_BITS > 0
    }

    fn set_first_child_index(&self, index: u32) -> (r: u32)
        ensures
            r == pack_node(node_mask(*self), index),
    {
        let n = *self;
        assert((n & 0xFF00_0000) | (index & 0x00FF_FFFF) == pack_node(node_mask(n), index)) by (
        bit_vector);
        (n & CHILD_MASK_BITS) | (index & PAYLOAD_MASK)
    }

    fn first_child_index(&self) -> (r: u32)
        ensures
            r == node_payload(*self),
    {
        *self & PAYLOAD_MASK
    }

    fn child_mask(&self) -> (r: u8)
        ensures
            r == node_mask(*self),
    {
        let n = *self;
        assert(((n & 0xFF00_0000) >> 24u32) as u8 == node_mask(n)) by (bit_vector);
        ((n & CHILD_MASK_BITS) >> CHILD_OFFSET) as u8
    }

    fn set_child_mask(&self, mask: u8) -> (r: u32)
        ensures
            r == pack_node(mask, node_payload(*self)),
    {
        let n = *self;
        assert((n & 0x00FF_FFFF) | (((mask as u32) << 24u32) & 0xFF00_0000) == pack_node(
            mask,
            node_payload(n),
        )) by (bit_vector);
        (n & PAYLOAD_MASK) | (((mask as u32) << CHILD_OFFSET) & CHILD_MASK_BITS)
    }

    fn child_count(&self) -> (r: u32)
        ensures
            r == mask_population(node_mask(*self)),
    {
        let mut m: u8 = self.child_mask();
        let mut count: u32 = 0;
        proof {
            vstd::arithmetic::power2::lemma2_to64();
            lemma_population_bound(m, 8);
        }
        while m > 0
            invariant
                count + mask_population(m) == mask_population(node_mask(*self)),
                count <= 8 - mask_population(m),
                mask_population(m) <= 8,
            decreases m,
        {
            count += (m % 2) as u32;
            m = m / 2;
        }
        count
    }
}

/// A node with the given child mask and first-child index (its low 24 bits).
pub fn encode_node(child_mask: u8, first_child_index: u32) -> (r: u32)
    ensures
        r == pack_node(child_mask, first_child_index),
{
    ((child_mask as u32) << CHILD_OFFSET) | (first_child_index & PAYLOAD_MASK)
}

/// A sparse voxel octree. `nodes[0]` is the root; the children of an interior node are the
/// 8 contiguous nodes starting at its first-child index.
pub struct SVO {
    pub nodes: Vec<u32>,
    /// Number of subdivision levels from the root to a leaf.
    pub depth: u8,
    /// Side of the cube that the root covers, in voxels.
    pub root_span: u32,
}

/// A voxel position, in whole voxels from the tree's origin.
#[derive(Debug, Clone, Copy, PartialEq, Eq, Structural)]
pub struct Position {
    pub x: u32,
    pub y: u32,
    pub z: u32,
}

/// `n` with the mask bit of `octant` set.
pub open spec fn with_child(n: u32, octant: u32) -> u32 {
    pack_node(node_mask(n) | (1u8 << octant), node_payload(n))
}

/// One level of descent from `node` into `octant`. A node without children first has its
/// whole value replaced by the index of a block of 8 empty nodes appended to the array; then
/// the octant's mask bit is set. Gives the new array and the child's index, or `None` when the
/// new block's index does not fit in 24 bits or the child lies outside the array.
pub open spec fn descend_step(nodes: Seq<u32>, node: int, octant: u32) -> Option<(Seq<u32>, int)> {
    let subdivide = node_mask(nodes[node]) == 0;
    let grown = if subdivide {
        nodes.update(node, nodes.len() as u32) + Seq::new(8, |_i: int| 0u32)
    } else {
        nodes
    };
    let marked = grown.update(node, with_child(grown[node], octant));
    let child = node_payload(marked[node]) + octant;
    if subdivide && nodes.len() > PAYLOAD_MASK {
        None
    } else if child >= marked.len() {
        None
    } else {
        Some((marked, child))
    }
}

/// Insertion of material `mat` by Morton index: from `node`, whose cube has side `span` and
/// holds `span^3` voxels, the octant of `local` is `local / child_volume` with
/// `child_volume = span^3 / 8`; descent goes on into that child with the remainder and half
/// the span, and after `levels` steps the reached node's low 24 bits take `mat`.
pub open spec fn morton_descent(
    nodes: Seq<u32>,
    node: int,
    local: int,
    span: int,
    levels: nat,
    mat: u32,
) -> Option<Seq<u32>>
    decreases levels,
{
    if levels == 0 {
        Some(nodes.update(node, pack_node(node_mask(nodes[node]), mat)))
    } else {
        let child_volume = span * span * span / 8;
        if child_volume == 0 {
            None
        } else {
            let octant = local / child_volume;
            if octant >= 8 {
                None
            } else {
                match descend_step(nodes, node, octant as u32) {
                    None => None,
                    Some(next) => morton_descent(
                        next.0,
                        next.1,
                        local - child_volume * octant,
                        span / 2,
                        (levels - 1) as nat,
                        mat,
                    ),
                }
            }
        }
    }
}

/// Every node that has children in `before` still has children in `after`, with the same
/// first-child index.
pub open spec fn interiors_kept(before: Seq<u32>, after: Seq<u32>) -> bool {
    &&& after.len() >= before.len()
    &&& forall|j: int|
        0 <= j < before.len() && node_mask(#[trigger] before[j]) != 0 ==> node_mask(after[j]) != 0
            && node_payload(after[j]) == node_payload(before[j])
}

/// Insertion by Morton index fails at the root already: the tree has levels, and the root's
/// children hold less than one voxel each or the index's octant is 8 or more.
pub open spec fn morton_root_refused(depth: u8, span: u32, index: u32) -> bool {
    let child_volume = (span as int) * (span as int) * (span as int) / 8;
    depth > 0 && (child_volume == 0 || (index as int) / child_volume >= 8)
}

/// The node array after inserting `mat` at Morton index `index` into a tree of the given
/// depth and root span, or `None` when the insertion fails.
pub open spec fn morton_insert(nodes: Seq<u32>, depth: u8, span: u32, index: u32, mat: u32) -> Option<
    Seq<u32>,
> {
    morton_descent(nodes, 0, index as int, span as int, depth as nat, mat)
}

/// The octant of `pos` in a cube whose children have side `half`: bit 1 for `x`, bit 2 for
/// `y`, bit 4 for `z`, each set when the coordinate lies beyond `half`.
pub open spec fn position_octant(pos: Position, half: int) -> u32 {
    ((if half < pos.x {
        1u32
    } else {
        0u32
    }) + (if half < pos.y {
        2u32
    } else {
        0u32
    }) + (if half < pos.z {
        4u32
    } else {
        0u32
    })) as u32
}

/// Insertion of the default material by position: at each level the span halves and the
/// octant is chosen by comparing `pos` with the halved span. Gives the node array and the
/// index of the node that took the material.
pub open spec fn position_descent(nodes: Seq<u32>, node: int, pos: Position, span: int, levels: nat) -> Option<
    (Seq<u32>, int),
>
    decreases levels,
{
    if levels == 0 {
        Some((nodes.update(node, pack_node(node_mask(nodes[node]), DEFAULT_MAT)), node))
    } else {
        match descend_step(nodes, node, position_octant(pos, span / 2)) {
            None => None,
            Some(next) => position_descent(next.0, next.1, pos, span / 2, (levels - 1) as nat),
        }
    }
}

/// A node that is counted as an occupied leaf: non-zero, with no mask bit set.
pub open spec fn is_filled_leaf(n: u32) -> bool {
    n != 0 && node_mask(n) == 0
}

/// Number of occupied leaves in a node array.
pub open spec fn leaf_count(nodes: Seq<u32>) -> nat
    decreases nodes.len(),
{
    if nodes.len() == 0 {
        0
    } else {
        leaf_count(nodes.drop_last()) + if is_filled_leaf(nodes.last()) {
            1nat
        } else {
            0nat
        }
    }
}

/// The node array of the tree built from a Morton-ordered grid: starting from a lone empty
/// root, every non-zero voxel, in index order, is inserted at its index with its value as
/// material; `None` when an insertion fails.
pub open spec fn grid_tree(grid: Seq<u8>, span: u32, depth: u8) -> Option<Seq<u32>>
    decreases grid.len(),
{
    if grid.len() == 0 {
        Some(seq![0u32])
    } else {
        match grid_tree(grid.drop_last(), span, depth) {
            None => None,
            Some(nodes) => if grid.last() == 0 {
                Some(nodes)
            } else {
                morton_insert(nodes, depth, span, (grid.len() - 1) as u32, grid.last() as u32)
            },
        }
    }
}

proof fn lemma_grid_tree_failure_persists(grid: Seq<u8>, span: u32, depth: u8, i: int)
    requires
        0 <= i <= grid.len(),
        grid_tree(grid.take(i), span, depth) is None,
    ensures
        grid_tree(grid, span, depth) is None,
    decreases grid.len() - i,
{
    if i < grid.len() {
        let t = grid.take(i + 1);
        assert(t.drop_last() =~= grid.take(i));
        lemma_grid_tree_failure_persists(grid, span, depth, i + 1);
    } else {
        assert(grid.take(i) =~= grid);
    }
}

/// Descends one level from `node_idx` into `octant`, subdividing the node if it has no
/// children; gives the child's index.
fn descend_into(nodes: &mut Vec<u32>, node_idx: usize, octant: u32) -> (r: Result<usize, InsertError>)
    requires
        node_idx < old(nodes)@.len(),
        octant < 8,
    ensures
        interiors_kept(old(nodes)@, final(nodes)@),
        match r {
            Ok(c) => descend_step(old(nodes)@, node_idx as int, octant) == Some(
                (final(nodes)@, c as int),
            ),
            Err(e) => e == InsertError::IndexOutOfRange && descend_step(
                old(nodes)@,
                node_idx as int,
                octant,
            ) is None,
        },
{
    let ghost old_nodes = nodes@;
    if !nodes[node_idx].has_children() {
        if nodes.len() > PAYLOAD_MASK as usize {
            return Err(InsertError::IndexOutOfRange);
        }
        let first = nodes.len() as u32;
        nodes[node_idx] = first;
        let ghost updated = nodes@;
        let mut k: usize = 0;
        while k < 8
            invariant
                k <= 8,
                nodes@ == updated + Seq::new(k as nat, |_i: int| 0u32),
                updated.len() <= PAYLOAD_MASK,
            decreases 8 - k,
        {
            nodes.push(0);
            k += 1;
            assert(nodes@ =~= updated + Seq::new(k as nat, |_i: int| 0u32));
        }
    }
    let ghost grown = nodes@;
    let current = nodes[node_idx];
    let marked = current.set_child(octant);
    proof {
        lemma_node_fields(marked);
        let m = node_mask(current);
        assert(m | (1u8 << octant) != 0) by (bit_vector)
            requires
                octant < 8,
        ;
        assert(interiors_kept(old_nodes, grown));
    }
    nodes[node_idx] = marked;
    assert(interiors_kept(old_nodes, nodes@));
    assert(node_payload(marked) <= PAYLOAD_MASK) by (bit_vector);
    let child = marked.first_child_index() as usize + octant as usize;
    if child >= nodes.len() {
        return Err(InsertError::IndexOutOfRange);
    }
    Ok(child)
}

#[verifier::external_type_specification]
#[verifier::external_body]
pub struct ExStdRng(StdRng);

/// Relies on rand's `SeedableRng::seed_from_u64` for `StdRng`: a generator whose stream is
/// fixed by `seed`. Nothing about the stream is assumed here.
#[verifier::external_body]
fn seeded_rng(seed: u64) -> StdRng {
    <StdRng as rand::SeedableRng>::seed_from_u64(seed)
}

/// Relies on rand's `Rng::gen::<u8>`: the next byte of the generator's stream; any value may
/// come.
#[verifier::external_body]
fn draw_child_mask(rng: &mut StdRng) -> u8 {
    <StdRng as rand::Rng>::gen::<u8>(rng)
}

/// The mask bit of `octant` is set in `n`.
pub open spec fn has_child(n: u32, octant: u32) -> bool {
    node_mask(n) & (1u8 << octant) != 0
}

/// The subtree at `idx` is a generated tree of `levels` levels: at the last level the node
/// keeps the mask it had (`before`) and takes the default material; above it, the node's
/// first-child index is `lo`, where its block of 8 children starts, the nodes below the block
/// end within `hi`, each child whose mask bit is set is again such a subtree whose nodes start
/// right after the block and the subtrees of the earlier children, and each other child is
/// empty.
pub open spec fn generated_subtree(
    nodes: Seq<u32>,
    idx: int,
    levels: nat,
    lo: int,
    hi: int,
    before: u32,
) -> bool
    decreases levels,
{
    &&& 0 <= idx < nodes.len()
    &&& hi <= nodes.len()
    &&& if levels == 0 {
        nodes[idx] == pack_node(node_mask(before), DEFAULT_MAT)
    } else {
        let fc = node_payload(nodes[idx]) as int;
        &&& fc == lo
        &&& fc + 8 + octants_size(nodes, nodes[idx], fc, (levels - 1) as nat, 8) <= hi
        &&& forall|o: u32|
            o < 8 ==> if #[trigger] has_child(nodes[idx], o) {
                generated_subtree(
                    nodes,
                    fc + o,
                    (levels - 1) as nat,
                    fc + 8 + octants_size(nodes, nodes[idx], fc, (levels - 1) as nat, o as nat),
                    hi,
                    0,
                )
            } else {
                nodes[fc + o] == 0
            }
    }
}

/// Octant `o` of a block starting at `first` is filled in when its mask bit is set in `node`
/// and it comes before `upto`, and is still empty otherwise.
spec fn octant_filled(nodes: Seq<u32>, node: u32, first: int, o: u32, upto: u32, levels: nat) -> bool {
    if has_child(node, o) && o < upto {
        generated_subtree(
            nodes,
            first + o,
            levels,
            first + 8 + octants_size(nodes, node, first, levels, o as nat),
            nodes.len() as int,
            0,
        )
    } else {
        nodes[first + o] == 0
    }
}

/// A generated subtree stays one when nothing at its root or in `lo..hi` changes, with an
/// upper bound that is no smaller.
proof fn lemma_generated_frame(
    n: Seq<u32>,
    n2: Seq<u32>,
    idx: int,
    levels: nat,
    lo: int,
    hi: int,
    hi2: int,
    before: u32,
)
    requires
        generated_subtree(n, idx, levels, lo, hi, before),
        hi <= hi2 <= n2.len(),
        idx < n2.len(),
        n2[idx] == n[idx],
        forall|j: int| lo <= j < hi ==> n2[j] == n[j],
    ensures
        generated_subtree(n2, idx, levels, lo, hi2, before),
    decreases levels,
{
    if levels > 0 {
        let fc = lo;
        let node = n[idx];
        let l1 = (levels - 1) as nat;
        assert forall|o: u32| o < 8 && #[trigger] has_child(node, o) implies n2[fc + o] == n[fc + o]
            by {}
        lemma_octants_frame(n, n2, node, fc, l1, 8, hi);
        assert forall|o: u32| o < 8 implies if #[trigger] has_child(n2[idx], o) {
            generated_subtree(
                n2,
                fc + o,
                l1,
                fc + 8 + octants_size(n2, n2[idx], fc, l1, o as nat),
                hi2,
                0,
            )
        } else {
            n2[fc + o] == 0
        } by {
            if has_child(node, o) {
                lemma_octants_frame(n, n2, node, fc, l1, o as nat, hi);
                lemma_generated_frame(
                    n,
                    n2,
                    fc + o,
                    l1,
                    fc + 8 + octants_size(n, node, fc, l1, o as nat),
                    hi,
                    hi2,
                    0,
                );
            }
        }
    }
}

proof fn lemma_pack_fields(mask: u8, payload: u32)
    requires
        payload <= PAYLOAD_MASK,
    ensures
        node_mask(pack_node(mask, payload)) == mask,
        node_payload(pack_node(mask, payload)) == payload,
{
    assert(((((mask as u32) << 24u32) | (payload & 0x00FF_FFFF)) >> 24u32) as u8 == mask && ((((
    mask as u32) << 24u32) | (payload & 0x00FF_FFFF)) & 0x00FF_FFFF) == payload) by (bit_vector)
        requires
            payload <= 0x00FF_FFFF,
    ;
}

/// Nodes that the generated subtree at `idx`, of `levels` levels, appended: a block of 8 for
/// each node above the last level.
pub open spec fn generated_size(nodes: Seq<u32>, idx: int, levels: nat) -> nat
    decreases levels, 9nat,
{
    if levels == 0 {
        0
    } else {
        8 + octants_size(nodes, nodes[idx], node_payload(nodes[idx]) as int, (levels - 1) as nat, 8)
    }
}

/// Nodes that the subtrees below the first `count` children of `node`, whose block starts at
/// `fc`, appended; only children whose mask bit is set have one.
pub open spec fn octants_size(nodes: Seq<u32>, node: u32, fc: int, levels: nat, count: nat) -> nat
    decreases levels + 1, count,
{
    if count == 0 {
        0
    } else {
        octants_size(nodes, node, fc, levels, (count - 1) as nat) + if has_child(
            node,
            (count - 1) as u32,
        ) {
            generated_size(nodes, fc + count - 1, levels)
        } else {
            0
        }
    }
}

/// The sizes of generated subtrees do not change when nothing in them changes.
proof fn lemma_size_frame(n: Seq<u32>, n2: Seq<u32>, idx: int, levels: nat, lo: int, hi: int)
    requires
        generated_subtree(n, idx, levels, lo, hi, 0),
        hi <= n2.len(),
        n2[idx] == n[idx],
        forall|j: int| lo <= j < hi ==> n2[j] == n[j],
    ensures
        generated_size(n2, idx, levels) == generated_size(n, idx, levels),
    decreases levels, 9nat,
{
    if levels > 0 {
        let fc = node_payload(n[idx]) as int;
        lemma_octants_frame(n, n2, n[idx], fc, (levels - 1) as nat, 8, hi);
    }
}

proof fn lemma_octants_frame(
    n: Seq<u32>,
    n2: Seq<u32>,
    node: u32,
    fc: int,
    levels: nat,
    count: nat,
    hi: int,
)
    requires
        count <= 8,
        hi <= n2.len(),
        fc + 8 <= hi,
        forall|o: u32|
            o < count && #[trigger] has_child(node, o) ==> generated_subtree(
                n,
                fc + o,
                levels,
                fc + 8 + octants_size(n, node, fc, levels, o as nat),
                hi,
                0,
            ),
        forall|o: u32| o < count && #[trigger] has_child(node, o) ==> n2[fc + o] == n[fc + o],
        forall|j: int| fc + 8 <= j < hi ==> n2[j] == n[j],
    ensures
        octants_size(n2, node, fc, levels, count) == octants_size(n, node, fc, levels, count),
    decreases levels + 1, count,
{
    if count > 0 {
        lemma_octants_frame(n, n2, node, fc, levels, (count - 1) as nat, hi);
        let o = (count - 1) as u32;
        if has_child(node, o) {
            assert(n2[fc + o] == n[fc + o]);
            lemma_size_frame(n, n2, fc + o, levels, fc + 8 + octants_size(n, node, fc, levels, o as nat), hi);
        }
    }
}

/// Levels of the subtree that `gen_random_branch` builds from `cur_depth` in a tree of depth
/// `depth`.
pub open spec fn branch_levels(depth: u8, cur_depth: u8) -> nat {
    if cur_depth < depth {
        (depth - cur_depth) as nat
    } else {
        0
    }
}

/// Most nodes that a generated subtree of `levels` levels appends: a block of 8 for its root
/// and, at most, a full subtree for each of the 8 children.
pub open spec fn random_growth(levels: nat) -> nat
    decreases levels,
{
    if levels == 0 {
        0
    } else {
        8 + 8 * random_growth((levels - 1) as nat)
    }
}

proof fn lemma_random_growth_bound(depth: u8)
    ensures
        depth <= 7 ==> random_growth(depth as nat) <= 2_396_744,
{
    reveal_with_fuel(random_growth, 8);
    if depth <= 7 {
        assert(random_growth(0) == 0);
        assert(random_growth(7) == 2_396_744);
        if depth == 0 {
        } else if depth == 1 {
        } else if depth == 2 {
        } else if depth == 3 {
        } else if depth == 4 {
        } else if depth == 5 {
        } else if depth == 6 {
        } else {
        }
    }
}

impl SVO {
    /// A tree with a lone empty root, whose root covers `2^depth` voxels a side.
    pub fn new(depth: u8) -> (r: SVO)
        requires
            depth < 32,
        ensures
            r.nodes@ == seq![0u32],
            r.depth == depth,
            r.root_span == (1u32 << depth),
    {
        let nodes: Vec<u32> = vec![0u32];
        SVO { nodes, depth, root_span: 1u32 << depth }
    }

    /// Inserts material `mat` at Morton index `morton_index`, subdividing nodes on the way
    /// down. Fails when an octant comes out as 8 or more, when a level holds less than one
    /// voxel per child, or when a child block cannot be addressed; the tree may then keep
    /// the changes made above the failing level.
    pub fn insert_node_morton(&mut self, morton_index: u32, mat: u32) -> (r: Result<
        (),
        InsertError,
    >)
        requires
            old(self).nodes@.len() > 0,
        ensures
            final(self).depth == old(self).depth,
            final(self).root_span == old(self).root_span,
            final(self).nodes@.len() >= old(self).nodes@.len(),
            r is Err ==> interiors_kept(old(self).nodes@, final(self).nodes@),
            morton_root_refused(old(self).depth, old(self).root_span, morton_index) ==> r is Err
                && final(self).nodes@ == old(self).nodes@,
            match r {
                Ok(()) => morton_insert(
                    old(self).nodes@,
                    old(self).depth,
                    old(self).root_span,
                    morton_index,
                    mat,
                ) == Some(final(self).nodes@),
                Err(e) => e == InsertError::IndexOutOfRange && morton_insert(
                    old(self).nodes@,
                    old(self).depth,
                    old(self).root_span,
                    morton_index,
                    mat,
                ) is None,
            },
    {
        let ghost goal = morton_insert(
            self.nodes@,
            self.depth,
            self.root_span,
            morton_index,
            mat,
        );
        let mut local: u32 = morton_index;
        let mut cs: u32 = self.root_span;
        let mut node_idx: usize = 0;
        let mut level: u8 = 0;
        while level < self.depth
            invariant
                level <= self.depth,
                node_idx < self.nodes@.len(),
                self.depth == old(self).depth,
                self.root_span == old(self).root_span,
                goal == morton_insert(
                    old(self).nodes@,
                    old(self).depth,
                    old(self).root_span,
                    morton_index,
                    mat,
                ),
                morton_descent(
                    self.nodes@,
                    node_idx as int,
                    local as int,
                    cs as int,
                    (self.depth - level) as nat,
                    mat,
                ) == goal,
                interiors_kept(old(self).nodes@, self.nodes@),
                level == 0 ==> self.nodes@ == old(self).nodes@ && local == morton_index && cs
                    == old(self).root_span,
                level > 0 ==> !morton_root_refused(old(self).depth, old(self).root_span, morton_index),
            decreases self.depth - level,
        {
            let c = cs as u128;
            assert(c * c <= 0xFFFF_FFFFu128 * 0xFFFF_FFFFu128 && c * c * c <= 0xFFFF_FFFFu128
                * 0xFFFF_FFFFu128 * 0xFFFF_FFFFu128) by (nonlinear_arith)
                requires
                    c <= 0xFFFF_FFFFu128,
            ;
            let child_volume: u128 = c * c * c / 8;
            if child_volume == 0 {
                return Err(InsertError::IndexOutOfRange);
            }
            let octant_wide: u128 = local as u128 / child_volume;
            if octant_wide >= 8 {
                return Err(InsertError::IndexOutOfRange);
            }
            let octant = octant_wide as u32;
            assert(child_volume * octant_wide <= local) by (nonlinear_arith)
                requires
                    child_volume > 0,
                    octant_wide == local as u128 / child_volume,
            ;
            match descend_into(&mut self.nodes, node_idx, octant) {
                Err(e) => {
                    return Err(e);
                },
                Ok(child) => {
                    node_idx = child;
                },
            }
            local = (local as u128 - child_volume * octant_wide) as u32;
            cs = cs / 2;
            level += 1;
        }
        let leaf = self.nodes[node_idx].set_first_child_index(mat);
        self.nodes[node_idx] = leaf;
        Ok(())
    }

    /// Builds a tree from a Morton-ordered grid: the root covers `grid_res` voxels a side, and
    /// every non-zero voxel is inserted at its index with its value as material.
    pub fn from_grid(vox_grid: &[u8], grid_res: u32, depth: u8) -> (r: Result<SVO, InsertError>)
        requires
            vox_grid@.len() <= u32::MAX,
        ensures
            match r {
                Ok(svo) => grid_tree(vox_grid@, grid_res, depth) == Some(svo.nodes@) && svo.depth
                    == depth && svo.root_span == grid_res,
                Err(e) => e == InsertError::IndexOutOfRange && grid_tree(
                    vox_grid@,
                    grid_res,
                    depth,
                ) is None,
            },
    {
        let mut svo = SVO { nodes: vec![0u32], root_span: grid_res, depth };
        assert(vox_grid@.take(0) =~= Seq::<u8>::empty());
        let mut i: usize = 0;
        while i < vox_grid.len()
            invariant
                i <= vox_grid@.len(),
                vox_grid@.len() <= u32::MAX,
                svo.depth == depth,
                svo.root_span == grid_res,
                grid_tree(vox_grid@.take(i as int), grid_res, depth) == Some(svo.nodes@),
            decreases vox_grid@.len() - i,
        {
            let mat = vox_grid[i];
            proof {
                let t = vox_grid@.take(i + 1);
                assert(t.drop_last() =~= vox_grid@.take(i as int));
                assert(t.last() == mat);
                lemma_grid_tree_nonempty(vox_grid@.take(i as int), grid_res, depth);
            }
            if mat > 0 {
                match svo.insert_node_morton(i as u32, mat as u32) {
                    Err(e) => {
                        proof {
                            lemma_grid_tree_failure_persists(vox_grid@, grid_res, depth, i + 1);
                        }
                        return Err(e);
                    },
                    Ok(()) => {},
                }
            }
            i += 1;
        }
        assert(vox_grid@.take(i as int) =~= vox_grid@);
        Ok(svo)
    }

    /// Gives node `cur_index` a fresh block of 8 empty children, appended to the array, with
    /// child mask `child_mask`; gives the block's first index. Fails, changing nothing, when
    /// that index does not fit in 24 bits.
    pub fn subdivide(&mut self, cur_index: usize, child_mask: u8) -> (r: Result<u32, InsertError>)
        requires
            cur_index < old(self).nodes@.len(),
        ensures
            final(self).depth == old(self).depth,
            final(self).root_span == old(self).root_span,
            match r {
                Ok(first) => old(self).nodes@.len() <= PAYLOAD_MASK && first == old(self).nodes@.len()
                    && final(self).nodes@ == old(self).nodes@.update(
                    cur_index as int,
                    pack_node(child_mask, first),
                ) + Seq::new(8, |_i: int| 0u32),
                Err(e) => e == InsertError::IndexOutOfRange && old(self).nodes@.len() > PAYLOAD_MASK
                    && final(self).nodes@ == old(self).nodes@,
            },
    {
        if self.nodes.len() > PAYLOAD_MASK as usize {
            return Err(InsertError::IndexOutOfRange);
        }
        let first = self.nodes.len() as u32;
        let node = encode_node(child_mask, first);
        self.nodes[cur_index] = node;
        let ghost updated = self.nodes@;
        let mut k: usize = 0;
        while k < 8
            invariant
                k <= 8,
                self.nodes@ == updated + Seq::new(k as nat, |_i: int| 0u32),
                self.depth == old(self).depth,
                self.root_span == old(self).root_span,
            decreases 8 - k,
        {
            self.nodes.push(0);
            k += 1;
            assert(self.nodes@ =~= updated + Seq::new(k as nat, |_i: int| 0u32));
        }
        Ok(first)
    }

    /// Replaces the subtree at `cur_index`, which sits `cur_depth` levels below the root, by
    /// a random one: each node above the tree's depth gets a random child mask and a fresh
    /// block of 8 empty children, the children whose mask bits are set are filled in the same
    /// way, and nodes at or below the tree's depth take the default material. Fails, with the
    /// array past what 24 bits address, when a block cannot be addressed; it always succeeds
    /// when even a full subtree would fit.
    pub fn gen_random_branch(&mut self, rng: &mut StdRng, cur_index: usize, cur_depth: u8) -> (r:
        Result<(), InsertError>)
        requires
            cur_index < old(self).nodes@.len(),
        ensures
            final(self).depth == old(self).depth,
            final(self).root_span == old(self).root_span,
            old(self).nodes@.len() <= final(self).nodes@.len() <= old(self).nodes@.len()
                + random_growth(branch_levels(old(self).depth, cur_depth)),
            forall|j: int|
                0 <= j < old(self).nodes@.len() && j != cur_index ==> final(self).nodes@[j]
                    == old(self).nodes@[j],
            cur_depth >= old(self).depth ==> *final(rng) == *old(rng),
            cur_depth >= old(self).depth ==> r is Ok && final(self).nodes@ == old(self).nodes@.update(
                cur_index as int,
                pack_node(node_mask(old(self).nodes@[cur_index as int]), DEFAULT_MAT),
            ),
            old(self).nodes@.len() + random_growth(branch_levels(old(self).depth, cur_depth))
                <= PAYLOAD_MASK ==> r is Ok,
            r is Err ==> r == Err::<(), InsertError>(InsertError::IndexOutOfRange)
                && final(self).nodes@.len() > PAYLOAD_MASK,
            r is Ok && cur_depth < old(self).depth ==> node_payload(
                final(self).nodes@[cur_index as int],
            ) == old(self).nodes@.len(),
            r is Ok ==> final(self).nodes@.len() == old(self).nodes@.len() + generated_size(
                final(self).nodes@,
                cur_index as int,
                branch_levels(old(self).depth, cur_depth),
            ),
            r is Ok ==> generated_subtree(
                final(self).nodes@,
                cur_index as int,
                branch_levels(old(self).depth, cur_depth),
                old(self).nodes@.len() as int,
                final(self).nodes@.len() as int,
                old(self).nodes@[cur_index as int],
            ),
        decreases branch_levels(old(self).depth, cur_depth),
    {
        let ghost start = self.nodes@;
        if cur_depth < self.depth {
            let child_mask = draw_child_mask(rng);
            let first = match self.subdivide(cur_index, child_mask) {
                Err(e) => {
                    return Err(e);
                },
                Ok(f) => f,
            };
            let node = encode_node(child_mask, first);
            proof {
                lemma_pack_fields(child_mask, first);
            }
            let levels = self.depth - cur_depth;
            let ghost g = random_growth((levels - 1) as nat);
            assert(random_growth(levels as nat) == 8 + 8 * g);
            let mut i: u32 = 0;
            while i < 8
                invariant
                    i <= 8,
                    g == random_growth((levels - 1) as nat),
                    self.nodes@.len() == first + 8 + octants_size(
                        self.nodes@,
                        node,
                        first as int,
                        (levels - 1) as nat,
                        i as nat,
                    ),
                    first + 8 <= self.nodes@.len() <= first + 8 + i * g,
                    first + 8 + 8 * g <= PAYLOAD_MASK ==> self.nodes@.len() + (8 - i) * g <= first
                        + 8 + 8 * g,
                    self.depth == old(self).depth,
                    self.root_span == old(self).root_span,
                    cur_depth < self.depth,
                    levels == self.depth - cur_depth,
                    first == start.len(),
                    start == old(self).nodes@,
                    cur_index < start.len(),
                    first <= PAYLOAD_MASK,
                    node_payload(node) == first,
                    self.nodes@[cur_index as int] == node,
                    forall|j: int|
                        0 <= j < start.len() && j != cur_index ==> self.nodes@[j] == start[j],
                    forall|o: u32|
                        o < 8 ==> #[trigger] octant_filled(
                            self.nodes@,
                            node,
                            first as int,
                            o,
                            i,
                            (levels - 1) as nat,
                        ),
                decreases 8 - i,
            {
                let ghost before = self.nodes@;
                let bit = node.check_child(i);
                assert(bit == has_child(node, i));
                if bit {
                    let child = (first + i) as usize;
                    assert(octant_filled(before, node, first as int, i, i, (levels - 1) as nat));
                    assert(self.nodes@[child as int] == 0);
                    assert(branch_levels(old(self).depth, (cur_depth + 1) as u8) == (levels - 1) as nat);
                    assert(first + 8 + 8 * g <= PAYLOAD_MASK ==> before.len() + g <= PAYLOAD_MASK)
                        by (nonlinear_arith)
                        requires
                            first + 8 + 8 * g <= PAYLOAD_MASK ==> before.len() + (8 - i) * g <= first
                                + 8 + 8 * g,
                            i < 8,
                            g >= 0,
                    ;
                    match self.gen_random_branch(rng, child, cur_depth + 1) {
                        Err(e) => {
                            proof {
                                let after = self.nodes@;
                                assert(after.len() <= first + 8 + 8 * g) by (nonlinear_arith)
                                    requires
                                        after.len() <= before.len() + g,
                                        before.len() <= first + 8 + i * g,
                                        i < 8,
                                        g >= 0,
                                ;
                            }
                            return Err(e);
                        },
                        Ok(()) => {},
                    }
                    proof {
                        let after = self.nodes@;
                        assert forall|o: u32| o < i && #[trigger] has_child(node, o) implies generated_subtree(
                            before,
                            first + o,
                            (levels - 1) as nat,
                            first + 8 + octants_size(before, node, first as int, (levels - 1) as nat, o as nat),
                            before.len() as int,
                            0,
                        ) by {
                            assert(octant_filled(before, node, first as int, o, i, (levels - 1) as nat));
                        }
                        assert forall|o: u32| o < i && #[trigger] has_child(node, o) implies after[first
                            + o] == before[first + o] by {
                            assert(first + o != child);
                        }
                        lemma_octants_frame(
                            before,
                            after,
                            node,
                            first as int,
                            (levels - 1) as nat,
                            i as nat,
                            before.len() as int,
                        );
                        assert(after.len() == before.len() + generated_size(
                            after,
                            child as int,
                            (levels - 1) as nat,
                        ));
                        assert(after.len() <= first + 8 + (i + 1) * g && (first + 8 + 8 * g
                            <= PAYLOAD_MASK ==> after.len() + (8 - (i + 1)) * g <= first + 8 + 8
                            * g)) by (nonlinear_arith)
                            requires
                                after.len() <= before.len() + g,
                                before.len() <= first + 8 + i * g,
                                first + 8 + 8 * g <= PAYLOAD_MASK ==> before.len() + (8 - i) * g
                                    <= first + 8 + 8 * g,
                        ;
                        assert forall|o: u32| o < 8 implies #[trigger] octant_filled(
                            after,
                            node,
                            first as int,
                            o,
                            (i + 1) as u32,
                            (levels - 1) as nat,
                        ) by {
                            assert(octant_filled(before, node, first as int, o, i, (levels - 1) as nat));
                            if has_child(node, o) && o < i {
                                lemma_octants_frame(
                                    before,
                                    after,
                                    node,
                                    first as int,
                                    (levels - 1) as nat,
                                    o as nat,
                                    before.len() as int,
                                );
                                lemma_generated_frame(
                                    before,
                                    after,
                                    first + o,
                                    (levels - 1) as nat,
                                    first + 8 + octants_size(before, node, first as int, (levels - 1) as nat, o as nat),
                                    before.len() as int,
                                    after.len() as int,
                                    0,
                                );
                            } else if o == i {
                                assert(generated_subtree(
                                    after,
                                    child as int,
                                    (levels - 1) as nat,
                                    before.len() as int,
                                    after.len() as int,
                                    0,
                                ));
                                assert(first + 8 + octants_size(after, node, first as int, (levels - 1) as nat, o as nat)
                                    == before.len());
                            } else {
                                assert(after[first + o] == before[first + o]);
                            }
                        }
                    }
                } else {
                    proof {
                        assert(before.len() <= first + 8 + (i + 1) * g && (first + 8 + 8 * g
                            <= PAYLOAD_MASK ==> before.len() + (8 - (i + 1)) * g <= first + 8 + 8
                            * g)) by (nonlinear_arith)
                            requires
                                before.len() <= first + 8 + i * g,
                                first + 8 + 8 * g <= PAYLOAD_MASK ==> before.len() + (8 - i) * g
                                    <= first + 8 + 8 * g,
                                g >= 0,
                        ;
                        assert forall|o: u32| o < 8 implies #[trigger] octant_filled(
                            before,
                            node,
                            first as int,
                            o,
                            (i + 1) as u32,
                            (levels - 1) as nat,
                        ) by {
                            assert(octant_filled(before, node, first as int, o, i, (levels - 1) as nat));
                        }
                    }
                }
                i += 1;
            }
            proof {
                let fin = self.nodes@;
                assert forall|o: u32| o < 8 implies if #[trigger] has_child(fin[cur_index as int], o) {
                    generated_subtree(
                        fin,
                        first + o,
                        (levels - 1) as nat,
                        first + 8 + octants_size(fin, fin[cur_index as int], first as int, (levels - 1) as nat, o as nat),
                        fin.len() as int,
                        0,
                    )
                } else {
                    fin[first + o] == 0
                } by {
                    assert(octant_filled(fin, node, first as int, o, 8, (levels - 1) as nat));
                }
            }
            Ok(())
        } else {
            let leaf = self.nodes[cur_index].set_first_child_index(DEFAULT_MAT);
            self.nodes[cur_index] = leaf;
            Ok(())
        }
    }

    /// Fills the tree below its root with a random tree drawn from a generator seeded with
    /// `seed`. A tree of depth 0 only has its root take the default material; a lone root of
    /// depth up to 7 always has room; a deeper tree fails, with the array past what 24 bits
    /// address, when its draws ask for more blocks than that.
    pub fn gen_random_svo(&mut self, seed: u64) -> (r: Result<(), InsertError>)
        requires
            old(self).nodes@.len() > 0,
        ensures
            final(self).depth == old(self).depth,
            final(self).root_span == old(self).root_span,
            old(self).nodes@.len() <= final(self).nodes@.len() <= old(self).nodes@.len()
                + random_growth(old(self).depth as nat),
            forall|j: int|
                0 < j < old(self).nodes@.len() ==> final(self).nodes@[j] == old(self).nodes@[j],
            old(self).depth == 0 ==> r is Ok && final(self).nodes@ == old(self).nodes@.update(
                0,
                pack_node(node_mask(old(self).nodes@[0]), DEFAULT_MAT),
            ),
            old(self).nodes@.len() + random_growth(old(self).depth as nat) <= PAYLOAD_MASK ==> r is Ok,
            old(self).nodes@.len() == 1 && old(self).depth <= 7 ==> r is Ok,
            r is Err ==> r == Err::<(), InsertError>(InsertError::IndexOutOfRange)
                && final(self).nodes@.len() > PAYLOAD_MASK,
            r is Ok && old(self).depth > 0 ==> node_payload(final(self).nodes@[0])
                == old(self).nodes@.len(),
            r is Ok ==> final(self).nodes@.len() == old(self).nodes@.len() + generated_size(
                final(self).nodes@,
                0,
                old(self).depth as nat,
            ),
            r is Ok ==> generated_subtree(
                final(self).nodes@,
                0,
                old(self).depth as nat,
                old(self).nodes@.len() as int,
                final(self).nodes@.len() as int,
                old(self).nodes@[0],
            ),
    {
        proof {
            lemma_random_growth_bound(self.depth);
        }
        let mut rng = seeded_rng(seed);
        self.gen_random_branch(&mut rng, 0, 0)
    }

    /// Inserts the default material at `pos`, descending `depth` levels; gives the index of
    /// the node that took it.
    pub fn insert_node_at_depth(&mut self, pos: Position, depth: u8) -> (r: Result<
        usize,
        InsertError,
    >)
        requires
            old(self).nodes@.len() > 0,
        ensures
            final(self).depth == old(self).depth,
            final(self).root_span == old(self).root_span,
            match r {
                Ok(i) => position_descent(
                    old(self).nodes@,
                    0,
                    pos,
                    old(self).root_span as int,
                    depth as nat,
                ) == Some((final(self).nodes@, i as int)),
                Err(e) => e == InsertError::IndexOutOfRange && position_descent(
                    old(self).nodes@,
                    0,
                    pos,
                    old(self).root_span as int,
                    depth as nat,
                ) is None,
            },
    {
        let ghost goal = position_descent(self.nodes@, 0, pos, self.root_span as int, depth as nat);
        let mut cs: u32 = self.root_span;
        let mut cd: u8 = 0;
        let mut node_idx: usize = 0;
        while cd < depth
            invariant
                cd <= depth,
                node_idx < self.nodes@.len(),
                self.depth == old(self).depth,
                self.root_span == old(self).root_span,
                goal == position_descent(
                    old(self).nodes@,
                    0,
                    pos,
                    old(self).root_span as int,
                    depth as nat,
                ),
                position_descent(self.nodes@, node_idx as int, pos, cs as int, (depth - cd) as nat)
                    == goal,
            decreases depth - cd,
        {
            cs = cs / 2;
            let mut child_idx: u32 = 0;
            if cs < pos.x {
                child_idx += 1;
            }
            if cs < pos.y {
                child_idx += 2;
            }
            if cs < pos.z {
                child_idx += 4;
            }
            match descend_into(&mut self.nodes, node_idx, child_idx) {
                Err(e) => {
                    return Err(e);
                },
                Ok(child) => {
                    node_idx = child;
                },
            }
            cd += 1;
        }
        let leaf = self.nodes[node_idx].set_first_child_index(DEFAULT_MAT);
        self.nodes[node_idx] = leaf;
        Ok(node_idx)
    }

    /// Inserts the default material at `pos`, down to the tree's depth.
    pub fn insert_node(&mut self, pos: Position) -> (r: Result<usize, InsertError>)
        requires
            old(self).nodes@.len() > 0,
        ensures
            final(self).depth == old(self).depth,
            final(self).root_span == old(self).root_span,
            match r {
                Ok(i) => position_descent(
                    old(self).nodes@,
                    0,
                    pos,
                    old(self).root_span as int,
                    old(self).depth as nat,
                ) == Some((final(self).nodes@, i as int)),
                Err(e) => e == InsertError::IndexOutOfRange && position_descent(
                    old(self).nodes@,
                    0,
                    pos,
                    old(self).root_span as int,
                    old(self).depth as nat,
                ) is None,
            },
    {
        let depth = self.depth;
        self.insert_node_at_depth(pos, depth)
    }

    /// Number of nodes that are non-zero and have no children.
    pub fn count_leaf_nodes(&self) -> (r: u32)
        requires
            self.nodes@.len() <= u32::MAX,
        ensures
            r == leaf_count(self.nodes@),
    {
        let mut count: u32 = 0;
        let mut i: usize = 0;
        while i < self.nodes.len()
            invariant
                i <= self.nodes@.len(),
                self.nodes@.len() <= u32::MAX,
                count == leaf_count(self.nodes@.take(i as int)),
                count <= i,
            decreases self.nodes@.len() - i,
        {
            let n = self.nodes[i];
            proof {
                let t = self.nodes@.take(i + 1);
                assert(t.drop_last() =~= self.nodes@.take(i as int));
            }
            if n != 0 && !n.has_children() {
                count += 1;
            }
            i += 1;
        }
        assert(self.nodes@.take(i as int) =~= self.nodes@);
        count
    }

    /// Number of occupied leaves: nodes that are non-zero and have no children.
    pub fn count_notes(&self) -> (r: u32)
        requires
            self.nodes@.len() <= u32::MAX,
        ensures
            r == leaf_count(self.nodes@),
    {
        self.count_leaf_nodes()
    }
}

impl Default for SVO {
    /// A tree of the default depth with a lone empty root.
    fn default() -> (r: Self)
        ensures
            r.nodes@ == seq![0u32],
            r.depth == DEFAULT_SVO_MAX_DEPTH,
            r.root_span == 256,
    {
        assert((1u32 << 8u32) == 256) by (bit_vector);
        Self::new(DEFAULT_SVO_MAX_DEPTH)
    }
}

/// Every tree that `grid_tree` builds keeps its root.
proof fn lemma_grid_tree_nonempty(grid: Seq<u8>, span: u32, depth: u8)
    ensures
        grid_tree(grid, span, depth) matches Some(nodes) ==> nodes.len() > 0,
    decreases grid.len(),
{
    if grid.len() > 0 {
        lemma_grid_tree_nonempty(grid.drop_last(), span, depth);
        if let Some(nodes) = grid_tree(grid.drop_last(), span, depth) {
            lemma_morton_descent_grows(nodes, 0, ((grid.len() - 1) as u32) as int, span as int, depth as nat, grid.last() as u32);
        }
    }
}

/// Insertion never shrinks the node array.
proof fn lemma_morton_descent_grows(nodes: Seq<u32>, node: int, local: int, span: int, levels: nat, mat: u32)
    requires
        0 <= node < nodes.len(),
    ensures
        morton_descent(nodes, node, local, span, levels, mat) matches Some(r) ==> r.len() >= nodes.len(),
    decreases levels,
{
    if levels > 0 {
        let child_volume = span * span * span / 8;
        if child_volume != 0 {
            let octant = local / child_volume;
            if octant < 8 {
                if let Some(next) = descend_step(nodes, node, octant as u32) {
                    assert(next.0.len() >= nodes.len());
                    lemma_morton_descent_grows(next.0, next.1, local - child_volume * octant, span / 2, (levels - 1) as nat, mat);
                }
            }
        }
    }
}

} // verus!
