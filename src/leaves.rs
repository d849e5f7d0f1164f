//! Trees built from grids whose depth resolves single voxels have one occupied leaf for each
//! non-zero voxel.
//!
//! The proof gives every node a ghost address: its level below the root and the Morton prefix
//! of the voxels it covers. Distinct nodes have distinct addresses, every node below the root
//! lies in the child block of an interior node, and leaves sit at full depth, where a node is
//! non-zero exactly when its prefix has been inserted.
use vstd::prelude::*;
use crate::svo::{
    node_mask,
    node_payload,
    pack_node,
    with_child,
    descend_step,
    morton_descent,
    morton_insert,
    grid_tree,
    leaf_count,
    is_filled_leaf,
    PAYLOAD_MASK,
};
use crate::vox::{
    valid_resolution,
    resolution_bits,
    morton_order,
    morton_of_linear,
    linear_of_morton,
    lemma_grid_bijection,
};

verus! {

/// `8^n`.
pub open spec fn pow8(n: nat) -> nat
    decreases n,
{
    if n == 0 {
        1
    } else {
        8 * pow8((n - 1) as nat)
    }
}

/// `2^n`.
pub open spec fn pow2(n: nat) -> nat
    decreases n,
{
    if n == 0 {
        1
    } else {
        2 * pow2((n - 1) as nat)
    }
}

/// Number of non-zero voxels in a grid.
pub open spec fn nonzero_count(grid: Seq<u8>) -> nat
    decreases grid.len(),
{
    if grid.len() == 0 {
        0
    } else {
        nonzero_count(grid.drop_last()) + if grid.last() != 0 {
            1nat
        } else {
            0nat
        }
    }
}

/// Indices of the non-zero voxels of a grid.
spec fn occupied(grid: Seq<u8>) -> Set<int> {
    Set::new(|m: int| 0 <= m < grid.len() && grid[m] != 0)
}

/// The 8 nodes from `fc` have the addresses of the children of a node at address `a`.
spec fn children_addressed(addr: Seq<(int, int)>, fc: int, a: (int, int)) -> bool {
    &&& addr[fc] == (a.0 + 1, 8 * a.1)
    &&& addr[fc + 1] == (a.0 + 1, 8 * a.1 + 1)
    &&& addr[fc + 2] == (a.0 + 1, 8 * a.1 + 2)
    &&& addr[fc + 3] == (a.0 + 1, 8 * a.1 + 3)
    &&& addr[fc + 4] == (a.0 + 1, 8 * a.1 + 4)
    &&& addr[fc + 5] == (a.0 + 1, 8 * a.1 + 5)
    &&& addr[fc + 6] == (a.0 + 1, 8 * a.1 + 6)
    &&& addr[fc + 7] == (a.0 + 1, 8 * a.1 + 7)
}

/// What holds of node `k`.
spec fn node_ok(
    nodes: Seq<u32>,
    addr: Seq<(int, int)>,
    par: Seq<int>,
    s: Set<int>,
    d: int,
    k: int,
) -> bool {
    let n = nodes[k];
    let a = addr[k];
    &&& 0 <= a.0 <= d
    &&& node_mask(n) != 0 ==> a.0 < d && node_payload(n) + 8 <= nodes.len() && children_addressed(
        addr,
        node_payload(n) as int,
        a,
    )
    &&& a.0 < d && node_mask(n) == 0 ==> n == 0
    &&& a.0 == d ==> node_mask(n) == 0 && (n != 0 <==> s.contains(a.1))
    &&& a.0 >= 1 ==> 0 <= par[k] < nodes.len() && node_mask(nodes[par[k]]) != 0 && node_payload(
        nodes[par[k]],
    ) <= k < node_payload(nodes[par[k]]) + 8
}

/// The invariant of a tree of depth `d` into which the indices `s` have been inserted.
spec fn tree_inv(
    nodes: Seq<u32>,
    addr: Seq<(int, int)>,
    par: Seq<int>,
    leaf: Map<int, int>,
    s: Set<int>,
    d: int,
) -> bool {
    &&& addr.len() == nodes.len()
    &&& par.len() == nodes.len()
    &&& nodes.len() >= 1
    &&& addr[0] == (0int, 0int)
    &&& forall|k: int| 0 <= k < nodes.len() ==> #[trigger] node_ok(nodes, addr, par, s, d, k)
    &&& forall|j: int, k: int|
        0 <= j < nodes.len() && 0 <= k < nodes.len() && j != k ==> #[trigger] addr[j]
            != #[trigger] addr[k]
    &&& forall|m: int|
        #[trigger] s.contains(m) ==> leaf.contains_key(m) && 0 <= leaf[m] < nodes.len()
            && addr[leaf[m]] == (d, m)
}

proof fn lemma_child_address(addr: Seq<(int, int)>, fc: int, a: (int, int), o: int)
    requires
        children_addressed(addr, fc, a),
        0 <= o < 8,
    ensures
        addr[fc + o] == (a.0 + 1, 8 * a.1 + o),
{
    assert(o == 0 || o == 1 || o == 2 || o == 3 || o == 4 || o == 5 || o == 6 || o == 7);
}

/// A node at level 1 or more with address `(l + 1, 8 * p + o)` would have a parent at
/// address `(l, p)`.
proof fn lemma_parent_address(
    nodes: Seq<u32>,
    addr: Seq<(int, int)>,
    par: Seq<int>,
    leaf: Map<int, int>,
    s: Set<int>,
    d: int,
    j: int,
    l: int,
    p: int,
    o: int,
)
    requires
        tree_inv(nodes, addr, par, leaf, s, d),
        0 <= j < nodes.len(),
        0 <= l,
        0 <= o < 8,
        addr[j] == (l + 1, 8 * p + o),
    ensures
        addr[par[j]] == (l, p),
        0 <= par[j] < nodes.len(),
        node_mask(nodes[par[j]]) != 0,
{
    assert(node_ok(nodes, addr, par, s, d, j));
    let q = par[j];
    assert(node_ok(nodes, addr, par, s, d, q));
    let fc = node_payload(nodes[q]) as int;
    lemma_child_address(addr, fc, addr[q], j - fc);
    assert(8 * addr[q].1 + (j - fc) == 8 * p + o);
    assert(addr[q].1 == p) by (nonlinear_arith)
        requires
            8 * addr[q].1 + (j - fc) == 8 * p + o,
            0 <= j - fc < 8,
            0 <= o < 8,
    ;
}

proof fn lemma_leaf_count_update(s: Seq<u32>, k: int, v: u32)
    requires
        0 <= k < s.len(),
    ensures
        leaf_count(s.update(k, v)) + (if is_filled_leaf(s[k]) {
            1int
        } else {
            0int
        }) == leaf_count(s) + (if is_filled_leaf(v) {
            1int
        } else {
            0int
        }),
    decreases s.len(),
{
    let t = s.update(k, v);
    if k == s.len() - 1 {
        assert(t.drop_last() =~= s.drop_last());
    } else {
        lemma_leaf_count_update(s.drop_last(), k, v);
        assert(t.drop_last() =~= s.drop_last().update(k, v));
    }
}

proof fn lemma_leaf_count_zeros(s: Seq<u32>, n: nat)
    ensures
        leaf_count(s + Seq::new(n, |_i: int| 0u32)) == leaf_count(s),
    decreases n,
{
    if n > 0 {
        let t = s + Seq::new(n, |_i: int| 0u32);
        assert(t.drop_last() =~= s + Seq::new((n - 1) as nat, |_i: int| 0u32));
        lemma_leaf_count_zeros(s, (n - 1) as nat);
    } else {
        assert(s + Seq::new(n, |_i: int| 0u32) =~= s);
    }
}

proof fn lemma_pow_facts(n: nat)
    ensures
        pow8(n) >= 1,
        pow2(n) >= 1,
        pow2(n) * pow2(n) * pow2(n) == pow8(n),
        n >= 1 ==> pow2(n) / 2 == pow2((n - 1) as nat),
        n >= 1 ==> pow2(n) * pow2(n) * pow2(n) / 8 == pow8((n - 1) as nat),
    decreases n,
{
    if n > 0 {
        lemma_pow_facts((n - 1) as nat);
        let a = pow2((n - 1) as nat);
        let b = pow8((n - 1) as nat);
        assert(pow2(n) == 2 * a);
        assert(pow8(n) == 8 * b);
        assert((2 * a) * (2 * a) * (2 * a) == 8 * (a * a * a)) by (nonlinear_arith);
        assert(a * a * a == b);
        assert(pow2(n) * pow2(n) * pow2(n) == (2 * a) * (2 * a) * (2 * a));
        assert((8 * b) / 8 == b);
    } else {
        assert(pow2(n) == 1 && pow8(n) == 1);
        assert(pow2(n) * pow2(n) * pow2(n) == 1);
    }
}

/// Splitting a Morton index by the volume `a` of a child and `8 * a` of its parent.
proof fn lemma_digit(m: int, a: int)
    requires
        0 <= m,
        0 < a,
    ensures
        (m % (8 * a)) / a == (m / a) % 8,
        (m % (8 * a)) % a == m % a,
        m / (8 * a) == (m / a) / 8,
        8 * (m / (8 * a)) + (m / a) % 8 == m / a,
        (m % (8 * a)) - a * ((m % (8 * a)) / a) == m % a,
{
    vstd::arithmetic::div_mod::lemma_div_denominator(m, a, 8);
    assert(a * 8 == 8 * a);
    let q = m / a;
    let r = m % a;
    vstd::arithmetic::div_mod::lemma_fundamental_div_mod(m, a);
    vstd::arithmetic::div_mod::lemma_fundamental_div_mod(q, 8);
    vstd::arithmetic::div_mod::lemma_mod_pos_bound(m, a);
    vstd::arithmetic::div_mod::lemma_mod_pos_bound(q, 8);
    let q8 = q / 8;
    let q_lo = q % 8;
    assert(m == (8 * a) * q8 + (a * q_lo + r)) by (nonlinear_arith)
        requires
            m == a * q + r,
            q == 8 * q8 + q_lo,
    ;
    assert(0 <= a * q_lo + r < 8 * a) by (nonlinear_arith)
        requires
            0 <= q_lo < 8,
            0 <= r < a,
    ;
    vstd::arithmetic::div_mod::lemma_fundamental_div_mod_converse(m, 8 * a, q8, a * q_lo + r);
    vstd::arithmetic::div_mod::lemma_fundamental_div_mod_converse(a * q_lo + r, a, q_lo, r);
}

proof fn lemma_bits(octant: u32, len: u32, n: u32, mat: u32)
    requires
        octant < 8,
        len <= PAYLOAD_MASK,
        0 < mat < 256,
    ensures
        node_mask(len) == 0,
        node_payload(len) == len,
        with_child(len, octant) == pack_node(1u8 << octant, len),
        node_mask(pack_node(1u8 << octant, len)) != 0,
        node_payload(pack_node(1u8 << octant, len)) == len,
        node_mask(with_child(n, octant)) != 0,
        node_payload(with_child(n, octant)) == node_payload(n),
        pack_node(0, mat) == mat,
        node_mask(mat) == 0,
{
    assert(((len >> 24u32) as u8) == 0 && (len & 0x00FF_FFFF) == len) by (bit_vector)
        requires
            len <= 0x00FF_FFFF,
    ;
    assert(((len >> 24u32) as u8) | (1u8 << octant) == (1u8 << octant)) by (bit_vector)
        requires
            len <= 0x00FF_FFFF,
    ;
    assert((((((1u8 << octant) as u32) << 24u32) | (len & 0x00FF_FFFF)) >> 24u32) as u8 != 0 && ((((
    1u8 << octant) as u32) << 24u32) | (len & 0x00FF_FFFF)) & 0x00FF_FFFF == len) by (bit_vector)
        requires
            octant < 8,
            len <= 0x00FF_FFFF,
    ;
    let m = node_mask(n) | (1u8 << octant);
    let p = node_payload(n);
    assert(m != 0) by (bit_vector)
        requires
            m == node_mask(n) | (1u8 << octant),
            octant < 8,
    ;
    assert((((((m as u32) << 24u32) | (p & 0x00FF_FFFF)) >> 24u32) as u8) == m && (((m as u32)
        << 24u32) | (p & 0x00FF_FFFF)) & 0x00FF_FFFF == p) by (bit_vector)
        requires
            p == n & 0x00FF_FFFF,
    ;
    assert((((0u8 as u32) << 24u32) | (mat & 0x00FF_FFFF)) == mat && ((mat >> 24u32) as u8) == 0)
        by (bit_vector)
        requires
            mat < 256,
    ;
}

/// One step of descent keeps the invariant and the leaf count, and reaches the child whose
/// address is one level further along the index's path.
proof fn lemma_step(
    nodes: Seq<u32>,
    addr: Seq<(int, int)>,
    par: Seq<int>,
    leaf: Map<int, int>,
    s: Set<int>,
    d: int,
    k: int,
    octant: u32,
) -> (g: (Seq<(int, int)>, Seq<int>))
    requires
        tree_inv(nodes, addr, par, leaf, s, d),
        0 <= k < nodes.len(),
        addr[k].0 < d,
        octant < 8,
        descend_step(nodes, k, octant) is Some,
    ensures
        ({
            let (n2, c) = descend_step(nodes, k, octant).unwrap();
            &&& tree_inv(n2, g.0, g.1, leaf, s, d)
            &&& 0 <= c < n2.len()
            &&& g.0[c] == (addr[k].0 + 1, 8 * addr[k].1 + octant)
            &&& leaf_count(n2) == leaf_count(nodes)
        }),
{
    let (n2, c) = descend_step(nodes, k, octant).unwrap();
    let a = addr[k];
    assert(node_ok(nodes, addr, par, s, d, k));
    if node_mask(nodes[k]) == 0 {
        let len = nodes.len();
        let zeros = Seq::new(8, |_i: int| 0u32);
        lemma_bits(octant, len as u32, nodes[k], 1);
        let newv = pack_node(1u8 << octant, len as u32);
        assert(n2 =~= (nodes + zeros).update(k, newv));
        let addr2 = addr + Seq::new(8, |o: int| (a.0 + 1, 8 * a.1 + o));
        let par2 = par + Seq::new(8, |_o: int| k);
        assert(children_addressed(addr2, len as int, a));
        assert forall|j: int| 0 <= j < n2.len() implies #[trigger] node_ok(n2, addr2, par2, s, d, j) by {
            if j < len {
                assert(node_ok(nodes, addr, par, s, d, j));
                if j != k {
                    assert(n2[j] == nodes[j]);
                    if node_mask(nodes[j]) != 0 {
                        let fc = node_payload(nodes[j]) as int;
                        assert(children_addressed(addr2, fc, addr2[j]));
                    }
                    if addr[j].0 >= 1 {
                        assert(par[j] != k);
                        assert(n2[par[j]] == nodes[par[j]]);
                    }
                } else {
                    if addr[j].0 >= 1 {
                        assert(node_ok(nodes, addr, par, s, d, par[j]));
                        assert(par[j] != k);
                        assert(n2[par[j]] == nodes[par[j]]);
                    }
                }
            } else {
                let o = j - len;
                assert(n2[j] == 0);
                assert(addr2[j] == (a.0 + 1, 8 * a.1 + o));
                if a.0 + 1 == d && s.contains(8 * a.1 + o) {
                    let w = leaf[8 * a.1 + o];
                    lemma_parent_address(nodes, addr, par, leaf, s, d, w, a.0, a.1, o);
                    assert(addr[par[w]] == addr[k]);
                }
            }
        }
        assert forall|i: int, j: int|
            0 <= i < n2.len() && 0 <= j < n2.len() && i != j implies #[trigger] addr2[i]
            != #[trigger] addr2[j] by {
            if i >= len && j < len {
                let o = i - len;
                if addr[j] == (a.0 + 1, 8 * a.1 + o) {
                    lemma_parent_address(nodes, addr, par, leaf, s, d, j, a.0, a.1, o);
                    assert(addr[par[j]] == addr[k]);
                }
            } else if j >= len && i < len {
                let o = j - len;
                if addr[i] == (a.0 + 1, 8 * a.1 + o) {
                    lemma_parent_address(nodes, addr, par, leaf, s, d, i, a.0, a.1, o);
                    assert(addr[par[i]] == addr[k]);
                }
            } else if i < len && j < len {
                assert(addr2[i] == addr[i] && addr2[j] == addr[j]);
            }
        }
        assert forall|m: int| #[trigger] s.contains(m) implies leaf.contains_key(m) && 0 <= leaf[m]
            < n2.len() && addr2[leaf[m]] == (d, m) by {
            assert(addr2[leaf[m]] == addr[leaf[m]]);
        }
        lemma_leaf_count_zeros(nodes, 8);
        lemma_leaf_count_update(nodes + zeros, k, newv);
        assert(c == len + octant);
        assert(addr2[c] == (a.0 + 1, 8 * a.1 + octant));
        (addr2, par2)
    } else {
        let newv = with_child(nodes[k], octant);
        lemma_bits(octant, 0, nodes[k], 1);
        assert(n2 == nodes.update(k, newv));
        assert forall|j: int| 0 <= j < n2.len() implies #[trigger] node_ok(n2, addr, par, s, d, j) by {
            assert(node_ok(nodes, addr, par, s, d, j));
            if addr[j].0 >= 1 {
                assert(node_mask(n2[par[j]]) != 0);
                assert(node_payload(n2[par[j]]) == node_payload(nodes[par[j]]));
            }
        }
        lemma_leaf_count_update(nodes, k, newv);
        let fc = node_payload(nodes[k]) as int;
        lemma_child_address(addr, fc, a, octant as int);
        (addr, par)
    }
}

/// Inserting an index that is not yet in the tree, down a path of `levels` levels, keeps the
/// invariant with the index added and adds exactly one occupied leaf.
proof fn lemma_descent(
    nodes: Seq<u32>,
    addr: Seq<(int, int)>,
    par: Seq<int>,
    leaf: Map<int, int>,
    s: Set<int>,
    d: int,
    k: int,
    m: int,
    levels: nat,
    mat: u32,
) -> (g: (Seq<(int, int)>, Seq<int>, Map<int, int>))
    requires
        tree_inv(nodes, addr, par, leaf, s, d),
        0 <= k < nodes.len(),
        levels <= d,
        addr[k] == (d - levels, m / (pow8(levels) as int)),
        0 <= m,
        !s.contains(m),
        0 < mat < 256,
        morton_descent(nodes, k, m % (pow8(levels) as int), pow2(levels) as int, levels, mat) is Some,
    ensures
        tree_inv(
            morton_descent(nodes, k, m % (pow8(levels) as int), pow2(levels) as int, levels, mat).unwrap(),
            g.0,
            g.1,
            g.2,
            s.insert(m),
            d,
        ),
        leaf_count(
            morton_descent(nodes, k, m % (pow8(levels) as int), pow2(levels) as int, levels, mat).unwrap(),
        ) == leaf_count(nodes) + 1,
    decreases levels,
{
    lemma_pow_facts(levels);
    if levels == 0 {
        assert(pow8(0) == 1);
        assert(m / 1 == m);
        lemma_bits(0, 0, 0, mat);
        assert(node_ok(nodes, addr, par, s, d, k));
        assert(nodes[k] == 0);
        let r = nodes.update(k, mat);
        assert(morton_descent(nodes, k, m % 1, 1, 0, mat).unwrap() == r);
        let s2 = s.insert(m);
        let leaf2 = leaf.insert(m, k);
        assert forall|j: int| 0 <= j < r.len() implies #[trigger] node_ok(r, addr, par, s2, d, j) by {
            assert(node_ok(nodes, addr, par, s, d, j));
            if j != k {
                assert(r[j] == nodes[j]);
                if addr[j].0 == d && addr[j].1 == m {
                    assert(addr[j] == addr[k]);
                }
            }
            if addr[j].0 >= 1 {
                assert(node_mask(nodes[par[j]]) != 0);
                assert(par[j] != k);
                assert(r[par[j]] == nodes[par[j]]);
            }
        }
        assert forall|x: int| #[trigger] s2.contains(x) implies leaf2.contains_key(x) && 0 <= leaf2[x]
            < r.len() && addr[leaf2[x]] == (d, x) by {
            if x != m {
                assert(s.contains(x));
            }
        }
        lemma_leaf_count_update(nodes, k, mat);
        (addr, par, leaf2)
    } else {
        let a = pow8((levels - 1) as nat) as int;
        let span = pow2(levels) as int;
        assert(pow8(levels) == 8 * a);
        assert(span * span * span / 8 == a);
        lemma_digit(m, a);
        vstd::arithmetic::div_mod::lemma_mod_pos_bound(m / a, 8);
        let local = m % (8 * a);
        let octant = local / a;
        assert(0 <= octant < 8);
        assert(descend_step(nodes, k, octant as u32) is Some);
        let (n2, c) = descend_step(nodes, k, octant as u32).unwrap();
        let g1 = lemma_step(nodes, addr, par, leaf, s, d, k, octant as u32);
        assert(g1.0[c] == (d - (levels - 1) as nat, m / a));
        assert(span / 2 == pow2((levels - 1) as nat));
        assert(local - a * octant == m % a);
        lemma_descent(n2, g1.0, g1.1, leaf, s, d, c, m, (levels - 1) as nat, mat)
    }
}

/// The invariant of every tree that `grid_tree` builds, and its leaf count.
proof fn lemma_grid_tree_inv(grid: Seq<u8>, res: u32, depth: u8) -> (g: (
    Seq<(int, int)>,
    Seq<int>,
    Map<int, int>,
))
    requires
        res as int == pow2(depth as nat),
        grid.len() <= pow8(depth as nat),
        pow8(depth as nat) <= 0x1_0000_0000,
    ensures
        grid_tree(grid, res, depth) matches Some(nodes) ==> tree_inv(
            nodes,
            g.0,
            g.1,
            g.2,
            occupied(grid),
            depth as int,
        ) && leaf_count(nodes) == nonzero_count(grid),
    decreases grid.len(),
{
    let d = depth as int;
    if grid.len() == 0 {
        let nodes = seq![0u32];
        let addr = seq![(0int, 0int)];
        let par = seq![0int];
        let leaf = Map::<int, int>::empty();
        assert(node_mask(0) == 0) by (bit_vector);
        assert(occupied(grid) =~= Set::<int>::empty());
        assert(node_ok(nodes, addr, par, occupied(grid), d, 0));
        assert(nodes.drop_last() =~= Seq::<u32>::empty());
        assert(leaf_count(Seq::<u32>::empty()) == 0);
        assert(leaf_count(nodes) == 0);
        assert(tree_inv(nodes, addr, par, leaf, occupied(grid), d));
        assert(grid_tree(grid, res, depth) == Some(nodes));
        (addr, par, leaf)
    } else {
        let front = grid.drop_last();
        let m = grid.len() - 1;
        let v = grid.last();
        let g0 = lemma_grid_tree_inv(front, res, depth);
        assert(!occupied(front).contains(m));
        match grid_tree(front, res, depth) {
            None => g0,
            Some(nodes) => {
                if v == 0 {
                    assert(occupied(grid) =~= occupied(front));
                    g0
                } else {
                    assert(occupied(grid) =~= occupied(front).insert(m));
                    lemma_pow_facts(depth as nat);
                    vstd::arithmetic::div_mod::lemma_small_div_converse(m, pow8(depth as nat) as int);
                    assert(m / (pow8(depth as nat) as int) == 0) by {
                        vstd::arithmetic::div_mod::lemma_basic_div(m, pow8(depth as nat) as int);
                    }
                    vstd::arithmetic::div_mod::lemma_small_mod(m as nat, pow8(depth as nat));
                    assert((m as u32) as int == m);
                    assert(morton_insert(nodes, depth, res, m as u32, v as u32) == morton_descent(
                        nodes,
                        0,
                        m % (pow8(depth as nat) as int),
                        pow2(depth as nat) as int,
                        depth as nat,
                        v as u32,
                    ));
                    assert(grid_tree(grid, res, depth) == morton_insert(nodes, depth, res, m as u32, v as u32));
                    if morton_insert(nodes, depth, res, m as u32, v as u32) is Some {
                        lemma_descent(
                            nodes,
                            g0.0,
                            g0.1,
                            g0.2,
                            occupied(front),
                            d,
                            0,
                            m,
                            depth as nat,
                            v as u32,
                        )
                    } else {
                        g0
                    }
                }
            },
        }
    }
}

/// A tree built from a Morton-ordered grid of side `res`, with as many levels as it takes to
/// reach single voxels, has one occupied leaf for each non-zero voxel of the grid.
pub proof fn lemma_leaf_count_matches_grid(grid: Seq<u8>, res: u32)
    requires
        valid_resolution(res),
        grid.len() == res * res * res,
        grid_tree(grid, res, resolution_bits(res) as u8) is Some,
    ensures
        leaf_count(grid_tree(grid, res, resolution_bits(res) as u8).unwrap()) == nonzero_count(grid),
{
    let depth = resolution_bits(res) as u8;
    reveal_with_fuel(pow2, 9);
    reveal_with_fuel(pow8, 9);
    if res == 1 {
        assert(pow2(0) == 1 && pow8(0) == 1);
    } else if res == 2 {
        assert(pow2(1) == 2 && pow8(1) == 8);
    } else if res == 4 {
        assert(pow2(2) == 4 && pow8(2) == 64);
    } else if res == 8 {
        assert(pow2(3) == 8 && pow8(3) == 512);
    } else if res == 16 {
        assert(pow2(4) == 16 && pow8(4) == 4096);
    } else if res == 32 {
        assert(pow2(5) == 32 && pow8(5) == 32768);
    } else if res == 64 {
        assert(pow2(6) == 64 && pow8(6) == 262144);
    } else if res == 128 {
        assert(pow2(7) == 128 && pow8(7) == 2097152);
    } else if res == 256 {
        assert(pow2(8) == 256 && pow8(8) == 16777216);
    }
    assert(res as int == pow2(depth as nat) && res * res * res == pow8(depth as nat));
    lemma_grid_tree_inv(grid, res, depth);
}

proof fn lemma_occupied_card(grid: Seq<u8>)
    ensures
        occupied(grid).finite(),
        occupied(grid).len() == nonzero_count(grid),
    decreases grid.len(),
{
    if grid.len() == 0 {
        assert(occupied(grid) =~= Set::<int>::empty());
    } else {
        let front = grid.drop_last();
        let m = grid.len() - 1;
        lemma_occupied_card(front);
        assert(!occupied(front).contains(m));
        if grid.last() != 0 {
            assert(occupied(grid) =~= occupied(front).insert(m));
        } else {
            assert(occupied(grid) =~= occupied(front));
        }
    }
}

/// Putting a grid in Morton order keeps the number of its non-zero voxels.
pub proof fn lemma_morton_order_keeps_count(grid: Seq<u8>, res: u32)
    requires
        valid_resolution(res),
        grid.len() == res * res * res,
    ensures
        nonzero_count(morton_order(grid, res)) == nonzero_count(grid),
{
    let r = res as int;
    let mg = morton_order(grid, res);
    lemma_grid_bijection(res);
    lemma_occupied_card(grid);
    lemma_occupied_card(mg);
    let f = |i: int| morton_of_linear(i, r);
    assert(vstd::relations::injective_on(f, occupied(grid))) by {
        assert forall|i: int, j: int|
            occupied(grid).contains(i) && occupied(grid).contains(j) && #[trigger] f(i) == #[trigger] f(j)
            implies i == j by {
            assert(linear_of_morton(morton_of_linear(i, r), r) == i);
            assert(linear_of_morton(morton_of_linear(j, r), r) == j);
        }
    }
    assert(occupied(grid).map(f) =~= occupied(mg)) by {
        assert forall|x: int| occupied(mg).contains(x) implies #[trigger] occupied(grid).map(f).contains(x) by {
            let i = linear_of_morton(x, r);
            assert(occupied(grid).contains(i));
            assert(f(i) == x);
        }
        assert forall|x: int| #[trigger] occupied(grid).map(f).contains(x) implies occupied(mg).contains(x) by {
            let i = choose|i: int| occupied(grid).contains(i) && f(i) == x;
            assert(0 <= morton_of_linear(i, r) < grid.len());
            assert(mg[x] == grid[linear_of_morton(x, r)]);
        }
    }
    vstd::set_lib::lemma_map_size(occupied(grid), occupied(mg), f);
}

/// Building a tree from a grid put in Morton order, with as many levels as it takes to reach
/// single voxels, gives one occupied leaf for each non-zero voxel of the grid.
pub proof fn lemma_leaf_count_matches_source_grid(grid: Seq<u8>, res: u32)
    requires
        valid_resolution(res),
        grid.len() == res * res * res,
        grid_tree(morton_order(grid, res), res, resolution_bits(res) as u8) is Some,
    ensures
        leaf_count(grid_tree(morton_order(grid, res), res, resolution_bits(res) as u8).unwrap())
            == nonzero_count(grid),
{
    lemma_leaf_count_matches_grid(morton_order(grid, res), res);
    lemma_morton_order_keeps_count(grid, res);
}

/// With a root spanning `2^levels` voxels a side and index `m` below `8^levels`, a step of
/// insertion by Morton index picks the top base-8 digit of what is left of the index,
/// `(m / 8^(levels-1)) % 8`, and goes on with the lower digits, `m % 8^(levels-1)`, and half the
/// span. So the octant chosen `k` levels below the root is base-8 digit `levels - 1 - k` of `m`,
/// counted from the lowest.
pub proof fn lemma_morton_octant_digit(m: int, levels: nat)
    requires
        0 <= m,
        levels >= 1,
    ensures
        ({
            let span = pow2(levels) as int;
            let local = m % (pow8(levels) as int);
            let child_volume = span * span * span / 8;
            &&& child_volume == pow8((levels - 1) as nat)
            &&& local / child_volume == (m / (pow8((levels - 1) as nat) as int)) % 8
            &&& local - child_volume * (local / child_volume) == m % (pow8((levels - 1) as nat) as int)
            &&& span / 2 == pow2((levels - 1) as nat)
        }),
{
    lemma_pow_facts(levels);
    let a = pow8((levels - 1) as nat) as int;
    assert(pow8(levels) == 8 * a);
    lemma_digit(m, a);
}

} // verus!
