//! The compact octree container: a fixed header followed by every node of the tree.
//!
//! Layout: version (1 byte), depth (1), root span (4, a little-endian IEEE-754 single),
//! run-length flag (1, reserved); then each node as 4 little-endian bytes. The header keeps the
//! root span's bit pattern as stored; a tree read from a file gets the whole number it stands
//! for. A power of two `2^k`, `k < 32`, has the single-precision pattern `(127 + k) << 23`.
use vstd::prelude::*;
use crate::format::{
    FormatError,
    version_check,
    check_version,
    u32_le_bytes,
    u32_at,
    bool_byte,
    lemma_u32_le_round_trip,
    push_u32_le,
    read_u32_le,
};
use crate::svo::{SVO, DEFAULT_SVO_MAX_DEPTH};

verus! {

pub const BSVO_VERSION: u8 = 3;

/// Bytes taken by one node.
pub const NODE_SIZE: usize = 4;

/// Bytes taken by the header.
pub const BSVO_HEADER_SIZE: usize = 7;

#[derive(Clone, Copy, Debug, PartialEq, Eq, Structural)]
pub struct BsvoHeader {
    pub version: u8,
    pub depth: u8,
    /// Bit pattern of the single-precision side of the root's cube.
    pub root_span: u32,
    /// Reserved: nodes are stored as they are.
    pub run_length_encoded: bool,
}

/// `s` is `2^k` for some `k < 32`.
pub open spec fn is_pow2_span(s: u32) -> bool {
    s != 0 && s & ((s - 1) as u32) == 0
}

/// `k` with `2^k == s`, for a power of two `s`.
pub open spec fn span_log2(s: u32) -> nat
    decreases s,
{
    if s <= 1 {
        0
    } else {
        1 + span_log2(s / 2)
    }
}

/// The single-precision bit pattern of the power of two `s`.
pub open spec fn span_float_bits(s: u32) -> u32 {
    ((127 + span_log2(s)) as u32) << 23u32
}

/// The whole number below `2^32` that a single-precision bit pattern stands for, or `None`
/// for a negative, fractional or larger value. With exponent field `e` and mantissa `m`, a
/// positive value is `(2^23 + m) * 2^(e - 150)`: whole when `e >= 127` and the mantissa bits
/// below the binary point are clear, and below `2^32` when `e < 159`.
pub open spec fn whole_of_float_bits(bits: u32) -> Option<u32> {
    if float_bits_whole(bits) {
        Some(float_bits_value(bits))
    } else {
        None
    }
}

/// The pattern stands for a whole number below `2^32` (see `whole_of_float_bits`).
pub open spec fn float_bits_whole(bits: u32) -> bool {
    let e = (bits >> 23u32) & 0xFF;
    let m = bits & 0x007F_FFFF;
    bits == 0 || (bits >> 31u32 == 0 && 127 <= e && e < 159 && (e > 150 || m & (((1u32 << ((150
        - e) as u32)) - 1) as u32) == 0))
}

/// The value of a pattern that stands for a whole number (see `whole_of_float_bits`).
pub open spec fn float_bits_value(bits: u32) -> u32 {
    let e = (bits >> 23u32) & 0xFF;
    let m = bits & 0x007F_FFFF;
    if bits == 0 {
        0
    } else if e <= 150 {
        (0x0080_0000 | m) >> ((150 - e) as u32)
    } else {
        (0x0080_0000 | m) << ((e - 150) as u32)
    }
}

proof fn lemma_span_log2(s: u32)
    requires
        is_pow2_span(s),
    ensures
        span_log2(s) < 32,
        s == (1u32 << span_log2(s)),
    decreases s,
{
    if s > 1 {
        let h = s / 2;
        assert(is_pow2_span(h) && s == h * 2 && h < 0x8000_0000) by (bit_vector)
            requires
                s != 0 && s & ((s - 1) as u32) == 0,
                s > 1,
                h == s / 2,
        ;
        lemma_span_log2(h);
        let l = span_log2(h) as u32;
        assert(h * 2 == (1u32 << ((1 + l) as u32)) && l < 31) by (bit_vector)
            requires
                h == (1u32 << l),
                l < 32,
                h < 0x8000_0000,
        ;
    } else {
        assert(s == 1);
        assert(1u32 == (1u32 << 0u32)) by (bit_vector);
    }
}

/// Reading a power-of-two span back from its bit pattern gives the span.
pub proof fn lemma_span_bits_round_trip(s: u32)
    requires
        is_pow2_span(s),
    ensures
        whole_of_float_bits(span_float_bits(s)) == Some(s),
{
    lemma_span_log2(s);
    let k = span_log2(s) as u32;
    let bits = span_float_bits(s);
    assert(float_bits_whole(bits) && float_bits_value(bits) == (1u32 << k)) by (bit_vector)
        requires
            k < 32,
            bits == ((127 + k) as u32) << 23u32,
    ;
}

/// The single-precision bit pattern of a power-of-two span.
pub fn span_to_float_bits(span: u32) -> (r: u32)
    requires
        is_pow2_span(span),
    ensures
        r == span_float_bits(span),
        whole_of_float_bits(r) == Some(span),
{
    proof {
        lemma_span_log2(span);
        lemma_span_bits_round_trip(span);
    }
    let mut s: u32 = span;
    let mut k: u32 = 0;
    while s > 1
        invariant
            k + span_log2(s) == span_log2(span),
            span_log2(span) < 32,
        decreases s,
    {
        s = s / 2;
        k += 1;
    }
    (127 + k) << 23u32
}

/// The whole number below `2^32` that a single-precision bit pattern stands for, if any.
pub fn whole_from_float_bits(bits: u32) -> (r: Option<u32>)
    ensures
        r == whole_of_float_bits(bits),
{
    let e = (bits >> 23u32) & 0xFF;
    let m = bits & 0x007F_FFFF;
    if bits == 0 {
        Some(0)
    } else if bits >> 31u32 != 0 || e < 127 || e >= 159 {
        None
    } else if e <= 150 {
        let shift = 150 - e;
        assert(shift < 32 ==> (1u32 << shift) >= 1) by (bit_vector);
        if m & ((1u32 << shift) - 1) == 0 {
            Some((0x0080_0000 | m) >> (150 - e))
        } else {
            None
        }
    } else {
        Some((0x0080_0000 | m) << (e - 150))
    }
}

impl BsvoHeader {
    /// A header with the current version.
    pub fn new(depth: u8, root_span: u32, run_length_encoded: bool) -> (r: BsvoHeader)
        ensures
            r == (BsvoHeader { version: BSVO_VERSION, depth, root_span, run_length_encoded }),
    {
        BsvoHeader { version: BSVO_VERSION, depth, root_span, run_length_encoded }
    }
}

/// The default header: the default depth, with the root spanning `2^depth` voxels (the
/// pattern of 256.0).
pub open spec fn default_bsvo_header() -> BsvoHeader {
    BsvoHeader {
        version: BSVO_VERSION,
        depth: DEFAULT_SVO_MAX_DEPTH,
        root_span: 0x4380_0000,
        run_length_encoded: false,
    }
}

impl Default for BsvoHeader {
    fn default() -> (r: Self)
        ensures
            r == default_bsvo_header(),
    {
        assert(is_pow2_span(256)) by (bit_vector);
        let bits = span_to_float_bits(256);
        proof {
            lemma_span_log2(256);
            assert(span_log2(256) == 8) by {
                reveal_with_fuel(span_log2, 9);
            }
            assert(((127 + 8) as u32) << 23u32 == 0x4380_0000) by (bit_vector);
        }
        Self::new(DEFAULT_SVO_MAX_DEPTH, bits, false)
    }
}

/// `h` as written: with the current version.
pub open spec fn bsvo_current(h: BsvoHeader) -> BsvoHeader {
    BsvoHeader { version: BSVO_VERSION, ..h }
}

/// The bytes of a header.
pub open spec fn bsvo_header_bytes(h: BsvoHeader) -> Seq<u8> {
    seq![h.version, h.depth] + u32_le_bytes(h.root_span) + seq![
        bool_byte(h.run_length_encoded),
    ]
}

/// Reading the header of a file: too short a file is malformed, and a version other than the
/// current one is refused.
pub open spec fn bsvo_header_result(s: Seq<u8>) -> Result<BsvoHeader, FormatError> {
    if s.len() < BSVO_HEADER_SIZE {
        Err(FormatError::MalformedStream)
    } else {
        match version_check(s[0], BSVO_VERSION) {
            Err(e) => Err(e),
            Ok(_) => Ok(
                BsvoHeader {
                    version: s[0],
                    depth: s[1],
                    root_span: u32_at(s, 2),
                    run_length_encoded: s[6] != 0,
                },
            ),
        }
    }
}

/// The whole-voxel span that a tree read from a file gets: the whole number that the stored
/// pattern stands for, and 0, on which insertion by Morton index fails, for a negative,
/// fractional or too large value.
pub open spec fn tree_span_of_bits(bits: u32) -> u32 {
    match whole_of_float_bits(bits) {
        Some(span) => span,
        None => 0,
    }
}

/// The bytes of a node array, 4 little-endian bytes per node.
pub open spec fn nodes_bytes(nodes: Seq<u32>) -> Seq<u8>
    decreases nodes.len(),
{
    if nodes.len() == 0 {
        Seq::empty()
    } else {
        nodes_bytes(nodes.drop_last()) + u32_le_bytes(nodes.last())
    }
}

/// The nodes stored in `b`, 4 little-endian bytes each.
pub open spec fn nodes_of_bytes(b: Seq<u8>) -> Seq<u32> {
    Seq::new(b.len() / 4, |i: int| u32_at(b, 4 * i))
}

/// The file that `write_bsvo` produces.
pub open spec fn bsvo_image(nodes: Seq<u32>, h: BsvoHeader) -> Seq<u8> {
    bsvo_header_bytes(bsvo_current(h)) + nodes_bytes(nodes)
}

/// What reading a file gives: its header and its nodes; a remainder that is not a whole
/// number of nodes is malformed.
pub open spec fn bsvo_contents(s: Seq<u8>) -> Result<(BsvoHeader, Seq<u32>), FormatError> {
    match bsvo_header_result(s) {
        Err(e) => Err(e),
        Ok(h) => {
            let rest = s.skip(BSVO_HEADER_SIZE as int);
            if rest.len() % 4 != 0 {
                Err(FormatError::MalformedStream)
            } else {
                Ok((h, nodes_of_bytes(rest)))
            }
        },
    }
}

fn push_header(out: &mut Vec<u8>, h: BsvoHeader)
    ensures
        final(out)@ == old(out)@ + bsvo_header_bytes(h),
{
    let ghost start = out@;
    out.push(h.version);
    out.push(h.depth);
    push_u32_le(out, h.root_span);
    out.push(if h.run_length_encoded {
        1u8
    } else {
        0u8
    });
    assert(out@ =~= start + bsvo_header_bytes(h));
}

/// A file with a header and no nodes.
pub fn write_empty_bsvo(header: BsvoHeader) -> (r: Vec<u8>)
    ensures
        r@ == bsvo_header_bytes(bsvo_current(header)),
{
    let mut written = header;
    written.version = BSVO_VERSION;
    let mut out: Vec<u8> = Vec::new();
    push_header(&mut out, written);
    assert(out@ =~= bsvo_header_bytes(bsvo_current(header)));
    out
}

/// A file holding the header and every node of `svo`.
pub fn write_bsvo(svo: &SVO, header: BsvoHeader) -> (r: Vec<u8>)
    ensures
        r@ == bsvo_image(svo.nodes@, header),
{
    let mut written = header;
    written.version = BSVO_VERSION;
    let mut out: Vec<u8> = Vec::new();
    push_header(&mut out, written);
    assert(out@ =~= bsvo_header_bytes(written));
    let mut i: usize = 0;
    while i < svo.nodes.len()
        invariant
            i <= svo.nodes@.len(),
            written == bsvo_current(header),
            out@ == bsvo_header_bytes(written) + nodes_bytes(svo.nodes@.take(i as int)),
        decreases svo.nodes@.len() - i,
    {
        let ghost before = out@;
        push_u32_le(&mut out, svo.nodes[i]);
        proof {
            let t = svo.nodes@.take(i + 1);
            assert(t.drop_last() =~= svo.nodes@.take(i as int));
            assert(out@ =~= bsvo_header_bytes(written) + nodes_bytes(t));
        }
        i += 1;
    }
    assert(svo.nodes@.take(i as int) =~= svo.nodes@);
    out
}

/// Reads and checks the header of a file.
pub fn get_bsvo_header(bytes: &[u8]) -> (r: Result<BsvoHeader, FormatError>)
    ensures
        r == bsvo_header_result(bytes@),
{
    if bytes.len() < BSVO_HEADER_SIZE {
        return Err(FormatError::MalformedStream);
    }
    match check_version(bytes[0], BSVO_VERSION) {
        Err(e) => Err(e),
        Ok(()) => Ok(
            BsvoHeader {
                version: bytes[0],
                depth: bytes[1],
                root_span: read_u32_le(bytes, 2),
                run_length_encoded: bytes[6] != 0,
            },
        ),
    }
}

/// Reads a file: its header and the tree that its nodes make, with the header's depth and the
/// whole-voxel span that the header's root span stands for (see `tree_span_of_bits`).
pub fn read_bsvo(bytes: &[u8]) -> (r: Result<(BsvoHeader, SVO), FormatError>)
    ensures
        match r {
            Ok(v) => bsvo_contents(bytes@) == Ok::<(BsvoHeader, Seq<u32>), FormatError>(
                (v.0, v.1.nodes@),
            ) && v.1.depth == v.0.depth && v.1.root_span == tree_span_of_bits(v.0.root_span),
            Err(e) => bsvo_contents(bytes@) == Err::<(BsvoHeader, Seq<u32>), FormatError>(e),
        },
{
    let header = match get_bsvo_header(bytes) {
        Err(e) => {
            return Err(e);
        },
        Ok(h) => h,
    };
    let ghost rest = bytes@.skip(BSVO_HEADER_SIZE as int);
    let remaining = bytes.len() - BSVO_HEADER_SIZE;
    if remaining % NODE_SIZE != 0 {
        return Err(FormatError::MalformedStream);
    }
    let count = remaining / NODE_SIZE;
    let mut nodes: Vec<u32> = Vec::new();
    let mut i: usize = 0;
    while i < count
        invariant
            i <= count,
            rest == bytes@.skip(BSVO_HEADER_SIZE as int),
            rest.len() == 4 * count,
            bytes@.len() == BSVO_HEADER_SIZE + 4 * count,
            bytes.len() == BSVO_HEADER_SIZE + 4 * count,
            nodes@ =~= nodes_of_bytes(rest).take(i as int),
        decreases count - i,
    {
        let node = read_u32_le(bytes, BSVO_HEADER_SIZE + NODE_SIZE * i);
        proof {
            let at = 4 * i;
            assert(rest[at] == bytes@[BSVO_HEADER_SIZE + at]);
            assert(rest[at + 1] == bytes@[BSVO_HEADER_SIZE + at + 1]);
            assert(rest[at + 2] == bytes@[BSVO_HEADER_SIZE + at + 2]);
            assert(rest[at + 3] == bytes@[BSVO_HEADER_SIZE + at + 3]);
        }
        nodes.push(node);
        i += 1;
    }
    assert(nodes@ =~= nodes_of_bytes(rest));
    let depth = header.depth;
    let root_span = match whole_from_float_bits(header.root_span) {
        Some(span) => span,
        None => 0,
    };
    Ok((header, SVO { nodes, depth, root_span }))
}

proof fn lemma_nodes_bytes(nodes: Seq<u32>)
    ensures
        nodes_bytes(nodes).len() == 4 * nodes.len(),
        nodes_of_bytes(nodes_bytes(nodes)) == nodes,
    decreases nodes.len(),
{
    if nodes.len() > 0 {
        let front = nodes.drop_last();
        lemma_nodes_bytes(front);
        let b = nodes_bytes(nodes);
        let fb = nodes_bytes(front);
        let last = u32_le_bytes(nodes.last());
        assert(b == fb + last);
        lemma_u32_le_round_trip(nodes.last());
        assert forall|i: int| 0 <= i < nodes.len() implies #[trigger] nodes_of_bytes(b)[i]
            == nodes[i] by {
            if i < front.len() {
                assert(nodes_of_bytes(fb)[i] == front[i]);
                assert(b[4 * i] == fb[4 * i] && b[4 * i + 1] == fb[4 * i + 1] && b[4 * i + 2] == fb[4
                    * i + 2] && b[4 * i + 3] == fb[4 * i + 3]);
            } else {
                assert(b[4 * i] == last[0] && b[4 * i + 1] == last[1] && b[4 * i + 2] == last[2]
                    && b[4 * i + 3] == last[3]);
            }
        }
        assert(nodes_of_bytes(b) =~= nodes);
    } else {
        assert(nodes_of_bytes(Seq::<u8>::empty()) =~= nodes);
    }
}

/// Writing a tree and reading the file back gives the header, with the current version, and
/// the same nodes, element for element.
pub proof fn lemma_bsvo_round_trip(nodes: Seq<u32>, h: BsvoHeader)
    ensures
        bsvo_contents(bsvo_image(nodes, h)) == Ok::<(BsvoHeader, Seq<u32>), FormatError>(
            (bsvo_current(h), nodes),
        ),
{
    let hc = bsvo_current(h);
    let s = bsvo_image(nodes, h);
    lemma_u32_le_round_trip(h.root_span);
    let b = u32_le_bytes(h.root_span);
    assert(s[2] == b[0] && s[3] == b[1] && s[4] == b[2] && s[5] == b[3]);
    assert(u32_at(s, 2) == h.root_span);
    lemma_nodes_bytes(nodes);
    assert(s.skip(BSVO_HEADER_SIZE as int) =~= nodes_bytes(nodes));
    assert(bsvo_header_result(s) == Ok::<BsvoHeader, FormatError>(hc));
}

/// A file whose header carries a newer version is refused as too new, and one with an older
/// version as too old.
pub proof fn lemma_bsvo_version_rejection(h: BsvoHeader, rest: Seq<u8>)
    ensures
        h.version > BSVO_VERSION ==> bsvo_header_result(bsvo_header_bytes(h) + rest) == Err::<
            BsvoHeader,
            FormatError,
        >(FormatError::VersionTooNew),
        h.version < BSVO_VERSION ==> bsvo_header_result(bsvo_header_bytes(h) + rest) == Err::<
            BsvoHeader,
            FormatError,
        >(FormatError::VersionTooOld),
{
    assert((bsvo_header_bytes(h) + rest)[0] == h.version);
}

} // verus!
