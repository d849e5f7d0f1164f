//! The chunked voxel-grid container: a fixed header followed by chunks, each optionally
//! run-length encoded and closed by a separator byte.
//!
//! Layout: version (1 byte), chunk resolution (4, little-endian), chunk size (4,
//! little-endian), run-length flag (1), Morton flag (1); then `payload, 0xFF` per chunk. The
//! separator is not escaped, so a chunk whose stored bytes hold `0xFF` does not read back.
use vstd::prelude::*;
use crate::format::{
    FormatError,
    version_check,
    check_version,
    u32_le_bytes,
    u32_at,
    bool_byte,
    lemma_u32_le_round_trip,
    push_all,
    push_u32_le,
    read_u32_le,
};
use crate::rle::{
    rle_encoding,
    rle_expand,
    lemma_rle_encoding_valid,
    run_length_encode,
    run_length_decode,
    RLE_MAX,
};

verus! {

pub const BVOX_VERSION: u8 = 2;

/// Byte that closes each chunk.
pub const CHUNK_SEPARATOR: u8 = 255;

pub const DEFAULT_CHUNK_RES: u32 = 256;

pub const DEFAULT_CHUNK_SIZE: u32 = DEFAULT_CHUNK_RES * DEFAULT_CHUNK_RES * DEFAULT_CHUNK_RES;

/// Bytes taken by the header.
pub const BVOX_HEADER_SIZE: usize = 11;

#[derive(Clone, Copy, Debug, PartialEq, Eq, Structural)]
pub struct BvoxHeader {
    pub version: u8,
    /// Side of a chunk, in voxels.
    pub chunk_res: u32,
    /// Bytes in a chunk: the cube of `chunk_res`, which callers keep consistent.
    pub chunk_size: u32,
    pub run_length_encoded: bool,
    /// Whether chunks are in Morton order; descriptive only.
    pub morton_encoded: bool,
}

impl BvoxHeader {
    /// A header with the current version.
    pub fn new(chunk_res: u32, chunk_size: u32, run_length_encoded: bool, morton_encoded: bool) -> (r:
        Self)
        ensures
            r == (BvoxHeader {
                version: BVOX_VERSION,
                chunk_res,
                chunk_size,
                run_length_encoded,
                morton_encoded,
            }),
    {
        BvoxHeader { version: BVOX_VERSION, chunk_res, chunk_size, run_length_encoded, morton_encoded }
    }
}

/// The default header: chunks of the default size, neither encoded nor Morton ordered.
pub open spec fn default_bvox_header() -> BvoxHeader {
    BvoxHeader {
        version: BVOX_VERSION,
        chunk_res: DEFAULT_CHUNK_RES,
        chunk_size: DEFAULT_CHUNK_SIZE,
        run_length_encoded: false,
        morton_encoded: false,
    }
}

impl Default for BvoxHeader {
    fn default() -> (r: Self)
        ensures
            r == default_bvox_header(),
    {
        Self::new(DEFAULT_CHUNK_RES, DEFAULT_CHUNK_SIZE, false, false)
    }
}

/// `h` as written: with the current version.
pub open spec fn with_current_version(h: BvoxHeader) -> BvoxHeader {
    BvoxHeader { version: BVOX_VERSION, ..h }
}

/// The bytes of a header.
pub open spec fn bvox_header_bytes(h: BvoxHeader) -> Seq<u8> {
    seq![h.version] + u32_le_bytes(h.chunk_res) + u32_le_bytes(h.chunk_size) + seq![
        bool_byte(h.run_length_encoded),
        bool_byte(h.morton_encoded),
    ]
}

/// The header stored in the first bytes of `s`; a flag byte other than 0 reads as set.
pub open spec fn parse_bvox_header(s: Seq<u8>) -> BvoxHeader {
    BvoxHeader {
        version: s[0],
        chunk_res: u32_at(s, 1),
        chunk_size: u32_at(s, 5),
        run_length_encoded: s[9] != 0,
        morton_encoded: s[10] != 0,
    }
}

/// Reading the header of a file: too short a file is malformed, and a version other than
/// the current one is refused.
pub open spec fn bvox_header_result(s: Seq<u8>) -> Result<BvoxHeader, FormatError> {
    if s.len() < BVOX_HEADER_SIZE {
        Err(FormatError::MalformedStream)
    } else {
        match version_check(s[0], BVOX_VERSION) {
            Err(e) => Err(e),
            Ok(_) => Ok(parse_bvox_header(s)),
        }
    }
}

/// The stored form of a chunk.
pub open spec fn chunk_payload(chunk: Seq<u8>, rle: bool) -> Seq<u8> {
    if rle {
        rle_encoding(chunk)
    } else {
        chunk
    }
}

/// A chunk's stored form followed by the separator.
pub open spec fn chunk_block(chunk: Seq<u8>, rle: bool) -> Seq<u8> {
    chunk_payload(chunk, rle).push(CHUNK_SEPARATOR)
}

/// The blocks of all chunks, in order.
pub open spec fn chunk_blocks(chunks: Seq<Seq<u8>>, rle: bool) -> Seq<u8>
    decreases chunks.len(),
{
    if chunks.len() == 0 {
        Seq::empty()
    } else {
        chunk_blocks(chunks.drop_last(), rle) + chunk_block(chunks.last(), rle)
    }
}

/// The contents of each vector.
pub open spec fn chunk_views(chunks: Seq<Vec<u8>>) -> Seq<Seq<u8>> {
    Seq::new(chunks.len(), |i: int| chunks[i]@)
}

/// Every chunk holds `size` bytes.
pub open spec fn all_sized(chunks: Seq<Seq<u8>>, size: u32) -> bool {
    forall|i: int| 0 <= i < chunks.len() ==> #[trigger] chunks[i].len() == size
}

/// The file that `write_bvox` produces.
pub open spec fn bvox_image(chunks: Seq<Seq<u8>>, h: BvoxHeader) -> Seq<u8> {
    bvox_header_bytes(with_current_version(h)) + chunk_blocks(chunks, h.run_length_encoded)
}

/// Scanning a payload: the chunks closed by a separator so far, each decoded when `rle` is
/// set, and the bytes gathered since the last separator; `None` when a closed chunk does not
/// decode.
pub open spec fn scan_chunks(p: Seq<u8>, rle: bool) -> Option<(Seq<Seq<u8>>, Seq<u8>)>
    decreases p.len(),
{
    if p.len() == 0 {
        Some((Seq::empty(), Seq::empty()))
    } else {
        match scan_chunks(p.drop_last(), rle) {
            None => None,
            Some(state) => if p.last() == CHUNK_SEPARATOR {
                if !rle {
                    Some((state.0.push(state.1), Seq::empty()))
                } else if state.1.len() % 2 == 0 {
                    Some((state.0.push(rle_expand(state.1)), Seq::empty()))
                } else {
                    None
                }
            } else {
                Some((state.0, state.1.push(p.last())))
            },
        }
    }
}

/// What reading a file gives: its header and its closed chunks; bytes after the last
/// separator are ignored.
pub open spec fn bvox_contents(s: Seq<u8>) -> Result<(BvoxHeader, Seq<Seq<u8>>), FormatError> {
    match bvox_header_result(s) {
        Err(e) => Err(e),
        Ok(h) => match scan_chunks(s.skip(BVOX_HEADER_SIZE as int), h.run_length_encoded) {
            None => Err(FormatError::MalformedStream),
            Some(state) => Ok((h, state.0)),
        },
    }
}

fn push_header(out: &mut Vec<u8>, h: BvoxHeader)
    ensures
        final(out)@ == old(out)@ + bvox_header_bytes(h),
{
    let ghost start = out@;
    out.push(h.version);
    push_u32_le(out, h.chunk_res);
    push_u32_le(out, h.chunk_size);
    out.push(if h.run_length_encoded {
        1u8
    } else {
        0u8
    });
    out.push(if h.morton_encoded {
        1u8
    } else {
        0u8
    });
    assert(out@ =~= start + bvox_header_bytes(h));
}

fn push_chunk(out: &mut Vec<u8>, chunk: &[u8], rle: bool)
    ensures
        final(out)@ == old(out)@ + chunk_block(chunk@, rle),
{
    let ghost start = out@;
    if rle {
        let encoded = run_length_encode(chunk);
        push_all(out, encoded.as_slice());
    } else {
        push_all(out, chunk);
    }
    out.push(CHUNK_SEPARATOR);
    assert(out@ =~= start + chunk_block(chunk@, rle));
}

/// A file with a header and no chunks.
pub fn write_empty_bvox(header: BvoxHeader) -> (r: Vec<u8>)
    ensures
        r@ == bvox_header_bytes(with_current_version(header)),
{
    let mut header = header;
    header.version = BVOX_VERSION;
    let mut out: Vec<u8> = Vec::new();
    push_header(&mut out, header);
    assert(out@ =~= bvox_header_bytes(with_current_version(header)));
    out
}

/// A file holding `chunk_data`; every chunk must hold `header.chunk_size` bytes.
pub fn write_bvox(chunk_data: &[Vec<u8>], header: BvoxHeader) -> (r: Result<Vec<u8>, FormatError>)
    ensures
        match r {
            Ok(bytes) => all_sized(chunk_views(chunk_data@), header.chunk_size) && bytes@
                == bvox_image(chunk_views(chunk_data@), header),
            Err(e) => e == FormatError::SizeMismatch && !all_sized(
                chunk_views(chunk_data@),
                header.chunk_size,
            ),
        },
{
    let mut written = header;
    written.version = BVOX_VERSION;
    let ghost chunks = chunk_views(chunk_data@);
    let mut out: Vec<u8> = Vec::new();
    push_header(&mut out, written);
    let mut i: usize = 0;
    while i < chunk_data.len()
        invariant
            i <= chunk_data@.len(),
            chunks == chunk_views(chunk_data@),
            written == with_current_version(header),
            all_sized(chunks.take(i as int), header.chunk_size),
            out@ == bvox_header_bytes(written) + chunk_blocks(
                chunks.take(i as int),
                header.run_length_encoded,
            ),
        decreases chunk_data@.len() - i,
    {
        let chunk = &chunk_data[i];
        if chunk.len() != header.chunk_size as usize {
            assert(chunks[i as int] == chunk@);
            assert(chunks[i as int].len() != header.chunk_size);
            return Err(FormatError::SizeMismatch);
        }
        push_chunk(&mut out, chunk.as_slice(), header.run_length_encoded);
        proof {
            let t = chunks.take(i + 1);
            assert(t.drop_last() =~= chunks.take(i as int));
            assert(t.last() == chunk@);
            assert(all_sized(t, header.chunk_size)) by {
                assert forall|k: int| 0 <= k < t.len() implies #[trigger] t[k].len()
                    == header.chunk_size by {
                    if k < i {
                        assert(t[k] == chunks.take(i as int)[k]);
                    }
                }
            }
        }
        i += 1;
    }
    assert(chunks.take(i as int) =~= chunks);
    Ok(out)
}

/// Reads and checks the header of a file.
pub fn get_bvox_header(bytes: &[u8]) -> (r: Result<BvoxHeader, FormatError>)
    ensures
        r == bvox_header_result(bytes@),
{
    if bytes.len() < BVOX_HEADER_SIZE {
        return Err(FormatError::MalformedStream);
    }
    match check_version(bytes[0], BVOX_VERSION) {
        Err(e) => Err(e),
        Ok(()) => Ok(
            BvoxHeader {
                version: bytes[0],
                chunk_res: read_u32_le(bytes, 1),
                chunk_size: read_u32_le(bytes, 5),
                run_length_encoded: bytes[9] != 0,
                morton_encoded: bytes[10] != 0,
            },
        ),
    }
}

/// Adds one chunk at the end of a file, with the encoding its header asks for.
pub fn append_to_bvox(file: &mut Vec<u8>, chunk: &[u8]) -> (r: Result<(), FormatError>)
    ensures
        match bvox_header_result(old(file)@) {
            Err(e) => r == Err::<(), FormatError>(e) && final(file)@ == old(file)@,
            Ok(h) => if chunk@.len() != h.chunk_size {
                r == Err::<(), FormatError>(FormatError::SizeMismatch) && final(file)@ == old(file)@
            } else {
                r is Ok && final(file)@ == old(file)@ + chunk_block(chunk@, h.run_length_encoded)
            },
        },
{
    let header = match get_bvox_header(file.as_slice()) {
        Err(e) => {
            return Err(e);
        },
        Ok(h) => h,
    };
    if chunk.len() != header.chunk_size as usize {
        return Err(FormatError::SizeMismatch);
    }
    push_chunk(file, chunk, header.run_length_encoded);
    Ok(())
}

proof fn lemma_scan_failure_persists(p: Seq<u8>, rle: bool, j: int)
    requires
        0 <= j <= p.len(),
        scan_chunks(p.take(j), rle) is None,
    ensures
        scan_chunks(p, rle) is None,
    decreases p.len() - j,
{
    if j < p.len() {
        assert(p.take(j + 1).drop_last() =~= p.take(j));
        lemma_scan_failure_persists(p, rle, j + 1);
    } else {
        assert(p.take(j) =~= p);
    }
}

/// Reads a file: its header and its chunks, each decoded when the header says so.
pub fn read_bvox(bytes: &[u8]) -> (r: Result<(BvoxHeader, Vec<Vec<u8>>), FormatError>)
    ensures
        match r {
            Ok(v) => bvox_contents(bytes@) == Ok::<(BvoxHeader, Seq<Seq<u8>>), FormatError>(
                (v.0, chunk_views(v.1@)),
            ),
            Err(e) => bvox_contents(bytes@) == Err::<(BvoxHeader, Seq<Seq<u8>>), FormatError>(e),
        },
{
    let header = match get_bvox_header(bytes) {
        Err(e) => {
            return Err(e);
        },
        Ok(h) => h,
    };
    let ghost payload = bytes@.skip(BVOX_HEADER_SIZE as int);
    let rle = header.run_length_encoded;
    let mut chunk_data: Vec<Vec<u8>> = Vec::new();
    let mut chunk: Vec<u8> = Vec::new();
    let mut j: usize = BVOX_HEADER_SIZE;
    proof {
        assert(payload.take(0) =~= Seq::<u8>::empty());
        assert(chunk_views(chunk_data@) =~= Seq::<Seq<u8>>::empty());
    }
    while j < bytes.len()
        invariant
            BVOX_HEADER_SIZE <= j <= bytes@.len(),
            payload == bytes@.skip(BVOX_HEADER_SIZE as int),
            bvox_header_result(bytes@) == Ok::<BvoxHeader, FormatError>(header),
            rle == header.run_length_encoded,
            scan_chunks(payload.take(j - BVOX_HEADER_SIZE), rle) == Some(
                (chunk_views(chunk_data@), chunk@),
            ),
        decreases bytes@.len() - j,
    {
        let byte = bytes[j];
        let ghost k = j - BVOX_HEADER_SIZE;
        let ghost before = chunk_views(chunk_data@);
        proof {
            assert(payload.take(k + 1).drop_last() =~= payload.take(k));
            assert(payload.take(k + 1).last() == byte);
        }
        if byte == CHUNK_SEPARATOR {
            if rle {
                match run_length_decode(chunk.as_slice()) {
                    Ok(decoded) => {
                        chunk_data.push(decoded);
                    },
                    Err(_) => {
                        proof {
                            assert(chunk@.len() % 2 == 1);
                            assert(scan_chunks(payload.take(k + 1), rle) is None);
                            lemma_scan_failure_persists(payload, rle, k + 1);
                        }
                        return Err(FormatError::MalformedStream);
                    },
                }
            } else {
                let done = chunk;
                chunk = Vec::new();
                chunk_data.push(done);
            }
            chunk = Vec::new();
            assert(chunk_views(chunk_data@) =~= before.push(
                scan_chunks(payload.take(k + 1), rle).unwrap().0.last(),
            ));
        } else {
            chunk.push(byte);
            assert(chunk_views(chunk_data@) =~= before);
        }
        j += 1;
    }
    proof {
        assert(payload.take(j - BVOX_HEADER_SIZE) =~= payload);
    }
    Ok((header, chunk_data))
}

/// Reading the header back from a written file gives the header with the current version.
proof fn lemma_header_read_back(h: BvoxHeader, rest: Seq<u8>)
    ensures
        bvox_header_result(bvox_header_bytes(with_current_version(h)) + rest) == Ok::<
            BvoxHeader,
            FormatError,
        >(with_current_version(h)),
        (bvox_header_bytes(with_current_version(h)) + rest).skip(BVOX_HEADER_SIZE as int) == rest,
{
    let hc = with_current_version(h);
    let s = bvox_header_bytes(hc) + rest;
    lemma_u32_le_round_trip(h.chunk_res);
    lemma_u32_le_round_trip(h.chunk_size);
    let a = u32_le_bytes(h.chunk_res);
    let b = u32_le_bytes(h.chunk_size);
    assert(s[1] == a[0] && s[2] == a[1] && s[3] == a[2] && s[4] == a[3]);
    assert(s[5] == b[0] && s[6] == b[1] && s[7] == b[2] && s[8] == b[3]);
    assert(parse_bvox_header(s) == hc);
    assert(s.skip(BVOX_HEADER_SIZE as int) =~= rest);
}

/// The run-length encoding of bytes that avoid the separator avoids it too.
proof fn lemma_encoding_avoids_separator(data: Seq<u8>)
    requires
        forall|k: int| 0 <= k < data.len() ==> data[k] != CHUNK_SEPARATOR,
    ensures
        forall|k: int| 0 <= k < rle_encoding(data).len() ==> rle_encoding(data)[k] != CHUNK_SEPARATOR,
    decreases data.len(),
{
    if data.len() > 0 {
        let d = data.drop_last();
        lemma_encoding_avoids_separator(d);
        lemma_rle_encoding_valid(d);
        let e = rle_encoding(d);
        assert(data.last() == data[data.len() - 1]);
        if e.len() >= 2 && e[e.len() - 2] == data.last() && e[e.len() - 1] < RLE_MAX {
            let f = e.update(e.len() - 1, (e[e.len() - 1] + 1) as u8);
            assert forall|k: int| 0 <= k < f.len() implies f[k] != CHUNK_SEPARATOR by {
                if k != e.len() - 1 {
                    assert(f[k] == e[k]);
                }
            }
        } else {
            let f = e + seq![data.last(), 1u8];
            assert forall|k: int| 0 <= k < f.len() implies f[k] != CHUNK_SEPARATOR by {
                if k < e.len() {
                    assert(f[k] == e[k]);
                }
            }
        }
    }
}

/// Scanning the bytes of a chunk that avoids the separator only gathers them.
proof fn lemma_scan_gathers(q: Seq<u8>, done: Seq<Seq<u8>>, payload: Seq<u8>, rle: bool, k: int)
    requires
        scan_chunks(q, rle) == Some((done, Seq::<u8>::empty())),
        0 <= k <= payload.len(),
        forall|i: int| 0 <= i < payload.len() ==> payload[i] != CHUNK_SEPARATOR,
    ensures
        scan_chunks(q + payload.take(k), rle) == Some((done, payload.take(k))),
    decreases k,
{
    if k == 0 {
        assert(q + payload.take(0) =~= q);
        assert(payload.take(0) =~= Seq::<u8>::empty());
    } else {
        lemma_scan_gathers(q, done, payload, rle, k - 1);
        let s = q + payload.take(k);
        assert(s.drop_last() =~= q + payload.take(k - 1));
        assert(s.last() == payload[k - 1]);
        assert(payload.take(k - 1).push(payload[k - 1]) =~= payload.take(k));
    }
}

/// Scanning the blocks of chunks that avoid the separator gives the chunks back.
proof fn lemma_scan_blocks(chunks: Seq<Seq<u8>>, rle: bool)
    requires
        forall|i: int, k: int|
            0 <= i < chunks.len() && 0 <= k < chunks[i].len() ==> chunks[i][k] != CHUNK_SEPARATOR,
    ensures
        scan_chunks(chunk_blocks(chunks, rle), rle) == Some((chunks, Seq::<u8>::empty())),
    decreases chunks.len(),
{
    if chunks.len() == 0 {
        assert(scan_chunks(Seq::<u8>::empty(), rle) == Some((Seq::<Seq<u8>>::empty(), Seq::<u8>::empty())));
        assert(chunks =~= Seq::<Seq<u8>>::empty());
    } else {
        let front = chunks.drop_last();
        let c = chunks.last();
        assert forall|i: int, k: int| 0 <= i < front.len() && 0 <= k < front[i].len() implies front[i][k]
            != CHUNK_SEPARATOR by {
            assert(front[i] == chunks[i]);
        }
        lemma_scan_blocks(front, rle);
        let q = chunk_blocks(front, rle);
        let payload = chunk_payload(c, rle);
        assert forall|k: int| 0 <= k < c.len() implies c[k] != CHUNK_SEPARATOR by {
            assert(c == chunks[chunks.len() - 1]);
        }
        if rle {
            lemma_encoding_avoids_separator(c);
            lemma_rle_encoding_valid(c);
        }
        lemma_scan_gathers(q, front, payload, rle, payload.len() as int);
        assert(payload.take(payload.len() as int) =~= payload);
        let s = chunk_blocks(chunks, rle);
        assert(s =~= (q + payload).push(CHUNK_SEPARATOR));
        assert(s.drop_last() =~= q + payload);
        assert(front.push(c) =~= chunks);
    }
}

/// Writing chunks that avoid the separator byte and reading the file back gives the header,
/// with the current version, and the same chunks, whether run-length encoding is on or off.
pub proof fn lemma_bvox_round_trip(chunks: Seq<Seq<u8>>, h: BvoxHeader)
    requires
        forall|i: int, k: int|
            0 <= i < chunks.len() && 0 <= k < chunks[i].len() ==> chunks[i][k] != CHUNK_SEPARATOR,
    ensures
        bvox_contents(bvox_image(chunks, h)) == Ok::<(BvoxHeader, Seq<Seq<u8>>), FormatError>(
            (with_current_version(h), chunks),
        ),
{
    lemma_header_read_back(h, chunk_blocks(chunks, h.run_length_encoded));
    lemma_scan_blocks(chunks, h.run_length_encoded);
}

/// The file after appending `chunks` one at a time to `start`, each encoded as the header
/// of the file at that point asks.
pub open spec fn append_chain(start: Seq<u8>, chunks: Seq<Seq<u8>>) -> Seq<u8>
    decreases chunks.len(),
{
    if chunks.len() == 0 {
        start
    } else {
        let prev = append_chain(start, chunks.drop_last());
        prev + chunk_block(chunks.last(), parse_bvox_header(prev).run_length_encoded)
    }
}

/// Starting from an empty file and appending chunks of the header's size one at a time, every
/// append finds a header it accepts and a chunk of the right size, and the result is the file
/// that writing all the chunks at once gives.
pub proof fn lemma_append_matches_write(chunks: Seq<Seq<u8>>, h: BvoxHeader)
    requires
        all_sized(chunks, h.chunk_size),
    ensures
        forall|j: int|
            0 <= j <= chunks.len() ==> bvox_header_result(
                #[trigger] append_chain(bvox_header_bytes(with_current_version(h)), chunks.take(j)),
            ) == Ok::<BvoxHeader, FormatError>(with_current_version(h)),
        append_chain(bvox_header_bytes(with_current_version(h)), chunks) == bvox_image(chunks, h),
    decreases chunks.len(),
{
    let start = bvox_header_bytes(with_current_version(h));
    if chunks.len() == 0 {
        assert(start + chunk_blocks(chunks, h.run_length_encoded) =~= start);
        assert forall|j: int| 0 <= j <= chunks.len() implies bvox_header_result(
            #[trigger] append_chain(start, chunks.take(j)),
        ) == Ok::<BvoxHeader, FormatError>(with_current_version(h)) by {
            assert(chunks.take(j) =~= chunks);
            lemma_header_read_back(h, Seq::<u8>::empty());
            assert(start + Seq::<u8>::empty() =~= start);
        }
    } else {
        let front = chunks.drop_last();
        assert(all_sized(front, h.chunk_size)) by {
            assert forall|i: int| 0 <= i < front.len() implies #[trigger] front[i].len() == h.chunk_size by {
                assert(front[i] == chunks[i]);
            }
        }
        lemma_append_matches_write(front, h);
        let prev = append_chain(start, front);
        lemma_header_read_back(h, chunk_blocks(front, h.run_length_encoded));
        assert(parse_bvox_header(prev) == with_current_version(h));
        assert(append_chain(start, chunks) =~= bvox_image(chunks, h));
        lemma_header_read_back(h, chunk_blocks(chunks, h.run_length_encoded));
        assert forall|j: int| 0 <= j <= chunks.len() implies bvox_header_result(
            #[trigger] append_chain(start, chunks.take(j)),
        ) == Ok::<BvoxHeader, FormatError>(with_current_version(h)) by {
            if j < chunks.len() {
                assert(chunks.take(j) =~= front.take(j));
            } else {
                assert(chunks.take(j) =~= chunks);
            }
        }
    }
}

/// A file whose header carries a newer version is refused as too new, and one with an older
/// version as too old.
pub proof fn lemma_bvox_version_rejection(h: BvoxHeader, rest: Seq<u8>)
    ensures
        h.version > BVOX_VERSION ==> bvox_header_result(bvox_header_bytes(h) + rest) == Err::<
            BvoxHeader,
            FormatError,
        >(FormatError::VersionTooNew),
        h.version < BVOX_VERSION ==> bvox_header_result(bvox_header_bytes(h) + rest) == Err::<
            BvoxHeader,
            FormatError,
        >(FormatError::VersionTooOld),
{
    assert((bvox_header_bytes(h) + rest)[0] == h.version);
}

} // verus!
