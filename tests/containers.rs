use voxtree::bsvo::{
    get_bsvo_header, read_bsvo, span_to_float_bits, whole_from_float_bits, write_bsvo, write_empty_bsvo, BsvoHeader,
    BSVO_VERSION,
};
use voxtree::bvox::{
    append_to_bvox, get_bvox_header, read_bvox, write_bvox, write_empty_bvox, BvoxHeader,
    BVOX_VERSION,
};
use voxtree::format::FormatError;
use voxtree::svo::SVO;

fn chunks() -> Vec<Vec<u8>> {
    vec![
        vec![0, 0, 0, 1, 1, 2, 0, 0],
        vec![3; 8],
        vec![0, 1, 2, 3, 4, 5, 6, 7],
    ]
}

#[test]
fn bvox_header_layout() {
    let h = BvoxHeader::new(2, 8, true, false);
    let file = write_empty_bvox(h);
    assert_eq!(file, vec![BVOX_VERSION, 2, 0, 0, 0, 8, 0, 0, 0, 1, 0]);
    assert_eq!(get_bvox_header(&file), Ok(h));
}

#[test]
fn bvox_plain_layout() {
    let h = BvoxHeader::new(2, 8, false, false);
    let file = write_bvox(&chunks()[1..2], h).unwrap();
    assert_eq!(&file[11..], &[3, 3, 3, 3, 3, 3, 3, 3, 255]);
}

#[test]
fn bvox_round_trip_with_and_without_rle() {
    for rle in [false, true] {
        let h = BvoxHeader::new(2, 8, rle, false);
        let file = write_bvox(&chunks(), h).unwrap();
        let (read_h, read_chunks) = read_bvox(&file).unwrap();
        assert_eq!(read_h, h);
        assert_eq!(read_chunks, chunks());
    }
    let rle_file = write_bvox(&chunks(), BvoxHeader::new(2, 8, true, false)).unwrap();
    assert_eq!(&rle_file[11..14], &[0, 3, 1]);
}

#[test]
fn bvox_append_equals_write() {
    let h = BvoxHeader::new(2, 8, true, true);
    let mut file = write_empty_bvox(h);
    for c in chunks() {
        append_to_bvox(&mut file, &c).unwrap();
    }
    assert_eq!(file, write_bvox(&chunks(), h).unwrap());
}

#[test]
fn bvox_size_mismatch() {
    let h = BvoxHeader::new(2, 8, false, false);
    assert_eq!(write_bvox(&[vec![1, 2, 3]], h), Err(FormatError::SizeMismatch));
    let mut file = write_empty_bvox(h);
    assert_eq!(append_to_bvox(&mut file, &[1]), Err(FormatError::SizeMismatch));
    assert_eq!(file, write_empty_bvox(h));
}

#[test]
fn bvox_version_rejection() {
    let mut file = write_empty_bvox(BvoxHeader::default());
    file[0] = BVOX_VERSION + 1;
    assert_eq!(get_bvox_header(&file), Err(FormatError::VersionTooNew));
    assert_eq!(read_bvox(&file).err(), Some(FormatError::VersionTooNew));
    file[0] = BVOX_VERSION - 1;
    assert_eq!(get_bvox_header(&file), Err(FormatError::VersionTooOld));
    assert_eq!(get_bvox_header(&file[..5]), Err(FormatError::MalformedStream));
}

#[test]
fn bvox_odd_rle_chunk_is_malformed() {
    let mut file = write_empty_bvox(BvoxHeader::new(2, 8, true, false));
    file.extend_from_slice(&[1, 2, 3, 255]);
    assert_eq!(read_bvox(&file).err(), Some(FormatError::MalformedStream));
}

#[test]
fn span_float_bits_match_f32() {
    for k in 0..32 {
        let span = 1u32 << k;
        assert_eq!(span_to_float_bits(span), (span as f32).to_bits());
    }
}

#[test]
fn bsvo_round_trip() {
    let mut svo = SVO::new(3);
    svo.insert_node_morton(100, 7).unwrap();
    svo.insert_node_morton(3, 9).unwrap();
    let header = BsvoHeader::new(svo.depth, (svo.root_span as f32).to_bits(), false);
    let file = write_bsvo(&svo, header);
    assert_eq!(file.len(), 7 + 4 * svo.nodes.len());
    assert_eq!(&file[2..6], &8.0f32.to_le_bytes());
    let (read_h, read_svo) = read_bsvo(&file).unwrap();
    assert_eq!(read_h, header);
    assert_eq!(read_svo.nodes, svo.nodes);
    assert_eq!(read_svo.depth, 3);
    assert_eq!(read_svo.root_span, 8);
}

#[test]
fn bsvo_version_and_shape_rejection() {
    let header = BsvoHeader::default();
    let mut file = write_empty_bsvo(header);
    assert_eq!(file.len(), 7);
    assert_eq!(get_bsvo_header(&file), Ok(header));
    file.push(1);
    assert_eq!(read_bsvo(&file).err(), Some(FormatError::MalformedStream));
    file[0] = BSVO_VERSION + 1;
    assert_eq!(get_bsvo_header(&file), Err(FormatError::VersionTooNew));
    file[0] = BSVO_VERSION - 1;
    assert_eq!(get_bsvo_header(&file), Err(FormatError::VersionTooOld));
    assert_eq!(header.root_span, 256.0f32.to_bits());
    let mut odd_span = write_empty_bsvo(header);
    odd_span[2..6].copy_from_slice(&3.0f32.to_le_bytes());
    let odd_header = get_bsvo_header(&odd_span).unwrap();
    assert_eq!(f32::from_bits(odd_header.root_span), 3.0);
    let (_, odd_tree) = read_bsvo(&odd_span).unwrap();
    assert_eq!(odd_tree.root_span, 3);
    assert!(odd_tree.nodes.is_empty());
}

#[test]
fn whole_float_spans_decode() {
    for v in [0.0f32, 1.0, 3.0, 6.0, 255.0, 256.0, 1000.0, 16_777_216.0, 3.0e9, 4_294_967_040.0] {
        assert_eq!(whole_from_float_bits(v.to_bits()), Some(v as u32));
    }
    for v in [0.5f32, 2.5, -4.0, 4_294_967_296.0, 1.0e10, f32::INFINITY, f32::NAN] {
        assert_eq!(whole_from_float_bits(v.to_bits()), None);
    }
}
