use voxtree::rle::{run_length_decode, run_length_encode, DecodeError};

#[test]
fn encodes_runs_as_pairs() {
    assert_eq!(run_length_encode(&[7, 7, 7, 1, 2, 2]), vec![7, 3, 1, 1, 2, 2]);
}

#[test]
fn empty_input_encodes_to_nothing() {
    assert_eq!(run_length_encode(&[]), Vec::<u8>::new());
    assert_eq!(run_length_decode(&[]), Ok(Vec::new()));
}

#[test]
fn long_run_is_split_at_the_cap() {
    let data = vec![9u8; 300];
    assert_eq!(run_length_encode(&data), vec![9, 254, 9, 46]);
    let exact = vec![4u8; 508];
    assert_eq!(run_length_encode(&exact), vec![4, 254, 4, 254]);
}

#[test]
fn decode_expands_pairs() {
    assert_eq!(run_length_decode(&[5, 3, 0, 2]), Ok(vec![5, 5, 5, 0, 0]));
    assert_eq!(run_length_decode(&[5, 0]), Ok(Vec::new()));
}

#[test]
fn odd_length_is_malformed() {
    assert_eq!(run_length_decode(&[5, 3, 1]), Err(DecodeError::MalformedStream));
}

#[test]
fn round_trip() {
    let data: Vec<u8> = (0..2000u32).map(|i| ((i / 300) % 3) as u8 + if i % 17 == 0 { 100 } else { 0 }).collect();
    let encoded = run_length_encode(&data);
    assert!(encoded.len() < data.len());
    assert_eq!(run_length_decode(&encoded), Ok(data));
    let single = vec![255u8];
    assert_eq!(run_length_decode(&run_length_encode(&single)), Ok(single));
}
