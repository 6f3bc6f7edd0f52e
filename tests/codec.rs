use la_tools::git_object::{
    decimal_bytes, decode_sync, encode_sync, frame_object, unframe_object, DecodeError,
    GitObjectReadSync,
};

#[test]
fn frames_with_decimal_header() {
    assert_eq!(frame_object(5, b"hello"), b"blob 5\0hello".to_vec());
    assert_eq!(frame_object(0, b""), b"blob 0\0".to_vec());
    assert_eq!(decimal_bytes(0), b"0".to_vec());
    assert_eq!(decimal_bytes(1234567), b"1234567".to_vec());
    assert_eq!(decimal_bytes(u64::MAX), b"18446744073709551615".to_vec());
}

#[test]
fn unframes_payload() {
    assert_eq!(unframe_object(b"blob 5\0hello"), Ok(b"hello".to_vec()));
    assert_eq!(unframe_object(b"blob \0x"), Ok(b"x".to_vec()));
}

#[test]
fn bad_magic_is_reported() {
    assert_eq!(unframe_object(b"tree 5\0hello"), Err(DecodeError::BadMagic));
}

#[test]
fn bad_size_is_reported() {
    assert_eq!(unframe_object(b"blob 5x\0hello"), Err(DecodeError::BadSize));
}

#[test]
fn header_cut_short_is_reported() {
    assert_eq!(unframe_object(b"blob 12"), Err(DecodeError::UnexpectedEof));
    assert_eq!(unframe_object(b"blo"), Err(DecodeError::UnexpectedEof));
}

#[test]
fn streaming_strips_header_across_pieces() {
    let mut d = GitObjectReadSync::new();
    let mut out = Vec::new();
    assert_eq!(d.read(b"bl", &mut out), Ok(()));
    assert!(out.is_empty());
    assert_eq!(d.read(b"ob 1", &mut out), Ok(()));
    assert_eq!(d.read(b"1\0hel", &mut out), Ok(()));
    assert_eq!(out, b"hel".to_vec());
    assert_eq!(d.read(b"lo", &mut out), Ok(()));
    assert_eq!(out, b"hello".to_vec());
    assert_eq!(d.finish(), Ok(()));
}

#[test]
fn streaming_reports_bad_magic_once_five_bytes_are_in() {
    let mut d = GitObjectReadSync::new();
    let mut out = Vec::new();
    assert_eq!(d.read(b"tre", &mut out), Ok(()));
    assert_eq!(d.finish(), Err(DecodeError::UnexpectedEof));
    assert_eq!(d.read(b"e 5\0", &mut out), Err(DecodeError::BadMagic));
    assert_eq!(d.read(b"more", &mut out), Err(DecodeError::BadMagic));
    assert!(out.is_empty());
}

#[test]
fn decode_round_trip() {
    let payload: Vec<u8> = (0..5000u32).map(|i| (i * 7 % 251) as u8).collect();
    let encoded = encode_sync(payload.len() as u64, &payload).expect("compresses");
    assert_ne!(encoded, frame_object(payload.len() as u64, &payload));
    assert_eq!(decode_sync(&encoded), Ok(payload));
}

#[test]
fn decode_round_trip_empty() {
    let encoded = encode_sync(0, b"").unwrap();
    assert_eq!(decode_sync(&encoded), Ok(Vec::new()));
}

#[test]
fn decode_of_non_zlib_is_corrupt() {
    assert_eq!(decode_sync(b"blob 5\0hello"), Err(DecodeError::Corrupt));
}

#[test]
fn decode_reports_bad_magic_inside_zlib() {
    let mut e = flate2::write::ZlibEncoder::new(Vec::new(), flate2::Compression::fast());
    std::io::Write::write_all(&mut e, b"tree 5\0hello").unwrap();
    let tree = e.finish().unwrap();
    assert_eq!(decode_sync(&tree), Err(DecodeError::BadMagic));
}
