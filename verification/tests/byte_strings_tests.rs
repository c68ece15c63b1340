use aquatic::byte_strings::{twenty_bytes_to_chars, ByteStringError, InfoHashVecVisitor,
    TwentyByteVisitor};
use aquatic::common::InfoHash;

fn info_hash_from_bytes(bytes: &[u8]) -> InfoHash {
    let mut arr = [0u8; 20];
    assert!(bytes.len() == 20);
    arr.copy_from_slice(bytes);
    InfoHash(arr)
}

#[test]
fn test_deserialize_20_bytes() {
    let input = "aaaabbbbccccddddeeee";
    let expected = info_hash_from_bytes(b"aaaabbbbccccddddeeee");
    let observed = InfoHash(TwentyByteVisitor::visit_str(input).unwrap());
    assert_eq!(observed, expected);

    let input = "aaaabbbbccccddddeee";
    let res_info_hash = TwentyByteVisitor::visit_str(input);
    assert!(res_info_hash.is_err());

    let input = "aaaabbbbccccddddeee𝕊";
    let res_info_hash = TwentyByteVisitor::visit_str(input);
    assert!(res_info_hash.is_err());
}

#[test]
fn test_serde_20_bytes() {
    let info_hash = info_hash_from_bytes(b"aaaabbbbccccddddeeee");

    let out: String = twenty_bytes_to_chars(&info_hash.0).into_iter().collect();
    let info_hash_2 = InfoHash(TwentyByteVisitor::visit_str(&out).unwrap());

    assert_eq!(info_hash, info_hash_2);
}

#[test]
fn test_deserialize_info_hashes_vec() {
    let input = vec![
        String::from("aaaabbbbccccddddeeee"),
        String::from("aaaabbbbccccddddeeee"),
    ];
    let expected = vec![
        info_hash_from_bytes(b"aaaabbbbccccddddeeee"),
        info_hash_from_bytes(b"aaaabbbbccccddddeeee"),
    ];
    let observed = InfoHashVecVisitor::visit_seq(&input).unwrap();
    assert_eq!(observed, expected);
}

#[test]
fn test_deserialize_info_hashes_str() {
    let input = "aaaabbbbccccddddeeee";
    let expected = vec![info_hash_from_bytes(b"aaaabbbbccccddddeeee")];
    let observed = InfoHashVecVisitor::visit_str(input).unwrap();
    assert_eq!(observed, expected);
}

#[test]
fn test_deserialize_info_hashes_null() {
    let expected: Vec<InfoHash> = vec![];
    let observed = InfoHashVecVisitor::visit_none();
    assert_eq!(observed, expected);
}

#[test]
fn invalid_entry_refuses_the_whole_list() {
    let input = vec![
        String::from("aaaabbbbccccddddeeee"),
        String::from("too short"),
    ];
    assert!(InfoHashVecVisitor::visit_seq(&input).is_err());
}

#[test]
fn high_bytes_survive_the_round_trip() {
    // Bytes above 0x7f travel as characters 0x80..0xff and come back.
    let mut raw = [0u8; 20];
    for (i, b) in raw.iter_mut().enumerate() {
        *b = 0xe0 + i as u8;
    }
    let chars = twenty_bytes_to_chars(&raw);
    let text: String = chars.into_iter().collect();
    assert_eq!(TwentyByteVisitor::visit_str(&text).unwrap(), raw);
}

#[test]
fn first_invalid_entry_decides_the_error() {
    // A wide character among the first twenty is reported before a short
    // string that comes later, and the other way round.
    let wide_then_short = vec![
        String::from("aaaabbbbccccddddeee𝕊"),
        String::from("short"),
    ];
    assert_eq!(
        InfoHashVecVisitor::visit_seq(&wide_then_short),
        Err(ByteStringError::CharOutOfRange)
    );
    let short_then_wide = vec![
        String::from("short"),
        String::from("aaaabbbbccccddddeee𝕊"),
    ];
    assert_eq!(
        InfoHashVecVisitor::visit_seq(&short_then_wide),
        Err(ByteStringError::NotTwentyBytes)
    );
}
