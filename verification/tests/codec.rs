use encipher::codec::{marshal_bytes, pad_message, unmarshal_bytes, unpad_message};
use encipher::result::Error;

const MESSAGE: [u8; 432] = *b"Lorem ipsum dolor sit amet, consectetur adipiscing elit, sed do eiusmod tempor incididunt ut labore et dolore magna aliqua. Ut enim ad minim veniam, quis nostrud exercitation ullamco laboris nisi ut aliquip ex ea commodo consequat. Duis aute irure dolor in reprehenderit in voluptate velit esse cillum dolore eu fugiat nulla pariatur. Excepteur sint occaecat cupidatat non proident, sunt in culpa qui officia deserunt mollit anim id";

#[test]
fn test_padding_1() {
    let m = [5; 16];

    let a = pad_message(&m, 16);
    println!("{a:?} {}", a.len());

    let b = unpad_message(&a, 16).unwrap();
    println!("{b:?} {}", b.len());

    assert_eq!(m, b.as_slice());
}

#[test]
fn test_padding_2() {
    let m = [255; 8];

    let a = pad_message(&m, 16);
    println!("{a:?} {}", a.len());

    let b = unpad_message(&a, 16).unwrap();
    println!("{b:?} {}", b.len());

    assert_eq!(m, b.as_slice());
}

#[test]
fn test_marshal_unmarshal() {
    let chunks: Vec<Vec<u8>> = MESSAGE.chunks(64).map(|chunk| chunk.to_vec()).collect();

    let marshalled = marshal_bytes(&chunks);
    let unmarshalled: Vec<u8> = unmarshal_bytes(&marshalled)
        .unwrap()
        .into_iter()
        .flatten()
        .collect();

    assert_eq!(MESSAGE, unmarshalled.as_slice());
}

#[test]
fn utils_test_marshal_unmarshal() {
    let chunks: Vec<Vec<u8>> = MESSAGE.chunks(64).map(|chunk| chunk.to_vec()).collect();

    let marshalled = marshal_bytes(&chunks);
    let unmarshalled: Vec<u8> = unmarshal_bytes(&marshalled)
        .unwrap()
        .into_iter()
        .flatten()
        .collect();

    assert_eq!(MESSAGE, unmarshalled.as_slice());
}

#[test]
fn tests_test_marshal_unmarshal() {
    let chunks: Vec<Vec<u8>> = MESSAGE.chunks(64).map(|chunk| chunk.to_vec()).collect();

    let marshalled = marshal_bytes(&chunks);
    let unmarshalled: Vec<u8> = unmarshal_bytes(&marshalled)
        .unwrap()
        .into_iter()
        .flatten()
        .collect();

    assert_eq!(MESSAGE, unmarshalled.as_slice());
}

#[test]
fn padding_round_trip_empty() {
    let m: [u8; 0] = [];
    let a = pad_message(&m, 8);
    assert_eq!(a.len() % 8, 0);
    let b = unpad_message(&a, 8).unwrap();
    assert!(b.is_empty());
}

#[test]
fn padding_round_trip_partial_block() {
    let m = [9, 0, 7];
    let a = pad_message(&m, 8);
    assert_eq!(a.len() % 8, 0);
    let b = unpad_message(&a, 8).unwrap();
    assert_eq!(b.as_slice(), &m);
}

#[test]
fn padding_exact_layout() {
    // three bytes under block size eight: five filler bytes, then a block
    // whose final eight bytes record the filler length little-endian
    let m = [1, 2, 3];
    let a = pad_message(&m, 8);
    assert_eq!(
        a,
        vec![1, 2, 3, 0, 0, 0, 0, 0, 5, 0, 0, 0, 0, 0, 0, 0]
    );
}

#[test]
fn unpad_rejects_short_input() {
    let r = unpad_message(&[1, 2, 3], 8);
    assert_eq!(r.unwrap_err(), Error::MessageNotFound);
}

#[test]
fn unpad_rejects_inconsistent_tag() {
    // the trailing length field claims more filler than the buffer holds
    let bad = [0u8, 0, 0, 0, 0, 0, 0, 0, 255, 255, 0, 0, 0, 0, 0, 0];
    let r = unpad_message(&bad, 8);
    assert_eq!(r.unwrap_err(), Error::MessageNotFound);
}

#[test]
fn marshal_exact_layout() {
    let blocks = vec![vec![7u8, 8u8], vec![], vec![9u8]];
    let m = marshal_bytes(&blocks);
    assert_eq!(
        m,
        vec![2, 0, 0, 0, 0, 0, 0, 0, 7, 8, 0, 0, 0, 0, 0, 0, 0, 0, 1, 0, 0, 0, 0, 0, 0, 0, 9]
    );
    assert_eq!(unmarshal_bytes(&m).unwrap(), blocks);
}

#[test]
fn marshal_round_trip_with_empty_blocks() {
    let blocks: Vec<Vec<u8>> = vec![vec![], vec![1, 2, 3], vec![], vec![0, 0]];
    let m = marshal_bytes(&blocks);
    assert_eq!(unmarshal_bytes(&m).unwrap(), blocks);
}

#[test]
fn unmarshal_rejects_truncated_stream() {
    // length prefix claims five bytes but only two remain
    let bad = [5u8, 0, 0, 0, 0, 0, 0, 0, 1, 2];
    assert_eq!(unmarshal_bytes(&bad).unwrap_err(), Error::IncorrectAlgorithm);
    // fewer than eight bytes cannot hold a prefix at all
    assert_eq!(unmarshal_bytes(&[1u8, 2]).unwrap_err(), Error::IncorrectAlgorithm);
}
