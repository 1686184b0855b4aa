use encipher::tobytes::ToBytes;
use encipher::typed::{Content, ContentType};

#[test]
fn to_bytes_conversions() {
    assert_eq!("abc".to_bytes(), vec![97, 98, 99]);
    assert_eq!(String::from("abc").to_bytes(), vec![97, 98, 99]);
    let slice: &[u8] = &[1, 2, 3];
    assert_eq!(slice.to_bytes(), vec![1, 2, 3]);
    assert_eq!(vec![4u8, 5u8].to_bytes(), vec![4, 5]);
}

#[test]
fn content_wraps_payload() {
    let c = Content::new(16, &[10, 20, 30]);
    assert_eq!(c.chunk_size, 16);
    assert_eq!(c.data, vec![10, 20, 30]);
    assert_ne!(ContentType::Text, ContentType::Bytes);
}
