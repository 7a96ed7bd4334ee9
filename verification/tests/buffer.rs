use dlldeps::buffer::AlignedImage;
use dlldeps::layout::{in_place, read_u16, read_u32};

#[test]
fn copy_has_the_length_of_the_bytes() {
    for len in [0usize, 1, 7, 8, 9, 15, 16, 17, 1000] {
        let bytes: Vec<u8> = (0..len).map(|i| (i % 251) as u8).collect();
        assert_eq!(AlignedImage::copy_of(&bytes).len(), len);
    }
}

#[test]
fn numbers_are_read_lowest_byte_first() {
    let bytes = [0x01u8, 0x02, 0x03, 0x04, 0xFF, 0xFF, 0xFF, 0xFF];
    assert_eq!(read_u16(&bytes, 0), 0x0201);
    assert_eq!(read_u16(&bytes, 2), 0x0403);
    assert_eq!(read_u32(&bytes, 0), 0x0403_0201);
    assert_eq!(read_u32(&bytes, 4), 0xFFFF_FFFF);
    assert_eq!(read_u16(&bytes, 6), 0xFFFF);
}

#[test]
fn bytes_without_a_dos_header_are_left_to_the_parser() {
    assert!(in_place(&[]));
    assert!(in_place(&[0u8; 63]));
    let mut bytes = vec![0u8; 64];
    bytes[60] = 0x44;
    assert!(in_place(&bytes));
    bytes[0] = b'M';
    assert!(in_place(&bytes));
    bytes[1] = b'Z';
    assert!(!in_place(&bytes));
    bytes[60] = 0x48;
    assert!(in_place(&bytes));
}
