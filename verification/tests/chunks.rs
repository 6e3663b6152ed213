use ebony::bytes::ByteStream;
use ebony::chunks::size_from_arr;
use ebony::Chunk;

fn chunk_bytes(ty: &[u8; 4], data: &[u8], crc: [u8; 4]) -> Vec<u8> {
    let mut v = (data.len() as u32).to_be_bytes().to_vec();
    v.extend_from_slice(ty);
    v.extend_from_slice(data);
    v.extend_from_slice(&crc);
    v
}

#[test]
fn size_from_arr_is_big_endian() {
    assert_eq!(size_from_arr([0, 0, 0, 13]), 13);
    assert_eq!(size_from_arr([0x12, 0x34, 0x56, 0x78]), 0x1234_5678);
    assert_eq!(size_from_arr([0xff, 0xff, 0xff, 0xff]), u32::MAX);
}

#[test]
fn sample_keeps_its_parts() {
    let c = Chunk::sample([0, 0, 1, 0], *b"IDAT", vec![1, 2, 3], [9, 8, 7, 6]);
    assert_eq!(c.len(), 256);
    assert_eq!(c.data(), &[1, 2, 3]);
    assert_eq!(c.crc(), [9, 8, 7, 6]);
    assert_eq!(c.type_string(), "IDAT");
    assert_eq!(c.ty(), *b"IDAT");
    assert_eq!(c.len_octets(), [0, 0, 1, 0]);
}

#[test]
fn from_iter_reads_one_chunk_and_counts_it() {
    let mut bytes = chunk_bytes(b"tEXt", b"ab\0cd", [1, 2, 3, 4]);
    bytes.extend_from_slice(&[0xaa, 0xbb]);
    let mut iter = ByteStream::new(bytes);
    let mut count: usize = 30;
    let c = Chunk::from_iter(&mut iter, &mut count);
    assert_eq!(c.len(), 5);
    assert_eq!(c.data(), b"ab\0cd");
    assert_eq!(c.crc(), [1, 2, 3, 4]);
    assert_eq!(c.type_string(), "tEXt");
    assert_eq!(count, 30 - 17);
    assert_eq!(iter.collect(), vec![0xaa, 0xbb]);
}

#[test]
fn from_iter_empty_data() {
    let bytes = chunk_bytes(b"IEND", b"", [0xae, 0x42, 0x60, 0x82]);
    let mut iter = ByteStream::new(bytes);
    let mut count: usize = 12;
    let c = Chunk::from_iter(&mut iter, &mut count);
    assert_eq!(c.len(), 0);
    assert!(c.data().is_empty());
    assert_eq!(count, 0);
    assert_eq!(iter.len(), 0);
}

#[test]
fn property_bits_test_bit_sixteen() {
    // 'I' = 0x49: bit 16 clear; 'b' = 0x62: bit 16 clear; 't' = 0x74: bit 16 set.
    let c = Chunk::sample([0; 4], *b"IHDR", vec![], [0; 4]);
    assert!(c.is_critical());
    assert!(!c.is_ancilary());
    assert!(c.is_public());
    assert!(!c.is_private());
    assert!(c.is_version_1_0());
    assert!(c.is_safe_to_copy());
    assert!(!c.is_unsafe_to_copy());

    let c = Chunk::sample([0; 4], [0x10, 0x10, 0x10, 0x00], vec![], [0; 4]);
    assert!(!c.is_critical());
    assert!(c.is_ancilary());
    assert!(!c.is_public());
    assert!(c.is_private());
    assert!(!c.is_version_1_0());
    assert!(!c.is_safe_to_copy());
    assert!(c.is_unsafe_to_copy());
}

#[test]
fn type_string_maps_each_octet_to_a_char() {
    let c = Chunk::sample([0; 4], [0x41, 0xe9, 0x7a, 0x30], vec![], [0; 4]);
    assert_eq!(c.type_string(), "A\u{e9}z0");
}
