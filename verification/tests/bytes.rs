use ebony::bytes::{be_u16_of, be_u32_of, be_u64_of, ByteStream};
use ebony::data::{stream_octets_to_u16, stream_octets_to_u32, stream_octets_to_u64, stream_vecu16, stream_vecu8};
use ebony::text::push_decimal;

#[test]
fn byte_stream_reads_from_both_ends() {
    let mut s = ByteStream::new(vec![1, 2, 3, 4]);
    assert_eq!(s.len(), 4);
    assert_eq!(s.next(), Some(1));
    assert_eq!(s.next_back(), Some(4));
    assert_eq!(s.remaining(), &[2, 3]);
    assert_eq!(s.next_back(), Some(3));
    assert_eq!(s.next(), Some(2));
    assert_eq!(s.next(), None);
    assert_eq!(s.next_back(), None);
    assert_eq!(s.collect(), Vec::<u8>::new());
}

#[test]
fn byte_stream_from_slice_copies() {
    let s = ByteStream::from_slice(&[7, 8, 9]);
    assert_eq!(s.collect(), vec![7, 8, 9]);
}

#[test]
fn big_endian_folds() {
    assert_eq!(be_u16_of(&[0x12, 0x34]), 0x1234);
    assert_eq!(be_u32_of(&[0xde, 0xad, 0xbe, 0xef]), 0xdead_beef);
    assert_eq!(be_u64_of(&[1, 2, 3, 4, 5, 6, 7, 8]), 0x0102_0304_0506_0708);
}

#[test]
fn stream_octets_read_in_order() {
    let mut s = ByteStream::new(vec![0, 1, 0, 0, 0, 2, 0, 0, 0, 0, 0, 0, 0, 3, 9]);
    assert_eq!(stream_octets_to_u16(&mut s), 1);
    assert_eq!(stream_octets_to_u32(&mut s), 2);
    assert_eq!(stream_octets_to_u64(&mut s), 3);
    assert_eq!(s.collect(), vec![9]);
}

#[test]
fn stream_vecu8_with_and_without_delimiter() {
    let mut s = ByteStream::new(b"key\0value".to_vec());
    assert_eq!(stream_vecu8(&mut s, Some(0)), b"key".to_vec());
    assert_eq!(stream_vecu8(&mut s, None), b"value".to_vec());
    assert_eq!(s.len(), 0);

    let mut s = ByteStream::new(b"nodelim".to_vec());
    assert_eq!(stream_vecu8(&mut s, Some(0)), b"nodelim".to_vec());
    assert_eq!(s.len(), 0);

    let mut s = ByteStream::new(vec![0, 5]);
    assert_eq!(stream_vecu8(&mut s, Some(0)), Vec::<u8>::new());
    assert_eq!(s.collect(), vec![5]);
}

#[test]
fn stream_vecu16_pairs_octets() {
    let mut s = ByteStream::new(vec![0, 1, 1, 0, 0xff, 0xff]);
    assert_eq!(stream_vecu16(&mut s, None), vec![1, 256, 0xffff]);

    let mut s = ByteStream::new(vec![0, 7, 9, 9, 5]);
    assert_eq!(stream_vecu16(&mut s, Some(9)), vec![7]);
    assert_eq!(s.collect(), vec![9, 5]);
}

#[test]
fn push_decimal_writes_numerals() {
    let mut s = String::from("n=");
    push_decimal(&mut s, 0);
    assert_eq!(s, "n=0");
    let mut s = String::new();
    push_decimal(&mut s, 1234567890);
    assert_eq!(s, "1234567890");
    let mut s = String::new();
    push_decimal(&mut s, usize::MAX);
    assert_eq!(s, usize::MAX.to_string());
}
