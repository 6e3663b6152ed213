use ebony::{bkGD, sBIT, tRNS, ByteStream, Chunk, PNGChunks, PNGData, PNGError, RawPNG, ZLib};
use ebony::{cHRM, gAMA, hIST, pHYs, tEXt, tIME, zTXT, IDAT, IEND, IHDR, PLTE};

const SIG: [u8; 8] = [137, 80, 78, 71, 13, 10, 26, 10];

fn chunk_bytes(ty: &[u8; 4], data: &[u8]) -> Vec<u8> {
    let mut v = (data.len() as u32).to_be_bytes().to_vec();
    v.extend_from_slice(ty);
    v.extend_from_slice(data);
    v.extend_from_slice(&[0, 0, 0, 0]);
    v
}

fn ihdr_data(width: u32, height: u32, color_type: u8) -> Vec<u8> {
    let mut d = width.to_be_bytes().to_vec();
    d.extend_from_slice(&height.to_be_bytes());
    d.extend_from_slice(&[8, color_type, 0, 0, 0]);
    d
}

fn file(chunks: &[(&[u8; 4], Vec<u8>)]) -> Vec<u8> {
    let mut v = SIG.to_vec();
    for (t, d) in chunks {
        v.extend(chunk_bytes(t, d));
    }
    v
}

fn chunk(ty: &[u8; 4], data: &[u8]) -> Chunk {
    Chunk::sample((data.len() as u32).to_be_bytes(), *ty, data.to_vec(), [0; 4])
}

fn parse(bytes: Vec<u8>) -> PNGChunks {
    let raw = RawPNG::from_bytes(bytes).unwrap();
    assert!(raw.chunks_well_formed());
    PNGChunks::from_raw(raw)
}

#[test]
fn signature_is_checked() {
    assert!(RawPNG::from_bytes(SIG.to_vec()).is_ok());
    assert!(matches!(RawPNG::from_bytes(vec![137, 80, 78, 71, 13, 10, 26, 11]), Err(PNGError::InvalidSignature)));
    assert!(matches!(RawPNG::from_bytes(vec![]), Err(PNGError::InvalidSignature)));
    assert!(matches!(RawPNG::from_bytes(SIG[..7].to_vec()), Err(PNGError::InvalidSignature)));
}

#[test]
fn chunks_are_read_in_file_order() {
    let bytes = file(&[
        (b"IHDR", ihdr_data(2, 3, 2)),
        (b"IDAT", vec![1, 2, 3]),
        (b"IEND", vec![]),
    ]);
    let chunks = parse(bytes);
    assert_eq!(chunks.len(), 3);
    assert_eq!(chunks.names(), vec!["IHDR", "IDAT", "IEND"]);
    assert_eq!(chunks.datas(), vec!["IHDR, 13", "IDAT, 3", "IEND, 0"]);
    assert_eq!(chunks.chunks()[1].data(), &[1, 2, 3]);
}

#[test]
fn malformed_chunk_streams_are_detected() {
    // cut short in the middle of the data
    let mut bytes = file(&[(b"IHDR", ihdr_data(1, 1, 0))]);
    bytes.truncate(bytes.len() - 6);
    let raw = RawPNG::from_bytes(bytes).unwrap();
    assert!(!raw.chunks_well_formed());
    // trailing octets too few for a chunk
    let mut bytes = file(&[(b"IEND", vec![])]);
    bytes.extend_from_slice(&[0, 0, 0]);
    let raw = RawPNG::from_bytes(bytes).unwrap();
    assert!(!raw.chunks_well_formed());
    // nothing after the signature is an empty chunk list
    let chunks = parse(SIG.to_vec());
    assert_eq!(chunks.len(), 0);
}

#[test]
fn pop_and_into_chunks() {
    let mut chunks = parse(file(&[(b"IHDR", ihdr_data(1, 1, 0)), (b"IEND", vec![])]));
    let last = chunks.pop();
    assert_eq!(last.type_string(), "IEND");
    assert_eq!(chunks.len(), 1);
    let v = chunks.into_chunks();
    assert_eq!(v.len(), 1);
    assert_eq!(v[0].type_string(), "IHDR");
}

#[test]
fn decodes_header() {
    let c = chunk(b"IHDR", &ihdr_data(640, 480, 6));
    let h = c.chunk_data::<IHDR>(None).unwrap();
    assert_eq!(h.width(), 640);
    assert_eq!(h.height(), 480);
    assert_eq!(h.bit_depth(), 8);
    assert_eq!(h.color_type(), 6);
    assert_eq!(h.compression_method(), 0);
    assert_eq!(h.filter_method(), 0);
    assert_eq!(h.interlace_method(), 0);
}

#[test]
fn decodes_chromaticities_and_gamma() {
    let mut d = Vec::new();
    for v in [31270u32, 32900, 64000, 33000, 30000, 60000, 15000, 6000] {
        d.extend_from_slice(&v.to_be_bytes());
    }
    let c = chunk(b"cHRM", &d).chunk_data::<cHRM>(None).unwrap();
    assert_eq!(c.white_point_raw(), [31270, 32900]);
    assert_eq!(c.red_raw(), [64000, 33000]);
    assert_eq!(c.green_raw(), [30000, 60000]);
    assert_eq!(c.blue_raw(), [15000, 6000]);
    let g = chunk(b"gAMA", &45455u32.to_be_bytes()).chunk_data::<gAMA>(None).unwrap();
    assert_eq!(g.image_gamma_raw(), 45455);
}

#[test]
fn decodes_background_by_color_type() {
    let c = chunk(b"bKGD", &[0, 1, 0, 2, 0, 3]);
    assert_eq!(c.chunk_data::<bkGD>(Some(0)).unwrap(), bkGD::ColorType0 { gray: 1 });
    assert_eq!(c.chunk_data::<bkGD>(Some(2)).unwrap(), bkGD::ColorType2 { red: 1, green: 2, blue: 3 });
    assert_eq!(c.chunk_data::<bkGD>(Some(3)).unwrap(), bkGD::ColorType3 { palette_index: 0 });
    assert_eq!(c.chunk_data::<bkGD>(Some(4)).unwrap(), bkGD::ColorType4 { gray: 1 });
    assert_eq!(c.chunk_data::<bkGD>(Some(6)).unwrap(), bkGD::ColorType6 { red: 1, green: 2, blue: 3 });
}

#[test]
fn decodes_significant_bits_by_color_type() {
    let c = chunk(b"sBIT", &[5, 6, 7, 8]);
    assert_eq!(c.chunk_data::<sBIT>(Some(0)).unwrap(), sBIT::ColorType0(5));
    assert_eq!(c.chunk_data::<sBIT>(Some(2)).unwrap(), sBIT::ColorType2 { r: 5, g: 6, b: 7 });
    assert_eq!(c.chunk_data::<sBIT>(Some(3)).unwrap(), sBIT::ColorType3 { r: 5, g: 6, b: 7 });
    assert_eq!(c.chunk_data::<sBIT>(Some(4)).unwrap(), sBIT::ColorType4 { grayscale: 5, alpha: 6 });
    assert_eq!(c.chunk_data::<sBIT>(Some(6)).unwrap(), sBIT::ColorType6 { r: 5, g: 6, b: 7, a: 8 });
}

#[test]
fn decodes_transparency_by_color_type() {
    let c = chunk(b"tRNS", &[0, 9, 0, 8, 0, 7]);
    assert!(matches!(c.chunk_data::<tRNS>(Some(0)).unwrap(), tRNS::ColorType0 { gray: 9 }));
    assert!(matches!(c.chunk_data::<tRNS>(Some(2)).unwrap(), tRNS::ColorType2 { red: 9, green: 8, blue: 7 }));
    match c.chunk_data::<tRNS>(Some(3)).unwrap() {
        tRNS::ColorType3 { alphas } => assert_eq!(alphas, vec![0, 9, 0, 8, 0, 7]),
        _ => panic!("wrong layout"),
    }
}

#[test]
fn decodes_lists_and_text() {
    let h = chunk(b"hIST", &[0, 1, 0, 2]).chunk_data::<hIST>(None).unwrap();
    assert_eq!(format!("{:?}", h), "hIST { entries: [1, 2] }");
    let p = chunk(b"PLTE", &[1, 2, 3, 4, 5, 6]).chunk_data::<PLTE>(None).unwrap();
    assert_eq!(p.entries(), &[1, 2, 3, 4, 5, 6]);
    let i = chunk(b"IDAT", &[9, 9]).chunk_data::<IDAT>(None).unwrap();
    assert_eq!(i.data(), &[9, 9]);
    assert_eq!(i.len(), 2);
    let t = chunk(b"tEXt", b"Title\0A picture").chunk_data::<tEXt>(None).unwrap();
    assert_eq!(t.keyword(), b"Title");
    assert_eq!(t.text(), b"A picture");
    let [k, v] = t.parse();
    assert_eq!(k, "Title");
    assert_eq!(v, "A picture");
    let bad = chunk(b"tEXt", &[b'k', 0, 0xff, b'x']).chunk_data::<tEXt>(None).unwrap();
    assert_eq!(bad.parse()[1], "\u{fffd}x");
    let z = chunk(b"zTXT", b"Comment\0\0xyz").chunk_data::<zTXT>(None).unwrap();
    assert_eq!(format!("{:?}", z), "zTXT { keyword: [67, 111, 109, 109, 101, 110, 116], compression_method: 0, compressed_text: [120, 121, 122] }");
}

#[test]
fn decodes_time_physical_and_trailer() {
    let t = chunk(b"tIME", &[0x07, 0xe8, 2, 29, 23, 59, 58]).chunk_data::<tIME>(None).unwrap();
    assert_eq!(format!("{:?}", t), "tIME { year: 2024, month: 2, day: 29, hour: 23, minute: 59, second: 58 }");
    let p = chunk(b"pHYs", &[0, 0, 0x0b, 0x13, 0, 0, 0x0b, 0x13, 1]).chunk_data::<pHYs>(None).unwrap();
    assert_eq!(format!("{:?}", p), "pHYs { x_ppu: 2835, y_ppu: 2835, unit_specifier: 1 }");
    let e = chunk(b"IEND", &[]).chunk_data::<IEND>(None).unwrap();
    assert_eq!(e, IEND {});
}

fn sample_png() -> PNGChunks {
    parse(file(&[
        (b"IHDR", ihdr_data(4, 2, 3)),
        (b"PLTE", vec![1, 1, 1]),
        (b"IDAT", vec![0x78, 0x9c, 10]),
        (b"tEXt", b"a\0b".to_vec()),
        (b"PLTE", vec![2, 2, 2]),
        (b"bKGD", vec![7]),
        (b"IDAT", vec![11, 12]),
        (b"IDAT", vec![13, 1, 2, 3, 4]),
        (b"IEND", vec![]),
    ]))
}

#[test]
fn new_keeps_the_last_of_each_optional_chunk_and_all_image_data() {
    let chunks = sample_png();
    assert!(PNGData::accepts(&chunks));
    let mut png = PNGData::new(chunks);
    assert_eq!(png.ihdr().width(), 4);
    assert_eq!(png.ihdr().color_type(), 3);
    assert_eq!(png.plte().as_ref().unwrap().entries(), &[2, 2, 2]);
    assert_eq!(*png.bkgd(), Some(bkGD::ColorType3 { palette_index: 7 }));
    assert!(png.text().is_none());
    assert!(png.ztxt().is_none());
    assert!(png.chrm().is_none() && png.gama().is_none() && png.hist().is_none());
    assert!(png.phys().is_none() && png.sbit().is_none() && png.time().is_none() && png.trns().is_none());
    assert_eq!(png.data().len(), 3);
    assert_eq!(png.color_type_size(), 1);

    let stats = png.idat_size_stats();
    assert_eq!(stats.len, 3);
    assert_eq!(stats.max, 5);
    assert_eq!(stats.min, 2);
    assert!(!stats.min_is_last);
    assert_eq!(stats.unique, vec![3, 2, 5]);

    let stream = png.concat();
    assert_eq!(stream.remaining(), &[0x78, 0x9c, 10, 11, 12, 13, 1, 2, 3, 4]);
    assert_eq!(png.data().len(), 0);
    assert_eq!(png.concat().len(), 0);
}

#[test]
fn accepts_refuses_what_new_cannot_describe() {
    // a single chunk
    assert!(!PNGData::accepts(&parse(file(&[(b"IHDR", ihdr_data(1, 1, 0))]))));
    // a header too short
    assert!(!PNGData::accepts(&parse(file(&[(b"IHDR", vec![0; 12]), (b"IEND", vec![])]))));
    // an unknown chunk type in between
    assert!(!PNGData::accepts(&parse(file(&[
        (b"IHDR", ihdr_data(1, 1, 0)),
        (b"sRGB", vec![0]),
        (b"IEND", vec![]),
    ]))));
    // a background chunk too short for its color type
    assert!(!PNGData::accepts(&parse(file(&[
        (b"IHDR", ihdr_data(1, 1, 2)),
        (b"bKGD", vec![0, 1]),
        (b"IEND", vec![]),
    ]))));
    // a background chunk under a color type with no layout
    assert!(!PNGData::accepts(&parse(file(&[
        (b"IHDR", ihdr_data(1, 1, 5)),
        (b"bKGD", vec![0, 1, 2, 3, 4, 5]),
        (b"IEND", vec![]),
    ]))));
    // a histogram with an odd number of octets
    assert!(!PNGData::accepts(&parse(file(&[
        (b"IHDR", ihdr_data(1, 1, 3)),
        (b"hIST", vec![0, 1, 2]),
        (b"IEND", vec![]),
    ]))));
    // compressed text is taken even when malformed, since it is never decoded
    assert!(PNGData::accepts(&parse(file(&[
        (b"IHDR", ihdr_data(1, 1, 3)),
        (b"zTXT", vec![1, 2]),
        (b"IEND", vec![]),
    ]))));
}

#[test]
fn idat_stats_with_a_smallest_last_chunk() {
    let chunks = parse(file(&[
        (b"IHDR", ihdr_data(1, 1, 0)),
        (b"IDAT", vec![0; 4]),
        (b"IDAT", vec![0; 4]),
        (b"IDAT", vec![0; 1]),
        (b"IEND", vec![]),
    ]));
    let png = PNGData::new(chunks);
    let s = png.idat_size_stats();
    assert_eq!(s.len, 3);
    assert_eq!(s.max, 4);
    assert_eq!(s.min, 1);
    assert!(s.min_is_last);
    assert_eq!(s.unique, vec![4, 1]);
}

#[test]
fn color_type_sizes() {
    for (ct, size) in [(0u8, 1usize), (2, 3), (3, 1), (4, 2), (6, 4)] {
        let png = PNGData::new(parse(file(&[(b"IHDR", ihdr_data(1, 1, ct)), (b"IEND", vec![])])));
        assert_eq!(png.color_type_size(), size);
    }
}

#[test]
fn zlib_splits_the_stream() {
    let z = ZLib::from_stream(ByteStream::new(vec![0x78, 0x9c, 1, 2, 3, 0xa1, 0xb2, 0xc3, 0xd4]));
    assert_eq!(z.compression_method(), 0x78);
    assert_eq!(z.check_bits(), 0x9c);
    assert_eq!(z.compressed_data(), &[1, 2, 3]);
    // the last four octets are taken from the back and shifted in, the very
    // last one ending up shifted out
    assert_eq!(z.check_value(), 0xc3b2a100);
    assert_eq!(z.crc(), [0xc3, 0xb2, 0xa1, 0x00]);
}

#[test]
fn zlib_minimal_stream() {
    let z = ZLib::from_stream(ByteStream::new(vec![8, 29, 0, 0, 0, 1]));
    assert!(z.compressed_data().is_empty());
    assert_eq!(z.check_value(), 0);
    assert_eq!(z.crc(), [0, 0, 0, 0]);
}

#[test]
fn chunks_read_back_give_the_file() {
    let bytes = file(&[
        (b"IHDR", ihdr_data(3, 1, 0)),
        (b"gAMA", 45455u32.to_be_bytes().to_vec()),
        (b"IDAT", vec![5, 6, 7]),
        (b"IEND", vec![]),
    ]);
    let chunks = parse(bytes.clone());
    let mut again = SIG.to_vec();
    for c in chunks.chunks() {
        assert_eq!(c.len(), c.data().len());
        again.extend_from_slice(&c.len_octets());
        again.extend_from_slice(&c.ty());
        again.extend_from_slice(c.data());
        again.extend_from_slice(&c.crc());
    }
    assert_eq!(again, bytes);
}

#[test]
fn property_bits_are_complementary() {
    for b in 0..=255u8 {
        let c = chunk(&[b, b, b, b], &[]);
        assert_ne!(c.is_critical(), c.is_ancilary());
        assert_ne!(c.is_public(), c.is_private());
        assert_ne!(c.is_safe_to_copy(), c.is_unsafe_to_copy());
    }
}

#[test]
fn crc_octets_read_back_to_the_check_value() {
    let z = ZLib::from_stream(ByteStream::new(vec![1, 2, 0xfe, 0xdc, 0xba, 0x98]));
    assert_eq!(u32::from_be_bytes(z.crc()), z.check_value());
    assert_eq!(z.check_value(), 0xbadcfe00);
}

#[test]
fn image_stream_follows_file_order_across_other_chunks() {
    let chunks = parse(file(&[
        (b"IHDR", ihdr_data(1, 1, 0)),
        (b"IDAT", vec![1]),
        (b"gAMA", vec![0, 0, 0, 1]),
        (b"IDAT", vec![2, 3]),
        (b"tIME", vec![0, 1, 2, 3, 4, 5, 6]),
        (b"IDAT", vec![]),
        (b"IDAT", vec![4]),
        (b"IEND", vec![]),
    ]));
    let mut png = PNGData::new(chunks);
    assert_eq!(png.gama().as_ref().unwrap().image_gamma_raw(), 1);
    assert_eq!(png.concat().collect(), vec![1, 2, 3, 4]);
}

#[test]
fn idat_stats_text() {
    let png = PNGData::new(parse(file(&[
        (b"IHDR", ihdr_data(1, 1, 0)),
        (b"IDAT", vec![0; 5]),
        (b"IDAT", vec![0; 5]),
        (b"IDAT", vec![0; 3]),
        (b"IEND", vec![]),
    ])));
    assert_eq!(png.idat_stats(), "\n   len: 3,\n   max: 5\n   min(last): 3\n   unq: [5, 3]\n");
    let png = PNGData::new(parse(file(&[
        (b"IHDR", ihdr_data(1, 1, 0)),
        (b"IDAT", vec![0; 2]),
        (b"IDAT", vec![0; 12]),
        (b"IDAT", vec![0; 2]),
        (b"IDAT", vec![0; 7]),
        (b"IEND", vec![]),
    ])));
    assert_eq!(png.idat_stats(), "\n   len: 4,\n   max: 12\n   min: 2\n   unq: [2, 12, 2, 7]\n");
    let png = PNGData::new(parse(file(&[
        (b"IHDR", ihdr_data(1, 1, 0)),
        (b"IDAT", vec![]),
        (b"IEND", vec![]),
    ])));
    assert_eq!(png.idat_stats(), "\n   len: 1,\n   max: 0\n   min(last): 0\n   unq: [0]\n");
}
