use rustracer::color::Color;
use rustracer::error::HdrImageErr;
use rustracer::hdrimage::HdrImage;
use rustracer::misc::ByteOrder;
use rustracer::pfm::{check_eol, parse_endianness, parse_img_shape};

fn col(r: f32, g: f32, b: f32) -> Color {
    Color {
        r: r.to_bits(),
        g: g.to_bits(),
        b: b.to_bits(),
    }
}

fn reference_image() -> HdrImage {
    let mut hdr_img = HdrImage::new(3, 2);
    hdr_img.set_pixel(0, 0, col(1.0e1, 2.0e1, 3.0e1)).unwrap();
    hdr_img.set_pixel(1, 0, col(4.0e1, 5.0e1, 6.0e1)).unwrap();
    hdr_img.set_pixel(2, 0, col(7.0e1, 8.0e1, 9.0e1)).unwrap();
    hdr_img.set_pixel(0, 1, col(1.0e2, 2.0e2, 3.0e2)).unwrap();
    hdr_img.set_pixel(1, 1, col(4.0e2, 5.0e2, 6.0e2)).unwrap();
    hdr_img.set_pixel(2, 1, col(7.0e2, 8.0e2, 9.0e2)).unwrap();
    hdr_img
}

fn reference_bytes_be() -> Vec<u8> {
    vec![
        0x50, 0x46, 0x0a, 0x33, 0x20, 0x32, 0x0a, 0x31, 0x2e, 0x30, 0x0a, 0x42, 0xc8, 0x00, 0x00,
        0x43, 0x48, 0x00, 0x00, 0x43, 0x96, 0x00, 0x00, 0x43, 0xc8, 0x00, 0x00, 0x43, 0xfa, 0x00,
        0x00, 0x44, 0x16, 0x00, 0x00, 0x44, 0x2f, 0x00, 0x00, 0x44, 0x48, 0x00, 0x00, 0x44, 0x61,
        0x00, 0x00, 0x41, 0x20, 0x00, 0x00, 0x41, 0xa0, 0x00, 0x00, 0x41, 0xf0, 0x00, 0x00, 0x42,
        0x20, 0x00, 0x00, 0x42, 0x48, 0x00, 0x00, 0x42, 0x70, 0x00, 0x00, 0x42, 0x8c, 0x00, 0x00,
        0x42, 0xa0, 0x00, 0x00, 0x42, 0xb4, 0x00, 0x00,
    ]
}

fn reference_bytes_le() -> Vec<u8> {
    vec![
        0x50, 0x46, 0x0a, 0x33, 0x20, 0x32, 0x0a, 0x2d, 0x31, 0x2e, 0x30, 0x0a, 0x00, 0x00, 0xc8,
        0x42, 0x00, 0x00, 0x48, 0x43, 0x00, 0x00, 0x96, 0x43, 0x00, 0x00, 0xc8, 0x43, 0x00, 0x00,
        0xfa, 0x43, 0x00, 0x00, 0x16, 0x44, 0x00, 0x00, 0x2f, 0x44, 0x00, 0x00, 0x48, 0x44, 0x00,
        0x00, 0x61, 0x44, 0x00, 0x00, 0x20, 0x41, 0x00, 0x00, 0xa0, 0x41, 0x00, 0x00, 0xf0, 0x41,
        0x00, 0x00, 0x20, 0x42, 0x00, 0x00, 0x48, 0x42, 0x00, 0x00, 0x70, 0x42, 0x00, 0x00, 0x8c,
        0x42, 0x00, 0x00, 0xa0, 0x42, 0x00, 0x00, 0xb4, 0x42,
    ]
}

#[test]
fn test_check_eol() {
    assert!(matches!(check_eol(true), Ok(())));
    assert!(matches!(
        check_eol(false),
        Err(HdrImageErr::InvalidPfmFileFormat(msg))
            if msg.as_str() == "expected eol as separator inside header"
    ));
}

#[test]
fn test_parse_img_shape() {
    let mut line = "10 20";

    assert!(matches!(parse_img_shape(line), Ok((10, 20))));
    line = " 10    20  ";
    assert!(matches!(parse_img_shape(line), Ok((10, 20))));
    line = "10 20 30";
    assert!(matches!(
        parse_img_shape(line),
        Err(HdrImageErr::InvalidPfmFileFormat(_))
    ));
    line = "10 ";
    assert!(matches!(
        parse_img_shape(line),
        Err(HdrImageErr::InvalidPfmFileFormat(_))
    ));
    line = "102030";
    assert!(matches!(
        parse_img_shape(line),
        Err(HdrImageErr::InvalidPfmFileFormat(_))
    ));
    line = "10 20.1";
    assert!(matches!(
        parse_img_shape(line),
        Err(HdrImageErr::PfmIntParseFailure(msg)) if msg.as_str() == "image height"
    ));
    line = "-10 20";
    assert!(matches!(
        parse_img_shape(line),
        Err(HdrImageErr::PfmIntParseFailure(msg)) if msg.as_str() == "image width"
    ));
    line = "abc 20";
    assert!(matches!(
        parse_img_shape(line),
        Err(HdrImageErr::PfmIntParseFailure(msg)) if msg.as_str() == "image width"
    ))
}

#[test]
fn test_parse_img_shape_overflow() {
    assert!(matches!(
        parse_img_shape("4294967295 1"),
        Ok((4294967295, 1))
    ));
    assert!(matches!(
        parse_img_shape("4294967296 1"),
        Err(HdrImageErr::PfmIntParseFailure(msg)) if msg.as_str() == "image width"
    ));
    assert!(matches!(parse_img_shape("+10 +20"), Ok((10, 20))));
}

#[test]
fn test_parse_endianness() {
    let mut line = "-3.2";

    assert!(matches!(
        parse_endianness(line),
        Ok(ByteOrder::LittleEndian)
    ));
    line = "1e15";
    assert!(matches!(parse_endianness(line), Ok(ByteOrder::BigEndian)));
    line = "0";
    assert!(matches!(
        parse_endianness(line),
        Err(HdrImageErr::InvalidPfmFileFormat(_))
    ));
    line = "abc";
    assert!(matches!(
        parse_endianness(line),
        Err(HdrImageErr::PfmFloatParseFailure(_))
    ));
}

#[test]
fn test_parse_endianness_keywords() {
    assert!(matches!(
        parse_endianness("-inf"),
        Ok(ByteOrder::LittleEndian)
    ));
    assert!(matches!(
        parse_endianness("Infinity"),
        Ok(ByteOrder::BigEndian)
    ));
    assert!(matches!(
        parse_endianness("NaN"),
        Err(HdrImageErr::InvalidPfmFileFormat(msg))
            if msg.as_str() == "invalid endianness inside header"
    ));
    assert!(matches!(
        parse_endianness("-0.000"),
        Err(HdrImageErr::InvalidPfmFileFormat(_))
    ));
    assert!(matches!(
        parse_endianness("1.0.0"),
        Err(HdrImageErr::PfmFloatParseFailure(msg)) if msg.as_str() == "endianness"
    ));
    assert!(matches!(
        parse_endianness(""),
        Err(HdrImageErr::PfmFloatParseFailure(_))
    ));
}

#[test]
fn test_parse_endianness_tiny_magnitude() {
    // A nonzero numeral keeps its sign even when float arithmetic would
    // round its value to zero.
    assert!(matches!(
        parse_endianness("1e-100"),
        Ok(ByteOrder::BigEndian)
    ));
    assert!(matches!(
        parse_endianness("-1e-100"),
        Ok(ByteOrder::LittleEndian)
    ));
    assert!(matches!(
        parse_endianness("0e99"),
        Err(HdrImageErr::InvalidPfmFileFormat(_))
    ));
}

#[test]
fn test_read_pfm_image() {
    let hdr_img = reference_image();

    let hdr_img_result = HdrImage::read_pfm_image(&reference_bytes_be());
    assert!(matches!(hdr_img_result, Ok(ref img) if img == &hdr_img));
    assert_eq!(&hdr_img_result.unwrap(), &hdr_img);

    let mut reference_bytes_le = reference_bytes_le();
    let hdr_img_result = HdrImage::read_pfm_image(&reference_bytes_le);
    assert!(matches!(hdr_img_result, Ok(ref img) if img == &hdr_img));
    assert_eq!(&hdr_img_result.unwrap(), &hdr_img);

    let wrong_magic = vec![0x46, 0x50, 0x0a];
    let wrong_st = vec![0xff, 0xff, 0x0a];
    let no_st_eol = vec![0x50, 0x46];
    let wrong_nd = vec![0x50, 0x46, 0x0a, 0xff, 0xff, 0x0a];
    let no_rd_eol = vec![
        0x50, 0x46, 0x0a, 0x33, 0x20, 0x32, 0x0a, 0x2d, 0x31, 0x2e, 0x30,
    ];

    let hdr_img_result = HdrImage::read_pfm_image(&wrong_magic);
    assert!(matches!(
        hdr_img_result,
        Err(HdrImageErr::InvalidPfmFileFormat(msg)) if msg.as_str() == "wrong magic inside header"
    ));

    let hdr_img_result = HdrImage::read_pfm_image(&wrong_st);
    assert!(matches!(
        hdr_img_result,
        Err(HdrImageErr::PfmFileReadFailure(_))
    ));

    let hdr_img_result = HdrImage::read_pfm_image(&no_st_eol);
    assert!(matches!(
        hdr_img_result,
        Err(HdrImageErr::InvalidPfmFileFormat(msg))
            if msg.as_str() == "expected eol as separator inside header"
    ));

    let hdr_img_result = HdrImage::read_pfm_image(&wrong_nd);
    assert!(matches!(
        hdr_img_result,
        Err(HdrImageErr::PfmFileReadFailure(_))
    ));

    let hdr_img_result = HdrImage::read_pfm_image(&no_rd_eol);
    assert!(matches!(
        hdr_img_result,
        Err(HdrImageErr::InvalidPfmFileFormat(msg))
            if msg.as_str() == "expected eol as separator inside header"
    ));

    reference_bytes_le.push(0x00);
    let hdr_img_result = HdrImage::read_pfm_image(&reference_bytes_le);
    assert!(matches!(
        hdr_img_result,
        Err(HdrImageErr::InvalidPfmFileFormat(msg))
            if msg.as_str() == "find binary content, expected eof"
    ));

    let len = reference_bytes_le.len();
    reference_bytes_le.truncate(len - 2);
    let hdr_img_result = HdrImage::read_pfm_image(&reference_bytes_le);
    assert!(matches!(
        hdr_img_result,
        Err(HdrImageErr::PfmFileReadFailure(_))
    ));
}

#[test]
fn test_read_pfm_image_trailing_whitespace() {
    // Header fields may carry trailing whitespace before their newline.
    let mut bytes = b"PF 	
3 2 
1.0 
".to_vec();
    bytes.extend_from_slice(&reference_bytes_be()[11..]);
    let hdr_img_result = HdrImage::read_pfm_image(&bytes);
    assert!(matches!(hdr_img_result, Ok(ref img) if img == &reference_image()));
}

#[test]
fn test_read_pfm_image_empty_input() {
    let hdr_img_result = HdrImage::read_pfm_image(&[]);
    assert!(matches!(
        hdr_img_result,
        Err(HdrImageErr::InvalidPfmFileFormat(msg))
            if msg.as_str() == "expected eol as separator inside header"
    ));
}

#[test]
fn test_write_pfm_image() {
    let hdr_img = reference_image();

    let stream = hdr_img.write_pfm_image(ByteOrder::BigEndian);
    assert_eq!(reference_bytes_be(), stream);

    let stream = hdr_img.write_pfm_image(ByteOrder::LittleEndian);
    assert_eq!(reference_bytes_le(), stream);

    let hdr_img_result = HdrImage::read_pfm_image(&stream);
    assert!(matches!(hdr_img_result, Ok(ref img) if img == &hdr_img));
    assert_eq!(hdr_img_result.unwrap(), hdr_img);
}

#[test]
fn test_pfm_round_trip_both_orders() {
    let mut hdr_img = HdrImage::new(2, 2);
    hdr_img.set_pixel(0, 0, col(0.5, -1.5, 3.25)).unwrap();
    hdr_img.set_pixel(1, 0, col(f32::INFINITY, 0.0, -0.0)).unwrap();
    hdr_img.set_pixel(0, 1, col(1e-40, 1e38, -7.0)).unwrap();
    hdr_img.set_pixel(1, 1, col(0.1, 0.2, 0.3)).unwrap();

    for order in [ByteOrder::BigEndian, ByteOrder::LittleEndian] {
        let bytes = hdr_img.write_pfm_image(order);
        let read_back = HdrImage::read_pfm_image(&bytes).unwrap();
        assert_eq!(read_back, hdr_img);
    }
}

#[test]
fn test_pfm_empty_image_round_trip() {
    let hdr_img = HdrImage::new(0, 5);
    let bytes = hdr_img.write_pfm_image(ByteOrder::LittleEndian);
    assert_eq!(&bytes[..], b"PF\n0 5\n-1.0\n");
    let read_back = HdrImage::read_pfm_image(&bytes).unwrap();
    assert_eq!(read_back, hdr_img);
}

#[test]
fn test_read_pfm_image_huge_shape_rejected() {
    let bytes = b"PF\n100000 100000\n-1.0\n".to_vec();
    assert!(matches!(
        HdrImage::read_pfm_image(&bytes),
        Err(HdrImageErr::InvalidPfmFileFormat(msg))
            if msg.as_str() == "wrong image shape inside header"
    ));
}
