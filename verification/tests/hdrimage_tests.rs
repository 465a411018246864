use rustracer::color::{checkered_select, Color};
use rustracer::error::HdrImageErr;
use rustracer::hdrimage::HdrImage;

fn col(r: f32, g: f32, b: f32) -> Color {
    Color {
        r: r.to_bits(),
        g: g.to_bits(),
        b: b.to_bits(),
    }
}

#[test]
fn test_image_creation() {
    let hdr_img = HdrImage::new(5, 7);

    assert_eq!(hdr_img.shape().0, 5);
    assert_eq!(hdr_img.shape().1, 7)
}

#[test]
fn test_validate_coordinates() {
    let hdr_img = HdrImage::new(5, 7);

    assert!(hdr_img.valid_coordinates(0, 0));
    assert!(hdr_img.valid_coordinates(4, 3));
    assert!(!hdr_img.valid_coordinates(7, 0));
    assert!(!hdr_img.valid_coordinates(0, 9));
    assert!(!hdr_img.valid_coordinates(7, 9))
}

#[test]
fn test_pixel_offset() {
    let hdr_img = HdrImage::new(7, 4);

    assert_eq!(hdr_img.pixel_offset(0, 0), 0);
    assert_eq!(hdr_img.pixel_offset(3, 2), 17);
    assert_eq!(hdr_img.pixel_offset(6, 3), 7 * 4 - 1)
}

#[test]
fn test_get_pixel() {
    let color = Color::default();

    assert!(matches!(HdrImage::new(3, 3).get_pixel(0, 0), Ok(c) if c == color));
    assert!(matches!(HdrImage::new(3, 3).get_pixel(3, 3),
        Err(HdrImageErr::OutOfBounds(a, b)) if a == (3, 3) && b == (3, 3)))
}

#[test]
fn test_set_pixels() {
    let color1 = col(1.0, 1.0, 1.0);
    let color2 = col(1.23, 4.56, 7.89);
    let white = col(1.0, 1.0, 1.0);

    let mut hdr_img = HdrImage::new(3, 3);
    assert!(matches!(hdr_img.set_pixel(0, 0, color1), Ok(())));
    assert!(matches!(hdr_img.set_pixel(2, 2, color2), Ok(())));
    assert!(matches!(hdr_img.get_pixel(0, 0), Ok(c1) if c1 == color1));
    assert_eq!(hdr_img.get_pixel(2, 2).unwrap(), color2);
    assert!(matches!(hdr_img.set_pixel(5, 5, color1),
        Err(HdrImageErr::OutOfBounds(a, b)) if a == (5, 5) && b == (3, 3)));
    assert!(matches!(hdr_img.set_pixels(vec![white; 9]), Ok(())));
    assert_eq!(hdr_img.get_pixel(2, 2).unwrap(), white);
    assert!(matches!(
        hdr_img.set_pixels(vec![Color::default(); 11]),
        Err(HdrImageErr::InvalidPixelsSize(a, b)) if a == 11 && b == 9))
}

#[test]
fn test_new_image_is_black() {
    let hdr_img = HdrImage::new(2, 2);
    for y in 0..2 {
        for x in 0..2 {
            let pixel = hdr_img.get_pixel(x, y).unwrap();
            assert_eq!(pixel, col(0.0, 0.0, 0.0));
        }
    }
}

#[test]
fn test_texel_clamps_to_border() {
    let mut hdr_img = HdrImage::new(3, 2);
    hdr_img.set_pixel(2, 1, col(7.0, 8.0, 9.0)).unwrap();
    hdr_img.set_pixel(0, 0, col(1.0, 2.0, 3.0)).unwrap();

    assert_eq!(hdr_img.texel(0, 0), col(1.0, 2.0, 3.0));
    assert_eq!(hdr_img.texel(2, 1), col(7.0, 8.0, 9.0));
    assert_eq!(hdr_img.texel(100, 100), col(7.0, 8.0, 9.0));
    assert_eq!(hdr_img.texel(2, 500), col(7.0, 8.0, 9.0));
}

#[test]
fn test_checkered_select() {
    let c1 = col(1.0, 0.0, 0.0);
    let c2 = col(0.0, 0.0, 1.0);

    assert_eq!(checkered_select(c1, c2, 0, 0), c1);
    assert_eq!(checkered_select(c1, c2, 1, 1), c1);
    assert_eq!(checkered_select(c1, c2, 0, 1), c2);
    assert_eq!(checkered_select(c1, c2, 3, 2), c2);
    assert_eq!(checkered_select(c1, c2, 2, 2), c1);
}
