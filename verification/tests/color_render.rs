use cosmic_text::color::Color;
use cosmic_text::render::{
    color_blend_alpha, convert_u16_to_rgba8, convert_u8_to_rgba8, premultiply_u8,
    rgba8_to_color_bitmap, ColorSpace, Rgba8,
};

#[test]
fn color_packing() {
    let c = Color::rgba(0x12, 0x34, 0x56, 0x78);
    assert_eq!(c.0, 0x78123456);
    assert_eq!((c.r(), c.g(), c.b(), c.a()), (0x12, 0x34, 0x56, 0x78));
    let c = Color::rgb(1, 2, 3);
    assert_eq!(c.0, 0xFF010203);
    assert_eq!(c.a(), 0xFF);
    let c = Color(0xAABBCCDD);
    assert_eq!(Color::rgba(c.r(), c.g(), c.b(), c.a()), c);
}

#[test]
fn premultiplication() {
    assert_eq!(premultiply_u8(255, 255), 255);
    assert_eq!(premultiply_u8(200, 0), 0);
    assert_eq!(premultiply_u8(200, 255), 200);
    assert_eq!(premultiply_u8(255, 128), 128);
    assert_eq!(premultiply_u8(100, 100), 39);
    for c in 0..=255u8 {
        for a in 0..=255u8 {
            let exact = (c as u32 * a as u32 + 127) / 255;
            assert_eq!(premultiply_u8(c, a) as u32, exact);
        }
    }
}

#[test]
fn blending_scales_alpha_only() {
    let c = Color::rgba(10, 20, 30, 200);
    let b = color_blend_alpha(c, 128);
    assert_eq!((b.r(), b.g(), b.b()), (10, 20, 30));
    assert_eq!(b.a(), premultiply_u8(200, 128));
    assert_eq!(color_blend_alpha(c, 0).a(), 0);
}

fn px(r: u8, g: u8, b: u8, a: u8) -> Rgba8 {
    Rgba8 { r, g, b, a }
}

#[test]
fn eight_bit_conversion() {
    let mut data = vec![1, 2, 3, 4, 5, 6, 7, 8, 9];
    assert_eq!(
        convert_u8_to_rgba8(&mut data, ColorSpace::RGBA).unwrap(),
        vec![px(1, 2, 3, 4), px(5, 6, 7, 8)]
    );
    assert_eq!(
        convert_u8_to_rgba8(&mut data, ColorSpace::RGB).unwrap(),
        vec![px(1, 2, 3, 255), px(4, 5, 6, 255), px(7, 8, 9, 255)]
    );
    assert_eq!(
        convert_u8_to_rgba8(&mut data, ColorSpace::BGR).unwrap(),
        vec![px(3, 2, 1, 255), px(6, 5, 4, 255), px(9, 8, 7, 255)]
    );
    assert_eq!(convert_u8_to_rgba8(&mut data, ColorSpace::Luma).unwrap().len(), 9);
    assert_eq!(
        convert_u8_to_rgba8(&mut data, ColorSpace::LumaA).unwrap(),
        vec![px(1, 1, 1, 2), px(3, 3, 3, 4), px(5, 5, 5, 6), px(7, 7, 7, 8)]
    );
    assert_eq!(convert_u8_to_rgba8(&mut data, ColorSpace::Other), None);
    assert_eq!(data, vec![1, 2, 3, 4, 5, 6, 7, 8, 9]);
    // BGRA is swapped in place.
    assert_eq!(
        convert_u8_to_rgba8(&mut data, ColorSpace::BGRA).unwrap(),
        vec![px(3, 2, 1, 4), px(7, 6, 5, 8)]
    );
    assert_eq!(data, vec![3, 2, 1, 4, 7, 6, 5, 8, 9]);
}

#[test]
fn sixteen_bit_conversion() {
    let data = [0u16, 0x7F, 0x80, 0xFF7F, 0x1234, 0x8000];
    assert_eq!(
        convert_u16_to_rgba8(&data, ColorSpace::Luma).unwrap(),
        vec![
            px(0, 0, 0, 0xff),
            px(0, 0, 0, 0xff),
            px(1, 1, 1, 0xff),
            px(0xFF, 0xFF, 0xFF, 0xff),
            px(0x12, 0x12, 0x12, 0xff),
            px(0x80, 0x80, 0x80, 0xff)
        ]
    );
    assert_eq!(
        convert_u16_to_rgba8(&data, ColorSpace::BGRA).unwrap(),
        vec![px(1, 0, 0, 0xFF)]
    );
    assert_eq!(
        convert_u16_to_rgba8(&data, ColorSpace::RGB).unwrap(),
        vec![px(0, 0, 1, 0xff), px(0xFF, 0x12, 0x80, 0xff)]
    );
    assert_eq!(
        convert_u16_to_rgba8(&data, ColorSpace::LumaA).unwrap(),
        vec![px(0, 0, 0, 0), px(1, 1, 1, 0xFF), px(0x12, 0x12, 0x12, 0x80)]
    );
    assert_eq!(convert_u16_to_rgba8(&data, ColorSpace::Other), None);
    // a trailing value that makes no whole pixel is not converted
    assert_eq!(
        convert_u16_to_rgba8(&[0x80, 0x80, 0x80, 0x80, 0xFFFF], ColorSpace::RGBA).unwrap(),
        vec![px(1, 1, 1, 1)]
    );
}

#[test]
fn bitmap_packing() {
    let colors = rgba8_to_color_bitmap(&[px(1, 2, 3, 4), px(255, 0, 0, 255)]);
    assert_eq!(colors, vec![Color(0x04010203), Color(0xFFFF0000)]);
}
