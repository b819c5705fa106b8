use nights_into_bins::texture::palette::Palette;
use nights_into_bins::texture::texture_format::TextureFormat;
use nights_into_bins::texture::Color;
use nights_into_bins::vec::Vec2;

fn format(w: u32, h: u32, depth: u8, bits: u8, location: u32) -> TextureFormat {
    TextureFormat { size: Vec2 { x: w, y: h }, color_depth: depth, pixel_encoding: bits, location }
}

#[test]
fn unscramble_8bit_identity_palette() {
    // 32-bit entries whose red channel is their stored slot
    let tf = format(16, 16, 32, 8, 0);
    let mut data = vec![0u8; 256];
    for i in 0..256usize {
        data.extend_from_slice(&[i as u8, 0, 0, 127]);
    }
    let p = Palette::read_from_bin(&data, tf);
    assert_eq!(p.0.len(), 256);
    for i in 0..8 {
        assert_eq!(p.0[i].r as usize, i);
    }
    for i in 8..16 {
        assert_eq!(p.0[i].r as usize, i + 8);
        assert_eq!(p.0[i + 8].r as usize, i);
    }
    for block in (8..256).step_by(32) {
        for i in block..block + 8 {
            assert_eq!(p.0[i].r as usize, i + 8);
            assert_eq!(p.0[i + 8].r as usize, i);
        }
    }
    for i in 24..40 {
        assert_eq!(p.0[i].r as usize, i);
    }
    assert_eq!(p.0[255].r, 255);
}

#[test]
fn four_bit_palette_is_not_scrambled() {
    let tf = format(4, 4, 32, 4, 0);
    let mut data = vec![0u8; 8];
    for i in 0..16u8 {
        data.extend_from_slice(&[i, 1, 2, 127]);
    }
    let p = Palette::read_from_bin(&data, tf);
    assert_eq!(p.0.len(), 16);
    for i in 0..16 {
        assert_eq!(p.0[i], Color { r: i as u8, g: 1, b: 2, a: 255 });
    }
}

#[test]
fn sixteen_bit_entries() {
    let tf = format(2, 2, 16, 4, 0);
    let mut data = vec![0u8; 2];
    // red 31, green 0, blue 0, alpha bit set
    data.extend_from_slice(&0x801Fu16.to_le_bytes());
    // red 1, green 2, blue 3, alpha bit clear
    data.extend_from_slice(&(1u16 | 2 << 5 | 3 << 10).to_le_bytes());
    let p = Palette::read_from_bin(&data, tf);
    assert_eq!(p.0[0], Color { r: 255, g: 0, b: 0, a: 255 });
    assert_eq!(p.0[1], Color { r: 8, g: 16, b: 25, a: 0 });
    // past the end everything reads as zero
    assert_eq!(p.0[2], Color { r: 0, g: 0, b: 0, a: 0 });
}

#[test]
fn thirty_two_bit_alpha_scale() {
    let tf = format(2, 2, 32, 4, 0);
    let mut data = vec![0u8; 2];
    data.extend_from_slice(&[1, 2, 3, 127]);
    data.extend_from_slice(&[1, 2, 3, 64]);
    data.extend_from_slice(&[1, 2, 3, 255]);
    let p = Palette::read_from_bin(&data, tf);
    assert_eq!(p.0[0].a, 255);
    assert_eq!(p.0[1].a, 129);
    assert_eq!(p.0[2].a, 255);
}

#[test]
fn write_then_read_32_bit() {
    let tf = format(16, 16, 32, 8, 0x40);
    let colors: Vec<Color> = (0..256)
        .map(|i| Color { r: i as u8, g: (255 - i) as u8, b: (i * 7) as u8, a: (i * 3) as u8 })
        .collect();
    let p = Palette(colors.clone());
    let mut data = vec![0xAAu8; 0x40];
    p.write_to_bin(&mut data, tf);
    assert_eq!(data.len(), 0x40 + 256 + 1024);
    assert_eq!(data[0x3F], 0xAA);
    assert_eq!(&data[0x40..0x140], &[0u8; 256][..]);
    let back = Palette::read_from_bin(&data, tf);
    for i in 0..256 {
        let (a, b) = (back.0[i], colors[i]);
        assert_eq!((a.r, a.g, a.b), (b.r, b.g, b.b));
        assert!((a.a as i32 - b.a as i32).abs() <= 1);
    }
}

#[test]
fn write_then_read_16_bit() {
    let tf = format(4, 4, 16, 4, 0);
    let colors: Vec<Color> = (0..16)
        .map(|i| Color { r: (i * 17) as u8, g: (i * 13) as u8, b: (255 - i * 9) as u8, a: if i % 2 == 0 { 255 } else { 10 } })
        .collect();
    let p = Palette(colors.clone());
    let mut data = Vec::new();
    p.write_to_bin(&mut data, tf);
    assert_eq!(data.len(), 8 + 32);
    let back = Palette::read_from_bin(&data, tf);
    for i in 0..16 {
        let (a, b) = (back.0[i], colors[i]);
        assert!((a.r as i32 - b.r as i32).abs() <= 4);
        assert!((a.g as i32 - b.g as i32).abs() <= 4);
        assert!((a.b as i32 - b.b as i32).abs() <= 4);
        assert_eq!(a.a, if i % 2 == 0 { 255 } else { 0 });
    }
}

#[test]
fn sixteen_bit_encoding_bytes() {
    let tf = format(2, 2, 16, 4, 0);
    let mut colors = vec![Color { r: 0, g: 0, b: 0, a: 0 }; 16];
    colors[0] = Color { r: 255, g: 0, b: 0, a: 255 };
    colors[1] = Color { r: 0, g: 255, b: 255, a: 0 };
    let mut data = Vec::new();
    Palette(colors).write_to_bin(&mut data, tf);
    assert_eq!(&data[2..4], &0x801Fu16.to_le_bytes());
    assert_eq!(&data[4..6], &0x7FE0u16.to_le_bytes());
}
