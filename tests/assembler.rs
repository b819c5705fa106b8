use nights_into_bins::grid::Grid;
use nights_into_bins::texture::palette::Palette;
use nights_into_bins::texture::palette_texture::PaletteTexture;
use nights_into_bins::texture::test::{palette, texture, Test};
use nights_into_bins::texture::texture_format::TextureFormat;
use nights_into_bins::texture::{Color, Texture, TextureError};
use nights_into_bins::vec::Vec2;

fn format(w: u32, h: u32, depth: u8, bits: u8, location: u32) -> TextureFormat {
    TextureFormat { size: Vec2 { x: w, y: h }, color_depth: depth, pixel_encoding: bits, location }
}

fn gray(v: u8) -> Color {
    Color { r: v, g: v, b: v, a: 255 }
}

fn image(colors: &[Color], w: usize) -> Texture {
    let h = colors.len() / w;
    Texture(Grid::from_row_major(&colors.to_vec(), w, h))
}

#[test]
fn quantize_then_assemble_gives_image_back() {
    let colors: Vec<Color> = (0..64).map(|i| gray((i % 10) as u8 * 20)).collect();
    let img = image(&colors, 8);
    let (p, t) = img.to_palette_and_palette_texture(format(8, 8, 32, 4, 0)).ok().unwrap();
    assert_eq!(p.0.len(), 16);
    let back = Texture::from_palette_and_palette_texture(&p, &t);
    assert_eq!(back.0.rows, img.0.rows);
}

#[test]
fn indices_follow_first_occurrence() {
    let colors = vec![gray(9), gray(5), gray(9), gray(7)];
    let img = image(&colors, 2);
    let (p, t) = img.to_palette_and_palette_texture(format(2, 2, 32, 4, 0)).ok().unwrap();
    assert_eq!(t.0.rows, vec![vec![0, 1], vec![0, 2]]);
    assert_eq!(&p.0[..3], &[gray(9), gray(5), gray(7)]);
    assert_eq!(p.0[3], Color::default());
    assert_eq!(p.0[15], Color { r: 0, g: 0, b: 0, a: 0 });
}

#[test]
fn exactly_sixteen_colors_fit() {
    let colors: Vec<Color> = (0..16).map(|i| gray(i as u8)).collect();
    let img = image(&colors, 4);
    assert!(img.to_palette_and_palette_texture(format(4, 4, 32, 4, 0)).is_ok());
}

#[test]
fn seventeen_colors_do_not_fit() {
    let mut colors: Vec<Color> = (0..17).map(|i| gray(i as u8)).collect();
    colors.extend((0..3).map(|_| gray(0)));
    let img = image(&colors, 4);
    assert!(matches!(
        img.to_palette_and_palette_texture(format(4, 5, 32, 4, 0)),
        Err(TextureError::TooManyColors)
    ));
}

#[test]
fn exactly_256_colors_fit_257_do_not() {
    let colors: Vec<Color> = (0..256).map(|i| Color { r: i as u8, g: 0, b: 0, a: 255 }).collect();
    assert!(image(&colors, 16).to_palette_and_palette_texture(format(16, 16, 32, 8, 0)).is_ok());
    let mut more = colors.clone();
    more.push(gray(3));
    more.extend((0..15).map(|_| gray(0)));
    assert!(matches!(
        image(&more, 16).to_palette_and_palette_texture(format(16, 17, 32, 8, 0)),
        Err(TextureError::TooManyColors)
    ));
}

#[test]
fn assemble_looks_up_palette() {
    let p = Palette(vec![gray(1), gray(2), gray(3)]);
    let t = PaletteTexture(Grid::from_row_major(&vec![2u16, 0, 1, 1], 2, 2));
    let img = Texture::from_palette_and_palette_texture(&p, &t);
    assert_eq!(img.0.rows, vec![vec![gray(3), gray(1)], vec![gray(2), gray(2)]]);
}

#[test]
fn texture_round_trip_through_container() {
    let tf = format(16, 16, 32, 8, 0x100);
    let colors: Vec<Color> = (0..256).map(|i| Color { r: (i % 50) as u8, g: 7, b: (i / 50) as u8, a: 255 }).collect();
    let img = image(&colors, 16);
    let mut data = vec![0u8; 0x100];
    img.write_to_bin(&mut data, tf).unwrap();
    assert_eq!(data.len(), 0x100 + 256 + 1024);
    let back = Texture::read_from_bin(&data, tf);
    assert_eq!(back.0.rows, img.0.rows);
}

#[test]
fn four_bit_write_is_unsupported() {
    let tf = format(4, 4, 32, 4, 0);
    let img = image(&vec![gray(1); 16], 4);
    let mut data = vec![1u8, 2, 3];
    assert!(matches!(img.write_to_bin(&mut data, tf), Err(TextureError::Unsupported4Bit)));
    assert_eq!(data, vec![1u8, 2, 3]);
}

#[test]
fn gradient_fixtures() {
    let p = palette(Test::_2048Colors32x64);
    assert_eq!(p.0.len(), 2048);
    assert_eq!(p.0[1 * 32 + 3], Color { r: 4, g: 24, b: 4, a: 255 });
    let t = texture(Test::_2048Colors32x64);
    assert_eq!(t.0.width, 32);
    assert_eq!(t.0.rows.len(), 64);
    assert_eq!(t.0.rows[2][5], 69);
    let p = palette(Test::_65536Colors256x256);
    assert_eq!(p.0[65535], Color { r: 255, g: 255, b: 255, a: 255 });
    let t = texture(Test::_16384Colors128x128);
    assert_eq!(t.0.rows[127][127], 16383);
}
