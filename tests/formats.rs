use nights_into_bins::texture::palette_texture::PaletteTexture;
use nights_into_bins::texture::texture_format::{FormatError, TextureFormats};
use nights_into_bins::texture::{Color, Textures, WriteError};

const SIGNATURE: [u8; 16] = [6, 0, 0, 0x10, 0, 0, 0, 0, 0, 0, 0, 0, 0, 0, 0, 0];
const END: [u8; 16] = [0, 0, 0, 0x60, 0, 0, 0, 0, 0, 0, 0, 0, 0, 0, 0, 0];

fn record(double: bool, w: u32, h: u32, depth_flag: u8, encoding_flag: u8, last: bool) -> Vec<u8> {
    let mut r = vec![0u8; 0x100];
    r[0x17] = if double { 0 } else { 1 };
    r[0x30..0x34].copy_from_slice(&w.to_le_bytes());
    r[0x34..0x38].copy_from_slice(&h.to_le_bytes());
    r[0x97] = depth_flag;
    r[0xE0] = encoding_flag;
    if last {
        r[0xF0..0x100].copy_from_slice(&END);
    } else {
        r[0xF0] = 0x55;
    }
    r
}

#[test]
fn one_record_table() {
    let mut data = vec![0xEEu8; 32];
    data.extend_from_slice(&SIGNATURE);
    data.extend(record(false, 16, 16, 0, 1, true));
    let tfs = TextureFormats::read(&data).ok().unwrap();
    assert_eq!(tfs.0.len(), 1);
    let tf = tfs.0[0];
    assert_eq!((tf.size.x, tf.size.y), (16, 16));
    assert_eq!(tf.color_depth, 32);
    assert_eq!(tf.pixel_encoding, 8);
    // the table ends at 0x130: the textures start at 0x200
    assert_eq!(tf.location, 0x200);
}

#[test]
fn locations_accumulate() {
    let mut data = SIGNATURE.to_vec();
    data.extend(record(false, 16, 16, 1, 1, false));
    data.extend(record(true, 16, 8, 1, 2, false));
    data.extend(record(false, 8, 8, 0, 2, true));
    let tfs = TextureFormats::read(&data).ok().unwrap();
    assert_eq!(tfs.0.len(), 3);
    // the table ends at 0x310
    assert_eq!(tfs.0[0].location, 0x400);
    assert_eq!((tfs.0[0].color_depth, tfs.0[0].pixel_encoding), (16, 8));
    assert_eq!(tfs.0[1].location, 0x400 + 256 + 0x200);
    // doubled, and the height doubled once more at 4 bits
    assert_eq!((tfs.0[1].size.x, tfs.0[1].size.y), (32, 32));
    assert_eq!((tfs.0[1].color_depth, tfs.0[1].pixel_encoding), (16, 4));
    assert_eq!(tfs.0[2].location, 0x400 + 256 + 0x200 + 512 + 0x20);
    assert_eq!((tfs.0[2].color_depth, tfs.0[2].pixel_encoding), (32, 4));
}

#[test]
fn aligned_end_moves_a_whole_block() {
    let mut data = vec![0u8; 0xF0];
    data.extend_from_slice(&SIGNATURE);
    data.extend(record(false, 8, 8, 0, 1, true));
    // the table ends at 0x200, already aligned
    let tfs = TextureFormats::read(&data).ok().unwrap();
    assert_eq!(tfs.0[0].location, 0x300);
}

#[test]
fn oversized_record_ends_table() {
    let mut data = SIGNATURE.to_vec();
    data.extend(record(false, 16, 16, 0, 1, false));
    data.extend(record(false, 1024, 16, 0, 1, true));
    let tfs = TextureFormats::read(&data).ok().unwrap();
    assert_eq!(tfs.0.len(), 1);
}

#[test]
fn no_signature_is_eof() {
    let data = vec![1u8; 100];
    assert!(matches!(TextureFormats::read(&data), Err(FormatError::UnexpectedEof)));
    let t = Textures::read_from_bin(&data).ok().unwrap();
    assert!(t.0.is_empty());
}

#[test]
fn truncated_record_is_eof() {
    let mut data = SIGNATURE.to_vec();
    data.extend(record(false, 16, 16, 0, 1, true));
    data.truncate(16 + 0x90);
    assert!(matches!(TextureFormats::read(&data), Err(FormatError::UnexpectedEof)));
}

#[test]
fn textures_read_and_replaced() {
    let mut data = SIGNATURE.to_vec();
    data.extend(record(false, 16, 16, 0, 1, true));
    data.resize(0x200 + 256 + 1024, 0);
    // index plane: pixel i holds i; palette entry i is (i, 0, 0, 127)
    for i in 0..256 {
        data[0x200 + i] = i as u8;
        data[0x300 + 4 * i] = i as u8;
        data[0x300 + 4 * i + 3] = 127;
    }
    let textures = Textures::read_from_bin(&data).ok().unwrap();
    assert_eq!(textures.0.len(), 1);
    assert_eq!(textures.0[0].0, 0);
    let img = &textures.0[0].1;
    assert_eq!(img.0.width, 16);
    // every colour occurs once
    let mut reds: Vec<u8> = img.0.rows.iter().flatten().map(|c| c.r).collect();
    reds.sort();
    assert_eq!(reds, (0..=255).collect::<Vec<u8>>());
    // write the texture back: the container is unchanged
    let mut copy = data.clone();
    let replaced = Textures(vec![(0, nights_into_bins::texture::Texture(img.0.clone()))]);
    replaced.write_to_bin(&mut copy).unwrap();
    let again = Textures::read_from_bin(&copy).ok().unwrap();
    assert_eq!(again.0[0].1 .0.rows, img.0.rows);
    let _ = PaletteTexture::read_from_bin(&copy, TextureFormats::read(&copy).ok().unwrap().0[0]);
    let _ = Color::default();
}

#[test]
fn replacing_missing_texture_fails() {
    let mut data = SIGNATURE.to_vec();
    data.extend(record(false, 16, 16, 0, 1, true));
    let img = nights_into_bins::texture::Texture(nights_into_bins::grid::Grid::from_row_major(&vec![Color::default(); 256], 16, 16));
    let r = Textures(vec![(3, img)]).write_to_bin(&mut data);
    assert!(matches!(r, Err(WriteError::NoSuchTexture(3))));
}

#[test]
fn overflowing_locations_are_too_large() {
    let mut data = SIGNATURE.to_vec();
    for i in 0..2100 {
        data.extend(record(true, 512, 512, 0, 2, i == 2099));
    }
    assert!(matches!(TextureFormats::read(&data), Err(FormatError::TooLarge)));
    assert!(matches!(Textures::read_from_bin(&data), Err(FormatError::TooLarge)));
}

#[test]
fn untileable_plane_is_unsupported() {
    let mut data = SIGNATURE.to_vec();
    data.extend(record(false, 12, 12, 0, 1, true));
    assert!(matches!(Textures::read_from_bin(&data), Err(FormatError::UnsupportedShape)));
}
