use nights_into_bins::ddm::DDM;
use nights_into_bins::model::triangle_strip::{DecodeError, TriangleStrip};
use nights_into_bins::model::{faces_mean_normal, strip_triangles, triangle_indices, Model, Models};
use nights_into_bins::vec::{Vec2, Vec3};

fn word(out: &mut Vec<u8>, v: u32) {
    out.extend_from_slice(&v.to_le_bytes());
}

fn pad16(out: &mut Vec<u8>) {
    while out.len() % 16 != 0 {
        out.push(0);
    }
}

// One strip of `n` vertices, starting at a 16-byte boundary.
fn strip(out: &mut Vec<u8>, n: u32, first: u32) {
    pad16(out);
    out.extend_from_slice(&[0u8; 8]);
    out.extend_from_slice(&[0, 0, 0, 0x20, 0x40, 0x40, 0x40, 0x40]);
    word(out, 0x78008004 | n << 16);
    for i in 0..n {
        word(out, ((first + i) as f32).to_bits());
        word(out, 0);
        word(out, 0x3F80_0000);
    }
    word(out, 0x7E008005 | n << 16);
    for _ in 0..n {
        out.extend_from_slice(&[0, 0, 127, 0]);
    }
    word(out, 0x6E00C006 | n << 16);
    for _ in 0..n {
        word(out, 0x80808080);
    }
    word(out, 0x64008007 | n << 16);
    for i in 0..n {
        word(out, i);
        word(out, i + 1);
    }
    pad16(out);
}

fn model(out: &mut Vec<u8>, declared: u32, material: u32, strips: &[u32]) {
    pad16(out);
    word(out, 0x1000);
    word(out, 0);
    word(out, declared);
    word(out, 0xFFFF_FFFE);
    word(out, material * 2);
    for (k, &n) in strips.iter().enumerate() {
        strip(out, n, 10 * k as u32);
    }
}

#[test]
fn one_model_two_strips() {
    let mut data = vec![0u8; 32];
    model(&mut data, 7, 5, &[3, 4]);
    let models = Models::read_from_bin(&data).ok().unwrap();
    assert_eq!(models.0.len(), 1);
    let m = &models.0[0];
    assert_eq!(m.material, 5);
    assert_eq!(m.triangle_strips.len(), 2);
    let total: usize = m.triangle_strips.iter().map(|s| s.pos.len()).sum();
    assert_eq!(total, 7);
    let s = &m.triangle_strips[1];
    assert_eq!(s.pos.len(), 4);
    assert_eq!(s.norm.len(), 4);
    assert_eq!(s.uv.len(), 4);
    assert_eq!(s.pos[0].x, 10.0f32.to_bits());
    assert_eq!(s.pos[0].z, 1.0f32.to_bits());
    assert_eq!((s.norm[2].x, s.norm[2].y, s.norm[2].z), (0, 0, 127));
    assert_eq!((s.uv[3].x, s.uv[3].y), (3, 4));
    assert_eq!(s.material, 5);
}

#[test]
fn declared_count_too_small_is_an_error() {
    let mut data = Vec::new();
    model(&mut data, 2, 1, &[3]);
    let mut pos = 0usize;
    assert!(matches!(Model::read_from_bin(&data, &mut pos), Err(DecodeError::VertexCountMismatch)));
    assert!(matches!(Models::read_from_bin(&data), Err(DecodeError::VertexCountMismatch)));
}

#[test]
fn declared_count_too_large_never_ends_early() {
    let mut data = Vec::new();
    model(&mut data, 6, 1, &[3]);
    let mut pos = 0usize;
    assert!(matches!(Model::read_from_bin(&data, &mut pos), Err(DecodeError::UnexpectedEof)));
    // running out of data means no more models
    assert_eq!(Models::read_from_bin(&data).ok().unwrap().0.len(), 0);
}

#[test]
fn empty_placeholder_model() {
    let mut data = Vec::new();
    word(&mut data, 0x1000);
    word(&mut data, 0);
    word(&mut data, 0);
    word(&mut data, 0x1234);
    word(&mut data, 0x1234);
    model(&mut data, 3, 2, &[3]);
    let mut pos = 0usize;
    let first = Model::read_from_bin(&data, &mut pos).ok().unwrap();
    assert!(first.triangle_strips.is_empty());
    assert_eq!(pos, 16);
    let models = Models::read_from_bin(&data).ok().unwrap();
    assert_eq!(models.0.len(), 1);
    assert_eq!(models.0[0].material, 2);
}

#[test]
fn material_marker_inside_strip_scan() {
    let mut data = Vec::new();
    word(&mut data, 0x1000);
    word(&mut data, 0);
    word(&mut data, 3);
    word(&mut data, 0xFFFF_FFFE);
    word(&mut data, 8);
    pad16(&mut data);
    data.extend_from_slice(&[0u8; 8]);
    data.extend_from_slice(&[0, 0, 0, 0, 0xFE, 0xFF, 0xFF, 0xFF]);
    word(&mut data, 14);
    word(&mut data, 0);
    let mut rest = Vec::new();
    strip(&mut rest, 3, 0);
    // drop the alignment and gap of the helper: the signature follows directly
    data.extend_from_slice(&rest[8..]);
    let mut pos = 0usize;
    let m = Model::read_from_bin(&data, &mut pos).ok().unwrap();
    assert_eq!(m.material, 7);
    assert_eq!(m.triangle_strips[0].material, 7);
}

#[test]
fn bad_header_is_reported() {
    let mut data = Vec::new();
    model(&mut data, 3, 1, &[3]);
    // corrupt the position header tag
    let at = data.windows(4).position(|w| w == [4, 0x80, 3, 0x78]).unwrap();
    data[at] = 5;
    let mut pos = 0usize;
    assert!(matches!(Model::read_from_bin(&data, &mut pos), Err(DecodeError::BadHeader)));
}

#[test]
fn short_strip_is_degenerate() {
    let mut data = Vec::new();
    model(&mut data, 2, 1, &[2]);
    let mut pos = 0usize;
    assert!(matches!(Model::read_from_bin(&data, &mut pos), Err(DecodeError::Degenerate)));
}

#[test]
fn facing_triangle_is_reversed() {
    let a = Vec3 { x: 0i64, y: 0, z: 0 };
    let b = Vec3 { x: 1i64, y: 0, z: 0 };
    let c = Vec3 { x: 0i64, y: 1, z: 0 };
    let n = Vec3 { x: 0i8, y: 0, z: 1 };
    let facing = faces_mean_normal(&a, &b, &c, &n, &n, &n);
    assert!(facing);
    assert_eq!(triangle_indices(0, facing), (2, 1, 0));
    let m = Vec3 { x: 0i8, y: 0, z: -1 };
    let facing = faces_mean_normal(&a, &b, &c, &m, &m, &m);
    assert!(!facing);
    assert_eq!(triangle_indices(0, facing), (0, 1, 2));
}

#[test]
fn strip_and_model_triangles() {
    assert_eq!(strip_triangles(5, &vec![true, false]), vec![(7, 6, 5), (6, 7, 8)]);
    let s = |n: usize| TriangleStrip {
        pos: vec![Vec3 { x: 0, y: 0, z: 0 }; n],
        norm: vec![Vec3 { x: 0, y: 0, z: 0 }; n],
        uv: vec![Vec2 { x: 0, y: 0 }; n],
        material: 0,
    };
    let m = Model { triangle_strips: vec![s(3), s(4)], material: 0 };
    let mut e = 10usize;
    let t = m.triangles(&mut e, &vec![vec![false], vec![true, false]]);
    assert_eq!(t, vec![(10, 11, 12), (15, 14, 13), (14, 15, 16)]);
    assert_eq!(e, 17);
}

#[test]
fn model_bytes_layout() {
    let s = TriangleStrip {
        pos: vec![Vec3 { x: 1, y: 2, z: 3 }; 3],
        norm: vec![Vec3 { x: -1, y: 0, z: 1 }; 3],
        uv: vec![Vec2 { x: 4, y: 5 }; 3],
        material: 0,
    };
    let m = Model { triangle_strips: vec![s], material: 0 };
    let mut out = Vec::new();
    m.write_to_bin(&mut out);
    assert_eq!(&out[0..16], &[0, 0x10, 0, 0, 0, 0, 0, 0, 3, 0, 0, 0, 0, 0, 0, 0]);
    assert_eq!(&out[16..20], &[0x00, 0x80, 0x04, 0x60]);
    assert_eq!(&out[48..52], &0x78038004u32.to_le_bytes());
    assert_eq!(&out[52..56], &1u32.to_le_bytes());
    assert_eq!(&out[88..92], &0x7E038005u32.to_le_bytes());
    assert_eq!(&out[92..96], &[0xFF, 0, 1, 0]);
    assert_eq!(out.len() % 16, 0);
    assert_eq!(&out[out.len() - 4..], &[0x04, 0, 0, 0x14]);
}

#[test]
fn ddm_split_at_markers() {
    let data = b"xxDDS |abcDDS |de".to_vec();
    let d = DDM::read(&data);
    assert_eq!(d.0.len(), 2);
    assert_eq!(d.0[0].0, b"DDS |abc".to_vec());
    assert_eq!(d.0[1].0, b"DDS |de".to_vec());
}

#[test]
fn ddm_without_marker_is_empty() {
    assert!(DDM::read(b"nothing here").0.is_empty());
    let d = DDM::read(b"DDS |");
    assert_eq!(d.0.len(), 1);
    assert_eq!(d.0[0].0, b"DDS |".to_vec());
}

#[test]
fn differing_counts_are_a_mismatch() {
    let mut data = Vec::new();
    model(&mut data, 3, 1, &[3]);
    // the texture-coordinate header claims four entries
    let at = data.windows(4).position(|w| w == [7, 0x80, 3, 0x64]).unwrap();
    data[at + 2] = 4;
    data.extend_from_slice(&[0u8; 8]);
    let mut pos = 0usize;
    assert!(matches!(Model::read_from_bin(&data, &mut pos), Err(DecodeError::CountMismatch)));
}
