use engine::mesh::{MeshError, ModelFile, HEADER_BYTES, MAGIC, VERSION};

fn cube(painted: bool) -> ModelFile {
    let mut positions = Vec::new();
    let mut normals = Vec::new();
    for z in [0u32, 1] {
        for y in [0u32, 1] {
            for x in [0u32, 1] {
                positions.push((x, y, z));
                normals.push((x * 7, y * 7, z * 7));
            }
        }
    }
    let quad = |a: u32, b: u32, c: u32, d: u32| vec![a, b, c, a, c, d];
    let mut indices = Vec::new();
    for face in [
        quad(0, 2, 3, 1),
        quad(4, 5, 7, 6),
        quad(0, 1, 5, 4),
        quad(2, 6, 7, 3),
        quad(0, 4, 6, 2),
        quad(1, 3, 7, 5),
    ] {
        indices.extend(face);
    }
    let paint = if painted { (0..8).map(|k| (k, k + 1, k + 2)).collect() } else { Vec::new() };
    ModelFile { height_bits: 0x40c0_0000, extent_bits: 0x3f00_0000, positions, normals, paint, indices }
}

fn same(a: &ModelFile, b: &ModelFile) {
    assert_eq!(a.height_bits, b.height_bits);
    assert_eq!(a.extent_bits, b.extent_bits);
    assert_eq!(a.positions, b.positions);
    assert_eq!(a.normals, b.normals);
    assert_eq!(a.paint, b.paint);
    assert_eq!(a.indices, b.indices);
}

#[test]
fn a_model_survives_the_round_trip() {
    let m = cube(false);
    let bytes = m.to_bytes();
    assert_eq!(bytes.len(), HEADER_BYTES + 8 * 24 + 36 * 4);
    assert_eq!(&bytes[0..8], &MAGIC);
    assert_eq!(&bytes[8..12], &VERSION.to_le_bytes());
    let back = ModelFile::from_bytes(&bytes).expect("our own file must be readable");
    same(&m, &back);
}

#[test]
fn paint_survives_the_round_trip() {
    let m = cube(true);
    let bytes = m.to_bytes();
    let back = ModelFile::from_bytes(&bytes).expect("our own file must be readable");
    same(&m, &back);
    assert!(cube(false).to_bytes().len() < bytes.len(), "the unpainted file did not get shorter");
    assert!(ModelFile::from_bytes(&cube(false).to_bytes()).unwrap().paint.is_empty());
}

#[test]
fn words_are_little_endian() {
    let bytes = cube(false).to_bytes();
    assert_eq!(&bytes[12..16], &[8, 0, 0, 0]);
    assert_eq!(&bytes[16..20], &[36, 0, 0, 0]);
    assert_eq!(&bytes[24..28], &[0, 0, 0xc0, 0x40]);
}

#[test]
fn a_wrong_file_says_what_is_wrong() {
    let good = cube(false).to_bytes();
    assert_eq!(ModelFile::from_bytes(&good[..12]).err(), Some(MeshError::TooShort { len: 12 }));
    let mut alien = good.clone();
    alien[0] = b'T';
    assert_eq!(ModelFile::from_bytes(&alien).err(), Some(MeshError::WrongSignature));
    let mut old = good.clone();
    old[8] = 1;
    assert_eq!(ModelFile::from_bytes(&old).err(), Some(MeshError::WrongVersion { version: 1 }));
    let truncated = &good[..good.len() - 1];
    assert_eq!(
        ModelFile::from_bytes(truncated).err(),
        Some(MeshError::WrongSize {
            len: good.len() - 1,
            vertices: 8,
            indices: 36,
            need: good.len() as u64
        })
    );
}

#[test]
fn an_index_past_the_vertices_is_an_error() {
    let mut m = cube(true);
    m.indices[5] = 8;
    m.indices[9] = 11;
    let bytes = m.to_bytes();
    assert_eq!(
        ModelFile::from_bytes(&bytes).err(),
        Some(MeshError::IndexOutOfRange { index: 8, vertices: 8 })
    );
}

#[test]
fn a_paint_flag_other_than_one_means_no_paint() {
    let mut bytes = cube(false).to_bytes();
    bytes[20] = 2;
    let back = ModelFile::from_bytes(&bytes).expect("still a mesh");
    assert!(back.paint.is_empty());
}
