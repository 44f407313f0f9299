use carved_rust::codec::{DecodeError, OCTANT_TAG, VOXEL_TAG};
use carved_rust::registration::NoRegistration;
use carved_rust::tree::SVO;
use carved_rust::voxel_data::VoxelData;

fn floor() -> SVO {
    let mut reg = NoRegistration::new();
    let mut svo = SVO::new_voxel(VoxelData::new(1), 0);
    for ix in [2u8, 3, 6, 7] {
        svo.set_block(&mut reg, &[ix], VoxelData::new(0));
    }
    svo
}

fn encode(svo: &SVO) -> Vec<u8> {
    let mut bytes = Vec::new();
    svo.write_to(&mut bytes);
    bytes
}

fn leaf_values(svo: &SVO) -> Vec<(u32, u32, u32, u32, i32)> {
    svo.leaves().iter().map(|(c, d)| (c.depth, c.x, c.y, c.z, d.voxel_type)).collect()
}

#[test]
fn save_load() {
    let mut svo = floor();
    let mut reg = NoRegistration::new();
    svo.set_block(&mut reg, &[1, 3], VoxelData::new(2));

    let bytes = encode(&svo);
    let dummy_vec = vec![0u8; 500];
    assert_eq!(dummy_vec[2], 0);

    let new_svo = SVO::read_from(&bytes).unwrap();
    let expected: Vec<(u32, u32, u32, u32, i32)> = vec![
        (1, 0, 0, 0, 1),
        (2, 2, 0, 0, 1),
        (2, 3, 0, 0, 1),
        (2, 2, 1, 0, 1),
        (2, 3, 1, 0, 2),
        (2, 2, 0, 1, 1),
        (2, 3, 0, 1, 1),
        (2, 2, 1, 1, 1),
        (2, 3, 1, 1, 1),
        (1, 0, 1, 0, 0),
        (1, 1, 1, 0, 0),
        (1, 0, 0, 1, 1),
        (1, 1, 0, 1, 1),
        (1, 0, 1, 1, 0),
        (1, 1, 1, 1, 0),
    ];
    assert_eq!(leaf_values(&new_svo), expected);
    assert_eq!(leaf_values(&svo), expected);
}

#[test]
fn leaf_encoding_is_tag_and_little_endian_payload() {
    let bytes = encode(&SVO::new_voxel(VoxelData::new(0x0403_0201), 7));
    assert_eq!(bytes, vec![VOXEL_TAG, 1, 2, 3, 4]);
    let bytes = encode(&SVO::new_voxel(VoxelData::new(-2), 7));
    assert_eq!(bytes, vec![VOXEL_TAG, 0xfe, 0xff, 0xff, 0xff]);
}

#[test]
fn node_encoding_puts_children_first() {
    let svo = SVO::new_octants(|i| SVO::new_voxel(VoxelData::new(i as i32), 0));
    let bytes = encode(&svo);
    assert_eq!(bytes.len(), 8 * 5 + 1);
    assert_eq!(bytes[0], VOXEL_TAG);
    assert_eq!(&bytes[35..40], &[VOXEL_TAG, 7, 0, 0, 0]);
    assert_eq!(bytes[40], OCTANT_TAG);
}

#[test]
fn round_trip_keeps_shape_and_data() {
    let mut svo = floor();
    let mut reg = NoRegistration::new();
    svo.set_block(&mut reg, &[5, 0, 7], VoxelData::new(i32::MIN));
    svo.set_block(&mut reg, &[0, 6], VoxelData::new(i32::MAX));
    let decoded = SVO::read_from(&encode(&svo)).unwrap();
    assert_eq!(leaf_values(&decoded), leaf_values(&svo));
    assert_eq!(encode(&decoded), encode(&svo));
}

#[test]
fn decoded_leaves_are_unregistered() {
    let decoded = SVO::read_from(&encode(&floor())).unwrap();
    match decoded {
        SVO::Octants(cs) => {
            for c in cs.iter() {
                match c {
                    SVO::Voxel { external_id, .. } => assert_eq!(*external_id, 0),
                    SVO::Octants(_) => panic!("expected leaves"),
                }
            }
        }
        SVO::Voxel { .. } => panic!("expected octants"),
    }
}

#[test]
fn truncated_payload_is_an_error() {
    assert_eq!(SVO::read_from(&[VOXEL_TAG, 1, 0, 0]).err(), Some(DecodeError::Truncated));
}

#[test]
fn unknown_tag_is_an_error() {
    assert_eq!(SVO::read_from(&[VOXEL_TAG, 1, 0, 0, 0, 9]).err(), Some(DecodeError::UnknownTag { tag: 9 }));
}

#[test]
fn octant_tag_without_eight_children_is_an_error() {
    let mut bytes = Vec::new();
    for _ in 0..7 {
        bytes.extend_from_slice(&[VOXEL_TAG, 1, 0, 0, 0]);
    }
    bytes.push(OCTANT_TAG);
    assert_eq!(SVO::read_from(&bytes).err(), Some(DecodeError::MissingChildren));
}

#[test]
fn wrong_root_count_is_an_error() {
    assert_eq!(SVO::read_from(&[]).err(), Some(DecodeError::RootCount { count: 0 }));
    let two = [VOXEL_TAG, 1, 0, 0, 0, VOXEL_TAG, 2, 0, 0, 0];
    assert_eq!(SVO::read_from(&two).err(), Some(DecodeError::RootCount { count: 2 }));
}
