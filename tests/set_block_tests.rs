use carved_rust::cell::{above_axis, index, probe_order, CellPos};
use carved_rust::registration::{NoRegistration, Register, SequentialIds};
use carved_rust::tree::SVO;
use carved_rust::voxel_data::VoxelData;

fn floor() -> SVO {
    let mut reg = NoRegistration::new();
    let mut svo = SVO::new_voxel(VoxelData::new(1), 0);
    for ix in [2u8, 3, 6, 7] {
        svo.set_block(&mut reg, &[ix], VoxelData::new(0));
    }
    svo
}

fn corner(cell: &CellPos) -> (f32, f32, f32) {
    let side = (1u32 << cell.depth) as f32;
    (cell.x as f32 / side, cell.y as f32 / side, cell.z as f32 / side)
}

fn assert_contains(svo: &SVO, expected: Vec<(f32, f32, f32, i32, i32)>) {
    let leaves = svo.leaves();
    assert_eq!(leaves.len(), expected.len());
    for ((cell, data), &(x, y, z, depth, voxel_type)) in leaves.iter().zip(expected.iter()) {
        let (cx, cy, cz) = corner(cell);
        assert!((cx - x).abs() < 0.01);
        assert!((cy - y).abs() < 0.01);
        assert!((cz - z).abs() < 0.01);
        assert_eq!(cell.depth as i32, depth);
        assert_eq!(data.voxel_type, voxel_type);
    }
}

fn floor_layout() -> Vec<(f32, f32, f32, i32, i32)> {
    vec![
        (0., 0., 0., 1, 1),
        (0.5, 0., 0., 1, 1),
        (0., 0.5, 0., 1, 0),
        (0.5, 0.5, 0., 1, 0),
        (0., 0., 0.5, 1, 1),
        (0.5, 0., 0.5, 1, 1),
        (0., 0.5, 0.5, 1, 0),
        (0.5, 0.5, 0.5, 1, 0),
    ]
}

fn minimal_subdivide_body() {
    let mut reg = NoRegistration::new();
    let mut svo = SVO::new_voxel(VoxelData::new(1), 0);
    svo.set_block(&mut reg, &[1], VoxelData::new(0));
    assert_contains(
        &svo,
        vec![
            (0., 0., 0., 1, 1),
            (0.5, 0., 0., 1, 0),
            (0., 0.5, 0., 1, 1),
            (0.5, 0.5, 0., 1, 1),
            (0., 0., 0.5, 1, 1),
            (0.5, 0., 0.5, 1, 1),
            (0., 0.5, 0.5, 1, 1),
            (0.5, 0.5, 0.5, 1, 1),
        ],
    );
}

fn setting_blocks_body() {
    let mut svo = floor();
    let mut reg = NoRegistration::new();

    svo.set_block(&mut reg, &[1, 3], VoxelData::new(3));
    assert_contains(
        &svo,
        vec![
            (0., 0., 0., 1, 1),
            (0.5, 0., 0., 2, 1),
            (0.75, 0., 0., 2, 1),
            (0.5, 0.25, 0., 2, 1),
            (0.75, 0.25, 0., 2, 3),
            (0.5, 0., 0.25, 2, 1),
            (0.75, 0., 0.25, 2, 1),
            (0.5, 0.25, 0.25, 2, 1),
            (0.75, 0.25, 0.25, 2, 1),
            (0., 0.5, 0., 1, 0),
            (0.5, 0.5, 0., 1, 0),
            (0., 0., 0.5, 1, 1),
            (0.5, 0., 0.5, 1, 1),
            (0., 0.5, 0.5, 1, 0),
            (0.5, 0.5, 0.5, 1, 0),
        ],
    );

    svo.set_block(&mut reg, &[1, 3], VoxelData::new(1));
    assert_contains(&svo, floor_layout());
}

fn assert_is_voxel(svo: &SVO, expected_data: VoxelData, expected_id: u32) {
    match svo {
        SVO::Octants(_) => panic!("Found Octants when expecting a Voxel!"),
        SVO::Voxel { data, external_id } => {
            assert_eq!(*data, expected_data);
            assert_eq!(*external_id, expected_id);
        }
    }
}

fn register_blocks_body() {
    let mut reg = SequentialIds::new();
    let data = VoxelData::new(1);
    let external_id = reg.register(CellPos::root(), data);
    let mut svo = SVO::new_voxel(data, external_id);
    svo.set_block(&mut reg, &[2], VoxelData::new(0));
    svo.set_block(&mut reg, &[3], VoxelData::new(0));
    svo.set_block(&mut reg, &[6], VoxelData::new(0));
    svo.set_block(&mut reg, &[7], VoxelData::new(0));
    svo.set_block(&mut reg, &[1, 3], VoxelData::new(2));

    match svo {
        SVO::Voxel { .. } => panic!("Unexpected Voxel found"),
        SVO::Octants(ref octants) => {
            assert_is_voxel(&octants[0], VoxelData::new(1), 1);
            match octants[1] {
                SVO::Voxel { .. } => panic!("Unexpected Voxel found"),
                SVO::Octants(ref sub_octants) => {
                    assert_is_voxel(&sub_octants[0], VoxelData::new(1), 13);
                    assert_is_voxel(&sub_octants[1], VoxelData::new(1), 14);
                    assert_is_voxel(&sub_octants[2], VoxelData::new(1), 15);
                    assert_is_voxel(&sub_octants[3], VoxelData::new(2), 21);
                    assert_is_voxel(&sub_octants[4], VoxelData::new(1), 17);
                    assert_is_voxel(&sub_octants[5], VoxelData::new(1), 18);
                    assert_is_voxel(&sub_octants[6], VoxelData::new(1), 19);
                    assert_is_voxel(&sub_octants[7], VoxelData::new(1), 20);
                }
            }
            assert_is_voxel(&octants[2], VoxelData::new(0), 9);
            assert_is_voxel(&octants[3], VoxelData::new(0), 10);
            assert_is_voxel(&octants[4], VoxelData::new(1), 5);
            assert_is_voxel(&octants[5], VoxelData::new(1), 6);
            assert_is_voxel(&octants[6], VoxelData::new(0), 11);
            assert_is_voxel(&octants[7], VoxelData::new(0), 12);
        }
    }
    assert_eq!(reg.ids, vec![0, 3, 4, 7, 8, 2, 16]);
}

#[test]
fn tests_on_blocks() {
    assert_contains(&floor(), floor_layout());
}

#[test]
fn test_on_blocks() {
    assert_contains(&floor(), floor_layout());
}

#[test]
fn svo_tests_on_blocks() {
    assert_contains(&floor(), floor_layout());
}

#[test]
fn tests_minimal_subdivide() {
    minimal_subdivide_body();
}

#[test]
fn svo_tests_minimal_subdivide() {
    minimal_subdivide_body();
}

#[test]
fn test_minimal_subdivide() {
    minimal_subdivide_body();
}

#[test]
fn tests_setting_blocks() {
    setting_blocks_body();
}

#[test]
fn svo_tests_setting_blocks() {
    setting_blocks_body();
}

#[test]
fn test_setting_blocks() {
    setting_blocks_body();
}

#[test]
fn svo_tests_register_blocks() {
    register_blocks_body();
}

#[test]
fn test_register_blocks() {
    register_blocks_body();
}

#[test]
fn above_axis_index_cancel() {
    for ix in 0u8..8 {
        let (x, y, z) = above_axis(ix);
        assert_eq!(index(x, y, z), ix);
    }
}

#[test]
fn index_of_flags() {
    assert_eq!(index(false, false, false), 0);
    assert_eq!(index(true, false, false), 1);
    assert_eq!(index(false, true, false), 2);
    assert_eq!(index(true, true, true), 7);
    assert_eq!(above_axis(6), (false, true, true));
}

#[test]
fn probe_order_home_then_flips() {
    assert_eq!(probe_order(false, false, false), vec![0, 1, 2, 4, 6, 5, 3, 7]);
    assert_eq!(probe_order(true, true, false), vec![3, 2, 1, 7, 5, 6, 0, 4]);
}

fn no_uniform_node(svo: &SVO) -> bool {
    match svo {
        SVO::Voxel { .. } => true,
        SVO::Octants(children) => {
            let first = match &children[0] {
                SVO::Voxel { data, .. } => Some(*data),
                SVO::Octants(_) => None,
            };
            let uniform = first.is_some()
                && children.iter().all(|c| match c {
                    SVO::Voxel { data, .. } => Some(*data) == first,
                    SVO::Octants(_) => false,
                });
            !uniform && children.iter().all(no_uniform_node)
        }
    }
}

#[test]
fn stays_coalesced_after_edits() {
    let mut reg = NoRegistration::new();
    let mut svo = SVO::new_voxel(VoxelData::new(1), 0);
    let edits: Vec<(Vec<u8>, i32)> = vec![
        (vec![0, 1, 2], 5),
        (vec![0, 1], 5),
        (vec![7], 2),
        (vec![0, 1, 2], 1),
        (vec![0, 1, 0], 5),
        (vec![0], 5),
        (vec![1], 5),
        (vec![2], 5),
        (vec![3], 5),
        (vec![4], 5),
        (vec![5], 5),
        (vec![6], 5),
        (vec![7], 5),
    ];
    for (path, value) in edits {
        svo.set_block(&mut reg, &path, VoxelData::new(value));
        assert!(no_uniform_node(&svo));
    }
    assert_contains(&svo, vec![(0., 0., 0., 0, 5)]);
}

#[test]
fn second_identical_call_changes_nothing() {
    let mut reg = SequentialIds::new();
    let id = reg.register(CellPos::root(), VoxelData::new(1));
    let mut svo = SVO::new_voxel(VoxelData::new(1), id);
    svo.set_block(&mut reg, &[4, 2, 1], VoxelData::new(9));
    let next = reg.next;
    let gone = reg.ids.len();
    let before = svo.leaves();
    svo.set_block(&mut reg, &[4, 2, 1], VoxelData::new(9));
    assert_eq!(reg.next, next);
    assert_eq!(reg.ids.len(), gone);
    assert_eq!(svo.leaves(), before);
}

#[test]
fn setting_existing_value_is_noop() {
    let mut reg = SequentialIds::new();
    let mut svo = SVO::new_voxel(VoxelData::new(3), 0);
    svo.set_block(&mut reg, &[5, 5, 5], VoxelData::new(3));
    assert_eq!(reg.next, 0);
    assert!(reg.ids.is_empty());
    assert_contains(&svo, vec![(0., 0., 0., 0, 3)]);
}

#[test]
fn empty_path_replaces_whole_tree() {
    let mut reg = SequentialIds::new();
    let mut svo = floor();
    svo.set_block(&mut reg, &[], VoxelData::new(4));
    assert_contains(&svo, vec![(0., 0., 0., 0, 4)]);
    assert_eq!(reg.next, 1);
    assert_eq!(reg.ids.len(), 8);
}

#[test]
fn live_handles_balance() {
    let mut reg = SequentialIds::new();
    let id = reg.register(CellPos::root(), VoxelData::new(1));
    let mut svo = SVO::new_voxel(VoxelData::new(1), id);
    for (path, v) in [(vec![1u8, 3], 2), (vec![1u8, 3], 1), (vec![6u8], 0), (vec![6u8, 1], 3), (vec![], 0)] {
        svo.set_block(&mut reg, &path, VoxelData::new(v));
    }
    let mut live = Vec::new();
    fn collect(t: &SVO, out: &mut Vec<u32>) {
        match t {
            SVO::Voxel { external_id, .. } => out.push(*external_id),
            SVO::Octants(cs) => cs.iter().for_each(|c| collect(c, out)),
        }
    }
    collect(&svo, &mut live);
    let mut all: Vec<u32> = live.iter().chain(reg.ids.iter()).cloned().collect();
    all.sort();
    let registered: Vec<u32> = (0..reg.next).collect();
    assert_eq!(all, registered);
}

#[test]
fn within_depth_reports_height() {
    let svo = floor();
    assert!(!svo.within_depth(0));
    assert!(svo.within_depth(1));
    assert!(SVO::new_voxel(VoxelData::new(2), 0).within_depth(0));
}

#[test]
fn voxel_data_helpers() {
    assert!(VoxelData::new(0).is_empty());
    assert!(!VoxelData::new(-3).is_empty());
    assert_eq!(SVO::new_voxel(VoxelData::new(2), 0).get_voxel_data(), Some(VoxelData::new(2)));
    assert_eq!(floor().get_voxel_data(), None);
    let built = SVO::new_octants(|i| SVO::new_voxel(VoxelData::new(i as i32), 0));
    match built {
        SVO::Octants(cs) => {
            assert_eq!(cs.len(), 8);
            assert_eq!(cs[6].get_voxel_data(), Some(VoxelData::new(6)));
        }
        SVO::Voxel { .. } => panic!("expected octants"),
    }
}

#[test]
fn child_cells() {
    let root = CellPos::root();
    let c = root.child(5).child(2);
    assert_eq!(c, CellPos { depth: 2, x: 2, y: 1, z: 2 });
}

#[test]
fn floor_edit_then_restore() {
    let original = floor().leaves();
    let mut svo = floor();
    let mut reg = NoRegistration::new();
    svo.set_block(&mut reg, &[1, 3], VoxelData::new(2));
    assert_eq!(svo.leaves().len(), 15);
    svo.set_block(&mut reg, &[1, 3], VoxelData::new(1));
    assert_eq!(svo.leaves(), original);
}

#[test]
fn example_tree_layout() {
    let types: Vec<i32> = SVO::example().leaves().iter().map(|(_, d)| d.voxel_type).collect();
    assert_eq!(types, vec![1, 1, 1, 0, 1, 1, 0, 0]);
}

#[test]
fn overwrite_gives_back_depth_first_then_registers_once() {
    let mut reg = SequentialIds::new();
    let id = reg.register(CellPos::root(), VoxelData::new(1));
    let mut svo = SVO::new_voxel(VoxelData::new(1), id);
    svo.set_block(&mut reg, &[2, 5], VoxelData::new(7));
    // split root: 0 given back, 1..=8 registered; split child 2 (handle 3):
    // 9..=16 registered; child 5 of it (handle 14) replaced by 17
    assert_eq!(reg.ids, vec![0, 3, 14]);
    let before_next = reg.next;
    svo.set_block(&mut reg, &[2], VoxelData::new(4));
    assert_eq!(reg.ids[3..], [9, 10, 11, 12, 13, 17, 15, 16]);
    assert_eq!(reg.next, before_next + 1);
    match &svo {
        SVO::Octants(cs) => match &cs[2] {
            SVO::Voxel { data, external_id } => {
                assert_eq!(*data, VoxelData::new(4));
                assert_eq!(*external_id, before_next);
            }
            SVO::Octants(_) => panic!("expected a leaf"),
        },
        SVO::Voxel { .. } => panic!("expected octants"),
    }
}
