use carved_rust::tree::SVO;
use carved_rust::voxel_data::VoxelData;

#[derive(Debug, PartialEq, Clone, Copy)]
struct Instance {
    translate: [f32; 3],
    side_width: f32,
}

/// The draw instances of the solid leaves, in a cube of side `2^max_height`.
fn fill_instances(svo: &SVO, max_height: i32) -> Vec<Instance> {
    let full = f32::powi(2.0, max_height);
    svo.solid_leaves()
        .iter()
        .map(|(cell, _)| {
            let side = full / (1u64 << cell.depth) as f32;
            Instance { translate: [cell.x as f32 * side, cell.y as f32 * side, cell.z as f32 * side], side_width: side }
        })
        .collect()
}

fn voxel(t: i32) -> SVO {
    SVO::new_voxel(VoxelData::new(t), 0)
}

#[test]
fn voxel_instance() {
    let svo = voxel(1);
    let instances = fill_instances(&svo, 2);
    assert_eq!(instances.len(), 1);
    assert_eq!(instances, vec![Instance { translate: [0.0, 0.0, 0.0], side_width: 4.0 }]);
}

#[test]
fn octants_instance() {
    let svo = SVO::new_octants(|_| voxel(1));
    let instances = fill_instances(&svo, 2);
    assert_eq!(instances.len(), 8);
    let expected_instances = vec![
        Instance { translate: [0.0, 0.0, 0.0], side_width: 2.0 },
        Instance { translate: [2.0, 0.0, 0.0], side_width: 2.0 },
        Instance { translate: [0.0, 2.0, 0.0], side_width: 2.0 },
        Instance { translate: [2.0, 2.0, 0.0], side_width: 2.0 },
        Instance { translate: [0.0, 0.0, 2.0], side_width: 2.0 },
        Instance { translate: [2.0, 0.0, 2.0], side_width: 2.0 },
        Instance { translate: [0.0, 2.0, 2.0], side_width: 2.0 },
        Instance { translate: [2.0, 2.0, 2.0], side_width: 2.0 },
    ];
    assert_eq!(instances, expected_instances);
}

#[test]
fn octants_instance_two() {
    let svo = SVO::new_octants(|i| if i != 5 { voxel(1) } else { SVO::new_octants(|_| voxel(1)) });
    let instances = fill_instances(&svo, 2);
    assert_eq!(instances.len(), 15);
    let expected_instances = vec![
        Instance { translate: [0.0, 0.0, 0.0], side_width: 2.0 },
        Instance { translate: [2.0, 0.0, 0.0], side_width: 2.0 },
        Instance { translate: [0.0, 2.0, 0.0], side_width: 2.0 },
        Instance { translate: [2.0, 2.0, 0.0], side_width: 2.0 },
        Instance { translate: [0.0, 0.0, 2.0], side_width: 2.0 },
        Instance { translate: [2.0, 0.0, 2.0], side_width: 1.0 },
        Instance { translate: [3.0, 0.0, 2.0], side_width: 1.0 },
        Instance { translate: [2.0, 1.0, 2.0], side_width: 1.0 },
        Instance { translate: [3.0, 1.0, 2.0], side_width: 1.0 },
        Instance { translate: [2.0, 0.0, 3.0], side_width: 1.0 },
        Instance { translate: [3.0, 0.0, 3.0], side_width: 1.0 },
        Instance { translate: [2.0, 1.0, 3.0], side_width: 1.0 },
        Instance { translate: [3.0, 1.0, 3.0], side_width: 1.0 },
        Instance { translate: [0.0, 2.0, 2.0], side_width: 2.0 },
        Instance { translate: [2.0, 2.0, 2.0], side_width: 2.0 },
    ];
    assert_eq!(instances, expected_instances);
}

#[test]
fn octants_instance_empty() {
    let svo = SVO::new_octants(|i| {
        let data = [1, 0, 1, 0, 1, 1, 1, 1][i as usize];
        voxel(data)
    });
    let instances = fill_instances(&svo, 3);
    assert_eq!(instances.len(), 6);
    let expected_instances = vec![
        Instance { translate: [0.0, 0.0, 0.0], side_width: 4.0 },
        Instance { translate: [0.0, 4.0, 0.0], side_width: 4.0 },
        Instance { translate: [0.0, 0.0, 4.0], side_width: 4.0 },
        Instance { translate: [4.0, 0.0, 4.0], side_width: 4.0 },
        Instance { translate: [0.0, 4.0, 4.0], side_width: 4.0 },
        Instance { translate: [4.0, 4.0, 4.0], side_width: 4.0 },
    ];
    assert_eq!(instances, expected_instances);
}
