use carved_rust::height_map::SubImage;
use carved_rust::registration::{NoRegistration, SequentialIds};
use carved_rust::tree::SVO;

fn layout(svo: &SVO) -> Vec<(u32, u32, u32, u32, i32)> {
    svo.leaves().iter().map(|(c, d)| (c.depth, c.x, c.y, c.z, d.voxel_type)).collect()
}

fn build(image: &[u8], depth: u32) -> SVO {
    let mut reg = NoRegistration::new();
    SVO::height_map(depth, image, 4, 4, &mut reg)
}

#[test]
fn flat_height_map() {
    let image: [u8; 16] = [127u8; 16];
    let svo = build(&image, 1);
    assert_eq!(
        layout(&svo),
        vec![
            (1, 0, 0, 0, 1),
            (1, 1, 0, 0, 1),
            (1, 0, 1, 0, 0),
            (1, 1, 1, 0, 0),
            (1, 0, 0, 1, 1),
            (1, 1, 0, 1, 1),
            (1, 0, 1, 1, 0),
            (1, 1, 1, 1, 0),
        ]
    );
}

#[test]
fn full_height_map() {
    let image: [u8; 16] = [u8::MAX; 16];
    assert_eq!(layout(&build(&image, 1)), vec![(0, 0, 0, 0, 1)]);
}

#[test]
fn empty_height_map() {
    let image: [u8; 16] = [0u8; 16];
    assert_eq!(layout(&build(&image, 1)), vec![(0, 0, 0, 0, 0)]);
}

#[test]
fn height_map_registers_each_kept_leaf() {
    let image: [u8; 16] = [127u8; 16];
    let mut reg = SequentialIds::new();
    let svo = SVO::height_map(1, &image, 4, 4, &mut reg);
    assert_eq!(reg.next, 8);
    assert!(reg.ids.is_empty());
    assert_eq!(layout(&svo).len(), 8);

    let full: [u8; 16] = [u8::MAX; 16];
    let mut reg = SequentialIds::new();
    let svo = SVO::height_map(1, &full, 4, 4, &mut reg);
    assert_eq!(reg.next, 9);
    assert_eq!(reg.ids, vec![0, 1, 2, 3, 4, 5, 6, 7]);
    match svo {
        SVO::Voxel { external_id, .. } => assert_eq!(external_id, 8),
        SVO::Octants(_) => panic!("expected one leaf"),
    }
}

#[test]
fn sub_image_measures() {
    let image: Vec<u8> = (0u8..16).collect();
    let sub = SubImage::new(&image, 4, 4);
    assert_eq!(sub.width(), 4);
    assert_eq!(sub.height(), 4);
    assert_eq!(sub.byte_sum(), 120);
    assert_eq!(sub.byte_avg(), 7);
    let corner = sub.rect(2, 4, 2, 4);
    assert_eq!(corner.byte_sum(), 10 + 11 + 14 + 15);
    assert_eq!(corner.byte_avg(), 12);
}

#[test]
fn sub_image_splits() {
    let image = [9u8; 16];
    let sub = SubImage::new(&image, 4, 4);
    let quads = sub.quads().unwrap();
    assert_eq!((quads[1].x_0, quads[1].x_n, quads[1].y_0, quads[1].y_n), (0, 2, 2, 4));
    assert_eq!((quads[2].x_0, quads[2].x_n, quads[2].y_0, quads[2].y_n), (2, 4, 0, 2));
    let bands = sub.split_threshold().unwrap();
    assert_eq!((bands[0].b_0, bands[0].b_n, bands[1].b_0, bands[1].b_n), (0, 127, 127, 255));
    let octs = sub.octs().unwrap();
    assert_eq!((octs[2].b_0, octs[2].x_0, octs[2].y_0), (127, 0, 0));
    assert_eq!((octs[4].b_0, octs[4].x_0, octs[4].y_0), (0, 2, 0));
    let thin = sub.rect(0, 1, 0, 4);
    assert!(thin.quads().is_none());
    assert!(thin.octs().is_none());
}
