use bvyfst_hollow_scene::fast::{
    AlphaMode, ArchivedMaterialFlags, Color, Face, ImageId, Malformed, MaterialFlags, MaterialId,
    MeshId, ParallaxMappingMethod, DOUBLE_SIDED, FLIP_NORMAL_MAP_Y, FOG_ENABLED, UNLIT,
};

#[test]
fn switches_are_single_bits() {
    let none = MaterialFlags(0);
    assert!(!none.flip_normal_map_y());
    assert!(!none.double_sided());
    assert!(!none.unlit());
    assert!(!none.fog_enabled());
    assert!(MaterialFlags(FLIP_NORMAL_MAP_Y).flip_normal_map_y());
    assert!(!MaterialFlags(FLIP_NORMAL_MAP_Y).double_sided());
    assert!(MaterialFlags(DOUBLE_SIDED).double_sided());
    assert!(MaterialFlags(UNLIT).unlit());
    assert!(MaterialFlags(FOG_ENABLED).fog_enabled());
    let all: ArchivedMaterialFlags = MaterialFlags(0b1111);
    assert!(all.flip_normal_map_y() && all.double_sided() && all.unlit() && all.fog_enabled());
    assert!(!MaterialFlags(0b1_1111_0000).fog_enabled());
}

#[test]
fn alpha_mode_is_three_bits_from_the_fifth() {
    assert_eq!(MaterialFlags(0b000_0000).alpha_mode(), Ok(AlphaMode::Opaque));
    assert_eq!(MaterialFlags(0b001_0000).alpha_mode(), Ok(AlphaMode::Mask));
    assert_eq!(MaterialFlags(0b010_0000).alpha_mode(), Ok(AlphaMode::Blend));
    assert_eq!(MaterialFlags(0b011_0000).alpha_mode(), Ok(AlphaMode::Premultiplied));
    assert_eq!(MaterialFlags(0b100_0000).alpha_mode(), Ok(AlphaMode::Add));
    assert_eq!(MaterialFlags(0b101_0000).alpha_mode(), Ok(AlphaMode::Multiply));
    assert_eq!(MaterialFlags(0b110_0000).alpha_mode(), Err(Malformed));
    assert_eq!(MaterialFlags(0b111_0000).alpha_mode(), Err(Malformed));
    assert_eq!(MaterialFlags(0b1_1010_1111).alpha_mode(), Ok(AlphaMode::Blend));
}

#[test]
fn culled_face_is_two_bits_from_the_eighth() {
    assert_eq!(MaterialFlags(0).cull_mode(), Ok(None));
    assert_eq!(MaterialFlags(0b0_1000_0000).cull_mode(), Ok(Some(Face::Front)));
    assert_eq!(MaterialFlags(0b1_1000_0000).cull_mode(), Ok(Some(Face::Back)));
    assert_eq!(MaterialFlags(0b1_0000_0000).cull_mode(), Err(Malformed));
    assert_eq!(MaterialFlags(0b10_0111_1111).cull_mode(), Ok(None));
}

#[test]
fn image_id_is_one_more_than_the_position() {
    assert_eq!(ImageId::new(0).get(), 1);
    assert_eq!(ImageId::new(41).get(), 42);
    assert_eq!(ImageId::new(u32::MAX - 1).get(), u32::MAX);
    assert_eq!(ImageId::new(u32::MAX).get(), u32::MAX);
    assert!(ImageId::from_number(0).is_none());
    assert_eq!(ImageId::from_number(3).unwrap().get(), 3);
}

#[test]
fn identifiers_pick_their_handle() {
    let handles = ["a", "b", "c"];
    assert_eq!(*MeshId::new(0).pick(&handles), "a");
    assert_eq!(*MeshId(2).pick(&handles), "c");
    assert_eq!(*MaterialId::new(1).pick(&handles), "b");
    assert_eq!(*ImageId::new(0).pick(&handles), "a");
    assert_eq!(*ImageId::new(2).pick(&handles), "c");
    assert_eq!(MeshId::new(9), MeshId(9));
}

#[test]
fn parallax_steps_and_colour_channels() {
    assert_eq!(ParallaxMappingMethod::Occlusion.max_steps(), None);
    assert_eq!(ParallaxMappingMethod::Relief { relief: 5 }.max_steps(), Some(5));
    assert_eq!(ParallaxMappingMethod::Relief { relief: 65535 }.max_steps(), Some(65535));
    assert_eq!(Color([1, 2, 3, 4]).rgba(), (1, 2, 3, 4));
}
