use bvyfst_hollow_scene::fast::{MaterialId, MeshId};
use bvyfst_hollow_scene::handles::{InitEntity, Interner};

#[test]
fn identifiers_count_up_from_zero() {
    let mut ids = Interner::new();
    assert_eq!(ids.len(), 0);
    assert_eq!(ids.lookup(70), None);
    assert_eq!(ids.serialize(70), Some(0));
    assert_eq!(ids.serialize(5), Some(1));
    assert_eq!(ids.serialize(u128::MAX), Some(2));
    assert_eq!(ids.len(), 3);
    assert_eq!(ids.lookup(70), Some(0));
    assert_eq!(ids.lookup(5), Some(1));
    assert_eq!(ids.lookup(u128::MAX), Some(2));
    assert_eq!(ids.lookup(6), None);
}

#[test]
fn a_handle_keeps_its_identifier() {
    let mut ids = Interner::new();
    assert_eq!(ids.serialize(9), Some(0));
    assert_eq!(ids.serialize(8), Some(1));
    assert_eq!(ids.serialize(9), Some(0));
    assert_eq!(ids.serialize(8), Some(1));
    assert_eq!(ids.len(), 2);
    assert_eq!(ids.serialize(0), Some(2));
    assert_eq!(ids.serialize(0), Some(2));
}

#[test]
fn each_kind_counts_for_itself() {
    let mut init = InitEntity::new();
    assert_eq!(init.serialize_mesh(100), Some(MeshId(0)));
    assert_eq!(init.serialize_mesh(200), Some(MeshId(1)));
    assert_eq!(init.serialize_mat(100), Some(MaterialId(0)));
    assert_eq!(init.serialize_mesh(100), Some(MeshId(0)));
    assert_eq!(init.serialize_mat(300), Some(MaterialId(1)));
    assert_eq!(init.serialize_image(100).unwrap().get(), 1);
    assert_eq!(init.serialize_image(7).unwrap().get(), 2);
    assert_eq!(init.serialize_image(100).unwrap().get(), 1);
    assert_eq!(init.mesh_ids.len(), 2);
    assert_eq!(init.mat_ids.len(), 2);
    assert_eq!(init.image_ids.len(), 2);
}
