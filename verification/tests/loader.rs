use bvyfst_hollow_scene::loader::{
    entry_verdict, next_stage, same_bytes, scene_name, scene_verdict, Format, LoadError, Stage,
};
use bvyfst_hollow_scene::version::Error;

#[test]
fn entries_come_in_order() {
    assert_eq!(next_stage(Stage::Scene, Some(b"scene_v00001")).unwrap(), Some(Stage::Meshes));
    assert_eq!(next_stage(Stage::Meshes, Some(b"meshes")).unwrap(), Some(Stage::Images));
    assert_eq!(next_stage(Stage::Images, Some(b"images")).unwrap(), None);
}

#[test]
fn file_that_ends_early_is_refused() {
    assert!(matches!(next_stage(Stage::Meshes, None), Err(LoadError::OnlyScene)));
    assert!(matches!(next_stage(Stage::Images, None), Err(LoadError::NoImages)));
}

#[test]
fn wrong_entry_is_named() {
    match next_stage(Stage::Meshes, Some(b"images")) {
        Err(LoadError::WrongFile { expected, got }) => {
            assert_eq!(expected, "meshes");
            assert_eq!(got, "images");
        },
        _ => panic!("expected WrongFile"),
    }
    match next_stage(Stage::Images, Some(b"meshes")) {
        Err(LoadError::WrongFile { expected, got }) => {
            assert_eq!(expected, "images");
            assert_eq!(got, "meshes");
        },
        _ => panic!("expected WrongFile"),
    }
    match next_stage(Stage::Scene, Some(b"meshes")) {
        Err(LoadError::WrongFile { expected, got }) => {
            assert_eq!(expected, "scene_v00001");
            assert_eq!(got, "meshes");
        },
        _ => panic!("expected WrongFile"),
    }
    assert!(matches!(
        next_stage(Stage::Meshes, Some(b"meshes ")),
        Err(LoadError::WrongFile { .. })
    ));
    assert!(matches!(next_stage(Stage::Meshes, Some(b"")), Err(LoadError::WrongFile { .. })));
}

#[test]
fn name_that_is_no_text_is_shown_with_replacements() {
    match next_stage(Stage::Meshes, Some(b"mesh\xffes")) {
        Err(LoadError::WrongFile { expected, got }) => {
            assert_eq!(expected, "meshes");
            assert_eq!(got, "mesh\u{fffd}es");
        },
        _ => panic!("expected WrongFile"),
    }
}

#[test]
fn scene_of_another_version_is_refused() {
    assert!(matches!(
        next_stage(Stage::Scene, Some(b"scene_v00002")),
        Err(LoadError::IncompatibleVersion(2))
    ));
    assert!(matches!(
        next_stage(Stage::Scene, Some(b"scene_v1")),
        Err(LoadError::InvalidVersion(Error::NotDigit(_)))
    ));
    assert!(matches!(
        next_stage(Stage::Scene, Some(b"scene_v")),
        Err(LoadError::InvalidVersion(Error::NotDigit(_)))
    ));
    assert!(matches!(
        next_stage(Stage::Scene, Some(b"scene_v000\xff1")),
        Err(LoadError::InvalidVersion(Error::NotUtf8))
    ));
    assert!(matches!(
        next_stage(Stage::Scene, Some(b"scene_v+0001")),
        Err(LoadError::IncompatibleVersion(1))
    ));
}

#[test]
fn verdict_takes_the_text_as_given() {
    assert!(scene_verdict(b"scene_v00001", String::from("anything")).is_ok());
    match scene_verdict(b"scene", String::from("shown")) {
        Err(LoadError::WrongFile { expected, got }) => {
            assert_eq!(expected, "scene_v00001");
            assert_eq!(got, "shown");
        },
        _ => panic!("expected WrongFile"),
    }
    match entry_verdict(Stage::Images, Some(b"nope"), String::from("shown")) {
        Err(LoadError::WrongFile { expected, got }) => {
            assert_eq!(expected, "images");
            assert_eq!(got, "shown");
        },
        _ => panic!("expected WrongFile"),
    }
    assert_eq!(scene_name(), "scene_v00001");
}

#[test]
fn format_by_extension() {
    assert_eq!(Format::of_extension(b"hollow_bvyfst"), Some(Format::Fast));
    assert_eq!(Format::of_extension(b"myscn"), Some(Format::Dynamic));
    assert_eq!(Format::of_extension(b"ron"), Some(Format::Dynamic));
    assert_eq!(Format::of_extension(b"myscn.ron"), None);
    assert_eq!(Format::of_extension(b""), None);
    assert_eq!(Format::of_extension(b"hollow_bvyfsT"), None);
    assert!(same_bytes(b"abc", b"abc"));
    assert!(!same_bytes(b"abc", b"abd"));
    assert!(!same_bytes(b"abc", b"ab"));
}
