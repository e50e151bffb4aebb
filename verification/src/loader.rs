//! The order of the entries of an archive file: the scene, named with its
//! version, then the meshes, then the images.
use vstd::prelude::*;
use vstd::string::StringExecFns;
use vstd::utf8::{decode_utf8, valid_utf8};
use crate::version::{
    padded, push_padded, refusal_of, represents, version_of, Version, CURRENT, DIGIT_COUNT,
};

verus! {

/// Why an archive file could not be loaded.
#[derive(Debug)]
pub enum LoadError {
    /// The scene was written in another version of the format.
    IncompatibleVersion(u16),
    /// The name of the scene does not end in a version.
    InvalidVersion(crate::version::Error),
    /// The file ends after the scene.
    OnlyScene,
    /// The file ends after the meshes.
    NoImages,
    /// An entry has another name than the one that is due.
    WrongFile { expected: String, got: String },
}

/// The entry that is due next.
#[derive(Debug, Clone, Copy, PartialEq, Eq, Structural)]
pub enum Stage {
    Scene,
    Meshes,
    Images,
}

/// `scene_v`, with which the name of the scene starts.
pub open spec fn scene_prefix() -> Seq<u8> {
    seq![115u8, 99u8, 101u8, 110u8, 101u8, 95u8, 118u8]
}

/// `meshes`, the name of the meshes.
pub open spec fn meshes_name() -> Seq<u8> {
    seq![109u8, 101u8, 115u8, 104u8, 101u8, 115u8]
}

/// `images`, the name of the images.
pub open spec fn images_name() -> Seq<u8> {
    seq![105u8, 109u8, 97u8, 103u8, 101u8, 115u8]
}

/// Whether `name` starts with `prefix`.
pub open spec fn starts_with(name: Seq<u8>, prefix: Seq<u8>) -> bool {
    prefix.len() <= name.len() && name.subrange(0, prefix.len() as int) == prefix
}

/// The text that stands for a name in a message when the name may not be UTF-8:
/// what `String::from_utf8_lossy` makes of the bytes.
pub uninterp spec fn lossy_text(bytes: Seq<u8>) -> Seq<char>;

/// `String::from_utf8_lossy`, made a `String`: the name as text, with a
/// replacement character wherever the bytes are not UTF-8. Where they all are,
/// it is the text that they encode.
#[verifier::external_body]
fn err_string(identifier: &[u8]) -> (text: String)
    ensures
        text@ == lossy_text(identifier@),
        valid_utf8(identifier@) ==> text@ == decode_utf8(identifier@),
{
    String::from_utf8_lossy(identifier).into_owned()
}

fn is_scene_name(name: &[u8]) -> (b: bool)
    ensures
        b == starts_with(name@, scene_prefix()),
{
    let b: bool = name.len() >= 7 && name[0] == 115 && name[1] == 99 && name[2] == 101 && name[3]
        == 110 && name[4] == 101 && name[5] == 95 && name[6] == 118;
    proof {
        if b {
            assert(name@.subrange(0, 7) =~= scene_prefix());
        } else if name@.len() >= 7 {
            let head = name@.subrange(0, 7);
            assert(head[0] == name@[0] && head[1] == name@[1] && head[2] == name@[2] && head[3]
                == name@[3] && head[4] == name@[4] && head[5] == name@[5] && head[6] == name@[6]);
        }
    }
    b
}

fn is_meshes_name(name: &[u8]) -> (b: bool)
    ensures
        b == (name@ == meshes_name()),
{
    let b: bool = name.len() == 6 && name[0] == 109 && name[1] == 101 && name[2] == 115 && name[3]
        == 104 && name[4] == 101 && name[5] == 115;
    proof {
        if b {
            assert(name@ =~= meshes_name());
        }
    }
    b
}

fn is_images_name(name: &[u8]) -> (b: bool)
    ensures
        b == (name@ == images_name()),
{
    let b: bool = name.len() == 6 && name[0] == 105 && name[1] == 109 && name[2] == 97 && name[3]
        == 103 && name[4] == 101 && name[5] == 115;
    proof {
        if b {
            assert(name@ =~= images_name());
        }
    }
    b
}

/// The name that the scene of the current version has: `scene_v` and the
/// digits of the version.
pub fn scene_name() -> (text: String)
    ensures
        text@ == "scene_v"@ + padded(CURRENT as nat, DIGIT_COUNT as nat),
{
    let mut text: String = String::from_str("scene_v");
    push_padded(&mut text, CURRENT);
    text
}

/// Whether the entry named `name` is the scene in the current version, with
/// `got` as the text that stands for the name in a message.
///
/// A name that does not start with `scene_v` is the wrong file. One that does,
/// and does not end in the digits of the current version, is of another version
/// where it ends in a number, and of no version where it does not.
pub fn scene_verdict(name: &[u8], got: String) -> (r: Result<(), LoadError>)
    ensures
        !starts_with(name@, scene_prefix()) ==> {
            &&& r is Err
            &&& r->Err_0 is WrongFile
            &&& r->Err_0->WrongFile_expected@ == "scene_v"@ + padded(
                CURRENT as nat,
                DIGIT_COUNT as nat,
            )
            &&& r->Err_0->WrongFile_got == got
        },
        starts_with(name@, scene_prefix()) && represents(
            CURRENT as nat,
            name@.subrange(name@.len() - DIGIT_COUNT, name@.len() as int),
        ) ==> r is Ok,
        starts_with(name@, scene_prefix()) && !represents(
            CURRENT as nat,
            name@.subrange(name@.len() - DIGIT_COUNT, name@.len() as int),
        ) ==> {
            &&& r is Err
            &&& match version_of(name@) {
                Some(version) => r->Err_0 == LoadError::IncompatibleVersion(version),
                None => r->Err_0 is InvalidVersion && refusal_of(
                    r->Err_0->InvalidVersion_0,
                    name@,
                ),
            }
        },
{
    if !is_scene_name(name) {
        return Err(LoadError::WrongFile { expected: scene_name(), got });
    }
    if !Version::current().digits_represents(name) {
        return match Version::get_version_slice(name) {
            Ok(actual_version) => Err(LoadError::IncompatibleVersion(actual_version)),
            Err(e) => Err(LoadError::InvalidVersion(e)),
        };
    }
    Ok(())
}

/// What follows from the entry that was found where `stage` was due, with
/// `got` as the text that stands for its name in a message: the entry that is
/// due after it, none after the last, or the reason why the file is refused.
pub fn entry_verdict(stage: Stage, identifier: Option<&[u8]>, got: String) -> (r: Result<
    Option<Stage>,
    LoadError,
>)
    requires
        stage == Stage::Scene ==> identifier is Some,
    ensures
        stage == Stage::Scene ==> match scene_verdict_of(identifier->Some_0@) {
            Verdict::Accepted => r is Ok && r->Ok_0 == Some(Stage::Meshes),
            Verdict::WrongFile => {
                &&& r is Err
                &&& r->Err_0 is WrongFile
                &&& r->Err_0->WrongFile_expected@ == "scene_v"@ + padded(
                    CURRENT as nat,
                    DIGIT_COUNT as nat,
                )
                &&& r->Err_0->WrongFile_got == got
            },
            Verdict::Incompatible(version) => r is Err && r->Err_0
                == LoadError::IncompatibleVersion(version),
            Verdict::Invalid => r is Err && r->Err_0 is InvalidVersion && refusal_of(
                r->Err_0->InvalidVersion_0,
                identifier->Some_0@,
            ),
        },
        stage == Stage::Meshes ==> match identifier {
            None => r is Err && r->Err_0 is OnlyScene,
            Some(name) => if name@ == meshes_name() {
                r is Ok && r->Ok_0 == Some(Stage::Images)
            } else {
                &&& r is Err
                &&& r->Err_0 is WrongFile
                &&& r->Err_0->WrongFile_expected@ == "meshes"@
                &&& r->Err_0->WrongFile_got == got
            },
        },
        stage == Stage::Images ==> match identifier {
            None => r is Err && r->Err_0 is NoImages,
            Some(name) => if name@ == images_name() {
                r is Ok && r->Ok_0 == None::<Stage>
            } else {
                &&& r is Err
                &&& r->Err_0 is WrongFile
                &&& r->Err_0->WrongFile_expected@ == "images"@
                &&& r->Err_0->WrongFile_got == got
            },
        },
{
    match stage {
        Stage::Scene => match identifier {
            Some(name) => match scene_verdict(name, got) {
                Ok(()) => Ok(Some(Stage::Meshes)),
                Err(e) => Err(e),
            },
            None => Err(LoadError::OnlyScene),
        },
        Stage::Meshes => match identifier {
            None => Err(LoadError::OnlyScene),
            Some(name) => {
                if is_meshes_name(name) {
                    Ok(Some(Stage::Images))
                } else {
                    Err(LoadError::WrongFile { expected: String::from_str("meshes"), got })
                }
            },
        },
        Stage::Images => match identifier {
            None => Err(LoadError::NoImages),
            Some(name) => {
                if is_images_name(name) {
                    Ok(None)
                } else {
                    Err(LoadError::WrongFile { expected: String::from_str("images"), got })
                }
            },
        },
    }
}

/// What is to be made of the name of a scene.
pub enum Verdict {
    /// It is the scene in the current version.
    Accepted,
    /// It is not a scene.
    WrongFile,
    /// It is a scene in this other version.
    Incompatible(u16),
    /// It is a scene whose name ends in no version.
    Invalid,
}

/// What is to be made of the name of a scene.
pub open spec fn scene_verdict_of(name: Seq<u8>) -> Verdict {
    if !starts_with(name, scene_prefix()) {
        Verdict::WrongFile
    } else if represents(
        CURRENT as nat,
        name.subrange(name.len() - DIGIT_COUNT, name.len() as int),
    ) {
        Verdict::Accepted
    } else {
        match version_of(name) {
            Some(version) => Verdict::Incompatible(version),
            None => Verdict::Invalid,
        }
    }
}

/// What a file of a scene holds, as its extension tells.
#[derive(Debug, Clone, Copy, PartialEq, Eq, Structural)]
pub enum Format {
    /// An archive of this library.
    Fast,
    /// A scene in text.
    Dynamic,
}

/// `hollow_bvyfst`, the extension of an archive.
pub open spec fn fast_extension() -> Seq<u8> {
    seq![104u8, 111u8, 108u8, 108u8, 111u8, 119u8, 95u8, 98u8, 118u8, 121u8, 102u8, 115u8, 116u8]
}

/// `myscn`, an extension of a scene in text.
pub open spec fn scene_extension() -> Seq<u8> {
    seq![109u8, 121u8, 115u8, 99u8, 110u8]
}

/// `ron`, an extension of a scene in text.
pub open spec fn ron_extension() -> Seq<u8> {
    seq![114u8, 111u8, 110u8]
}

/// Whether two runs of bytes are the same.
pub fn same_bytes(left: &[u8], right: &[u8]) -> (b: bool)
    ensures
        b == (left@ == right@),
{
    if left.len() != right.len() {
        return false;
    }
    let mut i: usize = 0;
    while i < left.len()
        invariant
            left@.len() == right@.len(),
            i <= left@.len(),
            forall|k: int| 0 <= k < i ==> left@[k] == right@[k],
        decreases left@.len() - i,
    {
        if left[i] != right[i] {
            return false;
        }
        i = i + 1;
    }
    assert(left@ =~= right@);
    true
}

impl Format {
    /// What a file with this extension holds, if it is a scene at all.
    pub fn of_extension(extension: &[u8]) -> (r: Option<Format>)
        ensures
            r == (if extension@ == fast_extension() {
                Some(Format::Fast)
            } else if extension@ == scene_extension() || extension@ == ron_extension() {
                Some(Format::Dynamic)
            } else {
                None
            }),
    {
        let fast: [u8; 13] = [104, 111, 108, 108, 111, 119, 95, 98, 118, 121, 102, 115, 116];
        let scene: [u8; 5] = [109, 121, 115, 99, 110];
        let ron: [u8; 3] = [114, 111, 110];
        proof {
            assert(fast@ =~= fast_extension());
            assert(scene@ =~= scene_extension());
            assert(ron@ =~= ron_extension());
        }
        if same_bytes(extension, fast.as_slice()) {
            Some(Format::Fast)
        } else if same_bytes(extension, scene.as_slice()) || same_bytes(extension, ron.as_slice()) {
            Some(Format::Dynamic)
        } else {
            None
        }
    }
}

/// What follows from the entry that was found where `stage` was due: the entry
/// that is due after it, none after the last, or the reason why the file is
/// refused. `identifier` is the name of the entry, or none at the end of the
/// file.
pub fn next_stage(stage: Stage, identifier: Option<&[u8]>) -> (r: Result<Option<Stage>, LoadError>)
    requires
        stage == Stage::Scene ==> identifier is Some,
    ensures
        stage == Stage::Scene ==> match scene_verdict_of(identifier->Some_0@) {
            Verdict::Accepted => r is Ok && r->Ok_0 == Some(Stage::Meshes),
            Verdict::WrongFile => {
                &&& r is Err
                &&& r->Err_0 is WrongFile
                &&& r->Err_0->WrongFile_expected@ == "scene_v"@ + padded(
                    CURRENT as nat,
                    DIGIT_COUNT as nat,
                )
                &&& r->Err_0->WrongFile_got@ == lossy_text(identifier->Some_0@)
            },
            Verdict::Incompatible(version) => r is Err && r->Err_0
                == LoadError::IncompatibleVersion(version),
            Verdict::Invalid => r is Err && r->Err_0 is InvalidVersion && refusal_of(
                r->Err_0->InvalidVersion_0,
                identifier->Some_0@,
            ),
        },
        stage == Stage::Meshes ==> match identifier {
            None => r is Err && r->Err_0 is OnlyScene,
            Some(name) => if name@ == meshes_name() {
                r is Ok && r->Ok_0 == Some(Stage::Images)
            } else {
                &&& r is Err
                &&& r->Err_0 is WrongFile
                &&& r->Err_0->WrongFile_expected@ == "meshes"@
                &&& r->Err_0->WrongFile_got@ == lossy_text(name@)
            },
        },
        stage == Stage::Images ==> match identifier {
            None => r is Err && r->Err_0 is NoImages,
            Some(name) => if name@ == images_name() {
                r is Ok && r->Ok_0 == None::<Stage>
            } else {
                &&& r is Err
                &&& r->Err_0 is WrongFile
                &&& r->Err_0->WrongFile_expected@ == "images"@
                &&& r->Err_0->WrongFile_got@ == lossy_text(name@)
            },
        },
{
    let got: String = match identifier {
        Some(name) => err_string(name),
        None => String::new(),
    };
    entry_verdict(stage, identifier, got)
}

} // verus!
