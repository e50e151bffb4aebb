//! Identifiers for the meshes, materials and images of a scene, handed out in
//! the order in which their handles are first met.
//!
//! A handle is known here by a number: handles that are the same have the same
//! number, and no others do.
use vstd::prelude::*;
use crate::fast::{ImageId, MaterialId, MeshId};

verus! {

// -------------------------------------
//            THE HASH MAP
// -------------------------------------
/// The identifiers that were handed out, by the number of the handle, in the
/// hash map of `bevy::utils`.
#[verifier::external_body]
pub struct HandleIds {
    ids: bevy::utils::HashMap<u128, u32>,
}

/// What the hash map holds: the identifier of each handle that has one.
pub uninterp spec fn ids_of(map: HandleIds) -> Map<u128, u32>;

/// No identifiers.
pub open spec fn no_ids() -> Map<u128, u32> {
    Map::empty()
}

/// `HashMap::default`: a map that holds nothing.
#[verifier::external_body]
fn ids_new() -> (ids: HandleIds)
    ensures
        ids_of(ids) == no_ids(),
{
    HandleIds { ids: bevy::utils::HashMap::default() }
}

/// `HashMap::len`: how many handles have an identifier.
#[verifier::external_body]
fn ids_len(map: &HandleIds) -> (len: usize)
    ensures
        len == ids_of(*map).dom().len(),
{
    map.ids.len()
}

/// `HashMap::get`: the identifier that `key` has in the map, if it has one.
#[verifier::external_body]
fn ids_get(map: &HandleIds, key: u128) -> (id: Option<u32>)
    ensures
        id == (if ids_of(*map).contains_key(key) {
            Some(ids_of(*map)[key])
        } else {
            None
        }),
{
    map.ids.get(&key).copied()
}

/// `HashMap::entry` with `Entry::or_insert`: the identifier that `key` has in
/// the map, which is left as it was; or, where `key` has none, `fresh`, which
/// the map then holds for `key` beside all it held.
#[verifier::external_body]
fn ids_or_insert(map: &mut HandleIds, key: u128, fresh: u32) -> (id: u32)
    ensures
        ids_of(*old(map)).contains_key(key) ==> {
            &&& id == ids_of(*old(map))[key]
            &&& ids_of(*final(map)) == ids_of(*old(map))
        },
        !ids_of(*old(map)).contains_key(key) ==> {
            &&& id == fresh
            &&& ids_of(*final(map)) == ids_of(*old(map)).insert(key, fresh)
        },
{
    *map.ids.entry(key).or_insert(fresh)
}

// -------------------------------------
//           ONE KIND OF HANDLE
// -------------------------------------
/// Whether the identifiers are the numbers from 0 up to their count, each
/// handed out once.
pub open spec fn dense(ids: Map<u128, u32>) -> bool {
    &&& ids.dom().finite()
    &&& forall|key: u128| ids.contains_key(key) ==> #[trigger] ids[key] < ids.dom().len()
    &&& forall|one: u128, other: u128|
        ids.contains_key(one) && ids.contains_key(other) && one != other ==> #[trigger] ids[one]
            != #[trigger] ids[other]
}

/// The identifiers of the handles of one kind.
pub struct Interner {
    ids: HandleIds,
}

impl View for Interner {
    type V = Map<u128, u32>;

    closed spec fn view(&self) -> Map<u128, u32> {
        ids_of(self.ids)
    }
}

impl Interner {
    /// No handle has an identifier yet.
    pub fn new() -> (r: Self)
        ensures
            r@ == no_ids(),
            dense(r@),
    {
        let ids = ids_new();
        Interner { ids }
    }

    /// How many handles have an identifier.
    pub fn len(&self) -> (len: usize)
        ensures
            len == self@.dom().len(),
    {
        ids_len(&self.ids)
    }

    /// The identifier that the handle with the number `key` has, if it has one.
    pub fn lookup(&self, key: u128) -> (r: Option<u32>)
        ensures
            r == (if self@.contains_key(key) {
                Some(self@[key])
            } else {
                None
            }),
    {
        ids_get(&self.ids, key)
    }

    /// The identifier of the handle with the number `key`: the one it has, or,
    /// when it is met for the first time, the next number, which it has from
    /// then on. None, and nothing changed, where the next number is more than an
    /// identifier can hold.
    pub fn serialize(&mut self, key: u128) -> (r: Option<u32>)
        requires
            dense(old(self)@),
        ensures
            dense(final(self)@),
            old(self)@.contains_key(key) ==> {
                &&& r == Some(old(self)@[key])
                &&& final(self)@ == old(self)@
            },
            !old(self)@.contains_key(key) && old(self)@.dom().len() <= u32::MAX ==> {
                &&& r == Some(old(self)@.dom().len() as u32)
                &&& final(self)@ == old(self)@.insert(key, old(self)@.dom().len() as u32)
            },
            !old(self)@.contains_key(key) && old(self)@.dom().len() > u32::MAX ==> {
                &&& r is None
                &&& final(self)@ == old(self)@
            },
    {
        let count: usize = ids_len(&self.ids);
        if count > u32::MAX as usize {
            // every identifier is taken: only a handle that has one can be
            // answered, and the map must not store a number for one that has
            // none
            return self.lookup(key);
        }
        let ghost before = self@;
        let id: u32 = ids_or_insert(&mut self.ids, key, count as u32);
        proof {
            if !before.contains_key(key) {
                lemma_dense_insert(before, key);
            }
        }
        Some(id)
    }
}

/// Identifiers that are dense stay so when a handle without one gets the next
/// number.
proof fn lemma_dense_insert(ids: Map<u128, u32>, key: u128)
    requires
        dense(ids),
        !ids.contains_key(key),
        ids.dom().len() <= u32::MAX,
    ensures
        dense(ids.insert(key, ids.dom().len() as u32)),
{
    let fresh = ids.dom().len() as u32;
    let more = ids.insert(key, fresh);
    assert(more.dom() =~= ids.dom().insert(key));
    assert forall|k: u128| more.contains_key(k) implies #[trigger] more[k] < more.dom().len() by {
        if k != key {
            assert(ids.contains_key(k));
            assert(ids[k] < ids.dom().len());
        }
    }
    assert forall|one: u128, other: u128|
        more.contains_key(one) && more.contains_key(other) && one != other implies #[trigger] more[one]
        != #[trigger] more[other] by {
        if one != key && other != key {
            assert(ids.contains_key(one) && ids.contains_key(other));
        } else if one == key {
            assert(ids.contains_key(other));
            assert(ids[other] < ids.dom().len());
        } else {
            assert(ids.contains_key(one));
            assert(ids[one] < ids.dom().len());
        }
    }
}

// -------------------------------------
//        THE HANDLES OF A SCENE
// -------------------------------------
/// The identifiers of the materials, the meshes and the images of one scene.
pub struct InitEntity {
    pub mat_ids: Interner,
    pub mesh_ids: Interner,
    pub image_ids: Interner,
}

/// What `serialize` answers for `key` with the identifiers `ids`: the number
/// that the handle has, or the next number, or none where that is more than an
/// identifier can hold.
pub open spec fn answer(ids: Map<u128, u32>, key: u128) -> Option<u32> {
    if ids.contains_key(key) {
        Some(ids[key])
    } else if ids.dom().len() <= u32::MAX {
        Some(ids.dom().len() as u32)
    } else {
        None
    }
}

/// The identifiers after `serialize` answered for `key`: with the handle's new
/// number where it got one, and else as they were.
pub open spec fn answered(ids: Map<u128, u32>, key: u128) -> Map<u128, u32> {
    if !ids.contains_key(key) && ids.dom().len() <= u32::MAX {
        ids.insert(key, ids.dom().len() as u32)
    } else {
        ids
    }
}

impl InitEntity {
    /// Whether the identifiers of each kind are the numbers from 0 up to their
    /// count, each handed out once.
    pub open spec fn wf(&self) -> bool {
        dense(self.mat_ids@) && dense(self.mesh_ids@) && dense(self.image_ids@)
    }

    /// No handle has an identifier yet.
    pub fn new() -> (r: Self)
        ensures
            r.wf(),
            r.mat_ids@ == no_ids(),
            r.mesh_ids@ == no_ids(),
            r.image_ids@ == no_ids(),
    {
        InitEntity { mat_ids: Interner::new(), mesh_ids: Interner::new(), image_ids: Interner::new() }
    }

    /// The identifier of the material whose handle has the number `mat`.
    pub fn serialize_mat(&mut self, mat: u128) -> (r: Option<MaterialId>)
        requires
            old(self).wf(),
        ensures
            final(self).wf(),
            final(self).mat_ids@ == answered(old(self).mat_ids@, mat),
            final(self).mesh_ids@ == old(self).mesh_ids@,
            final(self).image_ids@ == old(self).image_ids@,
            match answer(old(self).mat_ids@, mat) {
                Some(id) => r == Some(MaterialId(id)),
                None => r is None,
            },
    {
        match self.mat_ids.serialize(mat) {
            Some(id) => Some(MaterialId::new(id)),
            None => None,
        }
    }

    /// The identifier of the mesh whose handle has the number `mesh`.
    pub fn serialize_mesh(&mut self, mesh: u128) -> (r: Option<MeshId>)
        requires
            old(self).wf(),
        ensures
            final(self).wf(),
            final(self).mesh_ids@ == answered(old(self).mesh_ids@, mesh),
            final(self).mat_ids@ == old(self).mat_ids@,
            final(self).image_ids@ == old(self).image_ids@,
            match answer(old(self).mesh_ids@, mesh) {
                Some(id) => r == Some(MeshId(id)),
                None => r is None,
            },
    {
        match self.mesh_ids.serialize(mesh) {
            Some(id) => Some(MeshId::new(id)),
            None => None,
        }
    }

    /// The identifier of the image whose handle has the number `image`.
    pub fn serialize_image(&mut self, image: u128) -> (r: Option<ImageId>)
        requires
            old(self).wf(),
        ensures
            final(self).wf(),
            final(self).image_ids@ == answered(old(self).image_ids@, image),
            final(self).mat_ids@ == old(self).mat_ids@,
            final(self).mesh_ids@ == old(self).mesh_ids@,
            match answer(old(self).image_ids@, image) {
                Some(id) => r is Some && r->Some_0.number() == if id < u32::MAX {
                    id + 1
                } else {
                    u32::MAX as int
                },
                None => r is None,
            },
    {
        match self.image_ids.serialize(image) {
            Some(id) => Some(ImageId::new(id)),
            None => None,
        }
    }
}

} // verus!
