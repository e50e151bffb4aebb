//! The fixed-layout records of materials and the identifiers that refer from a
//! scene to its meshes, materials and images.
use vstd::prelude::*;

verus! {

// -------------------------------------
//           MATERIAL FLAGS
// -------------------------------------
/// The bit of `MaterialFlags` that says that the normal map's Y axis is flipped.
pub const FLIP_NORMAL_MAP_Y: u16 = 0b0001;

/// The bit of `MaterialFlags` that says that both sides are lit.
pub const DOUBLE_SIDED: u16 = 0b0010;

/// The bit of `MaterialFlags` that says that no lighting applies.
pub const UNLIT: u16 = 0b0100;

/// The bit of `MaterialFlags` that says that fog applies.
pub const FOG_ENABLED: u16 = 0b1000;

/// The lowest of the three bits that hold the alpha mode.
pub const ALPHA_START_BIT: u16 = 4;

/// The lower of the two bits that hold the culled face.
pub const FACE_START_BIT: u16 = 7;

/// The bits that hold the alpha mode.
pub const ALPHA_MASK: u16 = 0b111_0000;

/// The bits that hold the culled face.
pub const FACE_MASK: u16 = 0b1_1000_0000;

/// How the alpha channel of a material is used. A mask's threshold is kept
/// beside the flags, not in them.
#[derive(Debug, Clone, Copy, PartialEq, Eq, Structural)]
pub enum AlphaMode {
    Opaque,
    Mask,
    Blend,
    Premultiplied,
    Add,
    Multiply,
}

/// A side of a surface.
#[derive(Debug, Clone, Copy, PartialEq, Eq, Structural)]
pub enum Face {
    Front,
    Back,
}

/// The flags hold a number that stands for nothing.
#[derive(Debug, Clone, Copy, PartialEq, Eq, Structural)]
pub struct Malformed;

/// The switches of a material, its alpha mode and its culled face, packed into
/// sixteen bits.
#[derive(Debug, Clone, Copy, PartialEq, Eq, Structural)]
pub struct MaterialFlags(pub u16);

/// The flags as they are read from an archive, which stores them as they are.
pub type ArchivedMaterialFlags = MaterialFlags;

impl ArchivedMaterialFlags {
    /// The number in the three bits of the alpha mode.
    pub open spec fn alpha_bits(&self) -> u16 {
        (self.0 & ALPHA_MASK) >> ALPHA_START_BIT
    }

    /// The number in the two bits of the culled face.
    pub open spec fn face_bits(&self) -> u16 {
        (self.0 & FACE_MASK) >> FACE_START_BIT
    }

    /// Whether the normal map's Y axis is flipped.
    pub fn flip_normal_map_y(&self) -> (b: bool)
        ensures
            b == (self.0 & FLIP_NORMAL_MAP_Y != 0),
    {
        self.0 & FLIP_NORMAL_MAP_Y != 0
    }

    /// Whether both sides are lit.
    pub fn double_sided(&self) -> (b: bool)
        ensures
            b == (self.0 & DOUBLE_SIDED != 0),
    {
        self.0 & DOUBLE_SIDED != 0
    }

    /// Whether no lighting applies.
    pub fn unlit(&self) -> (b: bool)
        ensures
            b == (self.0 & UNLIT != 0),
    {
        self.0 & UNLIT != 0
    }

    /// Whether fog applies.
    pub fn fog_enabled(&self) -> (b: bool)
        ensures
            b == (self.0 & FOG_ENABLED != 0),
    {
        self.0 & FOG_ENABLED != 0
    }

    /// The alpha mode that the flags hold, if their number stands for one.
    pub fn alpha_mode(&self) -> (r: Result<AlphaMode, Malformed>)
        ensures
            r == (if self.alpha_bits() == 0 {
                Ok::<AlphaMode, Malformed>(AlphaMode::Opaque)
            } else if self.alpha_bits() == 1 {
                Ok(AlphaMode::Mask)
            } else if self.alpha_bits() == 2 {
                Ok(AlphaMode::Blend)
            } else if self.alpha_bits() == 3 {
                Ok(AlphaMode::Premultiplied)
            } else if self.alpha_bits() == 4 {
                Ok(AlphaMode::Add)
            } else if self.alpha_bits() == 5 {
                Ok(AlphaMode::Multiply)
            } else {
                Err(Malformed)
            }),
    {
        let bits: u16 = (self.0 & ALPHA_MASK) >> ALPHA_START_BIT;
        if bits == 0 {
            Ok(AlphaMode::Opaque)
        } else if bits == 1 {
            Ok(AlphaMode::Mask)
        } else if bits == 2 {
            Ok(AlphaMode::Blend)
        } else if bits == 3 {
            Ok(AlphaMode::Premultiplied)
        } else if bits == 4 {
            Ok(AlphaMode::Add)
        } else if bits == 5 {
            Ok(AlphaMode::Multiply)
        } else {
            Err(Malformed)
        }
    }

    /// The face that is culled, none where no face is, if the number in the
    /// flags stands for either.
    pub fn cull_mode(&self) -> (r: Result<Option<Face>, Malformed>)
        ensures
            r == (if self.face_bits() == 0 {
                Ok::<Option<Face>, Malformed>(None)
            } else if self.face_bits() == 1 {
                Ok(Some(Face::Front))
            } else if self.face_bits() == 3 {
                Ok(Some(Face::Back))
            } else {
                Err(Malformed)
            }),
    {
        let bits: u16 = (self.0 & FACE_MASK) >> FACE_START_BIT;
        if bits == 0 {
            Ok(None)
        } else if bits == 1 {
            Ok(Some(Face::Front))
        } else if bits == 3 {
            Ok(Some(Face::Back))
        } else {
            Err(Malformed)
        }
    }
}

// -------------------------------------
//          OTHER MATERIAL PARTS
// -------------------------------------
/// How the depth map of a material is applied.
#[derive(Debug, Clone, Copy, PartialEq, Eq, Structural)]
pub enum ParallaxMappingMethod {
    Occlusion,
    Relief { relief: u16 },
}

impl ParallaxMappingMethod {
    /// The largest number of steps of relief mapping; none for occlusion
    /// mapping, which has no steps.
    pub fn max_steps(&self) -> (r: Option<u32>)
        ensures
            r == (match *self {
                ParallaxMappingMethod::Occlusion => None::<u32>,
                ParallaxMappingMethod::Relief { relief } => Some(relief as u32),
            }),
    {
        match *self {
            ParallaxMappingMethod::Occlusion => None,
            ParallaxMappingMethod::Relief { relief } => Some(relief as u32),
        }
    }
}

/// A colour as red, green, blue and alpha, eight bits each.
#[derive(Debug, Clone, Copy)]
pub struct Color(pub [u8; 4]);

impl Color {
    /// Red, green, blue and alpha.
    pub fn rgba(&self) -> (r: (u8, u8, u8, u8))
        ensures
            r == (self.0[0], self.0[1], self.0[2], self.0[3]),
    {
        (self.0[0], self.0[1], self.0[2], self.0[3])
    }
}

// -------------------------------------
//             IDENTIFIERS
// -------------------------------------
/// The position of a mesh among the meshes of a scene.
#[derive(Debug, Clone, Copy, PartialEq, Eq, Structural)]
pub struct MeshId(pub u32);

/// The identifier as it is read from an archive.
pub type ArchivedMeshId = MeshId;

impl ArchivedMeshId {
    /// The identifier of the mesh at `index`.
    pub fn new(index: u32) -> (r: Self)
        ensures
            r.0 == index,
    {
        MeshId(index)
    }

    /// The handle of the mesh among `handles`, which are the handles of all the
    /// meshes of the scene that the identifier is from.
    pub fn pick<'a, T>(&self, handles: &'a [T]) -> (r: &'a T)
        requires
            self.0 < handles@.len(),
        ensures
            *r == handles@[self.0 as int],
    {
        &handles[self.0 as usize]
    }
}

/// The position of a material among the materials of a scene.
#[derive(Debug, Clone, Copy, PartialEq, Eq, Structural)]
pub struct MaterialId(pub u32);

/// The identifier as it is read from an archive.
pub type ArchivedMaterialId = MaterialId;

impl ArchivedMaterialId {
    /// The identifier of the material at `index`.
    pub fn new(index: u32) -> (r: Self)
        ensures
            r.0 == index,
    {
        MaterialId(index)
    }

    /// The handle of the material among `handles`, which are the handles of all
    /// the materials of the scene that the identifier is from.
    pub fn pick<'a, T>(&self, handles: &'a [T]) -> (r: &'a T)
        requires
            self.0 < handles@.len(),
        ensures
            *r == handles@[self.0 as int],
    {
        &handles[self.0 as usize]
    }
}

/// The position of an image among the images of a scene, stored as one more
/// than the position so that zero is free to stand for no image.
#[derive(Debug, Clone, Copy)]
pub struct ImageId {
    number: u32,
}

/// The identifier as it is read from an archive.
pub type ArchivedImageId = ImageId;

impl ImageId {
    #[verifier::type_invariant]
    spec fn nonzero(self) -> bool {
        self.number >= 1
    }

    /// The number that is stored: one more than the position.
    pub closed spec fn number(&self) -> u32 {
        self.number
    }

    /// The identifier of the image at `index`. The last position that a `u32`
    /// can express shares its identifier with the one before it.
    pub fn new(index: u32) -> (r: Self)
        ensures
            r.number() == if index < u32::MAX {
                index + 1
            } else {
                u32::MAX as int
            },
    {
        let number: u32 = if index < u32::MAX {
            index + 1
        } else {
            u32::MAX
        };
        ImageId { number }
    }

    /// The identifier that is stored as `number`, if it is one: zero is none.
    pub fn from_number(number: u32) -> (r: Option<Self>)
        ensures
            number == 0 ==> r is None,
            number != 0 ==> r is Some && r->Some_0.number() == number,
    {
        if number == 0 {
            None
        } else {
            Some(ImageId { number })
        }
    }

    /// The number that is stored: one more than the position.
    pub fn get(&self) -> (r: u32)
        ensures
            r == self.number(),
            r >= 1,
    {
        proof {
            use_type_invariant(self);
        }
        self.number
    }

    /// The handle of the image among `handles`, which are the handles of all the
    /// images of the scene that the identifier is from.
    pub fn pick<'a, T>(&self, handles: &'a [T]) -> (r: &'a T)
        requires
            self.number() <= handles@.len(),
        ensures
            self.number() >= 1,
            *r == handles@[self.number() - 1],
    {
        proof {
            use_type_invariant(self);
        }
        &handles[(self.number - 1) as usize]
    }
}

} // verus!
