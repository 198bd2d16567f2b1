//! Plain-value geometry carried over the wire. Coordinates hold the raw bit
//! patterns of the engine's 32-bit float values, so every transform and
//! round trip is exact, bit for bit.

use vstd::prelude::*;

verus! {

/// A 2-D point; each coordinate is the bit pattern of a 32-bit float.
#[derive(Clone, Copy, Debug, PartialEq, Eq, Structural)]
pub struct Pos {
    pub x: u32,
    pub y: u32,
}

/// An sRGBA color, one byte per channel.
#[derive(Clone, Copy, Debug, PartialEq, Eq, Structural)]
pub struct Color {
    pub r: u8,
    pub g: u8,
    pub b: u8,
    pub a: u8,
}

/// An axis-aligned rectangle (used for clip regions and screen bounds).
#[derive(Clone, Copy, Debug, PartialEq, Eq, Structural)]
pub struct Rect {
    pub min: Pos,
    pub max: Pos,
}

/// Identifies the texture a mesh samples from: either one managed by the
/// UI engine's atlas or one supplied by the hosting application.
#[derive(Clone, Copy, Debug, PartialEq, Eq, Structural)]
pub enum TextureId {
    Managed(u64),
    User(u64),
}

/// One mesh vertex: position, texture coordinate, color.
#[derive(Clone, Copy, Debug, PartialEq, Eq, Structural)]
pub struct Vertex {
    pub pos: Pos,
    pub uv: Pos,
    pub color: Color,
}

/// Tessellated triangle-list geometry as the UI engine emits it:
/// an array of vertex structs plus indices, triples forming triangles.
#[derive(Clone, Debug, PartialEq)]
pub struct Mesh {
    pub texture_id: TextureId,
    pub indices: Vec<u32>,
    pub vertices: Vec<Vertex>,
}

/// One draw primitive of the engine. Only meshes cross the wire; any
/// other primitive kind is dropped during projection.
#[derive(Clone, Debug, PartialEq)]
pub enum Primitive {
    Mesh(Mesh),
    Other,
}

/// A draw primitive together with its clip rectangle.
#[derive(Clone, Debug, PartialEq)]
pub struct ClippedPrimitive {
    pub clip_rect: Rect,
    pub primitive: Primitive,
}

/// Mathematical model of a [`Mesh`]: vectors become sequences.
#[verifier::ext_equal]
pub struct MeshModel {
    pub texture_id: TextureId,
    pub indices: Seq<u32>,
    pub vertices: Seq<Vertex>,
}

/// Mathematical model of a [`Primitive`].
#[verifier::ext_equal]
pub enum PrimitiveModel {
    Mesh(MeshModel),
    Other,
}

/// Mathematical model of a [`ClippedPrimitive`].
#[verifier::ext_equal]
pub struct ClippedPrimitiveModel {
    pub clip_rect: Rect,
    pub primitive: PrimitiveModel,
}

pub open spec fn mesh_model(m: Mesh) -> MeshModel {
    MeshModel {
        texture_id: m.texture_id,
        indices: m.indices@,
        vertices: m.vertices@,
    }
}

pub open spec fn primitive_model(p: Primitive) -> PrimitiveModel {
    match p {
        Primitive::Mesh(m) => PrimitiveModel::Mesh(mesh_model(m)),
        Primitive::Other => PrimitiveModel::Other,
    }
}

pub open spec fn clipped_primitive_model(p: ClippedPrimitive) -> ClippedPrimitiveModel {
    ClippedPrimitiveModel {
        clip_rect: p.clip_rect,
        primitive: primitive_model(p.primitive),
    }
}

} // verus!
