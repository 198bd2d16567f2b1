//! The wire-level message set and mesh projection: engine draw output is
//! re-packed into parallel per-vertex arrays for transport (`project`) and
//! reconstructed on the viewer side (`unproject`), exactly and in order.

use vstd::prelude::*;
use crate::geometry::{
    Color, ClippedPrimitive, ClippedPrimitiveModel, Mesh, MeshModel, Pos, Primitive,
    PrimitiveModel, Rect, TextureId, Vertex, clipped_primitive_model, mesh_model,
};
use crate::input::{InputDelta, InputModel, input_model};

verus! {

/// Like [`Mesh`], but optimized for transport over a network: the
/// per-vertex fields are split into parallel arrays, which shrinks and
/// regularizes the encoding.
#[derive(Clone, Debug, PartialEq)]
pub struct NetMesh {
    pub texture_id: TextureId,
    pub indices: Vec<u32>,
    pub pos: Vec<Pos>,
    pub uv: Vec<Pos>,
    pub color: Vec<Color>,
}

/// A [`NetMesh`] together with its clip rectangle.
#[derive(Clone, Debug, PartialEq)]
pub struct ClippedNetMesh {
    pub clip_rect: Rect,
    pub mesh: NetMesh,
}

/// Mathematical model of a [`NetMesh`].
#[verifier::ext_equal]
pub struct NetMeshModel {
    pub texture_id: TextureId,
    pub indices: Seq<u32>,
    pub pos: Seq<Pos>,
    pub uv: Seq<Pos>,
    pub color: Seq<Color>,
}

/// Mathematical model of a [`ClippedNetMesh`].
#[verifier::ext_equal]
pub struct ClippedNetMeshModel {
    pub clip_rect: Rect,
    pub mesh: NetMeshModel,
}

pub open spec fn net_mesh_model(m: NetMesh) -> NetMeshModel {
    NetMeshModel {
        texture_id: m.texture_id,
        indices: m.indices@,
        pos: m.pos@,
        uv: m.uv@,
        color: m.color@,
    }
}

pub open spec fn clipped_net_mesh_model(c: ClippedNetMesh) -> ClippedNetMeshModel {
    ClippedNetMeshModel {
        clip_rect: c.clip_rect,
        mesh: net_mesh_model(c.mesh),
    }
}

pub open spec fn clipped_net_meshes_model(s: Seq<ClippedNetMesh>) -> Seq<ClippedNetMeshModel> {
    s.map_values(|c: ClippedNetMesh| clipped_net_mesh_model(c))
}

pub open spec fn clipped_primitives_model(s: Seq<ClippedPrimitive>) -> Seq<ClippedPrimitiveModel> {
    s.map_values(|p: ClippedPrimitive| clipped_primitive_model(p))
}

/// What projecting one mesh means: indices kept verbatim, the vertex
/// array split into three parallel arrays of equal length.
pub open spec fn net_mesh_of(m: MeshModel) -> NetMeshModel {
    NetMeshModel {
        texture_id: m.texture_id,
        indices: m.indices,
        pos: m.vertices.map_values(|v: Vertex| v.pos),
        uv: m.vertices.map_values(|v: Vertex| v.uv),
        color: m.vertices.map_values(|v: Vertex| v.color),
    }
}

/// What projecting a primitive list means: each mesh primitive becomes a
/// net mesh, in order; every non-mesh primitive is dropped.
pub open spec fn project_model(ps: Seq<ClippedPrimitiveModel>) -> Seq<ClippedNetMeshModel>
    decreases ps.len(),
{
    if ps.len() == 0 {
        Seq::empty()
    } else {
        project_model(ps.drop_last()) + match ps.last().primitive {
            PrimitiveModel::Mesh(m) => seq![
                ClippedNetMeshModel { clip_rect: ps.last().clip_rect, mesh: net_mesh_of(m) },
            ],
            PrimitiveModel::Other => Seq::empty(),
        }
    }
}

/// How many vertices `unproject` reconstructs: the parallel arrays may in
/// principle disagree in length, and pairing stops at the shortest.
pub open spec fn zip_len(n: NetMeshModel) -> int {
    let pu = if n.pos.len() <= n.uv.len() { n.pos.len() as int } else { n.uv.len() as int };
    if pu <= n.color.len() { pu } else { n.color.len() as int }
}

/// What unprojecting one net mesh means: the parallel arrays are zipped
/// back into an array of vertex structs.
pub open spec fn mesh_of_net(n: NetMeshModel) -> MeshModel {
    MeshModel {
        texture_id: n.texture_id,
        indices: n.indices,
        vertices: Seq::new(
            zip_len(n) as nat,
            |i: int| Vertex { pos: n.pos[i], uv: n.uv[i], color: n.color[i] },
        ),
    }
}

/// What unprojecting a net-mesh list means: every entry becomes a mesh
/// primitive again, in order.
pub open spec fn unproject_model(s: Seq<ClippedNetMeshModel>) -> Seq<ClippedPrimitiveModel> {
    s.map_values(|c: ClippedNetMeshModel| ClippedPrimitiveModel {
        clip_rect: c.clip_rect,
        primitive: PrimitiveModel::Mesh(mesh_of_net(c.mesh)),
    })
}

/// Copy a vector of indices element by element.
fn copy_indices(v: &Vec<u32>) -> (r: Vec<u32>)
    ensures
        r@ == v@,
{
    let mut r: Vec<u32> = Vec::new();
    let n = v.len();
    let mut i: usize = 0;
    while i < n
        invariant
            n == v.len(),
            i <= n,
            r@ =~= v@.subrange(0, i as int),
        decreases n - i,
    {
        r.push(v[i]);
        i += 1;
        proof {
            assert(v@.subrange(0, i as int) =~= v@.subrange(0, i - 1).push(v@[i - 1]));
        }
    }
    proof {
        assert(v@.subrange(0, n as int) =~= v@);
    }
    r
}

/// Split a mesh's vertex array into the three parallel arrays.
pub fn net_mesh_from_mesh(m: &Mesh) -> (r: NetMesh)
    ensures
        net_mesh_model(r) == net_mesh_of(mesh_model(*m)),
{
    let mut pos: Vec<Pos> = Vec::new();
    let mut uv: Vec<Pos> = Vec::new();
    let mut color: Vec<Color> = Vec::new();
    let n = m.vertices.len();
    let mut i: usize = 0;
    while i < n
        invariant
            n == m.vertices.len(),
            i <= n,
            pos@ =~= m.vertices@.subrange(0, i as int).map_values(|v: Vertex| v.pos),
            uv@ =~= m.vertices@.subrange(0, i as int).map_values(|v: Vertex| v.uv),
            color@ =~= m.vertices@.subrange(0, i as int).map_values(|v: Vertex| v.color),
        decreases n - i,
    {
        let v = m.vertices[i];
        pos.push(v.pos);
        uv.push(v.uv);
        color.push(v.color);
        i += 1;
        proof {
            assert(m.vertices@.subrange(0, i as int)
                =~= m.vertices@.subrange(0, i - 1).push(v));
        }
    }
    proof {
        assert(m.vertices@.subrange(0, n as int) =~= m.vertices@);
    }
    let r = NetMesh {
        texture_id: m.texture_id,
        indices: copy_indices(&m.indices),
        pos,
        uv,
        color,
    };
    proof {
        assert(net_mesh_model(r) =~= net_mesh_of(mesh_model(*m)));
    }
    r
}

/// Project one primitive: a mesh is re-packed for the wire, anything
/// else yields nothing.
pub fn to_clipped_net_mesh(p: ClippedPrimitive) -> (r: Option<ClippedNetMesh>)
    ensures
        match clipped_primitive_model(p).primitive {
            PrimitiveModel::Mesh(m) => {
                &&& r matches Option::Some(c)
                &&& clipped_net_mesh_model(c) == (ClippedNetMeshModel {
                    clip_rect: p.clip_rect,
                    mesh: net_mesh_of(m),
                })
            },
            PrimitiveModel::Other => r is None,
        },
{
    match &p.primitive {
        Primitive::Mesh(m) => Option::Some(ClippedNetMesh {
            clip_rect: p.clip_rect,
            mesh: net_mesh_from_mesh(m),
        }),
        Primitive::Other => Option::None,
    }
}

/// Project a whole draw list: mesh primitives become net meshes in their
/// original order; non-mesh primitives are dropped and never reappear.
pub fn into_clipped_net_meshes(primitives: Vec<ClippedPrimitive>) -> (r: Vec<ClippedNetMesh>)
    ensures
        clipped_net_meshes_model(r@) == project_model(clipped_primitives_model(primitives@)),
{
    let mut out: Vec<ClippedNetMesh> = Vec::new();
    let n = primitives.len();
    let mut rest = primitives;
    let ghost all = rest@;
    let mut i: usize = 0;
    while i < n
        invariant
            n == all.len(),
            i <= n,
            rest@ =~= all.subrange(i as int, n as int),
            clipped_net_meshes_model(out@)
                =~= project_model(clipped_primitives_model(all.subrange(0, i as int))),
        decreases n - i,
    {
        let ghost prefix = clipped_primitives_model(all.subrange(0, i as int));
        let p = rest.remove(0);
        proof {
            assert(p == all[i as int]);
        }
        let converted = to_clipped_net_mesh(p);
        match converted {
            Option::Some(c) => {
                out.push(c);
            },
            Option::None => {},
        }
        i += 1;
        proof {
            assert(rest@ =~= all.subrange(i as int, n as int));
            let prefix1 = clipped_primitives_model(all.subrange(0, i as int));
            assert(all.subrange(0, i as int).drop_last() =~= all.subrange(0, i - 1));
            assert(prefix1.drop_last() =~= prefix);
            assert(prefix1.last() == clipped_primitive_model(all[i - 1]));
            assert(clipped_net_meshes_model(out@) =~= project_model(prefix1));
        }
    }
    proof {
        assert(all.subrange(0, n as int) =~= all);
    }
    out
}

/// Zip the parallel arrays of a net mesh back into vertex structs,
/// stopping at the shortest array.
pub fn mesh_from_net(n: &NetMesh) -> (r: Mesh)
    ensures
        mesh_model(r) == mesh_of_net(net_mesh_model(*n)),
{
    let pu = if n.pos.len() <= n.uv.len() { n.pos.len() } else { n.uv.len() };
    let k = if pu <= n.color.len() { pu } else { n.color.len() };
    let ghost target = mesh_of_net(net_mesh_model(*n));
    assert(k as int == zip_len(net_mesh_model(*n)));
    let mut vertices: Vec<Vertex> = Vec::new();
    let mut i: usize = 0;
    while i < k
        invariant
            k as int == zip_len(net_mesh_model(*n)),
            target == mesh_of_net(net_mesh_model(*n)),
            i <= k,
            k <= n.pos.len() && k <= n.uv.len() && k <= n.color.len(),
            vertices@ =~= target.vertices.subrange(0, i as int),
        decreases k - i,
    {
        vertices.push(Vertex { pos: n.pos[i], uv: n.uv[i], color: n.color[i] });
        i += 1;
        proof {
            assert(target.vertices.subrange(0, i as int)
                =~= target.vertices.subrange(0, i - 1).push(target.vertices[i - 1]));
        }
    }
    let r = Mesh {
        texture_id: n.texture_id,
        indices: copy_indices(&n.indices),
        vertices,
    };
    proof {
        assert(target.vertices.subrange(0, k as int) =~= target.vertices);
        assert(mesh_model(r) =~= target);
    }
    r
}

/// Unproject one net mesh into a clipped mesh primitive again.
pub fn to_clipped_primitve(m: ClippedNetMesh) -> (r: ClippedPrimitive)
    ensures
        clipped_primitive_model(r) == (ClippedPrimitiveModel {
            clip_rect: m.clip_rect,
            primitive: PrimitiveModel::Mesh(mesh_of_net(net_mesh_model(m.mesh))),
        }),
{
    ClippedPrimitive {
        clip_rect: m.clip_rect,
        primitive: Primitive::Mesh(mesh_from_net(&m.mesh)),
    }
}

/// Unproject a whole received frame's mesh list, in order.
pub fn into_clipped_primitives(meshes: Vec<ClippedNetMesh>) -> (r: Vec<ClippedPrimitive>)
    ensures
        clipped_primitives_model(r@) == unproject_model(clipped_net_meshes_model(meshes@)),
{
    let mut out: Vec<ClippedPrimitive> = Vec::new();
    let n = meshes.len();
    let mut rest = meshes;
    let ghost all = rest@;
    let mut i: usize = 0;
    while i < n
        invariant
            n == all.len(),
            i <= n,
            rest@ =~= all.subrange(i as int, n as int),
            clipped_primitives_model(out@)
                =~= unproject_model(clipped_net_meshes_model(all.subrange(0, i as int))),
        decreases n - i,
    {
        let m = rest.remove(0);
        proof {
            assert(m == all[i as int]);
        }
        let p = to_clipped_primitve(m);
        out.push(p);
        i += 1;
        proof {
            assert(rest@ =~= all.subrange(i as int, n as int));
            let lhs = clipped_primitives_model(out@);
            let rhs = unproject_model(clipped_net_meshes_model(all.subrange(0, i as int)));
            let prev = unproject_model(clipped_net_meshes_model(all.subrange(0, i - 1)));
            assert(prev.len() == i - 1);
            assert(lhs.len() == out@.len());
            assert(out@.len() == i);
            assert(rhs.len() == i);
            assert forall|j: int| 0 <= j < i implies lhs[j] == rhs[j] by {
                assert(all.subrange(0, i as int)[j] == all[j]);
                if j < i - 1 {
                    assert(all.subrange(0, i - 1)[j] == all[j]);
                    assert(out@[j] == out@.subrange(0, i - 1)[j]);
                    assert(lhs[j] == prev[j]);
                }
            }
            assert(lhs =~= rhs);
        }
    }
    proof {
        assert(all.subrange(0, n as int) =~= all);
    }
    out
}

/// Splitting a vertex array and zipping it back reconstructs it exactly.
pub proof fn lemma_mesh_roundtrip(m: MeshModel)
    ensures
        mesh_of_net(net_mesh_of(m)) =~~= m,
{
    let n = net_mesh_of(m);
    assert(zip_len(n) == m.vertices.len());
    assert forall|i: int| 0 <= i < m.vertices.len()
        implies mesh_of_net(n).vertices[i] == m.vertices[i] by {
        let v = m.vertices[i];
        assert(n.pos[i] == v.pos);
        assert(n.uv[i] == v.uv);
        assert(n.color[i] == v.color);
    }
}

/// Unprojection distributes over concatenation of net-mesh lists.
pub proof fn lemma_unproject_concat(a: Seq<ClippedNetMeshModel>, b: Seq<ClippedNetMeshModel>)
    ensures
        unproject_model(a + b) =~= unproject_model(a) + unproject_model(b),
{
    assert forall|i: int| 0 <= i < (a + b).len()
        implies unproject_model(a + b)[i] == (unproject_model(a) + unproject_model(b))[i] by {
        if i < a.len() {
            assert((a + b)[i] == a[i]);
        } else {
            assert((a + b)[i] == b[i - a.len()]);
        }
    }
}

/// Round-trip law: for a draw list containing only mesh primitives,
/// unprojecting its projection reconstructs it field for field. (A list
/// with non-mesh primitives cannot round-trip: `project_model` drops
/// them, so they never reappear.)
pub proof fn lemma_project_unproject_roundtrip(ps: Seq<ClippedPrimitiveModel>)
    requires
        forall|i: int| 0 <= i < ps.len() ==> ps[i].primitive is Mesh,
    ensures
        unproject_model(project_model(ps)) =~~= ps,
    decreases ps.len(),
{
    if ps.len() == 0 {
        assert(unproject_model(project_model(ps)) =~~= ps);
    } else {
        let dl = ps.drop_last();
        lemma_project_unproject_roundtrip(dl);
        let last = ps.last();
        let m = last.primitive->Mesh_0;
        let single = seq![
            ClippedNetMeshModel { clip_rect: last.clip_rect, mesh: net_mesh_of(m) },
        ];
        assert(project_model(ps) == project_model(dl) + single);
        lemma_unproject_concat(project_model(dl), single);
        lemma_mesh_roundtrip(m);
        assert(unproject_model(single)[0] =~~= last);
        assert(unproject_model(single) =~~= seq![last]);
        assert(unproject_model(project_model(ps))
            =~~= unproject_model(project_model(dl)) + seq![last]);
        assert(dl + seq![last] =~= ps);
    }
}

/// A message from viewer to server: either one captured input batch with
/// the viewer's clock at capture time (64-bit float bits), or an explicit
/// goodbye carrying nothing.
#[derive(Clone, Debug, PartialEq)]
pub enum ClientToServerMessage {
    Input { raw_input: InputDelta, client_time: u64 },
    Goodbye,
}

/// A message from server to viewer: one rendered frame. The platform
/// effects and texture-atlas delta are opaque pass-through bytes; the
/// frame index is monotonic per session; `client_time` echoes the last
/// viewer-reported timestamp, or is absent if none was pending.
#[derive(Clone, Debug, PartialEq)]
pub enum ServerToClientMessage {
    Frame {
        frame_index: u64,
        platform_output: Vec<u8>,
        clipped_net_mesh: Vec<ClippedNetMesh>,
        textures_delta: Vec<u8>,
        client_time: Option<u64>,
    },
}

/// Mathematical model of a [`ClientToServerMessage`].
#[verifier::ext_equal]
pub enum ClientMsgModel {
    Input { raw_input: InputModel, client_time: u64 },
    Goodbye,
}

/// Mathematical model of a [`ServerToClientMessage`].
#[verifier::ext_equal]
pub enum ServerMsgModel {
    Frame {
        frame_index: u64,
        platform_output: Seq<u8>,
        clipped_net_mesh: Seq<ClippedNetMeshModel>,
        textures_delta: Seq<u8>,
        client_time: Option<u64>,
    },
}

pub open spec fn client_msg_model(m: ClientToServerMessage) -> ClientMsgModel {
    match m {
        ClientToServerMessage::Input { raw_input, client_time } =>
            ClientMsgModel::Input { raw_input: input_model(raw_input), client_time },
        ClientToServerMessage::Goodbye => ClientMsgModel::Goodbye,
    }
}

pub open spec fn server_msg_model(m: ServerToClientMessage) -> ServerMsgModel {
    match m {
        ServerToClientMessage::Frame {
            frame_index, platform_output, clipped_net_mesh, textures_delta, client_time,
        } => ServerMsgModel::Frame {
            frame_index,
            platform_output: platform_output@,
            clipped_net_mesh: clipped_net_meshes_model(clipped_net_mesh@),
            textures_delta: textures_delta@,
            client_time,
        },
    }
}

} // verus!
