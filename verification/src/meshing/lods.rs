//! The meshes of a chunk at all levels of detail, and meshes of single block models.

use crate::meshing::greedy::{chunk_quads, mesh_chunk};
use crate::meshing::quad::{
    mesh_indices, mesh_vertices, push_quad, small, small_geometry, FaceQuad,
};
use crate::meshing::surface::{
    lowered, mesh_chunk_surface, mesh_chunk_water, surface_quads, water_quads,
};
use crate::models::block_model::BlockModel;
use crate::models::face::{dir_of, normal_of, FaceDir, FaceGeometry};
use crate::render::mesh::{Mesh, MeshView, Vertex};
use crate::world::chunk::{Chunk, ChunkView};
use crate::world::neighbor::NeighborMasks;
use vstd::prelude::*;

verus! {

/// More quads than a mesh of a chunk can have.
pub const MAX_QUADS: usize = 3145728;

/// What the meshes of a chunk are: in full, from far away, and of its water.
#[verifier::ext_equal]
pub struct LodView {
    pub full: MeshView,
    pub surface: MeshView,
    pub water: MeshView,
}

/// A mesh that is no larger than that of a chunk can be.
pub open spec fn mesh_fits(m: MeshView) -> bool {
    m.vertices.len() <= 4 * MAX_QUADS && m.indices.len() <= 6 * MAX_QUADS
}

impl LodView {
    pub open spec fn wf(self) -> bool {
        mesh_fits(self.full) && mesh_fits(self.surface) && mesh_fits(self.water)
    }

    /// The mesh of a level: 0 in full, 1 from far away, 2 of the water.
    pub open spec fn level(self, lod: int) -> MeshView {
        if lod == 0 {
            self.full
        } else if lod == 1 {
            self.surface
        } else {
            self.water
        }
    }
}

/// The meshes of a chunk.
pub open spec fn lods_of(c: ChunkView, n: NeighborMasks) -> LodView {
    LodView {
        full: MeshView {
            vertices: mesh_vertices(chunk_quads(c, n)),
            indices: mesh_indices(chunk_quads(c, n)),
        },
        surface: MeshView {
            vertices: mesh_vertices(surface_quads(c, n)),
            indices: mesh_indices(surface_quads(c, n)),
        },
        water: MeshView {
            vertices: mesh_vertices(water_quads(c, n)).map_values(|v: Vertex| lowered(v)),
            indices: mesh_indices(water_quads(c, n)),
        },
    }
}

/// The meshes of a chunk at all levels of detail.
pub struct LodMeshes {
    full: Mesh,
    surface: Mesh,
    water: Mesh,
}

impl View for LodMeshes {
    type V = LodView;

    closed spec fn view(&self) -> LodView {
        LodView { full: self.full@, surface: self.surface@, water: self.water@ }
    }
}

impl LodMeshes {
    #[verifier::type_invariant]
    spec fn inv(self) -> bool {
        self@.wf()
    }

    /// Meshes that are no larger than those of a chunk, as all of this type are.
    pub fn checked(&self)
        ensures
            self@.wf(),
    {
        proof {
            use_type_invariant(self);
        }
    }

    /// Meshes a chunk at all levels of detail.
    pub fn build(chunk: &Chunk, neighbors: &NeighborMasks) -> (r: LodMeshes)
        requires
            chunk@.wf(),
        ensures
            r@ == lods_of(chunk@, *neighbors),
    {
        let (vertices, indices) = mesh_chunk(chunk, neighbors);
        let full = Mesh { vertices, indices };
        let (vertices, indices) = mesh_chunk_surface(chunk, neighbors);
        let surface = Mesh { vertices, indices };
        let (vertices, indices) = mesh_chunk_water(chunk, neighbors);
        let water = Mesh { vertices, indices };
        LodMeshes { full, surface, water }
    }

    /// The mesh of a level: 0 in full, 1 from far away, 2 of the water.
    pub fn level(&self, lod: usize) -> (r: &Mesh)
        requires
            lod < 3,
        ensures
            r@ == self@.level(lod as int),
            mesh_fits(r@),
    {
        proof {
            use_type_invariant(self);
        }
        if lod == 0 {
            &self.full
        } else if lod == 1 {
            &self.surface
        } else {
            &self.water
        }
    }
}

// ── Block models ─────────────────────────────────────────────────────────────

/// A corner of a block model on its own.
pub open spec fn model_corner(face: FaceGeometry, dir: FaceDir, i: int) -> Vertex {
    Vertex {
        pos: face.verts[i],
        normal: normal_of(dir),
        uv: [face.uvs[i][0], (face.uvs[i][1] + 2560 * face.texture) as i64],
        ao: 3,
    }
}

/// A face of a block model on its own.
pub open spec fn model_face(face: FaceGeometry, dir: FaceDir) -> FaceQuad {
    FaceQuad {
        v: [
            model_corner(face, dir, 0),
            model_corner(face, dir, 1),
            model_corner(face, dir, 2),
            model_corner(face, dir, 3),
        ],
        flip: false,
    }
}

/// The quads of a block model for the first `k` directions.
pub open spec fn model_quads_to(model: BlockModel, k: int) -> Seq<FaceQuad>
    decreases k,
{
    if k <= 0 {
        Seq::empty()
    } else {
        match model.faces[k - 1] {
            Some(face) => model_quads_to(model, k - 1).push(model_face(face, dir_of(k - 1))),
            None => model_quads_to(model, k - 1),
        }
    }
}

fn build_corner(face: &FaceGeometry, dir: FaceDir, i: usize) -> (r: Vertex)
    requires
        i < 4,
        small_geometry(*face),
    ensures
        r == model_corner(*face, dir, i as int),
{
    assert(small(face.uvs[i as int][1] as int));
    Vertex {
        pos: face.verts[i],
        normal: dir.normal(),
        uv: [face.uvs[i][0], face.uvs[i][1] + 2560 * (face.texture as i64)],
        ao: 3,
    }
}

/// The mesh of a single block, as its model has it.
pub fn mesh_model(model: &BlockModel) -> (r: Mesh)
    requires
        forall|i: int|
            0 <= i < 6 ==> (#[trigger] model.faces[i] matches Some(g) ==> small_geometry(g)),
    ensures
        r.vertices@ == mesh_vertices(model_quads_to(*model, 6)),
        r.indices@ == mesh_indices(model_quads_to(*model, 6)),
{
    let mut vertices: Vec<Vertex> = Vec::new();
    let mut indices: Vec<u32> = Vec::new();
    assert(vertices@ =~= mesh_vertices(Seq::empty()));
    assert(indices@ =~= mesh_indices(Seq::empty()));
    let mut i: usize = 0;
    while i < 6
        invariant
            i <= 6,
            forall|j: int|
                0 <= j < 6 ==> (#[trigger] model.faces[j] matches Some(g) ==> small_geometry(g)),
            vertices@ == mesh_vertices(model_quads_to(*model, i as int)),
            indices@ == mesh_indices(model_quads_to(*model, i as int)),
            model_quads_to(*model, i as int).len() <= i,
        decreases 6 - i,
    {
        let dir = FaceDir::at(i);
        if let Some(face) = model.face(dir) {
            assert(model.faces[i as int] == Some(*face));
            let q = FaceQuad {
                v: [
                    build_corner(face, dir, 0),
                    build_corner(face, dir, 1),
                    build_corner(face, dir, 2),
                    build_corner(face, dir, 3),
                ],
                flip: false,
            };
            push_quad(
                &mut vertices,
                &mut indices,
                &q,
                Ghost(model_quads_to(*model, i as int)),
            );
        }
        i = i + 1;
    }
    Mesh { vertices, indices }
}

/// How many of the first `k` faces a model has.
pub open spec fn faces_before(model: BlockModel, k: int) -> int
    decreases k,
{
    if k <= 0 {
        0
    } else {
        faces_before(model, k - 1) + if model.faces[k - 1] is Some {
            1int
        } else {
            0int
        }
    }
}

/// The mesh of a model has four corners and two triangles for each face that the model has, in the
/// order +X, -X, +Y, -Y, +Z, -Z. Corners lie where the model has them, face away from the block, and
/// take their picture from the face's place in the texture; nothing darkens them.
pub proof fn law_model_mesh(model: BlockModel, i: int, k: int)
    requires
        0 <= i < 6,
        0 <= k < 4,
        forall|j: int|
            0 <= j < 6 ==> (#[trigger] model.faces[j] matches Some(g) ==> small_geometry(g)),
    ensures
        ({
            let quads = model_quads_to(model, 6);
            let v = mesh_vertices(quads);
            let t = mesh_indices(quads);
            let n = faces_before(model, i);
            &&& v.len() == 4 * faces_before(model, 6)
            &&& t.len() == 6 * faces_before(model, 6)
            &&& model.faces[i] matches Some(g) ==> {
                &&& v[4 * n + k].pos == g.verts[k]
                &&& v[4 * n + k].uv[0] == g.uvs[k][0]
                &&& v[4 * n + k].uv[1] == g.uvs[k][1] + 2560 * g.texture
                &&& v[4 * n + k].ao == 3
                &&& v[4 * n + k].normal[0] == if i == 0 {
                    1int
                } else if i == 1 {
                    -1
                } else {
                    0
                }
                &&& v[4 * n + k].normal[1] == if i == 2 {
                    1int
                } else if i == 3 {
                    -1
                } else {
                    0
                }
                &&& v[4 * n + k].normal[2] == if i == 4 {
                    1int
                } else if i == 5 {
                    -1
                } else {
                    0
                }
                &&& t[6 * n] == 4 * n && t[6 * n + 1] == 4 * n + 1 && t[6 * n + 2] == 4 * n + 2
                &&& t[6 * n + 3] == 4 * n && t[6 * n + 4] == 4 * n + 2 && t[6 * n + 5] == 4 * n + 3
            }
        }),
{
    lemma_model_quads(model, 6, i);
    let quads = model_quads_to(model, 6);
    let n = faces_before(model, i);
    if model.faces[i] is Some {
        let g = model.faces[i]->0;
        assert(small_geometry(g));
        assert(small(g.uvs[k][1] as int));
        assert((4 * n + k) / 4 == n && (4 * n + k) % 4 == k);
        assert(k == 0 || k == 1 || k == 2 || k == 3);
        assert(quads[n].v[k] == model_corner(g, dir_of(i), k));
        assert((6 * n) / 6 == n && (6 * n) % 6 == 0);
        assert((6 * n + 1) / 6 == n && (6 * n + 1) % 6 == 1);
        assert((6 * n + 2) / 6 == n && (6 * n + 2) % 6 == 2);
        assert((6 * n + 3) / 6 == n && (6 * n + 3) % 6 == 3);
        assert((6 * n + 4) / 6 == n && (6 * n + 4) % 6 == 4);
        assert((6 * n + 5) / 6 == n && (6 * n + 5) % 6 == 5);
        assert(i == 0 || i == 1 || i == 2 || i == 3 || i == 4 || i == 5);
    }
}

proof fn lemma_model_quads(model: BlockModel, k: int, i: int)
    requires
        0 <= k <= 6,
        0 <= i,
    ensures
        model_quads_to(model, k).len() == faces_before(model, k),
        0 <= faces_before(model, k) <= k,
        i < k ==> (model.faces[i] matches Some(g) ==> 0 <= faces_before(model, i) < faces_before(
            model,
            k,
        ) && model_quads_to(model, k)[faces_before(model, i)] == model_face(g, dir_of(i))),
    decreases k,
{
    if k > 0 {
        lemma_model_quads(model, k - 1, i);
    }
}

/// The levels of detail are the full mesh, the surface and the water.
pub proof fn law_levels(l: LodView)
    ensures
        l.level(0) == l.full,
        l.level(1) == l.surface,
        l.level(2) == l.water,
{
}

} // verus!
