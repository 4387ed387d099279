//! Meshes, and where they lie in the arenas.

use vstd::prelude::*;

verus! {

/// One corner of a mesh quad.
#[derive(Clone, Copy, Debug)]
pub struct Vertex {
    /// World position, in tenths of a block.
    pub pos: [i64; 3],
    pub normal: [i32; 3],
    /// Texture coordinates in tenths; the second one also carries the layer, 256 tiles for each.
    pub uv: [i64; 2],
    /// Ambient light that reaches the corner, in thirds.
    pub ao: u8,
}

/// Bytes of a vertex in a vertex buffer. Meshes start at whole vertices.
pub const VB_ALIGN: usize = 36;

/// Bytes of an index in an index buffer.
pub const IB_ALIGN: usize = 4;

/// A mesh: corners, and triangles given by three corners each.
pub struct Mesh {
    pub vertices: Vec<Vertex>,
    pub indices: Vec<u32>,
}

#[verifier::ext_equal]
pub struct MeshView {
    pub vertices: Seq<Vertex>,
    pub indices: Seq<u32>,
}

impl View for Mesh {
    type V = MeshView;

    open spec fn view(&self) -> MeshView {
        MeshView { vertices: self.vertices@, indices: self.indices@ }
    }
}

/// Location of one mesh inside the arenas.
#[derive(Clone, Copy, Debug, PartialEq, Eq, Structural)]
pub struct ChunkSlot {
    pub vb_offset: usize,
    pub vb_size: usize,
    pub ib_offset: usize,
    pub ib_size: usize,
    pub index_count: u32,
    /// The first index, counted in indices.
    pub first_index: u32,
    /// The first vertex, counted in vertices.
    pub vertex_base: i32,
}

/// The slot of a mesh with `vb_size` bytes of vertices at `vb_offset` and `index_count` indices at
/// `ib_offset`.
pub open spec fn slot_at(vb_offset: usize, vb_size: usize, ib_offset: usize, index_count: usize)
    -> ChunkSlot {
    ChunkSlot {
        vb_offset,
        vb_size,
        ib_offset,
        ib_size: (index_count * 4) as usize,
        index_count: index_count as u32,
        first_index: (ib_offset / 4) as u32,
        vertex_base: (vb_offset / 36) as i32,
    }
}

impl ChunkSlot {
    /// Makes the slot of a mesh.
    pub fn new(vb_offset: usize, vb_size: usize, ib_offset: usize, index_count: usize) -> (r:
        ChunkSlot)
        requires
            index_count * 4 <= usize::MAX,
        ensures
            r == slot_at(vb_offset, vb_size, ib_offset, index_count),
    {
        ChunkSlot {
            vb_offset,
            vb_size,
            ib_offset,
            ib_size: index_count * IB_ALIGN,
            index_count: index_count as u32,
            first_index: (ib_offset / IB_ALIGN) as u32,
            vertex_base: (vb_offset / VB_ALIGN) as i32,
        }
    }
}

/// A slot at whole vertices and indices is found again from what a draw command says of it.
pub proof fn law_slot_addresses(vb_offset: usize, vb_size: usize, ib_offset: usize, index_count: usize)
    requires
        vb_offset % 36 == 0,
        ib_offset % 4 == 0,
        vb_offset / 36 <= i32::MAX,
        ib_offset / 4 <= u32::MAX,
    ensures
        slot_at(vb_offset, vb_size, ib_offset, index_count).vertex_base * 36 == vb_offset,
        slot_at(vb_offset, vb_size, ib_offset, index_count).first_index * 4 == ib_offset,
{
}

/// A slot holds what it was made for, and its command draws all indices of the mesh, once, from where
/// they are.
pub proof fn law_slot_drawn(vb_offset: usize, vb_size: usize, ib_offset: usize, index_count: usize)
    requires
        vb_offset % 36 == 0,
        ib_offset % 4 == 0,
        vb_offset / 36 <= i32::MAX,
        ib_offset / 4 <= u32::MAX,
        index_count <= u32::MAX,
        index_count * 4 <= usize::MAX,
    ensures
        ({
            let s = slot_at(vb_offset, vb_size, ib_offset, index_count);
            let d = draw_of(s);
            &&& s.vb_offset == vb_offset
            &&& s.vb_size == vb_size
            &&& s.ib_offset == ib_offset
            &&& s.ib_size == 4 * index_count
            &&& s.vertex_base * 36 == vb_offset
            &&& s.first_index * 4 == ib_offset
            &&& s.index_count == index_count
            &&& d.vertex_offset * 36 == vb_offset
            &&& d.first_index * 4 == ib_offset
            &&& d.index_count == index_count
            &&& d.instance_count == 1
            &&& d.first_instance == 0
        }),
{
}

/// An indexed draw of one mesh.
#[derive(Clone, Copy, Debug, PartialEq, Eq, Structural)]
pub struct DrawCommand {
    pub index_count: u32,
    pub instance_count: u32,
    pub first_index: u32,
    pub vertex_offset: i32,
    pub first_instance: u32,
}

/// The command that draws the mesh in a slot, once.
pub open spec fn draw_of(s: ChunkSlot) -> DrawCommand {
    DrawCommand {
        index_count: s.index_count,
        instance_count: 1,
        first_index: s.first_index,
        vertex_offset: s.vertex_base,
        first_instance: 0,
    }
}

impl DrawCommand {
    /// The command that draws the mesh in a slot, once.
    pub fn of(s: ChunkSlot) -> (r: DrawCommand)
        ensures
            r == draw_of(s),
    {
        DrawCommand {
            index_count: s.index_count,
            instance_count: 1,
            first_index: s.first_index,
            vertex_offset: s.vertex_base,
            first_instance: 0,
        }
    }
}

/// How many vertices a draw of so many indices shows: a quad has four vertices and six indices.
pub open spec fn drawn_vertices(index_count: u32) -> int {
    index_count * 2 / 3
}

/// The vertices shown by the first `k` commands.
pub open spec fn vertices_to(cmds: Seq<DrawCommand>, k: int) -> int
    decreases k,
{
    if k <= 0 {
        0
    } else {
        vertices_to(cmds, k - 1) + drawn_vertices(cmds[k - 1].index_count)
    }
}

/// The vertices shown by a list of commands.
pub fn visible_vertices(cmds: &Vec<DrawCommand>) -> (r: u64)
    requires
        cmds.len() <= 0xffff_ffff,
    ensures
        r == vertices_to(cmds@, cmds.len() as int),
{
    let mut sum: u64 = 0;
    let mut i: usize = 0;
    while i < cmds.len()
        invariant
            i <= cmds.len(),
            cmds.len() <= 0xffff_ffff,
            sum == vertices_to(cmds@, i as int),
            sum <= i * 0xaaaa_aaab,
        decreases cmds.len() - i,
    {
        sum = sum + (cmds[i].index_count as u64) * 2 / 3;
        i = i + 1;
    }
    sum
}

/// A command that draws `n` quads shows 4 `n` vertices, and commands add up.
pub proof fn law_vertices_shown(cmds: Seq<DrawCommand>, c: DrawCommand, n: int)
    requires
        c.index_count == 6 * n,
    ensures
        vertices_to(Seq::empty(), 0) == 0,
        vertices_to(cmds.push(c), cmds.len() + 1int) == vertices_to(cmds, cmds.len() as int) + 4 * n,
{
    lemma_vertices_same(cmds, cmds.push(c), cmds.len() as int);
}

proof fn lemma_vertices_same(a: Seq<DrawCommand>, b: Seq<DrawCommand>, k: int)
    requires
        0 <= k <= a.len(),
        k <= b.len(),
        forall|i: int| 0 <= i < k ==> #[trigger] a[i] == b[i],
    ensures
        vertices_to(a, k) == vertices_to(b, k),
    decreases k,
{
    if k > 0 {
        lemma_vertices_same(a, b, k - 1);
        assert(a[k - 1] == b[k - 1]);
    }
}

} // verus!
