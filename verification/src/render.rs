use vstd::prelude::*;
use crate::world::chunk::{
    in_section, is_solid, spec_is_solid, BlockTypeId, ChunkSection, SectionModel, CHUNK_SIZE,
    VOXELS_PER_SECTION,
};

verus! {

/// A mesh vertex on the voxel grid: a corner position in section-local
/// block units, and the block type whose face it belongs to.
#[derive(Clone, Copy, Debug, PartialEq, Eq)]
pub struct MeshVertex {
    pub x: u32,
    pub y: u32,
    pub z: u32,
    pub block: BlockTypeId,
}

/// Number of faces of a block.
pub const FACE_COUNT: usize = 6;

/// Outward normal of face `f`: `+X, -X, +Y, -Y, +Z, -Z` in that order.
pub open spec fn face_normal(f: int) -> (int, int, int) {
    if f == 0 {
        (1, 0, 0)
    } else if f == 1 {
        (-1, 0, 0)
    } else if f == 2 {
        (0, 1, 0)
    } else if f == 3 {
        (0, -1, 0)
    } else if f == 4 {
        (0, 0, 1)
    } else {
        (0, 0, -1)
    }
}

/// Corner `j` of face `f` of the unit cube, counter-clockwise as seen from
/// outside the face.
pub open spec fn face_corner(f: int, j: int) -> (int, int, int) {
    if f == 0 {
        if j == 0 { (1, 0, 0) } else if j == 1 { (1, 1, 0) } else if j == 2 { (1, 1, 1) } else { (1, 0, 1) }
    } else if f == 1 {
        if j == 0 { (0, 0, 1) } else if j == 1 { (0, 1, 1) } else if j == 2 { (0, 1, 0) } else { (0, 0, 0) }
    } else if f == 2 {
        if j == 0 { (0, 1, 0) } else if j == 1 { (0, 1, 1) } else if j == 2 { (1, 1, 1) } else { (1, 1, 0) }
    } else if f == 3 {
        if j == 0 { (0, 0, 1) } else if j == 1 { (0, 0, 0) } else if j == 2 { (1, 0, 0) } else { (1, 0, 1) }
    } else if f == 4 {
        if j == 0 { (1, 0, 1) } else if j == 1 { (1, 1, 1) } else if j == 2 { (0, 1, 1) } else { (0, 0, 1) }
    } else {
        if j == 0 { (0, 0, 0) } else if j == 1 { (0, 1, 0) } else if j == 2 { (1, 1, 0) } else { (1, 0, 0) }
    }
}

/// Cross product of two integer vectors.
pub open spec fn cross(a: (int, int, int), b: (int, int, int)) -> (int, int, int) {
    (a.1 * b.2 - a.2 * b.1, a.2 * b.0 - a.0 * b.2, a.0 * b.1 - a.1 * b.0)
}

pub open spec fn minus(a: (int, int, int), b: (int, int, int)) -> (int, int, int) {
    (a.0 - b.0, a.1 - b.1, a.2 - b.2)
}

/// Winding: both triangles `(0, 1, 2)` and `(0, 2, 3)` of every face are
/// counter-clockwise seen from outside, so their normal is the face's
/// outward normal and back-face culling keeps exactly the outer side; and
/// every corner lies on the face's side of the unit cube.
pub proof fn law_face_winding(f: int)
    by (nonlinear_arith)
    requires
        0 <= f < 6,
    ensures
        cross(minus(face_corner(f, 1), face_corner(f, 0)), minus(face_corner(f, 2), face_corner(f, 0)))
            == face_normal(f),
        cross(minus(face_corner(f, 2), face_corner(f, 0)), minus(face_corner(f, 3), face_corner(f, 0)))
            == face_normal(f),
        forall|j: int|
            0 <= j < 4 ==> {
                let c = #[trigger] face_corner(f, j);
                let n = face_normal(f);
                &&& (n.0 == 1 ==> c.0 == 1) && (n.0 == -1 ==> c.0 == 0)
                &&& (n.1 == 1 ==> c.1 == 1) && (n.1 == -1 ==> c.1 == 0)
                &&& (n.2 == 1 ==> c.2 == 1) && (n.2 == -1 ==> c.2 == 0)
            },
{
}

fn normal_of(f: usize) -> (n: (i32, i32, i32))
    requires
        f < FACE_COUNT,
    ensures
        (n.0 as int, n.1 as int, n.2 as int) == face_normal(f as int),
{
    if f == 0 {
        (1, 0, 0)
    } else if f == 1 {
        (-1, 0, 0)
    } else if f == 2 {
        (0, 1, 0)
    } else if f == 3 {
        (0, -1, 0)
    } else if f == 4 {
        (0, 0, 1)
    } else {
        (0, 0, -1)
    }
}

fn corner_of(f: usize, j: usize) -> (c: (u32, u32, u32))
    requires
        f < FACE_COUNT,
        j < 4,
    ensures
        (c.0 as int, c.1 as int, c.2 as int) == face_corner(f as int, j as int),
{
    if f == 0 {
        if j == 0 { (1, 0, 0) } else if j == 1 { (1, 1, 0) } else if j == 2 { (1, 1, 1) } else { (1, 0, 1) }
    } else if f == 1 {
        if j == 0 { (0, 0, 1) } else if j == 1 { (0, 1, 1) } else if j == 2 { (0, 1, 0) } else { (0, 0, 0) }
    } else if f == 2 {
        if j == 0 { (0, 1, 0) } else if j == 1 { (0, 1, 1) } else if j == 2 { (1, 1, 1) } else { (1, 1, 0) }
    } else if f == 3 {
        if j == 0 { (0, 0, 1) } else if j == 1 { (0, 0, 0) } else if j == 2 { (1, 0, 0) } else { (1, 0, 1) }
    } else if f == 4 {
        if j == 0 { (1, 0, 1) } else if j == 1 { (1, 1, 1) } else if j == 2 { (0, 1, 1) } else { (0, 0, 1) }
    } else {
        if j == 0 { (0, 0, 0) } else if j == 1 { (0, 1, 0) } else if j == 2 { (1, 1, 0) } else { (1, 0, 0) }
    }
}

/// Whether the neighbour of voxel `(x, y, z)` across face `f` is solid;
/// outside the section counts as empty, so border faces stay visible.
pub open spec fn neighbor_solid(m: SectionModel, x: int, y: int, z: int, f: int) -> bool {
    let (dx, dy, dz) = face_normal(f);
    in_section(x + dx, y + dy, z + dz) && spec_is_solid(m.block_at(x + dx, y + dy, z + dz))
}

/// Face `f` of voxel `(x, y, z)` is drawn when the voxel is solid and the
/// neighbour behind the face is not.
pub open spec fn face_visible(m: SectionModel, x: int, y: int, z: int, f: int) -> bool {
    spec_is_solid(m.block_at(x, y, z)) && !neighbor_solid(m, x, y, z, f)
}

/// The `n`-th face in meshing order: `y` outermost, then `z`, then `x`,
/// then the face number.
pub open spec fn face_at(n: int) -> (int, int, int, int) {
    let cell = n / 6;
    (cell % 16, cell / 256, (cell / 16) % 16, n % 6)
}

/// The visible faces among the first `n` faces in meshing order.
pub open spec fn visible_faces(m: SectionModel, n: nat) -> Seq<(int, int, int, int)>
    decreases n,
{
    if n == 0 {
        Seq::empty()
    } else {
        let prev = visible_faces(m, (n - 1) as nat);
        let fc = face_at(n - 1);
        if face_visible(m, fc.0, fc.1, fc.2, fc.3) {
            prev.push(fc)
        } else {
            prev
        }
    }
}

/// All visible faces of a section, in meshing order.
pub open spec fn mesh_faces(m: SectionModel) -> Seq<(int, int, int, int)> {
    visible_faces(m, (VOXELS_PER_SECTION * FACE_COUNT) as nat)
}

/// Corner `j` of visible face `fc` as a mesh vertex.
pub open spec fn face_vertex(m: SectionModel, fc: (int, int, int, int), j: int) -> MeshVertex {
    let c = face_corner(fc.3, j);
    MeshVertex {
        x: (fc.0 + c.0) as u32,
        y: (fc.1 + c.1) as u32,
        z: (fc.2 + c.2) as u32,
        block: m.block_at(fc.0, fc.1, fc.2),
    }
}

/// The four corners of every face, face after face.
pub open spec fn mesh_vertices(m: SectionModel, faces: Seq<(int, int, int, int)>) -> Seq<MeshVertex>
    decreases faces.len(),
{
    if faces.len() == 0 {
        Seq::empty()
    } else {
        let fc = faces.last();
        mesh_vertices(m, faces.drop_last()) + seq![
            face_vertex(m, fc, 0),
            face_vertex(m, fc, 1),
            face_vertex(m, fc, 2),
            face_vertex(m, fc, 3),
        ]
    }
}

/// Two triangles `(0, 1, 2)` and `(0, 2, 3)` per quad, over the quad's
/// four vertices.
pub open spec fn quad_corner(t: int) -> int {
    if t == 0 || t == 3 {
        0
    } else if t == 1 {
        1
    } else if t == 2 || t == 4 {
        2
    } else {
        3
    }
}

/// The triangle indices of `n` quads.
pub open spec fn mesh_indices(n: nat) -> Seq<u32>
    decreases n,
{
    if n == 0 {
        Seq::empty()
    } else {
        let b = 4 * (n - 1);
        mesh_indices((n - 1) as nat) + seq![
            b as u32,
            (b + 1) as u32,
            (b + 2) as u32,
            b as u32,
            (b + 2) as u32,
            (b + 3) as u32,
        ]
    }
}

proof fn lemma_visible_faces_len(m: SectionModel, n: nat)
    ensures
        visible_faces(m, n).len() <= n,
    decreases n,
{
    if n > 0 {
        lemma_visible_faces_len(m, (n - 1) as nat);
    }
}

proof fn lemma_mesh_vertices_len(m: SectionModel, faces: Seq<(int, int, int, int)>)
    ensures
        mesh_vertices(m, faces).len() == 4 * faces.len(),
    decreases faces.len(),
{
    if faces.len() > 0 {
        lemma_mesh_vertices_len(m, faces.drop_last());
    }
}

proof fn lemma_mesh_indices_len(n: nat)
    ensures
        mesh_indices(n).len() == 6 * n,
    decreases n,
{
    if n > 0 {
        lemma_mesh_indices_len((n - 1) as nat);
    }
}

proof fn lemma_face_at(x: int, y: int, z: int, f: int)
    requires
        in_section(x, y, z),
        0 <= f < 6,
    ensures
        face_at(((y * 16 + z) * 16 + x) * 6 + f) == (x, y, z, f),
{
    let cell = (y * 16 + z) * 16 + x;
    let n = cell * 6 + f;
    assert(n / 6 == cell);
    assert(n % 6 == f);
    assert(cell % 16 == x);
    assert(cell / 16 == y * 16 + z);
    assert((y * 16 + z) % 16 == z);
    assert(cell / 256 == y);
}

/// Quad `k` of a mesh is made of vertices `4k..4k+4`, the corners of face
/// `k` in order.
pub proof fn law_mesh_vertex_layout(m: SectionModel, faces: Seq<(int, int, int, int)>, k: int, j: int)
    requires
        0 <= k < faces.len(),
        0 <= j < 4,
    ensures
        mesh_vertices(m, faces).len() == 4 * faces.len(),
        mesh_vertices(m, faces)[4 * k + j] == face_vertex(m, faces[k], j),
    decreases faces.len(),
{
    lemma_mesh_vertices_len(m, faces);
    let p = faces.drop_last();
    lemma_mesh_vertices_len(m, p);
    if k < faces.len() - 1 {
        law_mesh_vertex_layout(m, p, k, j);
    }
}

/// Triangle indices `6k..6k+6` are `4k + (0, 1, 2, 0, 2, 3)`, so every
/// index names one of the `4n` vertices of the mesh.
pub proof fn law_mesh_index_layout(n: nat, k: int, t: int)
    requires
        0 <= k < n,
        0 <= t < 6,
        4 * n <= u32::MAX + 1,
    ensures
        mesh_indices(n).len() == 6 * n,
        mesh_indices(n)[6 * k + t] == 4 * k + quad_corner(t),
        mesh_indices(n)[6 * k + t] < 4 * n,
    decreases n,
{
    lemma_mesh_indices_len(n);
    lemma_mesh_indices_len((n - 1) as nat);
    if k < n - 1 {
        law_mesh_index_layout((n - 1) as nat, k, t);
    }
}

proof fn lemma_face_at_range(n: int)
    requires
        0 <= n < VOXELS_PER_SECTION * FACE_COUNT,
    ensures
        in_section(face_at(n).0, face_at(n).1, face_at(n).2),
        0 <= face_at(n).3 < 6,
        ((face_at(n).1 * 16 + face_at(n).2) * 16 + face_at(n).0) * 6 + face_at(n).3 == n,
{
    let cell = n / 6;
    assert(0 <= cell < 4096);
    assert(cell == (cell / 256) * 256 + ((cell / 16) % 16) * 16 + cell % 16);
}

proof fn lemma_visible_faces_contains(m: SectionModel, n: nat, fc: (int, int, int, int))
    requires
        n <= VOXELS_PER_SECTION * FACE_COUNT,
    ensures
        visible_faces(m, n).contains(fc) <==> exists|k: int|
            0 <= k < n && #[trigger] face_at(k) == fc && face_visible(m, fc.0, fc.1, fc.2, fc.3),
    decreases n,
{
    if n > 0 {
        lemma_visible_faces_contains(m, (n - 1) as nat, fc);
        let prev = visible_faces(m, (n - 1) as nat);
        let last = face_at(n - 1);
        if face_visible(m, last.0, last.1, last.2, last.3) {
            assert(visible_faces(m, n) == prev.push(last));
            if prev.push(last).contains(fc) && !prev.contains(fc) {
                let i = choose|i: int| 0 <= i < prev.push(last).len() && prev.push(last)[i] == fc;
                assert(i == prev.len());
            }
            if prev.contains(fc) {
                let i = choose|i: int| 0 <= i < prev.len() && prev[i] == fc;
                assert(prev.push(last)[i] == fc);
            }
            if fc == last {
                assert(prev.push(last)[prev.len() as int] == fc);
            }
        }
    }
}

/// The mesh has a quad for exactly the visible faces: face `f` of voxel
/// `(x, y, z)` is meshed iff the voxel is solid and its neighbour across
/// the face is empty or outside the section.
pub proof fn law_mesh_faces_are_visible_faces(m: SectionModel, x: int, y: int, z: int, f: int)
    ensures
        mesh_faces(m).contains((x, y, z, f)) <==> (in_section(x, y, z) && 0 <= f < 6 && face_visible(
            m,
            x,
            y,
            z,
            f,
        )),
{
    let fc = (x, y, z, f);
    lemma_visible_faces_contains(m, (VOXELS_PER_SECTION * FACE_COUNT) as nat, fc);
    if mesh_faces(m).contains(fc) {
        let k = choose|k: int|
            0 <= k < VOXELS_PER_SECTION * FACE_COUNT && #[trigger] face_at(k) == fc && face_visible(
                m,
                fc.0,
                fc.1,
                fc.2,
                fc.3,
            );
        lemma_face_at_range(k);
    }
    if in_section(x, y, z) && 0 <= f < 6 && face_visible(m, x, y, z, f) {
        lemma_face_at(x, y, z, f);
        let k = ((y * 16 + z) * 16 + x) * 6 + f;
        assert(face_at(k) == fc);
    }
}

/// Culling: face `f` of voxel `(x, y, z)` is meshed iff the voxel is not
/// air and the voxel that the face looks at, one step towards `+x`, `-x`,
/// `+y`, `-y`, `+z` or `-z` for `f = 0..6`, is air or outside the section.
/// The quad of the face lies on that side of the voxel's unit cube.
pub proof fn law_mesh_culling(m: SectionModel, x: int, y: int, z: int, f: int)
    requires
        0 <= x < 16 && 0 <= y < 16 && 0 <= z < 16,
        0 <= f < 6,
    ensures
        ({
            let n = if f == 0 {
                (x + 1, y, z)
            } else if f == 1 {
                (x - 1, y, z)
            } else if f == 2 {
                (x, y + 1, z)
            } else if f == 3 {
                (x, y - 1, z)
            } else if f == 4 {
                (x, y, z + 1)
            } else {
                (x, y, z - 1)
            };
            mesh_faces(m).contains((x, y, z, f)) <==> (m.blocks[(y * 16 + z) * 16 + x] != 0u16 && !(0 <= n.0
                < 16 && 0 <= n.1 < 16 && 0 <= n.2 < 16 && m.blocks[(n.1 * 16 + n.2) * 16 + n.0] != 0u16))
        }),
        forall|j: int|
            0 <= j < 4 ==> {
                let c = #[trigger] face_corner(f, j);
                &&& 0 <= c.0 <= 1 && 0 <= c.1 <= 1 && 0 <= c.2 <= 1
                &&& f == 0 ==> c.0 == 1
                &&& f == 1 ==> c.0 == 0
                &&& f == 2 ==> c.1 == 1
                &&& f == 3 ==> c.1 == 0
                &&& f == 4 ==> c.2 == 1
                &&& f == 5 ==> c.2 == 0
            },
{
    law_mesh_faces_are_visible_faces(m, x, y, z, f);
}

/// Whether face `f` of voxel `(x, y, z)` is drawn.
fn is_face_visible(section: &ChunkSection, x: usize, y: usize, z: usize, f: usize) -> (r: bool)
    requires
        section.wf(),
        in_section(x as int, y as int, z as int),
        f < FACE_COUNT,
    ensures
        r == face_visible(section@, x as int, y as int, z as int, f as int),
{
    let block = section.get_block(x, y, z);
    if !is_solid(block) {
        return false;
    }
    let normal = normal_of(f);
    let nx = x as i32 + normal.0;
    let ny = y as i32 + normal.1;
    let nz = z as i32 + normal.2;
    let neighbor_solid = if nx < 0 || ny < 0 || nz < 0 || nx >= CHUNK_SIZE as i32 || ny >= CHUNK_SIZE as i32
        || nz >= CHUNK_SIZE as i32 {
        false
    } else {
        is_solid(section.get_block(nx as usize, ny as usize, nz as usize))
    };
    !neighbor_solid
}

/// Appends the quad of face `f` of voxel `(x, y, z)`.
fn push_face(
    vertices: &mut Vec<MeshVertex>,
    indices: &mut Vec<u32>,
    Ghost(m): Ghost<SectionModel>,
    Ghost(faces): Ghost<Seq<(int, int, int, int)>>,
    x: usize,
    y: usize,
    z: usize,
    f: usize,
    block: BlockTypeId,
)
    requires
        in_section(x as int, y as int, z as int),
        f < FACE_COUNT,
        block == m.block_at(x as int, y as int, z as int),
        faces.len() < VOXELS_PER_SECTION * FACE_COUNT,
        old(vertices)@ == mesh_vertices(m, faces),
        old(indices)@ == mesh_indices(faces.len()),
    ensures
        final(vertices)@ == mesh_vertices(m, faces.push((x as int, y as int, z as int, f as int))),
        final(indices)@ == mesh_indices(faces.len() + 1),
{
    proof {
        lemma_mesh_vertices_len(m, faces);
    }
    let ghost start = vertices@;
    let base_index = vertices.len() as u32;
    let mut j: usize = 0;
    while j < 4
        invariant
            in_section(x as int, y as int, z as int),
            f < FACE_COUNT,
            block == m.block_at(x as int, y as int, z as int),
            j <= 4,
            vertices@.len() == start.len() + j,
            forall|i: int| 0 <= i < start.len() ==> vertices@[i] == start[i],
            forall|i: int|
                0 <= i < j ==> vertices@[start.len() + i] == face_vertex(
                    m,
                    (x as int, y as int, z as int, f as int),
                    i,
                ),
        decreases 4 - j,
    {
        let c = corner_of(f, j);
        vertices.push(MeshVertex { x: x as u32 + c.0, y: y as u32 + c.1, z: z as u32 + c.2, block });
        j = j + 1;
    }
    indices.push(base_index);
    indices.push(base_index + 1);
    indices.push(base_index + 2);
    indices.push(base_index);
    indices.push(base_index + 2);
    indices.push(base_index + 3);
    proof {
        let next = faces.push((x as int, y as int, z as int, f as int));
        assert(next.drop_last() =~= faces);
        assert(vertices@ =~= mesh_vertices(m, next));
        assert(indices@ =~= mesh_indices(next.len()));
    }
}

/// Naive mesher: one quad per visible face, four vertices and two
/// triangles each.
pub fn mesh_chunk_section(section: &ChunkSection) -> (r: (Vec<MeshVertex>, Vec<u32>))
    requires
        section.wf(),
    ensures
        r.0@ == mesh_vertices(section@, mesh_faces(section@)),
        r.1@ == mesh_indices(mesh_faces(section@).len()),
        mesh_faces(section@).len() <= VOXELS_PER_SECTION * FACE_COUNT,
        r.0@.len() == 4 * mesh_faces(section@).len(),
        r.1@.len() == 6 * mesh_faces(section@).len(),
{
    let ghost m = section@;
    let mut vertices: Vec<MeshVertex> = Vec::new();
    let mut indices: Vec<u32> = Vec::new();
    let mut y: usize = 0;
    while y < CHUNK_SIZE
        invariant
            section.wf(),
            m == section@,
            y <= CHUNK_SIZE,
            vertices@ == mesh_vertices(m, visible_faces(m, (y * 256 * 6) as nat)),
            indices@ == mesh_indices(visible_faces(m, (y * 256 * 6) as nat).len()),
        decreases CHUNK_SIZE - y,
    {
        let mut z: usize = 0;
        while z < CHUNK_SIZE
            invariant
                section.wf(),
                m == section@,
                y < CHUNK_SIZE,
                z <= CHUNK_SIZE,
                vertices@ == mesh_vertices(m, visible_faces(m, ((y * 16 + z) * 16 * 6) as nat)),
                indices@ == mesh_indices(visible_faces(m, ((y * 16 + z) * 16 * 6) as nat).len()),
            decreases CHUNK_SIZE - z,
        {
            let mut x: usize = 0;
            while x < CHUNK_SIZE
                invariant
                    section.wf(),
                    m == section@,
                    y < CHUNK_SIZE,
                    z < CHUNK_SIZE,
                    x <= CHUNK_SIZE,
                    vertices@ == mesh_vertices(m, visible_faces(m, (((y * 16 + z) * 16 + x) * 6) as nat)),
                    indices@ == mesh_indices(visible_faces(m, (((y * 16 + z) * 16 + x) * 6) as nat).len()),
                decreases CHUNK_SIZE - x,
            {
                let block = section.get_block(x, y, z);
                let mut f: usize = 0;
                while f < FACE_COUNT
                    invariant
                        section.wf(),
                        m == section@,
                        y < CHUNK_SIZE,
                        z < CHUNK_SIZE,
                        x < CHUNK_SIZE,
                        block == m.block_at(x as int, y as int, z as int),
                        f <= FACE_COUNT,
                        vertices@ == mesh_vertices(m, visible_faces(m, (((y * 16 + z) * 16 + x) * 6 + f) as nat)),
                        indices@ == mesh_indices(visible_faces(m, (((y * 16 + z) * 16 + x) * 6 + f) as nat).len()),
                    decreases FACE_COUNT - f,
                {
                    let ghost n: int = ((y * 16 + z) * 16 + x) * 6 + f;
                    let ghost prev = visible_faces(m, n as nat);
                    proof {
                        lemma_face_at(x as int, y as int, z as int, f as int);
                        lemma_visible_faces_len(m, n as nat);
                    }
                    if is_face_visible(section, x, y, z, f) {
                        push_face(&mut vertices, &mut indices, Ghost(m), Ghost(prev), x, y, z, f, block);
                    }
                    f = f + 1;
                }
                x = x + 1;
            }
            z = z + 1;
        }
        y = y + 1;
    }
    proof {
        lemma_visible_faces_len(m, (VOXELS_PER_SECTION * FACE_COUNT) as nat);
        lemma_mesh_vertices_len(m, mesh_faces(m));
        lemma_mesh_indices_len(mesh_faces(m).len());
    }
    (vertices, indices)
}

} // verus!
