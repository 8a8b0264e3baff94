pub mod chunk;
pub mod worldgen;

use vstd::prelude::*;
use chunk::{is_solid, spec_is_solid, ChunkSection, SectionModel, CHUNK_SIZE};
use worldgen::{generate_chunk, generated_chunk, valid_heights};

verus! {

/// The chunk coordinate of world coordinate `x` (floor division by 16).
pub open spec fn chunk_of(x: int) -> int {
    x / (CHUNK_SIZE as int)
}

/// The coordinate of world coordinate `x` inside its chunk (Euclidean
/// remainder by 16).
pub open spec fn local_of(x: int) -> int {
    x % (CHUNK_SIZE as int)
}

/// Whether the world block at `(x, y, z)` is solid, given the chunk map:
/// only layers `0..16` hold blocks, and a missing chunk is empty.
pub open spec fn spec_solid_at(chunks: Map<(i32, i32), SectionModel>, x: int, y: int, z: int) -> bool {
    let key = (chunk_of(x) as i32, chunk_of(z) as i32);
    &&& 0 <= y < CHUNK_SIZE
    &&& chunks.contains_key(key)
    &&& spec_is_solid(chunks[key].block_at(local_of(x), y, local_of(z)))
}

/// Lookup by decomposition: a world coordinate `16 * cx + lx` with
/// `0 <= lx < 16` lies in chunk `cx` at local coordinate `lx` (likewise for
/// `z`), and the block there is solid iff that chunk exists and holds a
/// non-air block at `(lx, y, lz)`, for `y` in `0..16`.
pub proof fn law_solid_at_decomposed(
    chunks: Map<(i32, i32), SectionModel>,
    cx: i32,
    lx: int,
    y: int,
    cz: i32,
    lz: int,
)
    requires
        0 <= lx < 16,
        0 <= lz < 16,
    ensures
        spec_solid_at(chunks, 16 * cx + lx, y, 16 * cz + lz) <==> (0 <= y < 16 && chunks.contains_key((cx, cz))
            && chunks[(cx, cz)].blocks[(y * 16 + lz) * 16 + lx] != 0u16),
{
    let x = 16 * cx + lx;
    let z = 16 * cz + lz;
    assert(x / 16 == cx && x % 16 == lx);
    assert(z / 16 == cz && z % 16 == lz);
}

/// Largest grid side that keeps every world column coordinate in `i32`.
pub const MAX_CHUNKS: i32 = 0x0800_0000;

/// `grid[cx][cz]` is a valid height table for every chunk of the grid.
pub open spec fn valid_height_grid(grid: Seq<Vec<Vec<i32>>>, chunks_x: int, chunks_z: int) -> bool {
    forall|cx: int, cz: int|
        0 <= cx < chunks_x && 0 <= cz < chunks_z ==> cx < grid.len() && cz < grid[cx]@.len()
            && valid_heights(#[trigger] grid[cx]@[cz]@)
}

/// Chunk `(a, b)` comes before position `(cx, cz)` of the generation order.
pub open spec fn generated_before(a: int, b: int, chunks_z: int, cx: int, cz: int) -> bool {
    (0 <= a < cx && 0 <= b < chunks_z) || (a == cx && 0 <= b < cz)
}

/// The entries built before position `(cx, cz)`: one per chunk generated
/// so far, each holding its generated section.
pub open spec fn grid_invariant(
    entries: Seq<((i32, i32), ChunkSection)>,
    seed: u32,
    grid: Seq<Vec<Vec<i32>>>,
    chunks_z: int,
    cx: int,
    cz: int,
) -> bool {
    &&& forall|i: int, j: int| 0 <= i < j < entries.len() ==> #[trigger] entries[i].0 != #[trigger] entries[j].0
    &&& forall|i: int|
        #![trigger entries[i]]
        0 <= i < entries.len() ==> {
            &&& generated_before(entries[i].0.0 as int, entries[i].0.1 as int, chunks_z, cx, cz)
            &&& entries[i].1.wf()
            &&& entries[i].1@ == generated_chunk(
                entries[i].0.0,
                entries[i].0.1,
                seed,
                grid[entries[i].0.0 as int]@[entries[i].0.1 as int]@,
            )
        }
    &&& forall|a: i32, b: i32|
        #![trigger generated_before(a as int, b as int, chunks_z, cx, cz)]
        generated_before(a as int, b as int, chunks_z, cx, cz) ==> exists|i: int|
            0 <= i < entries.len() && #[trigger] entries[i].0 == (a, b)
}

/// A generated world answers solidity from its generated terrain: a block
/// is solid iff it lies in layers `0..16`, in a chunk of the grid, and the
/// generated section of that chunk holds a solid block there.
pub proof fn law_generated_world_solidity(
    chunks: Map<(i32, i32), SectionModel>,
    chunks_x: i32,
    chunks_z: i32,
    seed: u32,
    heights: Seq<Vec<Vec<i32>>>,
    x: i32,
    y: i32,
    z: i32,
)
    requires
        forall|k: (i32, i32)|
            #![trigger chunks.contains_key(k)]
            chunks.contains_key(k) <==> (0 <= k.0 < chunks_x && 0 <= k.1 < chunks_z),
        forall|k: (i32, i32)|
            #![trigger chunks[k]]
            chunks.contains_key(k) ==> chunks[k] == generated_chunk(k.0, k.1, seed, heights[k.0 as int]@[k.1 as int]@),
    ensures
        spec_solid_at(chunks, x as int, y as int, z as int) <==> {
            let cx = chunk_of(x as int);
            let cz = chunk_of(z as int);
            &&& 0 <= y < CHUNK_SIZE
            &&& 0 <= cx < chunks_x
            &&& 0 <= cz < chunks_z
            &&& spec_is_solid(
                generated_chunk(cx as i32, cz as i32, seed, heights[cx]@[cz]@).block_at(
                    local_of(x as int),
                    y as int,
                    local_of(z as int),
                ),
            )
        },
{
    let key = (chunk_of(x as int) as i32, chunk_of(z as int) as i32);
    assert(chunks.contains_key(key) <==> (0 <= key.0 < chunks_x && 0 <= key.1 < chunks_z));
    if chunks.contains_key(key) {
        assert(chunks[key] == generated_chunk(key.0, key.1, seed, heights[key.0 as int]@[key.1 as int]@));
    }
}

/// The generated chunk sections, each under its chunk coordinates. Kept as
/// a list with distinct coordinates rather than a `HashMap`: vstd specifies
/// `HashMap` only for key types with a proven hash model, which a pair of
/// `i32` does not have.
pub struct ChunkStore {
    chunks: Vec<((i32, i32), ChunkSection)>,
}

proof fn lemma_grid_push(
    entries: Seq<((i32, i32), ChunkSection)>,
    seed: u32,
    grid: Seq<Vec<Vec<i32>>>,
    chunks_z: int,
    cx: i32,
    cz: i32,
    section: ChunkSection,
)
    requires
        0 <= cx,
        0 <= cz < chunks_z,
        grid_invariant(entries, seed, grid, chunks_z, cx as int, cz as int),
        section.wf(),
        section@ == generated_chunk(cx, cz, seed, grid[cx as int]@[cz as int]@),
    ensures
        grid_invariant(entries.push(((cx, cz), section)), seed, grid, chunks_z, cx as int, cz + 1),
{
    let e2 = entries.push(((cx, cz), section));
    assert forall|i: int, j: int| 0 <= i < j < e2.len() implies #[trigger] e2[i].0 != #[trigger] e2[j].0 by {
        if j == entries.len() {
            assert(generated_before(e2[i].0.0 as int, e2[i].0.1 as int, chunks_z, cx as int, cz as int));
        } else {
            assert(entries[i].0 != entries[j].0);
        }
    }
    assert forall|i: int| #![trigger e2[i]] 0 <= i < e2.len() implies {
        &&& generated_before(e2[i].0.0 as int, e2[i].0.1 as int, chunks_z, cx as int, cz + 1)
        &&& e2[i].1.wf()
        &&& e2[i].1@ == generated_chunk(e2[i].0.0, e2[i].0.1, seed, grid[e2[i].0.0 as int]@[e2[i].0.1 as int]@)
    } by {
        if i < entries.len() {
            assert(entries[i] == e2[i]);
        }
    }
    assert forall|a: i32, b: i32|
        #![trigger generated_before(a as int, b as int, chunks_z, cx as int, cz + 1)]
        generated_before(a as int, b as int, chunks_z, cx as int, cz + 1) implies exists|i: int|
            0 <= i < e2.len() && #[trigger] e2[i].0 == (a, b) by {
        if a == cx && b == cz {
            assert(e2[entries.len() as int].0 == (a, b));
        } else {
            assert(generated_before(a as int, b as int, chunks_z, cx as int, cz as int));
            let i = choose|i: int| 0 <= i < entries.len() && #[trigger] entries[i].0 == (a, b);
            assert(e2[i] == entries[i]);
        }
    }
}

proof fn lemma_grid_next_row(
    entries: Seq<((i32, i32), ChunkSection)>,
    seed: u32,
    grid: Seq<Vec<Vec<i32>>>,
    chunks_z: int,
    cx: int,
    cz: int,
)
    requires
        0 <= cx,
        cz >= chunks_z,
        cz == 0 || cz == chunks_z,
        grid_invariant(entries, seed, grid, chunks_z, cx, cz),
    ensures
        grid_invariant(entries, seed, grid, chunks_z, cx + 1, 0),
{
    assert forall|i: int| #![trigger entries[i]] 0 <= i < entries.len() implies
        generated_before(entries[i].0.0 as int, entries[i].0.1 as int, chunks_z, cx + 1, 0) by {
        assert(generated_before(entries[i].0.0 as int, entries[i].0.1 as int, chunks_z, cx, cz));
    }
    assert forall|a: i32, b: i32|
        #![trigger generated_before(a as int, b as int, chunks_z, cx + 1, 0)]
        generated_before(a as int, b as int, chunks_z, cx + 1, 0) implies exists|i: int|
            0 <= i < entries.len() && #[trigger] entries[i].0 == (a, b) by {
        assert(generated_before(a as int, b as int, chunks_z, cx, cz));
    }
}

/// World storage.
pub struct World {
    pub chunks: ChunkStore,
    pub seed: u32,
    pub chunks_x: i32,
    pub chunks_z: i32,
}

impl View for World {
    type V = Map<(i32, i32), SectionModel>;

    open spec fn view(&self) -> Map<(i32, i32), SectionModel> {
        self.chunks@
    }
}

impl View for ChunkStore {
    type V = Map<(i32, i32), SectionModel>;

    /// The section stored under each chunk coordinate.
    closed spec fn view(&self) -> Map<(i32, i32), SectionModel> {
        Map::new(
            |k: (i32, i32)| exists|i: int| 0 <= i < self.chunks@.len() && #[trigger] self.chunks@[i].0 == k,
            |k: (i32, i32)|
                self.chunks@[choose|i: int| 0 <= i < self.chunks@.len() && #[trigger] self.chunks@[i].0 == k].1@,
        )
    }
}

impl ChunkStore {
    /// Each chunk coordinate occurs once, and every section is well formed.
    pub closed spec fn wf(&self) -> bool {
        &&& forall|i: int, j: int|
            0 <= i < j < self.chunks@.len() ==> #[trigger] self.chunks@[i].0 != #[trigger] self.chunks@[j].0
        &&& forall|i: int| 0 <= i < self.chunks@.len() ==> (#[trigger] self.chunks@[i]).1.wf()
    }

    /// Every section of a well-formed world has a valid model.
    pub proof fn lemma_wf_valid(&self, key: (i32, i32))
        requires
            self.wf(),
            self@.contains_key(key),
        ensures
            self@[key].valid(),
    {
        let i = choose|i: int| 0 <= i < self.chunks@.len() && #[trigger] self.chunks@[i].0 == key;
        self.chunks@[i].1.lemma_wf_valid();
    }

    proof fn lemma_entry(&self, i: int)
        requires
            self.wf(),
            0 <= i < self.chunks@.len(),
        ensures
            self@.contains_key(self.chunks@[i].0),
            self@[self.chunks@[i].0] == self.chunks@[i].1@,
    {
        let k = self.chunks@[i].0;
        assert(self@.contains_key(k));
        let j = choose|j: int| 0 <= j < self.chunks@.len() && #[trigger] self.chunks@[j].0 == k;
        if i != j {
            if i < j {
                assert(self.chunks@[i].0 != self.chunks@[j].0);
            } else {
                assert(self.chunks@[j].0 != self.chunks@[i].0);
            }
        }
    }

    /// The section stored under `(cx, cz)`, if any.
    fn find_chunk(&self, cx: i32, cz: i32) -> (r: Option<&ChunkSection>)
        requires
            self.wf(),
        ensures
            match r {
                Some(s) => self@.contains_key((cx, cz)) && s@ == self@[(cx, cz)] && s.wf(),
                None => !self@.contains_key((cx, cz)),
            },
    {
        let mut i: usize = 0;
        while i < self.chunks.len()
            invariant
                self.wf(),
                i <= self.chunks@.len(),
                forall|j: int| 0 <= j < i ==> self.chunks@[j].0 != (cx, cz),
            decreases self.chunks@.len() - i,
        {
            let entry = &self.chunks[i];
            if entry.0.0 == cx && entry.0.1 == cz {
                proof {
                    self.lemma_entry(i as int);
                }
                return Some(&entry.1);
            }
            i = i + 1;
        }
        None
    }

}

impl World {
    pub open spec fn wf(&self) -> bool {
        self.chunks.wf()
    }

    /// Generates every chunk of the grid `0..chunks_x` by `0..chunks_z`.
    /// `heights[cx][cz]` is the surface height table of chunk `(cx, cz)`
    /// (see `generate_chunk`).
    pub fn generate(chunks_x: i32, chunks_z: i32, seed: u32, heights: &Vec<Vec<Vec<i32>>>) -> (w: Self)
        requires
            chunks_x <= MAX_CHUNKS,
            chunks_z <= MAX_CHUNKS,
            valid_height_grid(heights@, chunks_x as int, chunks_z as int),
        ensures
            w.wf(),
            w.seed == seed,
            w.chunks_x == chunks_x,
            w.chunks_z == chunks_z,
            forall|k: (i32, i32)|
                #![trigger w@.contains_key(k)]
                w@.contains_key(k) <==> (0 <= k.0 < chunks_x && 0 <= k.1 < chunks_z),
            forall|k: (i32, i32)|
                #![trigger w@[k]]
                w@.contains_key(k) ==> w@[k] == generated_chunk(k.0, k.1, seed, heights@[k.0 as int]@[k.1 as int]@),
    {
        let mut chunks: Vec<((i32, i32), ChunkSection)> = Vec::new();
        let mut cx: i32 = 0;
        while cx < chunks_x
            invariant
                0 <= cx,
                cx <= chunks_x || (chunks_x < 0 && cx == 0),
                chunks_x <= MAX_CHUNKS,
                chunks_z <= MAX_CHUNKS,
                valid_height_grid(heights@, chunks_x as int, chunks_z as int),
                grid_invariant(chunks@, seed, heights@, chunks_z as int, cx as int, 0),
            decreases chunks_x - cx,
        {
            let mut cz: i32 = 0;
            while cz < chunks_z
                invariant
                    0 <= cx < chunks_x,
                    0 <= cz,
                    cz <= chunks_z || (chunks_z < 0 && cz == 0),
                    chunks_x <= MAX_CHUNKS,
                    chunks_z <= MAX_CHUNKS,
                    valid_height_grid(heights@, chunks_x as int, chunks_z as int),
                    grid_invariant(chunks@, seed, heights@, chunks_z as int, cx as int, cz as int),
                decreases chunks_z - cz,
            {
                assert(valid_heights(heights@[cx as int]@[cz as int]@));
                let section = generate_chunk(cx, cz, seed, &heights[cx as usize][cz as usize]);
                let ghost before = chunks@;
                chunks.push(((cx, cz), section));
                proof {
                    lemma_grid_push(before, seed, heights@, chunks_z as int, cx, cz, section);
                    assert(chunks@ == before.push(((cx, cz), section)));
                }
                cz = cz + 1;
            }
            proof {
                lemma_grid_next_row(chunks@, seed, heights@, chunks_z as int, cx as int, cz as int);
            }
            cx = cx + 1;
        }
        let w = World { chunks: ChunkStore { chunks }, seed, chunks_x, chunks_z };
        proof {
            assert forall|k: (i32, i32)| #![trigger w@.contains_key(k)]
                w@.contains_key(k) <==> (0 <= k.0 < chunks_x && 0 <= k.1 < chunks_z) by {
                if 0 <= k.0 < chunks_x && 0 <= k.1 < chunks_z {
                    assert(generated_before(k.0 as int, k.1 as int, chunks_z as int, cx as int, 0));
                }
            }
            assert forall|k: (i32, i32)| #![trigger w@[k]]
                w@.contains_key(k) implies w@[k] == generated_chunk(k.0, k.1, seed, heights@[k.0 as int]@[k.1 as int]@) by {
                let i = choose|i: int| 0 <= i < w.chunks.chunks@.len() && #[trigger] w.chunks.chunks@[i].0 == k;
                w.chunks.lemma_entry(i);
            }
        }
        w
    }

    /// The chunks of the world with their coordinates, each once.
    pub fn iter_chunks(&self) -> (r: Vec<((i32, i32), &ChunkSection)>)
        requires
            self.wf(),
        ensures
            forall|i: int, j: int| 0 <= i < j < r@.len() ==> #[trigger] r@[i].0 != #[trigger] r@[j].0,
            forall|i: int|
                #![trigger r@[i]]
                0 <= i < r@.len() ==> self@.contains_key(r@[i].0) && r@[i].1@ == self@[r@[i].0] && r@[i].1.wf(),
            forall|k: (i32, i32)| #[trigger] self@.contains_key(k) ==> exists|i: int| 0 <= i < r@.len() && #[trigger] r@[i].0 == k,
    {
        let entries = &self.chunks.chunks;
        let mut r: Vec<((i32, i32), &ChunkSection)> = Vec::new();
        let mut i: usize = 0;
        while i < entries.len()
            invariant
                self.wf(),
                entries == &self.chunks.chunks,
                i <= entries@.len(),
                r@.len() == i,
                forall|j: int| #![trigger r@[j]] 0 <= j < i ==> r@[j].0 == entries@[j].0 && r@[j].1 == &entries@[j].1,
            decreases entries@.len() - i,
        {
            r.push((entries[i].0, &entries[i].1));
            i = i + 1;
        }
        proof {
            assert forall|a: int, b: int| 0 <= a < b < r@.len() implies #[trigger] r@[a].0 != #[trigger] r@[b].0 by {
                assert(entries@[a].0 != entries@[b].0);
            }
            assert forall|j: int| #![trigger r@[j]] 0 <= j < r@.len() implies self@.contains_key(r@[j].0)
                && r@[j].1@ == self@[r@[j].0] && r@[j].1.wf() by {
                self.chunks.lemma_entry(j);
            }
            assert forall|k: (i32, i32)| #[trigger] self@.contains_key(k) implies exists|j: int|
                0 <= j < r@.len() && #[trigger] r@[j].0 == k by {
                let j = choose|j: int| 0 <= j < entries@.len() && #[trigger] entries@[j].0 == k;
                assert(r@[j].0 == k);
            }
        }
        r
    }

    /// Whether the block at world coordinates `(world_x, world_y, world_z)`
    /// is solid; outside layers `0..16` and outside the generated chunks
    /// nothing is.
    pub fn is_solid_at(&self, world_x: i32, world_y: i32, world_z: i32) -> (r: bool)
        requires
            self.wf(),
        ensures
            r == spec_solid_at(self@, world_x as int, world_y as int, world_z as int),
    {
        if world_y < 0 || world_y >= CHUNK_SIZE as i32 {
            return false;
        }
        let cx = match world_x.checked_div_euclid(CHUNK_SIZE as i32) {
            Some(q) => q,
            None => return false,
        };
        let cz = match world_z.checked_div_euclid(CHUNK_SIZE as i32) {
            Some(q) => q,
            None => return false,
        };
        let lx = match world_x.checked_rem_euclid(CHUNK_SIZE as i32) {
            Some(q) => q as usize,
            None => return false,
        };
        let lz = match world_z.checked_rem_euclid(CHUNK_SIZE as i32) {
            Some(q) => q as usize,
            None => return false,
        };
        match self.chunks.find_chunk(cx, cz) {
            Some(section) => is_solid(section.get_block(lx, world_y as usize, lz)),
            None => false,
        }
    }

    /// Whether any block of the box `[min_x, max_x] x [min_y, max_y] x
    /// [min_z, max_z]` (bounds included) is solid.
    pub fn any_solid_in_box(&self, min_x: i32, max_x: i32, min_y: i32, max_y: i32, min_z: i32, max_z: i32) -> (r: bool)
        requires
            self.wf(),
        ensures
            r == exists|x: int, y: int, z: int|
                min_x <= x <= max_x && min_y <= y <= max_y && min_z <= z <= max_z
                    && #[trigger] spec_solid_at(self@, x, y, z),
    {
        let mut x: i64 = min_x as i64;
        while x <= max_x as i64
            invariant
                self.wf(),
                min_x <= x,
                x <= max_x + 1 || x == min_x,
                forall|a: int, b: int, c: int|
                    min_x <= a < x && min_y <= b <= max_y && min_z <= c <= max_z
                        ==> !#[trigger] spec_solid_at(self@, a, b, c),
            decreases max_x + 1 - x,
        {
            let mut y: i64 = min_y as i64;
            while y <= max_y as i64
                invariant
                    self.wf(),
                    min_x <= x <= max_x,
                    min_y <= y,
                    y <= max_y + 1 || y == min_y,
                    forall|a: int, b: int, c: int|
                        min_x <= a < x && min_y <= b <= max_y && min_z <= c <= max_z
                            ==> !#[trigger] spec_solid_at(self@, a, b, c),
                    forall|b: int, c: int|
                        min_y <= b < y && min_z <= c <= max_z ==> !#[trigger] spec_solid_at(self@, x as int, b, c),
                decreases max_y + 1 - y,
            {
                let mut z: i64 = min_z as i64;
                while z <= max_z as i64
                    invariant
                        self.wf(),
                        min_x <= x <= max_x,
                        min_y <= y <= max_y,
                        min_z <= z,
                        z <= max_z + 1 || z == min_z,
                        forall|a: int, b: int, c: int|
                            min_x <= a < x && min_y <= b <= max_y && min_z <= c <= max_z
                                ==> !#[trigger] spec_solid_at(self@, a, b, c),
                        forall|b: int, c: int|
                            min_y <= b < y && min_z <= c <= max_z ==> !#[trigger] spec_solid_at(self@, x as int, b, c),
                        forall|c: int| min_z <= c < z ==> !#[trigger] spec_solid_at(self@, x as int, y as int, c),
                    decreases max_z + 1 - z,
                {
                    if self.is_solid_at(x as i32, y as i32, z as i32) {
                        return true;
                    }
                    z = z + 1;
                }
                y = y + 1;
            }
            x = x + 1;
        }
        false
    }
}

} // verus!