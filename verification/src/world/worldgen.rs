use vstd::prelude::*;
use vstd::wrapping::u32_specs::{wrapping_add, wrapping_mul};
use super::chunk::{
    empty_section, in_section, voxel_offset, BlockTypeId, ChunkSection, SectionModel, AIR, CHUNK_SIZE,
    VOXELS_PER_SECTION,
    DIRT, GRASS, LEAF, PLANK, STONE,
};

verus! {

/// Integer hash of a column and a seed, keeping its low 24 bits.
pub open spec fn spec_hash2d_bits(x: i32, z: i32, seed: u32) -> u32 {
    let a = wrapping_mul(x as u32, 374761393);
    let b = wrapping_mul(z as u32, 668265263);
    let c = wrapping_add(wrapping_mul(seed, 2654435761), 1);
    let h0 = wrapping_add(wrapping_add(a, b), c);
    let h1 = wrapping_mul(h0 ^ (h0 >> 13u32), 1274126177);
    let h2 = h1 ^ (h1 >> 16u32);
    h2 & 0x00FF_FFFFu32
}

/// Deterministic hash of `(x, z, seed)` as a 24-bit integer: the value
/// `hash / 2^24` lies in `[0, 1)` and is the column noise sample.
pub fn hash2d_bits(x: i32, z: i32, seed: u32) -> (h: u32)
    ensures
        h == spec_hash2d_bits(x, z, seed),
        h < 0x0100_0000,
{
    let mut h = (x as u32).wrapping_mul(374761393).wrapping_add(
        (z as u32).wrapping_mul(668265263),
    ).wrapping_add(seed.wrapping_mul(2654435761).wrapping_add(1));
    h = (h ^ (h >> 13u32)).wrapping_mul(1274126177);
    h = h ^ (h >> 16u32);
    let r = h & 0x00FF_FFFFu32;
    assert(r < 0x0100_0000) by (bit_vector)
        requires
            r == h & 0x00FF_FFFFu32,
    ;
    r
}

/// The seed of the next world when the player asks for a new one.
pub fn next_seed(seed: u32) -> (r: u32)
    ensures
        r == wrapping_add(seed, 1013),
{
    seed.wrapping_add(1013)
}

/// Tree threshold: a sample `m / 2^24` exceeds the single-precision value
/// nearest to 0.93, which is exactly `15602811 / 2^24`, iff `m > 15602811`.
pub open spec fn tree_threshold() -> u32 {
    15602811
}

pub open spec fn spec_should_place_tree(world_x: i32, world_z: i32, seed: u32) -> bool {
    spec_hash2d_bits(world_x, world_z, wrapping_add(seed, 777)) > tree_threshold()
}

fn should_place_tree(world_x: i32, world_z: i32, seed: u32) -> (r: bool)
    ensures
        r == spec_should_place_tree(world_x, world_z, seed),
{
    hash2d_bits(world_x, world_z, seed.wrapping_add(777)) > 15602811
}

/// A write of one block: voxel offset and block type.
pub type BlockWrite = (int, BlockTypeId);

/// The writes that `f` yields for candidates `0..n`, in order, skipping
/// candidates for which it yields nothing.
pub open spec fn writes_of(f: spec_fn(int) -> Option<BlockWrite>, n: nat) -> Seq<BlockWrite>
    decreases n,
{
    if n == 0 {
        Seq::empty()
    } else {
        let prev = writes_of(f, (n - 1) as nat);
        match f(n - 1) {
            Some(w) => prev.push(w),
            None => prev,
        }
    }
}

/// Applies writes to a section in order; a later write to a voxel wins.
pub open spec fn apply_writes(m: SectionModel, writes: Seq<BlockWrite>) -> SectionModel
    decreases writes.len(),
{
    if writes.len() == 0 {
        m
    } else {
        apply_writes(m, writes.drop_last()).with_block(writes.last().0, writes.last().1)
    }
}

/// Layering of a terrain column of surface height `height`: grass on top,
/// three layers of dirt below it, stone further down.
pub open spec fn terrain_block(y: int, height: int) -> BlockTypeId {
    if y == height {
        GRASS
    } else if y >= height - 3 {
        DIRT
    } else {
        STONE
    }
}

/// The first `n` terrain writes of column `(lx, lz)`: layers `0..n`,
/// bottom up.
pub open spec fn column_writes_upto(lx: int, lz: int, height: int, n: nat) -> Seq<BlockWrite> {
    writes_of(|y: int| Some((voxel_offset(lx, y, lz), terrain_block(y, height))), n)
}

/// The terrain writes of column `(lx, lz)`: layers `0..=height`, bottom up.
pub open spec fn column_writes(lx: int, lz: int, height: int) -> Seq<BlockWrite> {
    column_writes_upto(lx, lz, height, (height + 1) as nat)
}

/// Trunk candidate `i` (of three) of a tree standing at `(x, base_y, z)`.
pub open spec fn trunk_candidate(x: int, base_y: int, z: int, i: int) -> Option<BlockWrite> {
    if base_y + i < CHUNK_SIZE {
        Some((voxel_offset(x, base_y + i, z), PLANK))
    } else {
        None
    }
}

/// The writes of the first `n` trunk candidates.
pub open spec fn trunk_writes(x: int, base_y: int, z: int, n: nat) -> Seq<BlockWrite> {
    writes_of(|i: int| trunk_candidate(x, base_y, z, i), n)
}

/// Leaf candidate for offsets `(dx, dy, dz)` around the top of the trunk:
/// the corners of the upper layer are left out, as is anything outside
/// the section.
pub open spec fn leaf_at(x: int, base_y: int, z: int, dy: int, dx: int, dz: int) -> Option<BlockWrite> {
    let lx = x + dx;
    let lz = z + dz;
    let ly = base_y + 2 + dy;
    if (dx == 1 || dx == -1) && (dz == 1 || dz == -1) && dy == 1 {
        None
    } else if lx < 0 || lz < 0 || lx >= CHUNK_SIZE || lz >= CHUNK_SIZE || ly >= CHUNK_SIZE {
        None
    } else {
        Some((voxel_offset(lx, ly, lz), LEAF))
    }
}

/// Leaf candidate `k` of 18: `dy` outermost, then `dx`, then `dz`.
pub open spec fn leaf_candidate(x: int, base_y: int, z: int, k: int) -> Option<BlockWrite> {
    leaf_at(x, base_y, z, k / 9, (k % 9) / 3 - 1, k % 3 - 1)
}

/// The writes of the first `n` leaf candidates.
pub open spec fn leaf_writes(x: int, base_y: int, z: int, n: nat) -> Seq<BlockWrite> {
    writes_of(|k: int| leaf_candidate(x, base_y, z, k), n)
}

/// All writes of a tree at `(x, base_y, z)`: the trunk, then the leaves.
pub open spec fn tree_writes(x: int, base_y: int, z: int) -> Seq<BlockWrite> {
    trunk_writes(x, base_y, z, 3) + leaf_writes(x, base_y, z, 18)
}

/// The height table holds one surface height per column, indexed
/// `lx * 16 + lz`, each within the range the generator can place.
pub open spec fn valid_heights(heights: Seq<i32>) -> bool {
    &&& heights.len() == CHUNK_SIZE * CHUNK_SIZE
    &&& forall|i: int| 0 <= i < heights.len() ==> -1 <= #[trigger] heights[i] < CHUNK_SIZE
}

/// Chunk coordinates whose world columns fit in `i32`.
pub open spec fn valid_chunk_coord(c: i32) -> bool {
    i32::MIN <= c * CHUNK_SIZE && c * CHUNK_SIZE + (CHUNK_SIZE - 1) <= i32::MAX
}

/// The writes of column number `c` (`lx = c / 16`, `lz = c % 16`) of chunk
/// `(chunk_x, chunk_z)`: its terrain, then a tree on top where the hash
/// of the world column says so.
pub open spec fn chunk_column_writes(
    chunk_x: i32,
    chunk_z: i32,
    seed: u32,
    heights: Seq<i32>,
    c: int,
) -> Seq<BlockWrite> {
    let lx = c / 16;
    let lz = c % 16;
    let h = heights[c] as int;
    let wx = (chunk_x * CHUNK_SIZE + lx) as i32;
    let wz = (chunk_z * CHUNK_SIZE + lz) as i32;
    column_writes(lx, lz, h) + if spec_should_place_tree(wx, wz, seed) {
        tree_writes(lx, h + 1, lz)
    } else {
        Seq::empty()
    }
}

/// The writes of the first `n` columns of a chunk, in generation order.
pub open spec fn chunk_writes(
    chunk_x: i32,
    chunk_z: i32,
    seed: u32,
    heights: Seq<i32>,
    n: nat,
) -> Seq<BlockWrite>
    decreases n,
{
    if n == 0 {
        Seq::empty()
    } else {
        chunk_writes(chunk_x, chunk_z, seed, heights, (n - 1) as nat) + chunk_column_writes(
            chunk_x,
            chunk_z,
            seed,
            heights,
            n - 1,
        )
    }
}

/// The section that generation produces for chunk `(chunk_x, chunk_z)`.
pub open spec fn generated_chunk(chunk_x: i32, chunk_z: i32, seed: u32, heights: Seq<i32>) -> SectionModel {
    apply_writes(empty_section(), chunk_writes(chunk_x, chunk_z, seed, heights, 256))
}

/// Applying `w1 + w2` is applying `w1`, then `w2`.
pub proof fn lemma_apply_concat(m: SectionModel, w1: Seq<BlockWrite>, w2: Seq<BlockWrite>)
    ensures
        apply_writes(m, w1 + w2) == apply_writes(apply_writes(m, w1), w2),
    decreases w2.len(),
{
    if w2.len() == 0 {
        assert(w1 + w2 =~= w1);
    } else {
        lemma_apply_concat(m, w1, w2.drop_last());
        assert((w1 + w2).drop_last() =~= w1 + w2.drop_last());
    }
}

/// Applying one more write.
proof fn lemma_apply_push(m: SectionModel, w: Seq<BlockWrite>, op: BlockWrite)
    ensures
        apply_writes(m, w.push(op)) == apply_writes(m, w).with_block(op.0, op.1),
{
    assert(w.push(op).drop_last() =~= w);
}

fn place_tree(section: &mut ChunkSection, x: usize, base_y: usize, z: usize)
    requires
        old(section).wf(),
        x < CHUNK_SIZE,
        z < CHUNK_SIZE,
        base_y <= usize::MAX - 3,
    ensures
        final(section).wf(),
        final(section)@ == apply_writes(old(section)@, tree_writes(x as int, base_y as int, z as int)),
{
    let ghost start = section@;
    let mut i: usize = 0;
    while i < 3
        invariant
            section.wf(),
            i <= 3,
            x < CHUNK_SIZE,
            z < CHUNK_SIZE,
            base_y <= usize::MAX - 3,
            section@ == apply_writes(start, trunk_writes(x as int, base_y as int, z as int, i as nat)),
        decreases 3 - i,
    {
        let y = base_y + i;
        let ghost prev = trunk_writes(x as int, base_y as int, z as int, i as nat);
        if y < CHUNK_SIZE {
            section.set_block(x, y, z, PLANK);
            proof {
                lemma_apply_push(start, prev, (voxel_offset(x as int, y as int, z as int), PLANK));
            }
        }
        assert(trunk_writes(x as int, base_y as int, z as int, (i + 1) as nat) == if y < CHUNK_SIZE {
            prev.push((voxel_offset(x as int, y as int, z as int), PLANK))
        } else {
            prev
        });
        i = i + 1;
    }
    let ghost mid = section@;
    let top = base_y + 2;
    let mut dy: usize = 0;
    while dy < 2
        invariant
            section.wf(),
            dy <= 2,
            x < CHUNK_SIZE,
            z < CHUNK_SIZE,
            base_y <= usize::MAX - 3,
            top == base_y + 2,
            section@ == apply_writes(mid, leaf_writes(x as int, base_y as int, z as int, (dy * 9) as nat)),
        decreases 2 - dy,
    {
        let mut dx: i32 = -1;
        while dx <= 1
            invariant
                section.wf(),
                dy < 2,
                -1 <= dx <= 2,
                x < CHUNK_SIZE,
                z < CHUNK_SIZE,
                base_y <= usize::MAX - 3,
                top == base_y + 2,
                section@ == apply_writes(
                    mid,
                    leaf_writes(x as int, base_y as int, z as int, (dy * 9 + (dx + 1) * 3) as nat),
                ),
            decreases 2 - dx,
        {
            let mut dz: i32 = -1;
            while dz <= 1
                invariant
                    section.wf(),
                    dy < 2,
                    -1 <= dx <= 1,
                    -1 <= dz <= 2,
                    x < CHUNK_SIZE,
                    z < CHUNK_SIZE,
                    base_y <= usize::MAX - 3,
                    top == base_y + 2,
                    section@ == apply_writes(
                        mid,
                        leaf_writes(
                            x as int,
                            base_y as int,
                            z as int,
                            (dy * 9 + (dx + 1) * 3 + (dz + 1)) as nat,
                        ),
                    ),
                decreases 2 - dz,
            {
                let ghost k: int = dy * 9 + (dx + 1) * 3 + (dz + 1);
                let ghost prev = leaf_writes(x as int, base_y as int, z as int, k as nat);
                assert(k / 9 == dy && (k % 9) / 3 - 1 == dx && k % 3 - 1 == dz);
                let corner = (dx == 1 || dx == -1) && (dz == 1 || dz == -1) && dy == 1;
                if !corner {
                    let lx = x as i32 + dx;
                    let lz = z as i32 + dz;
                    let ly = top + dy;
                    if !(lx < 0 || lz < 0 || lx >= CHUNK_SIZE as i32 || lz >= CHUNK_SIZE as i32
                        || ly >= CHUNK_SIZE) {
                        section.set_block(lx as usize, ly, lz as usize, LEAF);
                        proof {
                            lemma_apply_push(
                                mid,
                                prev,
                                (voxel_offset(lx as int, ly as int, lz as int), LEAF),
                            );
                        }
                    }
                }
                assert(leaf_writes(x as int, base_y as int, z as int, (k + 1) as nat) == match leaf_at(
                    x as int,
                    base_y as int,
                    z as int,
                    dy as int,
                    dx as int,
                    dz as int,
                ) {
                    Some(w) => prev.push(w),
                    None => prev,
                });
                dz = dz + 1;
            }
            dx = dx + 1;
        }
        dy = dy + 1;
    }
    proof {
        lemma_apply_concat(
            start,
            trunk_writes(x as int, base_y as int, z as int, 3),
            leaf_writes(x as int, base_y as int, z as int, 18),
        );
    }
}

/// Generates the section of chunk `(chunk_x, chunk_z)`. `heights` gives
/// the surface height of each of its columns (index `lx * 16 + lz`).
/// Column by column: stone inside, three layers of dirt below the surface,
/// grass on top, and a tree above the surface where the column hash says so.
pub fn generate_chunk(chunk_x: i32, chunk_z: i32, seed: u32, heights: &Vec<i32>) -> (section: ChunkSection)
    requires
        valid_chunk_coord(chunk_x),
        valid_chunk_coord(chunk_z),
        valid_heights(heights@),
    ensures
        section.wf(),
        section@ == generated_chunk(chunk_x, chunk_z, seed, heights@),
{
    let mut section = ChunkSection::new_empty();
    let ghost empty = section@;
    let mut local_x: usize = 0;
    while local_x < CHUNK_SIZE
        invariant
            section.wf(),
            local_x <= CHUNK_SIZE,
            empty == empty_section(),
            valid_chunk_coord(chunk_x),
            valid_chunk_coord(chunk_z),
            valid_heights(heights@),
            section@ == apply_writes(empty, chunk_writes(chunk_x, chunk_z, seed, heights@, (local_x * 16) as nat)),
        decreases CHUNK_SIZE - local_x,
    {
        let mut local_z: usize = 0;
        while local_z < CHUNK_SIZE
            invariant
                section.wf(),
                local_x < CHUNK_SIZE,
                local_z <= CHUNK_SIZE,
                empty == empty_section(),
                valid_chunk_coord(chunk_x),
                valid_chunk_coord(chunk_z),
                valid_heights(heights@),
                section@ == apply_writes(
                    empty,
                    chunk_writes(chunk_x, chunk_z, seed, heights@, (local_x * 16 + local_z) as nat),
                ),
            decreases CHUNK_SIZE - local_z,
        {
            let ghost c: int = local_x * 16 + local_z;
            let ghost done = chunk_writes(chunk_x, chunk_z, seed, heights@, c as nat);
            let world_x = chunk_x * CHUNK_SIZE as i32 + local_x as i32;
            let world_z = chunk_z * CHUNK_SIZE as i32 + local_z as i32;
            let height = heights[local_x * CHUNK_SIZE + local_z];
            assert(-1 <= height < CHUNK_SIZE);
            let ghost before = section@;
            let mut y: i32 = 0;
            while y <= height
                invariant
                    section.wf(),
                    local_x < CHUNK_SIZE,
                    local_z < CHUNK_SIZE,
                    -1 <= height < CHUNK_SIZE,
                    0 <= y <= height + 1,
                    section@ == apply_writes(
                        before,
                        column_writes_upto(local_x as int, local_z as int, height as int, y as nat),
                    ),
                decreases height + 1 - y,
            {
                let block = if y == height {
                    GRASS
                } else if y >= height - 3 {
                    DIRT
                } else {
                    STONE
                };
                let ghost prev = column_writes_upto(local_x as int, local_z as int, height as int, y as nat);
                section.set_block(local_x, y as usize, local_z, block);
                proof {
                    lemma_apply_push(
                        before,
                        prev,
                        (voxel_offset(local_x as int, y as int, local_z as int), block),
                    );
                    assert(column_writes_upto(local_x as int, local_z as int, height as int, (y + 1) as nat)
                        == prev.push((voxel_offset(local_x as int, y as int, local_z as int), block)));
                }
                y = y + 1;
            }
            let ghost terrain = column_writes(local_x as int, local_z as int, height as int);
            let ghost after_terrain = section@;
            let tree = should_place_tree(world_x, world_z, seed);
            if tree {
                place_tree(&mut section, local_x, (height + 1) as usize, local_z);
            }
            proof {
                let tw = if tree {
                    tree_writes(local_x as int, height + 1, local_z as int)
                } else {
                    Seq::empty()
                };
                assert(section@ == apply_writes(after_terrain, tw)) by {
                    if !tree {
                        assert(apply_writes(after_terrain, tw) == after_terrain);
                    }
                }
                assert(c / 16 == local_x && c % 16 == local_z);
                assert(chunk_column_writes(chunk_x, chunk_z, seed, heights@, c) == terrain + tw);
                lemma_apply_concat(empty, done, terrain);
                lemma_apply_concat(empty, done + terrain, tw);
                assert(done + terrain + tw == done + (terrain + tw)) by {
                    assert(done + terrain + tw =~= done + (terrain + tw));
                }
                assert(chunk_writes(chunk_x, chunk_z, seed, heights@, (c + 1) as nat) == done + (terrain + tw));
            }
            local_z = local_z + 1;
        }
        local_x = local_x + 1;
    }
    section
}

/// Whether some write of `w` targets voxel `idx`.
pub open spec fn writes_to(w: Seq<BlockWrite>, idx: int) -> bool {
    exists|k: int| 0 <= k < w.len() && (#[trigger] w[k]).0 == idx
}

/// The value of the last write of `w` to voxel `idx`, or `default` when
/// `w` has none.
pub open spec fn last_write(w: Seq<BlockWrite>, idx: int, default: BlockTypeId) -> BlockTypeId
    decreases w.len(),
{
    if w.len() == 0 {
        default
    } else if w.last().0 == idx {
        w.last().1
    } else {
        last_write(w.drop_last(), idx, default)
    }
}

/// Last write wins: after applying writes, a voxel holds the value of the
/// last write to it, or what it held before when none touches it.
pub proof fn law_apply_last_write_wins(m: SectionModel, w: Seq<BlockWrite>, idx: int)
    requires
        0 <= idx < m.blocks.len(),
        forall|k: int| 0 <= k < w.len() ==> 0 <= (#[trigger] w[k]).0 < m.blocks.len(),
    ensures
        apply_writes(m, w).blocks.len() == m.blocks.len(),
        apply_writes(m, w).blocks[idx] == last_write(w, idx, m.blocks[idx]),
    decreases w.len(),
{
    if w.len() > 0 {
        let p = w.drop_last();
        assert forall|k: int| 0 <= k < p.len() implies 0 <= (#[trigger] p[k]).0 < m.blocks.len() by {
            assert(p[k] == w[k]);
        }
        law_apply_last_write_wins(m, p, idx);
        assert(0 <= w[w.len() - 1].0 < m.blocks.len());
    }
}

proof fn lemma_last_write_concat(a: Seq<BlockWrite>, b: Seq<BlockWrite>, idx: int, d: BlockTypeId)
    ensures
        last_write(a + b, idx, d) == last_write(b, idx, last_write(a, idx, d)),
    decreases b.len(),
{
    if b.len() == 0 {
        assert(a + b =~= a);
    } else {
        assert((a + b).drop_last() =~= a + b.drop_last());
        assert((a + b).last() == b.last());
        lemma_last_write_concat(a, b.drop_last(), idx, d);
    }
}

proof fn lemma_last_write_untouched(w: Seq<BlockWrite>, idx: int, d: BlockTypeId)
    requires
        !writes_to(w, idx),
    ensures
        last_write(w, idx, d) == d,
    decreases w.len(),
{
    if w.len() > 0 {
        let p = w.drop_last();
        assert(!writes_to(p, idx)) by {
            if writes_to(p, idx) {
                let k = choose|k: int| 0 <= k < p.len() && (#[trigger] p[k]).0 == idx;
                assert(w[k] == p[k]);
            }
        }
        assert(w[w.len() - 1].0 != idx);
        lemma_last_write_untouched(p, idx, d);
    }
}

proof fn lemma_writes_to_concat(a: Seq<BlockWrite>, b: Seq<BlockWrite>, idx: int)
    ensures
        writes_to(a + b, idx) <==> writes_to(a, idx) || writes_to(b, idx),
{
    let ab = a + b;
    if writes_to(ab, idx) {
        let k = choose|k: int| 0 <= k < ab.len() && (#[trigger] ab[k]).0 == idx;
        if k < a.len() {
            assert(a[k] == ab[k]);
        } else {
            assert(b[k - a.len()] == ab[k]);
        }
    }
    if writes_to(a, idx) {
        let k = choose|k: int| 0 <= k < a.len() && (#[trigger] a[k]).0 == idx;
        assert(ab[k] == a[k]);
    }
    if writes_to(b, idx) {
        let k = choose|k: int| 0 <= k < b.len() && (#[trigger] b[k]).0 == idx;
        assert(ab[k + a.len()] == b[k]);
    }
}

/// A write of `writes_of(f, n)` comes from one of its candidates.
proof fn lemma_writes_of_source(f: spec_fn(int) -> Option<BlockWrite>, n: nat, k: int)
    requires
        0 <= k < writes_of(f, n).len(),
    ensures
        exists|c: int| 0 <= c < n && #[trigger] f(c) == Some(writes_of(f, n)[k]),
    decreases n,
{
    let prev = writes_of(f, (n - 1) as nat);
    if k < prev.len() {
        lemma_writes_of_source(f, (n - 1) as nat, k);
        let c = choose|c: int| 0 <= c < n - 1 && #[trigger] f(c) == Some(prev[k]);
        match f(n - 1) {
            Some(w) => assert(writes_of(f, n)[k] == prev[k]),
            None => {},
        }
    } else {
        assert(f(n - 1) == Some(writes_of(f, n)[k]));
    }
}

/// Distinct voxels of a section have distinct offsets.
pub proof fn lemma_voxel_offset_injective(x1: int, y1: int, z1: int, x2: int, y2: int, z2: int)
    requires
        in_section(x1, y1, z1),
        in_section(x2, y2, z2),
        voxel_offset(x1, y1, z1) == voxel_offset(x2, y2, z2),
    ensures
        x1 == x2 && y1 == y2 && z1 == z2,
{
}

/// World column coordinate of local column `l` of chunk `c`.
pub open spec fn world_coord(c: i32, l: int) -> i32 {
    (c * CHUNK_SIZE + l) as i32
}

/// Some column of the chunk within one step of `(lx, lz)` (itself
/// included) grows a tree.
pub open spec fn tree_near(chunk_x: i32, chunk_z: i32, seed: u32, lx: int, lz: int) -> bool {
    exists|a: int, b: int|
        0 <= a < CHUNK_SIZE && 0 <= b < CHUNK_SIZE && lx - 1 <= a <= lx + 1 && lz - 1 <= b <= lz + 1
            && #[trigger] spec_should_place_tree(world_coord(chunk_x, a), world_coord(chunk_z, b), seed)
}

/// The writes of columns `a..n` of a chunk.
pub open spec fn chunk_writes_from(
    chunk_x: i32,
    chunk_z: i32,
    seed: u32,
    heights: Seq<i32>,
    a: nat,
    n: nat,
) -> Seq<BlockWrite>
    decreases n,
{
    if n <= a {
        Seq::empty()
    } else {
        chunk_writes_from(chunk_x, chunk_z, seed, heights, a, (n - 1) as nat) + chunk_column_writes(
            chunk_x,
            chunk_z,
            seed,
            heights,
            n - 1,
        )
    }
}

proof fn lemma_chunk_writes_split(chunk_x: i32, chunk_z: i32, seed: u32, heights: Seq<i32>, a: nat, n: nat)
    requires
        a <= n,
    ensures
        chunk_writes(chunk_x, chunk_z, seed, heights, n) == chunk_writes(chunk_x, chunk_z, seed, heights, a)
            + chunk_writes_from(chunk_x, chunk_z, seed, heights, a, n),
    decreases n,
{
    if n == a {
        assert(chunk_writes(chunk_x, chunk_z, seed, heights, n) =~= chunk_writes(chunk_x, chunk_z, seed, heights, a)
            + chunk_writes_from(chunk_x, chunk_z, seed, heights, a, n));
    } else {
        lemma_chunk_writes_split(chunk_x, chunk_z, seed, heights, a, (n - 1) as nat);
        let p = chunk_writes(chunk_x, chunk_z, seed, heights, a);
        let q = chunk_writes_from(chunk_x, chunk_z, seed, heights, a, (n - 1) as nat);
        let r = chunk_column_writes(chunk_x, chunk_z, seed, heights, n - 1);
        assert(p + q + r =~= p + (q + r));
    }
}

/// Terrain writes of column `(a, b)` only touch that column, at layers
/// below `n`.
proof fn lemma_column_targets(a: int, b: int, h: int, n: nat, x: int, y: int, z: int)
    requires
        0 <= a < CHUNK_SIZE,
        0 <= b < CHUNK_SIZE,
        n <= CHUNK_SIZE,
        in_section(x, y, z),
        (x != a || z != b) || y >= n,
    ensures
        !writes_to(column_writes_upto(a, b, h, n), voxel_offset(x, y, z)),
{
    let f = |yy: int| Some((voxel_offset(a, yy, b), terrain_block(yy, h)));
    let w = column_writes_upto(a, b, h, n);
    if writes_to(w, voxel_offset(x, y, z)) {
        let k = choose|k: int| 0 <= k < w.len() && (#[trigger] w[k]).0 == voxel_offset(x, y, z);
        lemma_writes_of_source(f, n, k);
        let c = choose|c: int| 0 <= c < n && #[trigger] f(c) == Some(w[k]);
        lemma_voxel_offset_injective(a, c, b, x, y, z);
    }
}

/// The tree of column `(a, b)` only touches columns within one step of it.
proof fn lemma_tree_targets(a: int, base_y: int, b: int, x: int, y: int, z: int)
    requires
        0 <= a < CHUNK_SIZE,
        0 <= b < CHUNK_SIZE,
        0 <= base_y,
        in_section(x, y, z),
        !(a - 1 <= x <= a + 1 && b - 1 <= z <= b + 1),
    ensures
        !writes_to(tree_writes(a, base_y, b), voxel_offset(x, y, z)),
{
    let idx = voxel_offset(x, y, z);
    let ft = |i: int| trunk_candidate(a, base_y, b, i);
    let fl = |k: int| leaf_candidate(a, base_y, b, k);
    let t = trunk_writes(a, base_y, b, 3);
    let l = leaf_writes(a, base_y, b, 18);
    if writes_to(t, idx) {
        let k = choose|k: int| 0 <= k < t.len() && (#[trigger] t[k]).0 == idx;
        lemma_writes_of_source(ft, 3, k);
        let c = choose|c: int| 0 <= c < 3 && #[trigger] ft(c) == Some(t[k]);
        lemma_voxel_offset_injective(a, base_y + c, b, x, y, z);
    }
    if writes_to(l, idx) {
        let k = choose|k: int| 0 <= k < l.len() && (#[trigger] l[k]).0 == idx;
        lemma_writes_of_source(fl, 18, k);
        let c = choose|c: int| 0 <= c < 18 && #[trigger] fl(c) == Some(l[k]);
        let dy = c / 9;
        let dx = (c % 9) / 3 - 1;
        let dz = c % 3 - 1;
        assert(-1 <= dx <= 1 && -1 <= dz <= 1 && 0 <= dy <= 1);
        lemma_voxel_offset_injective(a + dx, base_y + 2 + dy, b + dz, x, y, z);
    }
    lemma_writes_to_concat(t, l, idx);
}

/// Columns of the chunk other than `(lx, lz)` leave voxel `(lx, y, lz)`
/// alone when no tree grows near it.
proof fn lemma_other_columns(
    chunk_x: i32,
    chunk_z: i32,
    seed: u32,
    heights: Seq<i32>,
    c: int,
    lx: int,
    y: int,
    lz: int,
)
    requires
        valid_heights(heights),
        0 <= c < 256,
        in_section(lx, y, lz),
        c != lx * 16 + lz,
        !tree_near(chunk_x, chunk_z, seed, lx, lz),
    ensures
        !writes_to(chunk_column_writes(chunk_x, chunk_z, seed, heights, c), voxel_offset(lx, y, lz)),
{
    let a = c / 16;
    let b = c % 16;
    let h = heights[c] as int;
    let idx = voxel_offset(lx, y, lz);
    lemma_column_targets(a, b, h, (h + 1) as nat, lx, y, lz);
    let tree = spec_should_place_tree(world_coord(chunk_x, a), world_coord(chunk_z, b), seed);
    let tw = if tree { tree_writes(a, h + 1, b) } else { Seq::empty() };
    if tree {
        if a - 1 <= lx <= a + 1 && b - 1 <= lz <= b + 1 {
            assert(tree_near(chunk_x, chunk_z, seed, lx, lz));
        }
        lemma_tree_targets(a, h + 1, b, lx, y, lz);
    }
    lemma_writes_to_concat(column_writes(a, b, h), tw, idx);
}

proof fn lemma_columns_from(
    chunk_x: i32,
    chunk_z: i32,
    seed: u32,
    heights: Seq<i32>,
    a: nat,
    n: nat,
    lx: int,
    y: int,
    lz: int,
)
    requires
        valid_heights(heights),
        n <= 256,
        in_section(lx, y, lz),
        a > lx * 16 + lz || n <= lx * 16 + lz,
        !tree_near(chunk_x, chunk_z, seed, lx, lz),
    ensures
        !writes_to(chunk_writes_from(chunk_x, chunk_z, seed, heights, a, n), voxel_offset(lx, y, lz)),
    decreases n,
{
    if n > a {
        lemma_columns_from(chunk_x, chunk_z, seed, heights, a, (n - 1) as nat, lx, y, lz);
        lemma_other_columns(chunk_x, chunk_z, seed, heights, n - 1, lx, y, lz);
        lemma_writes_to_concat(
            chunk_writes_from(chunk_x, chunk_z, seed, heights, a, (n - 1) as nat),
            chunk_column_writes(chunk_x, chunk_z, seed, heights, n - 1),
            voxel_offset(lx, y, lz),
        );
    }
}

proof fn lemma_column_last_write(lx: int, lz: int, h: int, n: nat, y: int, d: BlockTypeId)
    requires
        in_section(lx, y, lz),
        y < n <= CHUNK_SIZE,
    ensures
        last_write(column_writes_upto(lx, lz, h, n), voxel_offset(lx, y, lz), d) == terrain_block(y, h),
    decreases n,
{
    let w = column_writes_upto(lx, lz, h, n);
    let p = column_writes_upto(lx, lz, h, (n - 1) as nat);
    assert(w.drop_last() =~= p);
    if n - 1 > y {
        if voxel_offset(lx, n - 1, lz) == voxel_offset(lx, y, lz) {
            lemma_voxel_offset_injective(lx, n - 1, lz, lx, y, lz);
        }
        lemma_column_last_write(lx, lz, h, (n - 1) as nat, y, d);
    }
}

/// Every write of `w` targets a voxel of the section.
pub open spec fn writes_in_section(w: Seq<BlockWrite>) -> bool {
    forall|k: int| 0 <= k < w.len() ==> 0 <= (#[trigger] w[k]).0 < VOXELS_PER_SECTION
}

proof fn lemma_in_section_concat(a: Seq<BlockWrite>, b: Seq<BlockWrite>)
    requires
        writes_in_section(a),
        writes_in_section(b),
    ensures
        writes_in_section(a + b),
{
    assert forall|k: int| 0 <= k < (a + b).len() implies 0 <= (#[trigger] (a + b)[k]).0 < VOXELS_PER_SECTION by {
        if k < a.len() {
            assert((a + b)[k] == a[k]);
        } else {
            assert((a + b)[k] == b[k - a.len()]);
        }
    }
}

proof fn lemma_writes_of_in_section(f: spec_fn(int) -> Option<BlockWrite>, n: nat)
    requires
        forall|c: int| 0 <= c < n ==> match #[trigger] f(c) {
            Some(w) => 0 <= w.0 < VOXELS_PER_SECTION,
            None => true,
        },
    ensures
        writes_in_section(writes_of(f, n)),
{
    let w = writes_of(f, n);
    assert forall|k: int| 0 <= k < w.len() implies 0 <= (#[trigger] w[k]).0 < VOXELS_PER_SECTION by {
        lemma_writes_of_source(f, n, k);
        let c = choose|c: int| 0 <= c < n && #[trigger] f(c) == Some(w[k]);
    }
}

proof fn lemma_tree_in_section(x: int, base_y: int, z: int)
    requires
        0 <= x < CHUNK_SIZE,
        0 <= z < CHUNK_SIZE,
        0 <= base_y,
    ensures
        writes_in_section(tree_writes(x, base_y, z)),
{
    let fr = |i: int| trunk_candidate(x, base_y, z, i);
    let fl = |k: int| leaf_candidate(x, base_y, z, k);
    assert forall|k: int| 0 <= k < 18 implies match #[trigger] fl(k) {
        Some(w) => 0 <= w.0 < VOXELS_PER_SECTION,
        None => true,
    } by {
        let dy = k / 9;
        let dx = (k % 9) / 3 - 1;
        let dz = k % 3 - 1;
        assert(0 <= dy <= 1);
    }
    lemma_writes_of_in_section(fr, 3);
    lemma_writes_of_in_section(fl, 18);
    lemma_in_section_concat(trunk_writes(x, base_y, z, 3), leaf_writes(x, base_y, z, 18));
}

proof fn lemma_column_in_section(chunk_x: i32, chunk_z: i32, seed: u32, heights: Seq<i32>, c: int)
    requires
        valid_heights(heights),
        0 <= c < 256,
    ensures
        writes_in_section(chunk_column_writes(chunk_x, chunk_z, seed, heights, c)),
{
    let a = c / 16;
    let b = c % 16;
    let h = heights[c] as int;
    let ft = |yy: int| Some((voxel_offset(a, yy, b), terrain_block(yy, h)));
    lemma_writes_of_in_section(ft, (h + 1) as nat);
    lemma_tree_in_section(a, h + 1, b);
    let tree = spec_should_place_tree(world_coord(chunk_x, a), world_coord(chunk_z, b), seed);
    let tw = if tree { tree_writes(a, h + 1, b) } else { Seq::empty() };
    lemma_in_section_concat(column_writes(a, b, h), tw);
}

proof fn lemma_chunk_writes_in_section(chunk_x: i32, chunk_z: i32, seed: u32, heights: Seq<i32>, n: nat)
    requires
        valid_heights(heights),
        n <= 256,
    ensures
        writes_in_section(chunk_writes(chunk_x, chunk_z, seed, heights, n)),
    decreases n,
{
    if n > 0 {
        lemma_chunk_writes_in_section(chunk_x, chunk_z, seed, heights, (n - 1) as nat);
        lemma_column_in_section(chunk_x, chunk_z, seed, heights, n - 1);
        lemma_in_section_concat(
            chunk_writes(chunk_x, chunk_z, seed, heights, (n - 1) as nat),
            chunk_column_writes(chunk_x, chunk_z, seed, heights, n - 1),
        );
    }
}

/// Layering: in a column with no tree growing within one step of it, the
/// generated blocks are grass at the surface height, dirt in the three
/// layers below it, stone further down, and air above the surface.
pub proof fn law_column_layering(chunk_x: i32, chunk_z: i32, seed: u32, heights: Seq<i32>, lx: int, lz: int, y: int)
    requires
        valid_heights(heights),
        in_section(lx, y, lz),
        !tree_near(chunk_x, chunk_z, seed, lx, lz),
    ensures
        generated_chunk(chunk_x, chunk_z, seed, heights).block_at(lx, y, lz) == if y <= heights[lx * 16 + lz] {
            terrain_block(y, heights[lx * 16 + lz] as int)
        } else {
            AIR
        },
{
    let c = lx * 16 + lz;
    let h = heights[c] as int;
    let idx = voxel_offset(lx, y, lz);
    let e = empty_section();
    let before = chunk_writes(chunk_x, chunk_z, seed, heights, c as nat);
    let own = chunk_column_writes(chunk_x, chunk_z, seed, heights, c);
    let after = chunk_writes_from(chunk_x, chunk_z, seed, heights, (c + 1) as nat, 256);
    let all = chunk_writes(chunk_x, chunk_z, seed, heights, 256);
    lemma_chunk_writes_split(chunk_x, chunk_z, seed, heights, (c + 1) as nat, 256);
    assert(chunk_writes(chunk_x, chunk_z, seed, heights, (c + 1) as nat) == before + own);
    assert(all == before + own + after);
    lemma_chunk_writes_split(chunk_x, chunk_z, seed, heights, 0, c as nat);
    assert(chunk_writes(chunk_x, chunk_z, seed, heights, 0) =~= Seq::<BlockWrite>::empty());
    assert(before =~= chunk_writes_from(chunk_x, chunk_z, seed, heights, 0, c as nat));
    lemma_columns_from(chunk_x, chunk_z, seed, heights, 0, c as nat, lx, y, lz);
    lemma_columns_from(chunk_x, chunk_z, seed, heights, (c + 1) as nat, 256, lx, y, lz);
    assert(c / 16 == lx && c % 16 == lz);
    assert(!spec_should_place_tree(world_coord(chunk_x, lx), world_coord(chunk_z, lz), seed)) by {
        if spec_should_place_tree(world_coord(chunk_x, lx), world_coord(chunk_z, lz), seed) {
            assert(tree_near(chunk_x, chunk_z, seed, lx, lz));
        }
    }
    assert(own =~= column_writes(lx, lz, h));
    lemma_chunk_writes_in_section(chunk_x, chunk_z, seed, heights, 256);
    law_apply_last_write_wins(e, all, idx);
    lemma_last_write_concat(before + own, after, idx, e.blocks[idx]);
    lemma_last_write_untouched(after, idx, last_write(before + own, idx, e.blocks[idx]));
    lemma_last_write_concat(before, own, idx, e.blocks[idx]);
    lemma_last_write_untouched(before, idx, e.blocks[idx]);
    if y <= h {
        lemma_column_last_write(lx, lz, h, (h + 1) as nat, y, e.blocks[idx]);
    } else {
        lemma_column_targets(lx, lz, h, (h + 1) as nat, lx, y, lz);
        lemma_last_write_untouched(own, idx, e.blocks[idx]);
    }
}

/// A section built by `new_empty` and a sequence of `set_block` calls
/// (each of which applies `with_block`) holds at every voxel the block of
/// the latest write to it, or air when no write touched it.
pub proof fn law_latest_write_or_air(w: Seq<BlockWrite>, x: int, y: int, z: int)
    requires
        writes_in_section(w),
        in_section(x, y, z),
    ensures
        apply_writes(empty_section(), w).block_at(x, y, z) == last_write(w, voxel_offset(x, y, z), AIR),
{
    law_apply_last_write_wins(empty_section(), w, voxel_offset(x, y, z));
}

/// The last write to a voxel, when there is one, is one of its writes.
proof fn lemma_last_write_source(w: Seq<BlockWrite>, idx: int, d: BlockTypeId)
    requires
        writes_to(w, idx),
    ensures
        exists|k: int| 0 <= k < w.len() && (#[trigger] w[k]).0 == idx && w[k].1 == last_write(w, idx, d),
    decreases w.len(),
{
    let n = w.len() - 1;
    if w[n].0 == idx {
        assert(w[n].1 == last_write(w, idx, d));
    } else {
        let p = w.drop_last();
        let k0 = choose|k: int| 0 <= k < w.len() && (#[trigger] w[k]).0 == idx;
        assert(p[k0] == w[k0]);
        lemma_last_write_source(p, idx, d);
        let k = choose|k: int| 0 <= k < p.len() && (#[trigger] p[k]).0 == idx && p[k].1 == last_write(p, idx, d);
        assert(w[k] == p[k]);
    }
}

/// A candidate that yields a write puts it among the writes.
proof fn lemma_writes_of_contains(f: spec_fn(int) -> Option<BlockWrite>, n: nat, c: int, w: BlockWrite)
    requires
        0 <= c < n,
        f(c) == Some(w),
    ensures
        writes_to(writes_of(f, n), w.0),
    decreases n,
{
    if c == n - 1 {
        let s = writes_of(f, n);
        assert(s[s.len() - 1] == w);
    } else {
        lemma_writes_of_contains(f, (n - 1) as nat, c, w);
        let p = writes_of(f, (n - 1) as nat);
        let k = choose|k: int| 0 <= k < p.len() && (#[trigger] p[k]).0 == w.0;
        match f(n - 1) {
            Some(v) => assert(writes_of(f, n)[k] == p[k]),
            None => {},
        }
    }
}

/// Frame of a tree at `(x, base_y, z)`: it changes only voxels in the
/// columns within one step of the trunk and in layers `base_y..=base_y + 3`;
/// a changed voxel holds a leaf, or a plank in the two lowest trunk layers
/// (the third trunk layer is covered by leaves).
pub proof fn law_tree_frame(m: SectionModel, x: int, base_y: int, z: int, px: int, py: int, pz: int)
    requires
        m.valid(),
        0 <= x < CHUNK_SIZE,
        0 <= z < CHUNK_SIZE,
        0 <= base_y,
        in_section(px, py, pz),
    ensures
        ({
            let r = apply_writes(m, tree_writes(x, base_y, z)).block_at(px, py, pz);
            &&& !(x - 1 <= px <= x + 1 && z - 1 <= pz <= z + 1 && base_y <= py <= base_y + 3) ==> r
                == m.block_at(px, py, pz)
            &&& r == m.block_at(px, py, pz) || r == LEAF || (r == PLANK && px == x && pz == z && base_y
                <= py <= base_y + 1)
        }),
{
    let idx = voxel_offset(px, py, pz);
    let d = m.blocks[idx];
    let ft = |i: int| trunk_candidate(x, base_y, z, i);
    let fl = |k: int| leaf_candidate(x, base_y, z, k);
    let t = trunk_writes(x, base_y, z, 3);
    let l = leaf_writes(x, base_y, z, 18);
    lemma_tree_in_section(x, base_y, z);
    law_apply_last_write_wins(m, tree_writes(x, base_y, z), idx);
    lemma_last_write_concat(t, l, idx, d);
    let lt = last_write(t, idx, d);
    // Trunk: the last trunk write, if any, is a plank in the trunk column.
    if writes_to(t, idx) {
        lemma_last_write_source(t, idx, d);
        let k = choose|k: int| 0 <= k < t.len() && (#[trigger] t[k]).0 == idx && t[k].1 == lt;
        lemma_writes_of_source(ft, 3, k);
        let c = choose|c: int| 0 <= c < 3 && #[trigger] ft(c) == Some(t[k]);
        lemma_voxel_offset_injective(x, base_y + c, z, px, py, pz);
        assert(lt == PLANK && px == x && pz == z && py == base_y + c);
    } else {
        lemma_last_write_untouched(t, idx, d);
    }
    if writes_to(l, idx) {
        lemma_last_write_source(l, idx, lt);
        let k = choose|k: int| 0 <= k < l.len() && (#[trigger] l[k]).0 == idx && l[k].1 == last_write(l, idx, lt);
        lemma_writes_of_source(fl, 18, k);
        let c = choose|c: int| 0 <= c < 18 && #[trigger] fl(c) == Some(l[k]);
        let dy = c / 9;
        let dx = (c % 9) / 3 - 1;
        let dz = c % 3 - 1;
        assert(-1 <= dx <= 1 && -1 <= dz <= 1 && 0 <= dy <= 1);
        lemma_voxel_offset_injective(x + dx, base_y + 2 + dy, z + dz, px, py, pz);
    } else {
        lemma_last_write_untouched(l, idx, lt);
        if px == x && pz == z && py == base_y + 2 {
            assert(fl(4) == Some((voxel_offset(x, base_y + 2, z), LEAF)));
            lemma_writes_of_contains(fl, 18, 4, (voxel_offset(x, base_y + 2, z), LEAF));
        }
    }
}

/// Every leaf write of a tree writes a leaf.
proof fn lemma_leaf_writes_are_leaves(x: int, base_y: int, z: int, k: int)
    requires
        0 <= k < leaf_writes(x, base_y, z, 18).len(),
    ensures
        leaf_writes(x, base_y, z, 18)[k].1 == LEAF,
{
    let fl = |c: int| leaf_candidate(x, base_y, z, c);
    lemma_writes_of_source(fl, 18, k);
}

/// Canopy of a tree at `(x, base_y, z)`: the layer `base_y + 2` is leaves
/// over the whole 3x3 square around the trunk, and the layer `base_y + 3`
/// is leaves in a plus shape (the trunk column and its four side
/// neighbours) with its four diagonal corners left as they were; voxels
/// outside the section are skipped.
pub proof fn law_tree_canopy(m: SectionModel, x: int, base_y: int, z: int, px: int, py: int, pz: int)
    requires
        m.valid(),
        0 <= x < 16,
        0 <= z < 16,
        0 <= base_y,
        0 <= px < 16 && 0 <= py < 16 && 0 <= pz < 16,
        x - 1 <= px <= x + 1 && z - 1 <= pz <= z + 1,
        py == base_y + 2 || py == base_y + 3,
    ensures
        ({
            let r = apply_writes(m, tree_writes(x, base_y, z)).blocks[(py * 16 + pz) * 16 + px];
            let corner = px != x && pz != z;
            &&& (py == base_y + 2 || !corner) ==> r == LEAF
            &&& (py == base_y + 3 && corner) ==> r == m.blocks[(py * 16 + pz) * 16 + px]
        }),
{
    let idx = voxel_offset(px, py, pz);
    let d = m.blocks[idx];
    let fl = |c: int| leaf_candidate(x, base_y, z, c);
    let t = trunk_writes(x, base_y, z, 3);
    let l = leaf_writes(x, base_y, z, 18);
    let dy = py - base_y - 2;
    let dx = px - x;
    let dz = pz - z;
    let c = dy * 9 + (dx + 1) * 3 + (dz + 1);
    assert(0 <= c < 18);
    assert(c / 9 == dy && (c % 9) / 3 - 1 == dx && c % 3 - 1 == dz);
    lemma_tree_in_section(x, base_y, z);
    law_apply_last_write_wins(m, tree_writes(x, base_y, z), idx);
    lemma_last_write_concat(t, l, idx, d);
    let lt = last_write(t, idx, d);
    if dy == 0 || !(dx != 0 && dz != 0) {
        assert(fl(c) == Some((idx, LEAF)));
        lemma_writes_of_contains(fl, 18, c, (idx, LEAF));
        lemma_last_write_source(l, idx, lt);
        let k = choose|k: int| 0 <= k < l.len() && (#[trigger] l[k]).0 == idx && l[k].1 == last_write(l, idx, lt);
        lemma_leaf_writes_are_leaves(x, base_y, z, k);
    } else {
        // A top-layer corner: no trunk or leaf write reaches it.
        let ft = |i: int| trunk_candidate(x, base_y, z, i);
        if writes_to(t, idx) {
            let k = choose|k: int| 0 <= k < t.len() && (#[trigger] t[k]).0 == idx;
            lemma_writes_of_source(ft, 3, k);
            let i = choose|i: int| 0 <= i < 3 && #[trigger] ft(i) == Some(t[k]);
            lemma_voxel_offset_injective(x, base_y + i, z, px, py, pz);
        }
        if writes_to(l, idx) {
            let k = choose|k: int| 0 <= k < l.len() && (#[trigger] l[k]).0 == idx;
            lemma_writes_of_source(fl, 18, k);
            let c2 = choose|c2: int| 0 <= c2 < 18 && #[trigger] fl(c2) == Some(l[k]);
            let dy2 = c2 / 9;
            let dx2 = (c2 % 9) / 3 - 1;
            let dz2 = c2 % 3 - 1;
            assert(-1 <= dx2 <= 1 && -1 <= dz2 <= 1 && 0 <= dy2 <= 1);
            lemma_voxel_offset_injective(x + dx2, base_y + 2 + dy2, z + dz2, px, py, pz);
        }
        lemma_last_write_untouched(t, idx, d);
        lemma_last_write_untouched(l, idx, lt);
    }
}

/// Adding two residues with wrap-around is adding modulo 2^32.
proof fn lemma_wrapping_add_mod(a: u32, b: u32)
    ensures
        wrapping_add(a, b) as int == (a as int + b as int) % 0x1_0000_0000,
{
    if a as int + b as int > u32::MAX {
        assert((a as int + b as int) % 0x1_0000_0000 == a as int + b as int - 0x1_0000_0000) by {
            vstd::arithmetic::div_mod::lemma_mod_sub_multiples_vanish(a as int + b as int, 0x1_0000_0000);
            vstd::arithmetic::div_mod::lemma_small_mod((a as int + b as int - 0x1_0000_0000) as nat, 0x1_0000_0000);
        }
    } else {
        vstd::arithmetic::div_mod::lemma_small_mod((a as int + b as int) as nat, 0x1_0000_0000);
    }
}

/// The column hash in closed form: the sum
/// `x * 374761393 + z * 668265263 + seed * 2654435761 + 1` modulo 2^32
/// (with `x` and `z` read as unsigned 32-bit values), mixed by
/// `h ^= h >> 13`, a multiplication by 1274126177 modulo 2^32, and
/// `h ^= h >> 16`, keeping the low 24 bits.
pub proof fn law_hash_closed_form(x: i32, z: i32, seed: u32)
    ensures
        ({
            let n: int = 0x1_0000_0000;
            let h0 = (((x as u32) as int * 374761393 + (z as u32) as int * 668265263 + seed as int
                * 2654435761 + 1) % n) as u32;
            let h1 = (((h0 ^ (h0 >> 13u32)) as int * 1274126177) % n) as u32;
            let h2 = h1 ^ (h1 >> 16u32);
            spec_hash2d_bits(x, z, seed) == h2 & 0x00FF_FFFFu32
        }),
{
    let n: int = 0x1_0000_0000;
    let xa = (x as u32) as int * 374761393;
    let zb = (z as u32) as int * 668265263;
    let sc = seed as int * 2654435761;
    let a = wrapping_mul(x as u32, 374761393);
    let b = wrapping_mul(z as u32, 668265263);
    let c0 = wrapping_mul(seed, 2654435761);
    let c = wrapping_add(c0, 1);
    let ab = wrapping_add(a, b);
    let h0 = wrapping_add(ab, c);
    assert(a as int == xa % n && b as int == zb % n && c0 as int == sc % n);
    lemma_wrapping_add_mod(a, b);
    lemma_wrapping_add_mod(c0, 1);
    lemma_wrapping_add_mod(ab, c);
    vstd::arithmetic::div_mod::lemma_add_mod_noop(xa, zb, n);
    vstd::arithmetic::div_mod::lemma_add_mod_noop(sc, 1, n);
    vstd::arithmetic::div_mod::lemma_small_mod(1, n as nat);
    vstd::arithmetic::div_mod::lemma_add_mod_noop(xa + zb, sc + 1, n);
    assert(h0 as int == (xa + zb + sc + 1) % n);
}

} // verus!
