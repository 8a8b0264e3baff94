use vstd::prelude::*;
use vstd::set_lib::set_int_range;

verus! {

/// Block type identifier.
pub type BlockTypeId = u16;

pub const CHUNK_SIZE: usize = 16;

pub const VOXELS_PER_SECTION: usize = CHUNK_SIZE * CHUNK_SIZE * CHUNK_SIZE;

pub const AIR: BlockTypeId = 0;

pub const GRASS: BlockTypeId = 1;

pub const DIRT: BlockTypeId = 2;

pub const STONE: BlockTypeId = 3;

pub const PLANK: BlockTypeId = 4;

pub const LEAF: BlockTypeId = 5;

/// A block is solid exactly when it is not air.
pub open spec fn spec_is_solid(block: BlockTypeId) -> bool {
    block != AIR
}

pub fn is_solid(block: BlockTypeId) -> (r: bool)
    ensures
        r == spec_is_solid(block),
        r == (block != AIR),
{
    block != AIR
}

/// Every block type other than air is solid, leaves and planks included.
pub proof fn law_solid_iff_not_air(block: BlockTypeId)
    ensures
        spec_is_solid(block) <==> block != 0u16,
{
}

/// Position of voxel `(x, y, z)` in the flat voxel array of a section.
pub open spec fn voxel_offset(x: int, y: int, z: int) -> int {
    (y * CHUNK_SIZE + z) * CHUNK_SIZE + x
}

/// Local coordinates that lie inside one section.
pub open spec fn in_section(x: int, y: int, z: int) -> bool {
    0 <= x < CHUNK_SIZE && 0 <= y < CHUNK_SIZE && 0 <= z < CHUNK_SIZE
}

/// The mathematical model of a section: the block type of each voxel.
pub struct SectionModel {
    pub blocks: Seq<BlockTypeId>,
}

impl SectionModel {
    /// One block per voxel.
    pub open spec fn valid(self) -> bool {
        self.blocks.len() == VOXELS_PER_SECTION
    }

    /// The block at local coordinates `(x, y, z)`.
    pub open spec fn block_at(self, x: int, y: int, z: int) -> BlockTypeId {
        self.blocks[voxel_offset(x, y, z)]
    }

    /// The distinct block types present in the section.
    pub open spec fn types(self) -> Set<BlockTypeId> {
        self.blocks.to_set()
    }

    /// Writing `block` at voxel offset `idx`: only that voxel changes.
    pub open spec fn with_block(self, idx: int, block: BlockTypeId) -> SectionModel {
        SectionModel { blocks: self.blocks.update(idx, block) }
    }
}

/// A fresh section: every voxel is air.
pub open spec fn empty_section() -> SectionModel {
    SectionModel { blocks: Seq::new(VOXELS_PER_SECTION as nat, |i: int| AIR) }
}

/// Reading back a write: after writing `block` at `(x, y, z)`, that voxel
/// holds `block` and every other voxel holds what it held before.
pub proof fn law_set_then_get(
    m: SectionModel,
    x: int,
    y: int,
    z: int,
    block: BlockTypeId,
    x2: int,
    y2: int,
    z2: int,
)
    requires
        m.valid(),
        in_section(x, y, z),
        in_section(x2, y2, z2),
    ensures
        m.with_block(voxel_offset(x, y, z), block).block_at(x2, y2, z2) == if x == x2 && y == y2 && z == z2 {
            block
        } else {
            m.block_at(x2, y2, z2)
        },
{
}

/// Every write keeps a section model valid.
pub proof fn law_with_block_valid(m: SectionModel, idx: int, block: BlockTypeId)
    requires
        m.valid(),
        0 <= idx < VOXELS_PER_SECTION,
    ensures
        m.with_block(idx, block).valid(),
{
}

/// The types present after a write: the written type, and every other type
/// that some other voxel still holds. A type whose last voxel is
/// overwritten leaves the section.
pub proof fn law_types_after_write(m: SectionModel, idx: int, block: BlockTypeId, t: BlockTypeId)
    requires
        m.valid(),
        0 <= idx < VOXELS_PER_SECTION,
    ensures
        m.with_block(idx, block).types().contains(block),
        t != block ==> (m.with_block(idx, block).types().contains(t) <==> exists|i: int|
            0 <= i < VOXELS_PER_SECTION && i != idx && m.blocks[i] == t),
{
    let n = m.with_block(idx, block);
    assert(n.blocks[idx] == block);
    if t != block {
        if n.types().contains(t) {
            let i = choose|i: int| 0 <= i < n.blocks.len() && n.blocks[i] == t;
            assert(i != idx && m.blocks[i] == t);
        }
        if exists|i: int| 0 <= i < VOXELS_PER_SECTION && i != idx && m.blocks[i] == t {
            let i = choose|i: int| 0 <= i < VOXELS_PER_SECTION && i != idx && m.blocks[i] == t;
            assert(n.blocks[i] == t);
        }
    }
}

/// Whether some voxel refers to palette entry `k`.
pub open spec fn entry_used(indices: Seq<u16>, k: int) -> bool {
    exists|i: int| 0 <= i < indices.len() && indices[i] as int == k
}

/// One 16^3 section, palette-compressed: `palette` lists the distinct block
/// types present in the section and `indices` holds, per voxel, a position
/// in `palette`.
pub struct ChunkSection {
    palette: Vec<BlockTypeId>,
    indices: Vec<u16>,
}

impl View for ChunkSection {
    type V = SectionModel;

    closed spec fn view(&self) -> SectionModel {
        SectionModel {
            blocks: Seq::new(
                self.indices@.len(),
                |i: int| self.palette@[self.indices@[i] as int],
            ),
        }
    }
}

/// A sequence of `u16` values without repetition has at most 2^16 elements,
/// and fewer when it misses some value `b`.
proof fn lemma_distinct_u16_bound(s: Seq<u16>, b: u16)
    requires
        s.no_duplicates(),
    ensures
        s.len() <= 0x1_0000,
        !s.contains(b) ==> s.len() < 0x1_0000,
{
    let f = |v: u16| v as int;
    let t = s.map_values(f);
    assert(vstd::relations::injective(f));
    s.lemma_no_duplicates_injective(f);
    t.unique_seq_to_set();
    let full = set_int_range(0, 0x1_0000);
    vstd::set_lib::lemma_int_range(0, 0x1_0000);
    assert forall|v: int| t.to_set().contains(v) implies full.contains(v) by {
        let i = choose|i: int| 0 <= i < t.len() && t[i] == v;
    }
    vstd::set_lib::lemma_len_subset(t.to_set(), full);
    if !s.contains(b) {
        let range = full.remove(b as int);
        assert forall|v: int| t.to_set().contains(v) implies range.contains(v) by {
            let i = choose|i: int| 0 <= i < t.len() && t[i] == v;
            assert(s[i] != b);
        }
        vstd::set_lib::lemma_len_subset(t.to_set(), range);
    }
}

/// The representation invariant, except that palette entry `free` may be
/// unused.
pub open spec fn palette_wf_except(palette: Seq<BlockTypeId>, indices: Seq<u16>, free: int) -> bool {
    &&& indices.len() == VOXELS_PER_SECTION
    &&& palette.no_duplicates()
    &&& forall|i: int| 0 <= i < indices.len() ==> (#[trigger] indices[i]) < palette.len()
    &&& forall|k: int| 0 <= k < palette.len() && k != free ==> #[trigger] entry_used(indices, k)
}

impl ChunkSection {
    /// Well-formedness of the concrete representation: every voxel refers to
    /// a palette entry, the palette records each type once, and every entry
    /// is referred to by some voxel.
    pub closed spec fn wf(&self) -> bool {
        palette_wf_except(self.palette@, self.indices@, -1)
    }

    /// A well-formed section has a valid model.
    pub proof fn lemma_wf_valid(&self)
        requires
            self.wf(),
        ensures
            self@.valid(),
    {
    }

    /// The palette of a well-formed section lists exactly the types present,
    /// each once.
    proof fn lemma_palette_types(&self)
        requires
            self.wf(),
        ensures
            self.palette@.to_set() == self@.types(),
            self.palette@.len() == self@.types().len(),
    {
        let p = self.palette@;
        let blocks = self@.blocks;
        assert forall|t: BlockTypeId| p.to_set().contains(t) <==> blocks.to_set().contains(t) by {
            if p.to_set().contains(t) {
                let k = choose|k: int| 0 <= k < p.len() && p[k] == t;
                assert(entry_used(self.indices@, k));
                let i = choose|i: int| 0 <= i < self.indices@.len() && self.indices@[i] as int == k;
                assert(blocks[i] == t);
            }
            if blocks.to_set().contains(t) {
                let i = choose|i: int| 0 <= i < blocks.len() && blocks[i] == t;
                let k = self.indices@[i] as int;
                assert(p[k] == t);
            }
        }
        assert(p.to_set() =~= blocks.to_set());
        p.unique_seq_to_set();
    }

    pub fn new_empty() -> (s: Self)
        ensures
            s.wf(),
            s@ == empty_section(),
    {
        let palette = vec![AIR];
        let indices = vec![0u16; VOXELS_PER_SECTION];
        let s = ChunkSection { palette, indices };
        assert(entry_used(s.indices@, 0)) by {
            assert(s.indices@[0] == 0);
        }
        assert(s@.blocks =~= empty_section().blocks);
        s
    }

    fn voxel_index(x: usize, y: usize, z: usize) -> (i: usize)
        requires
            in_section(x as int, y as int, z as int),
        ensures
            i == voxel_offset(x as int, y as int, z as int),
            i < VOXELS_PER_SECTION,
    {
        (y * CHUNK_SIZE + z) * CHUNK_SIZE + x
    }

    pub fn get_block(&self, x: usize, y: usize, z: usize) -> (b: BlockTypeId)
        requires
            self.wf(),
            in_section(x as int, y as int, z as int),
        ensures
            b == self@.block_at(x as int, y as int, z as int),
    {
        let palette_idx = self.indices[Self::voxel_index(x, y, z)] as usize;
        self.palette[palette_idx]
    }

    /// A position of `block` in the palette, if it is there.
    fn palette_position(&self, block: BlockTypeId) -> (r: Option<usize>)
        ensures
            match r {
                Some(i) => i < self.palette@.len() && self.palette@[i as int] == block,
                None => !self.palette@.contains(block),
            },
    {
        let mut i: usize = 0;
        while i < self.palette.len()
            invariant
                i <= self.palette@.len(),
                forall|j: int| 0 <= j < i ==> self.palette@[j] != block,
            decreases self.palette@.len() - i,
        {
            if self.palette[i] == block {
                return Some(i);
            }
            i = i + 1;
        }
        None
    }

    /// Whether some voxel refers to palette entry `k`.
    fn is_entry_used(&self, k: usize) -> (r: bool)
        ensures
            r == entry_used(self.indices@, k as int),
    {
        let mut i: usize = 0;
        while i < self.indices.len()
            invariant
                i <= self.indices@.len(),
                forall|j: int| 0 <= j < i ==> self.indices@[j] as int != k,
            decreases self.indices@.len() - i,
        {
            if self.indices[i] as usize == k {
                return true;
            }
            i = i + 1;
        }
        false
    }

    /// Drops palette entry `k`, which no voxel refers to: the last entry
    /// moves into its place and the voxels that referred to it follow.
    fn remove_unused_entry(&mut self, k: usize)
        requires
            palette_wf_except(old(self).palette@, old(self).indices@, k as int),
            k < old(self).palette@.len(),
            !entry_used(old(self).indices@, k as int),
        ensures
            final(self).wf(),
            final(self)@ == old(self)@,
    {
        let ghost p0 = self.palette@;
        let ghost ix0 = self.indices@;
        proof {
            lemma_distinct_u16_bound(p0, 0);
        }
        let last = self.palette.len() - 1;
        assert(forall|i: int| 0 <= i < ix0.len() ==> ix0[i] as int != k) by {
            assert forall|i: int| 0 <= i < ix0.len() implies ix0[i] as int != k by {
                if ix0[i] as int == k {
                    assert(entry_used(ix0, k as int));
                }
            }
        }
        if k < last {
            let moved = self.palette[last];
            self.palette.set(k, moved);
            let mut i: usize = 0;
            while i < self.indices.len()
                invariant
                    self.indices@.len() == ix0.len(),
                    ix0.len() == VOXELS_PER_SECTION,
                    i <= ix0.len(),
                    k < last,
                    last < 0x1_0000,
                    last == p0.len() - 1,
                    self.palette@ == p0.update(k as int, p0[last as int]),
                    forall|j: int|
                        0 <= j < ix0.len() ==> #[trigger] self.indices@[j] == if j < i && ix0[j] as int == last {
                            k as u16
                        } else {
                            ix0[j]
                        },
                decreases ix0.len() - i,
            {
                if self.indices[i] as usize == last {
                    self.indices.set(i, k as u16);
                }
                i = i + 1;
            }
        }
        self.palette.pop();
        proof {
            let p = self.palette@;
            let ix = self.indices@;
            assert(p.len() == last);
            assert forall|j: int| 0 <= j < p.len() implies #[trigger] p[j] == if j == k {
                p0[last as int]
            } else {
                p0[j]
            } by {}
            assert forall|i: int| 0 <= i < ix.len() implies #[trigger] ix[i] < p.len() && p[ix[i] as int]
                == p0[ix0[i] as int] by {
                assert(ix0[i] < p0.len());
            }
            assert forall|a: int, b: int| 0 <= a < b < p.len() implies p[a] != p[b] by {
                let a0 = if a == k { last as int } else { a };
                let b0 = if b == k { last as int } else { b };
                assert(p0[a0] != p0[b0]);
            }
            assert forall|j: int| 0 <= j < p.len() && j != -1 implies #[trigger] entry_used(ix, j) by {
                if j == k {
                    assert(entry_used(ix0, last as int));
                    let i = choose|i: int| 0 <= i < ix0.len() && ix0[i] as int == last;
                    assert(ix[i] as int == j);
                } else {
                    assert(entry_used(ix0, j));
                    let i = choose|i: int| 0 <= i < ix0.len() && ix0[i] as int == j;
                    assert(ix[i] as int == j);
                }
            }
            assert(self@.blocks =~= old(self)@.blocks);
        }
    }

    pub fn set_block(&mut self, x: usize, y: usize, z: usize, block: BlockTypeId)
        requires
            old(self).wf(),
            in_section(x as int, y as int, z as int),
        ensures
            final(self).wf(),
            final(self)@ == old(self)@.with_block(voxel_offset(x as int, y as int, z as int), block),
    {
        let ghost before = self@;
        let ghost p0 = self.palette@;
        let ghost ix0 = self.indices@;
        proof {
            lemma_distinct_u16_bound(self.palette@, block);
        }
        let voxel_idx = Self::voxel_index(x, y, z);
        let old_k = self.indices[voxel_idx] as usize;
        let palette_idx = match self.palette_position(block) {
            Some(idx) => idx,
            None => {
                self.palette.push(block);
                proof {
                    assert forall|a: int, b: int|
                        0 <= a < self.palette@.len() && 0 <= b < self.palette@.len() && a != b
                        implies self.palette@[a] != self.palette@[b] by {
                        if a < p0.len() && b < p0.len() {
                            assert(p0[a] != p0[b]);
                        } else if a == p0.len() as int {
                            assert(self.palette@[b] == p0[b]);
                        } else {
                            assert(self.palette@[a] == p0[a]);
                        }
                    }
                }
                self.palette.len() - 1
            },
        };
        self.indices.set(voxel_idx, palette_idx as u16);
        proof {
            let p = self.palette@;
            let ix = self.indices@;
            assert forall|i: int| 0 <= i < ix.len() implies (#[trigger] ix[i]) < p.len() by {
                if i != voxel_idx as int {
                    assert(ix[i] == ix0[i]);
                }
            }
            assert forall|j: int| 0 <= j < p.len() && j != old_k as int implies #[trigger] entry_used(ix, j) by {
                if j == palette_idx as int {
                    assert(ix[voxel_idx as int] as int == j);
                } else {
                    assert(j < p0.len());
                    assert(entry_used(ix0, j));
                    let i = choose|i: int| 0 <= i < ix0.len() && ix0[i] as int == j;
                    assert(i != voxel_idx as int);
                    assert(ix[i] as int == j);
                }
            }
            let m = before.with_block(voxel_idx as int, block);
            assert forall|i: int| 0 <= i < VOXELS_PER_SECTION implies #[trigger] self@.blocks[i] == m.blocks[i] by {
                if i != voxel_idx as int {
                    assert(ix[i] == ix0[i]);
                    assert(ix0[i] < p0.len());
                }
            }
            assert(self@.blocks =~= m.blocks);
            assert(palette_wf_except(p, ix, old_k as int));
        }
        if old_k != palette_idx {
            if !self.is_entry_used(old_k) {
                self.remove_unused_entry(old_k);
            } else {
                assert(palette_wf_except(self.palette@, self.indices@, -1));
            }
        } else {
            assert(entry_used(self.indices@, old_k as int)) by {
                assert(self.indices@[voxel_idx as int] as int == old_k);
            }
            assert(palette_wf_except(self.palette@, self.indices@, -1));
        }
    }

    /// Number of palette entries: the number of distinct block types present.
    pub fn palette_len(&self) -> (n: usize)
        requires
            self.wf(),
        ensures
            n == self@.types().len(),
    {
        proof {
            self.lemma_palette_types();
        }
        self.palette.len()
    }
}

} // verus!
