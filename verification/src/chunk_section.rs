use vstd::prelude::*;

use vstd::pervasive::unreached;

use crate::codec::{get_blocks_in_chunk, BlocksArray, SECTION_VOLUME};
use crate::palette::Palette;
use crate::raw::{
    raw_layer_occ, raw_name_occ, section_grid, section_names, section_valid, DecodeError,
    RawSection,
};

verus! {

/// Side length of a section (and of a chunk column), in voxels.
pub const CHUNK_SIZE: usize = 16;

/// Copies a palette's name list so that decoding can keep its own.
pub fn clone_names(v: &Vec<String>) -> (r: Vec<String>)
    ensures
        r@ == v@,
        r.deep_view() == v.deep_view(),
{
    let mut r: Vec<String> = Vec::new();
    let mut i: usize = 0;
    while i < v.len()
        invariant
            i <= v@.len(),
            r@.len() == i,
            forall|j: int| 0 <= j < i ==> r@[j] == v@[j],
        decreases v.len() - i,
    {
        r.push(v[i].clone());
        i = i + 1;
    }
    proof {
        assert(r@ =~= v@);
        assert(r.deep_view() =~= v.deep_view());
    }
    r
}

/// One decoded 16 x 16 x 16 voxel slab: a dense id grid, the palette its ids
/// point into, and its position `(chunk x, vertical index, chunk z)`.
pub struct ChunkSection {
    pub blocks: BlocksArray,
    pub pos: (i32, i8, i32),
    pub palette: Palette,
}

/// One voxel of a section, as handed to the analyzers: its position local to
/// the section, its global position, and its type name.
pub struct ChunkSectionBlock {
    pub chunk_pos: (usize, usize, usize),
    pub global_pos: (i64, i32, i64),
    pub blockstate: String,
}

impl ChunkSection {
    /// Every stored id points into the palette.
    pub open spec fn wf(self) -> bool {
        &&& self.blocks.wf()
        &&& self.palette.names().len() >= 1
        &&& forall|i: int|
            0 <= i < SECTION_VOLUME ==> (#[trigger] self.blocks.contents@[i])
                < self.palette.names().len()
    }

    /// This section is exactly the decoding of the raw section `rs` for the
    /// chunk column at `(x, z)`.
    pub open spec fn decodes(self, rs: RawSection, x: i32, z: i32) -> bool {
        &&& self.pos == (x, rs.y, z)
        &&& self.palette.names() == section_names(rs)
        &&& rs.block_states is Some
        &&& self.blocks.contents@ == section_grid(rs)
    }

    /// The type name stored at array offset `i`.
    pub open spec fn spec_name_at(self, i: int) -> Seq<char>
        recommends
            0 <= i < SECTION_VOLUME,
    {
        self.palette.names()[self.blocks.contents@[i] as int]
    }

    /// The type name at local position `(x, y, z)`.
    pub open spec fn spec_block_at(self, x: int, y: int, z: int) -> Seq<char>
        recommends
            0 <= x < 16 && 0 <= y < 16 && 0 <= z < 16,
    {
        self.spec_name_at(y * 256 + z * 16 + x)
    }

    /// Decodes one raw section for the chunk column at `(x, z)`.
    /// `Ok(None)` reports the benign case of a section without a packed
    /// array; an id outside the palette is fatal.
    pub fn from_raw(raw: &RawSection, x: i32, z: i32) -> (r: Result<
        Option<ChunkSection>,
        DecodeError,
    >)
        ensures
            match r {
                Ok(o) => match o {
                    Some(cs) => raw.block_states is Some && section_valid(*raw) && cs.wf()
                        && cs.decodes(*raw, x, z),
                    None => raw.block_states is None,
                },
                Err(e) => raw.block_states is Some && !section_valid(*raw) && e
                    == DecodeError::IdOutOfPalette,
            },
    {
        let words = match &raw.block_states {
            Some(w) => w,
            None => {
                return Ok(None);
            },
        };
        let palette = Palette::from_raw(clone_names(&raw.palette));
        let blocks = get_blocks_in_chunk(words, &palette);
        let palette_len = palette.len() as u64;
        let mut i: usize = 0;
        while i < SECTION_VOLUME
            invariant
                i <= SECTION_VOLUME,
                blocks.wf(),
                palette_len == palette.names().len(),
                blocks.contents@ == section_grid(*raw),
                palette.names() == section_names(*raw),
                raw.block_states is Some,
                forall|j: int| 0 <= j < i ==> (#[trigger] blocks.contents@[j]) < palette_len,
            decreases SECTION_VOLUME - i,
        {
            if blocks.contents[i] >= palette_len {
                proof {
                    assert(section_grid(*raw)[i as int] >= section_names(*raw).len());
                }
                return Err(DecodeError::IdOutOfPalette);
            }
            i = i + 1;
        }
        Ok(Some(ChunkSection { blocks, pos: (x, raw.y, z), palette }))
    }

    /// The type name of the voxel at local position `(x, y, z)`.
    pub fn get_block_at(&self, x: usize, y: usize, z: usize) -> (r: Option<&str>)
        requires
            self.wf(),
            x < 16,
            y < 16,
            z < 16,
        ensures
            match r {
                Some(s) => s@ == self.spec_block_at(x as int, y as int, z as int),
                None => false,
            },
    {
        let n = self.palette.len();
        let block_id = self.blocks.get(x, y, z);
        proof {
            assert(block_id < n as u64);
        }
        self.palette.get_state(block_id as usize)
    }

    /// All 4096 voxels of the section, in array order, with their local and
    /// global positions and their resolved type names.
    pub fn blocks_list(&self) -> (r: Vec<ChunkSectionBlock>)
        requires
            self.wf(),
        ensures
            r@.len() == SECTION_VOLUME,
            forall|i: int|
                0 <= i < SECTION_VOLUME ==> {
                    let b = #[trigger] r@[i];
                    &&& b.chunk_pos == ((i % 16) as usize, (i / 256) as usize, ((i / 16)
                        % 16) as usize)
                    &&& b.global_pos.0 == self.pos.0 * 16 + i % 16
                    &&& b.global_pos.1 == self.pos.1 * 16 + i / 256
                    &&& b.global_pos.2 == self.pos.2 * 16 + (i / 16) % 16
                    &&& b.blockstate@ == self.spec_name_at(i)
                },
    {
        let start_x: i64 = self.pos.0 as i64 * 16;
        let start_y: i32 = self.pos.1 as i32 * 16;
        let start_z: i64 = self.pos.2 as i64 * 16;
        let n = self.palette.len();
        let mut r: Vec<ChunkSectionBlock> = Vec::new();
        let mut idx: usize = 0;
        while idx < SECTION_VOLUME
            invariant
                self.wf(),
                n == self.palette.names().len(),
                start_x == self.pos.0 * 16,
                start_y == self.pos.1 * 16,
                start_z == self.pos.2 * 16,
                idx <= SECTION_VOLUME,
                r@.len() == idx,
                forall|i: int|
                    0 <= i < idx ==> {
                        let b = #[trigger] r@[i];
                        &&& b.chunk_pos == ((i % 16) as usize, (i / 256) as usize, ((i / 16)
                            % 16) as usize)
                        &&& b.global_pos.0 == self.pos.0 * 16 + i % 16
                        &&& b.global_pos.1 == self.pos.1 * 16 + i / 256
                        &&& b.global_pos.2 == self.pos.2 * 16 + (i / 16) % 16
                        &&& b.blockstate@ == self.spec_name_at(i)
                    },
            decreases SECTION_VOLUME - idx,
        {
            let (x, y, z) = get_coords_from_array_pos(idx);
            let id = self.blocks.contents[idx];
            proof {
                assert(id < n as u64);
            }
            let blockstate: String = match self.palette.get_state(id as usize) {
                Some(s) => s.to_owned(),
                None => unreached(),
            };
            let block = ChunkSectionBlock {
                chunk_pos: (x, y, z),
                global_pos: (start_x + x as i64, start_y + y as i32, start_z + z as i64),
                blockstate,
            };
            r.push(block);
            idx = idx + 1;
        }
        r
    }
}


/// How often the first `n` voxels of a section carry the type name `k`.
pub open spec fn section_name_occ(sec: ChunkSection, k: Seq<char>, n: int) -> nat
    decreases n,
{
    if n <= 0 {
        0
    } else {
        section_name_occ(sec, k, n - 1) + if sec.spec_name_at(n - 1) == k {
            1nat
        } else {
            0nat
        }
    }
}

/// How often the first `n` voxels of a section carry the type name `k` at
/// world layer `y`.
pub open spec fn section_layer_occ(sec: ChunkSection, y: int, k: Seq<char>, n: int) -> nat
    decreases n,
{
    if n <= 0 {
        0
    } else {
        section_layer_occ(sec, y, k, n - 1) + if sec.spec_name_at(n - 1) == k && sec.pos.1 * 16
            + (n - 1) / 256 == y {
            1nat
        } else {
            0nat
        }
    }
}


/// The per-layer occurrences of name `k` summed over the first `t` of the
/// section's 16 world layers.
pub open spec fn section_layer_occ_sum(sec: ChunkSection, k: Seq<char>, n: int, t: int) -> nat
    decreases t,
{
    if t <= 0 {
        0
    } else {
        section_layer_occ_sum(sec, k, n, t - 1) + section_layer_occ(
            sec,
            sec.pos.1 * 16 + (t - 1),
            k,
            n,
        )
    }
}

proof fn lemma_layer_sum_zero(sec: ChunkSection, k: Seq<char>, t: int)
    requires
        0 <= t,
    ensures
        section_layer_occ_sum(sec, k, 0, t) == 0,
    decreases t,
{
    if t > 0 {
        lemma_layer_sum_zero(sec, k, t - 1);
    }
}

proof fn lemma_layer_sum_step(sec: ChunkSection, k: Seq<char>, n: int, t: int)
    requires
        1 <= n <= SECTION_VOLUME,
        0 <= t <= 16,
    ensures
        section_layer_occ_sum(sec, k, n, t) == section_layer_occ_sum(sec, k, n - 1, t) + (
        if sec.spec_name_at(n - 1) == k && (n - 1) / 256 < t {
            1nat
        } else {
            0nat
        }),
    decreases t,
{
    if t > 0 {
        lemma_layer_sum_step(sec, k, n, t - 1);
        assert(section_layer_occ(sec, sec.pos.1 * 16 + (t - 1), k, n) == section_layer_occ(
            sec,
            sec.pos.1 * 16 + (t - 1),
            k,
            n - 1,
        ) + (if sec.spec_name_at(n - 1) == k && sec.pos.1 * 16 + (n - 1) / 256 == sec.pos.1
            * 16 + (t - 1) {
            1nat
        } else {
            0nat
        }));
    }
}

/// A type's total occurrence count in a section is the sum of its per-layer
/// occurrence counts over the section's 16 layers: the law behind the
/// composition table's totals row, which sums the layer rows column by
/// column.
pub proof fn lemma_section_total_is_layer_sum(sec: ChunkSection, k: Seq<char>, n: int)
    requires
        0 <= n <= SECTION_VOLUME,
    ensures
        section_name_occ(sec, k, n) == section_layer_occ_sum(sec, k, n, 16),
    decreases n,
{
    if n == 0 {
        lemma_layer_sum_zero(sec, k, 16);
    } else {
        lemma_section_total_is_layer_sum(sec, k, n - 1);
        lemma_layer_sum_step(sec, k, n, 16);
        assert((n - 1) / 256 < 16);
    }
}

/// A decoded section has the same occurrence counts as the raw section it
/// was decoded from.
pub proof fn lemma_section_occ_decodes(sec: ChunkSection, rs: RawSection, x: i32, z: i32, n: int)
    requires
        sec.wf(),
        sec.decodes(rs, x, z),
        0 <= n <= SECTION_VOLUME,
    ensures
        forall|k: Seq<char>| section_name_occ(sec, k, n) == raw_name_occ(rs, k, n),
        forall|y: int, k: Seq<char>| section_layer_occ(sec, y, k, n) == raw_layer_occ(rs, y, k, n),
    decreases n,
{
    if n > 0 {
        lemma_section_occ_decodes(sec, rs, x, z, n - 1);
        assert(sec.blocks.contents@[n - 1] == section_grid(rs)[n - 1]);
        assert(sec.blocks.contents@[n - 1] < sec.palette.names().len());
        assert(sec.spec_name_at(n - 1) == section_names(rs)[section_grid(rs)[n - 1] as int]);
        assert(sec.pos.1 == rs.y);
        assert forall|k: Seq<char>| section_name_occ(sec, k, n) == raw_name_occ(rs, k, n) by {
            assert(section_name_occ(sec, k, n) == section_name_occ(sec, k, n - 1) + (
            if sec.spec_name_at(n - 1) == k {
                1nat
            } else {
                0nat
            }));
            assert(raw_name_occ(rs, k, n) == raw_name_occ(rs, k, n - 1) + (if section_grid(rs)[n
                - 1] < section_names(rs).len() && section_names(rs)[section_grid(rs)[n
                - 1] as int] == k {
                1nat
            } else {
                0nat
            }));
        }
        assert forall|y: int, k: Seq<char>|
            section_layer_occ(sec, y, k, n) == raw_layer_occ(rs, y, k, n) by {
            assert(section_layer_occ(sec, y, k, n) == section_layer_occ(sec, y, k, n - 1) + (
            if sec.spec_name_at(n - 1) == k && sec.pos.1 * 16 + (n - 1) / 256 == y {
                1nat
            } else {
                0nat
            }));
            assert(raw_layer_occ(rs, y, k, n) == raw_layer_occ(rs, y, k, n - 1) + (
            if section_grid(rs)[n - 1] < section_names(rs).len() && section_names(rs)[
                section_grid(rs)[n - 1] as int] == k && rs.y * 16 + (n - 1) / 256 == y {
                1nat
            } else {
                0nat
            }));
        }
    }
}

/// Local coordinates `(x, y, z)` of an array offset, inverting
/// `y * 256 + z * 16 + x`.
pub fn get_coords_from_array_pos(index: usize) -> (r: (usize, usize, usize))
    requires
        index < SECTION_VOLUME,
    ensures
        r.0 == index % 16,
        r.1 == index / 256,
        r.2 == (index / 16) % 16,
        r.0 < 16 && r.1 < 16 && r.2 < 16,
{
    let x = index % CHUNK_SIZE;
    let z = (index / CHUNK_SIZE) % CHUNK_SIZE;
    let y = index / (CHUNK_SIZE * CHUNK_SIZE);
    (x, y, z)
}

} // verus!
