use vstd::prelude::*;

use crate::codec::{grid_ids, SECTION_VOLUME};
use crate::palette::{spec_bit_width, spec_palette};

verus! {

/// What went wrong while decoding backing data; every variant is fatal to
/// the run.
#[derive(Debug, Clone, Copy, PartialEq, Eq, Structural)]
pub enum DecodeError {
    /// A packed id has no entry in its section's palette.
    IdOutOfPalette,
    /// Two chunks in one store claim the same coordinate.
    DuplicateChunk,
    /// A chunk is stored under a coordinate other than its own.
    ChunkPositionMismatch,
}

/// One section entry as the backing store hands it over: a vertical index,
/// the declared palette names, and the packed block array where one exists.
/// A missing array means the section holds no voxels at all.
pub struct RawSection {
    pub y: i8,
    pub palette: Vec<String>,
    pub block_states: Option<Vec<u64>>,
}

/// One chunk column as the backing store hands it over.
pub struct RawChunk {
    pub x: i32,
    pub z: i32,
    pub sections: Vec<RawSection>,
}

/// The names a section's palette resolves to, empty type inserted.
pub open spec fn section_names(rs: RawSection) -> Seq<Seq<char>> {
    spec_palette(rs.palette.deep_view())
}

/// The packed bit width of a section.
pub open spec fn section_width(rs: RawSection) -> u64 {
    spec_bit_width(section_names(rs).len()) as u64
}

/// The decoded 4096-entry id grid of a section that has a packed array.
pub open spec fn section_grid(rs: RawSection) -> Seq<u64>
    recommends
        rs.block_states is Some,
{
    grid_ids(rs.block_states->Some_0@, section_width(rs))
}

/// A section is valid when every decoded id points into its palette.
/// Sections without a packed array carry no ids and are trivially valid.
pub open spec fn section_valid(rs: RawSection) -> bool {
    rs.block_states is Some ==> forall|i: int|
        0 <= i < SECTION_VOLUME ==> (#[trigger] section_grid(rs)[i]) < section_names(rs).len()
}

/// A chunk is valid when all its sections are.
pub open spec fn raw_chunk_valid(rc: RawChunk) -> bool {
    forall|i: int| 0 <= i < rc.sections@.len() ==> section_valid(#[trigger] rc.sections@[i])
}


/// How often the first `n` voxels of a raw section resolve to name `k`; ids
/// without a palette entry resolve to nothing.
pub open spec fn raw_name_occ(rs: RawSection, k: Seq<char>, n: int) -> nat
    decreases n,
{
    if n <= 0 {
        0
    } else {
        raw_name_occ(rs, k, n - 1) + if section_grid(rs)[n - 1] < section_names(rs).len()
            && section_names(rs)[section_grid(rs)[n - 1] as int] == k {
            1nat
        } else {
            0nat
        }
    }
}

/// How often the first `n` voxels of a raw section resolve to name `k` at
/// world layer `y`.
pub open spec fn raw_layer_occ(rs: RawSection, y: int, k: Seq<char>, n: int) -> nat
    decreases n,
{
    if n <= 0 {
        0
    } else {
        raw_layer_occ(rs, y, k, n - 1) + if section_grid(rs)[n - 1] < section_names(rs).len()
            && section_names(rs)[section_grid(rs)[n - 1] as int] == k && rs.y * 16 + (n - 1)
            / 256 == y {
            1nat
        } else {
            0nat
        }
    }
}

/// Occurrence counts never pass the number of voxels looked at.
pub proof fn lemma_raw_occ_bound(rs: RawSection, k: Seq<char>, n: int)
    requires
        0 <= n,
    ensures
        raw_name_occ(rs, k, n) <= n,
    decreases n,
{
    if n > 0 {
        lemma_raw_occ_bound(rs, k, n - 1);
    }
}

/// The section entry that decides vertical index `y` of a raw chunk: the
/// last declared entry with that index that carries a packed array.
pub open spec fn raw_section_at(ss: Seq<RawSection>, y: int) -> Option<RawSection>
    decreases ss.len(),
{
    if ss.len() == 0 {
        None::<RawSection>
    } else if ss.last().y == y && ss.last().block_states is Some {
        Some(ss.last())
    } else {
        raw_section_at(ss.drop_last(), y)
    }
}

} // verus!
