use vstd::prelude::*;

use vstd::pervasive::unreached;

use crate::area::Area;
use crate::chunk::lemma_section_found;
use crate::chunk_loader::{
    chunk_filtered, chunk_layer_occ, chunk_name_occ, in_section_range, store_coords_covered,
    stored_section_at, ys_layer_occ, ys_name_occ, ChunkLoader,
};
use crate::chunk::section_match;
use crate::chunk_loader::lemma_ys_cover;
use crate::layers::lemma_sat_add_assoc;
use crate::raw::{raw_layer_occ, raw_name_occ};
use crate::chunk_section::{ChunkSection, ChunkSectionBlock};
use crate::chunk_section::{section_layer_occ, section_name_occ};
use crate::layers::{
    bump, increment_count, keys_unique, lemma_sat_add_bump, sat_add, seq_count, spec_has_layer,
    Layers,
};
use crate::store::RegionStore;

verus! {

/// Counts one voxel into the global per-type table and into its layer's
/// table.
pub fn count_blockstate(
    block: ChunkSectionBlock,
    blockstate_map: &mut Vec<(String, u32)>,
    layers: &mut Layers,
)
    requires
        keys_unique(old(blockstate_map)@),
        old(layers).wf(),
    ensures
        keys_unique(final(blockstate_map)@),
        final(layers).wf(),
        seq_count(final(blockstate_map)@, block.blockstate@) == bump(
            seq_count(old(blockstate_map)@, block.blockstate@),
        ),
        forall|k: Seq<char>|
            k != block.blockstate@ ==> seq_count(final(blockstate_map)@, k) == seq_count(
                old(blockstate_map)@,
                k,
            ),
        final(layers).spec_count(block.global_pos.1 as int, block.blockstate@) == bump(
            old(layers).spec_count(block.global_pos.1 as int, block.blockstate@),
        ),
        forall|y: int, k: Seq<char>|
            !(y == block.global_pos.1 as int && k == block.blockstate@)
                ==> final(layers).spec_count(y, k) == old(layers).spec_count(y, k),
{
    let blockstate = block.blockstate;
    increment_count(blockstate_map, blockstate.as_str());
    layers.increment(blockstate.as_str(), block.global_pos.1);
}

/// Counts every voxel of one decoded section: each type name's global count
/// grows by its number of occurrences in the section, and each layer's count
/// by its occurrences at that layer.
pub fn count_chunk_section(
    chunk_section: &ChunkSection,
    blockstate_map: &mut Vec<(String, u32)>,
    layers: &mut Layers,
)
    requires
        chunk_section.wf(),
        keys_unique(old(blockstate_map)@),
        old(layers).wf(),
    ensures
        keys_unique(final(blockstate_map)@),
        final(layers).wf(),
        forall|k: Seq<char>|
            seq_count(final(blockstate_map)@, k) == sat_add(
                seq_count(old(blockstate_map)@, k),
                section_name_occ(*chunk_section, k, 4096),
            ),
        forall|y: int, k: Seq<char>|
            final(layers).spec_count(y, k) == sat_add(
                old(layers).spec_count(y, k),
                section_layer_occ(*chunk_section, y, k, 4096),
            ),
{
    let blocks = chunk_section.blocks_list();
    let mut i: usize = 0;
    while i < blocks.len()
        invariant
            chunk_section.wf(),
            keys_unique(blockstate_map@),
            layers.wf(),
            blocks@.len() == 4096,
            i <= blocks@.len(),
            forall|b: int|
                0 <= b < 4096 ==> {
                    let bl = #[trigger] blocks@[b];
                    bl.blockstate@ == chunk_section.spec_name_at(b) && bl.global_pos.1
                        == chunk_section.pos.1 * 16 + b / 256
                },
            forall|k: Seq<char>|
                seq_count(blockstate_map@, k) == sat_add(
                    seq_count(old(blockstate_map)@, k),
                    section_name_occ(*chunk_section, k, i as int),
                ),
            forall|y: int, k: Seq<char>|
                layers.spec_count(y, k) == sat_add(
                    old(layers).spec_count(y, k),
                    section_layer_occ(*chunk_section, y, k, i as int),
                ),
        decreases blocks.len() - i,
    {
        let b = ChunkSectionBlock {
            chunk_pos: blocks[i].chunk_pos,
            global_pos: blocks[i].global_pos,
            blockstate: blocks[i].blockstate.clone(),
        };
        let ghost name = chunk_section.spec_name_at(i as int);
        let ghost layer_y = chunk_section.pos.1 * 16 + (i as int) / 256;
        proof {
            assert(b.blockstate@ == name);
            assert(b.global_pos.1 == layer_y);
        }
        let ghost m0 = blockstate_map@;
        let ghost l0 = *layers;
        count_blockstate(b, blockstate_map, layers);
        proof {
            assert forall|k: Seq<char>|
                seq_count(blockstate_map@, k) == sat_add(
                    seq_count(old(blockstate_map)@, k),
                    section_name_occ(*chunk_section, k, i as int + 1),
                ) by {
                if k == name {
                    lemma_sat_add_bump(
                        seq_count(old(blockstate_map)@, k),
                        section_name_occ(*chunk_section, k, i as int),
                    );
                    assert(section_name_occ(*chunk_section, k, i as int + 1)
                        == section_name_occ(*chunk_section, k, i as int) + 1);
                } else {
                    assert(seq_count(blockstate_map@, k) == seq_count(m0, k));
                    assert(section_name_occ(*chunk_section, k, i as int + 1)
                        == section_name_occ(*chunk_section, k, i as int));
                }
            }
            assert forall|y: int, k: Seq<char>|
                layers.spec_count(y, k) == sat_add(
                    old(layers).spec_count(y, k),
                    section_layer_occ(*chunk_section, y, k, i as int + 1),
                ) by {
                if k == name && y == b.global_pos.1 as int {
                    lemma_sat_add_bump(
                        old(layers).spec_count(y, k),
                        section_layer_occ(*chunk_section, y, k, i as int),
                    );
                    assert(section_layer_occ(*chunk_section, y, k, i as int + 1)
                        == section_layer_occ(*chunk_section, y, k, i as int) + 1);
                } else {
                    assert(layers.spec_count(y, k) == l0.spec_count(y, k));
                    assert(section_layer_occ(*chunk_section, y, k, i as int + 1)
                        == section_layer_occ(*chunk_section, y, k, i as int));
                }
            }
        }
        i = i + 1;
    }
}


/// Occurrences of name `k` over the first `n` chunks of a coordinate list.
pub open spec fn area_name_occ(
    store: crate::store::RegionStore,
    range: Option<(i8, i8)>,
    coords: Seq<(i32, i32)>,
    k: Seq<char>,
    n: int,
) -> nat
    decreases n,
{
    if n <= 0 {
        0
    } else {
        area_name_occ(store, range, coords, k, n - 1) + chunk_name_occ(
            store,
            range,
            coords[n - 1].0 as int,
            coords[n - 1].1 as int,
            k,
        )
    }
}

/// Occurrences of name `k` at world layer `y` over the first `n` chunks of
/// a coordinate list.
pub open spec fn area_layer_occ(
    store: crate::store::RegionStore,
    range: Option<(i8, i8)>,
    coords: Seq<(i32, i32)>,
    y: int,
    k: Seq<char>,
    n: int,
) -> nat
    decreases n,
{
    if n <= 0 {
        0
    } else {
        area_layer_occ(store, range, coords, y, k, n - 1) + chunk_layer_occ(
            store,
            range,
            coords[n - 1].0 as int,
            coords[n - 1].1 as int,
            y,
            k,
        )
    }
}

/// One rendered composition table: a column per type name ordered by
/// descending global count, a row per layer ordered by ascending height, and
/// a totals row.
pub struct CsvTable {
    pub header: Vec<String>,
    pub rows: Vec<(i32, Vec<u32>)>,
    pub totals: Vec<u32>,
}

/// Counts, for every voxel an area's chunks hold, how often each type name
/// occurs, globally and per vertical layer.
pub struct CompositionAnalyzer {
    pub blockstate_map: Vec<(String, u32)>,
    pub layers: Layers,
    pub chunk_loader: ChunkLoader,
}

impl CompositionAnalyzer {
    pub open spec fn wf(self) -> bool {
        &&& keys_unique(self.blockstate_map@)
        &&& self.layers.wf()
        &&& self.chunk_loader.wf()
    }

    /// The global count of a type name.
    pub open spec fn spec_total(self, k: Seq<char>) -> u32 {
        seq_count(self.blockstate_map@, k)
    }

    /// A fresh analyzer over a validated backing store, with empty tables.
    pub fn new(store: RegionStore) -> (r: CompositionAnalyzer)
        requires
            store.wf(),
        ensures
            r.wf(),
            r.chunk_loader.store == store,
            r.chunk_loader.section_range is None,
            r.blockstate_map@.len() == 0,
            r.layers.layers@.len() == 0,
    {
        CompositionAnalyzer {
            blockstate_map: Vec::new(),
            layers: Layers::new(),
            chunk_loader: ChunkLoader::new(store, None),
        }
    }

    /// Scans every chunk of the area in traversal order and counts every
    /// voxel it holds: every type name's global count grows by exactly its
    /// occurrences over the area's stored chunks, and every layer's count by
    /// its occurrences at that layer. Every chunk coordinate of the area
    /// must exist in the backing store; a missing one would be fatal.
    pub fn analyze(&mut self, area: Area)
        requires
            old(self).wf(),
            area.wf(),
            store_coords_covered(old(self).chunk_loader.store, area.spec_coords()),
        ensures
            final(self).wf(),
            final(self).chunk_loader.store == old(self).chunk_loader.store,
            final(self).chunk_loader.section_range == old(self).chunk_loader.section_range,
            forall|k: Seq<char>|
                seq_count(final(self).blockstate_map@, k) == sat_add(
                    seq_count(old(self).blockstate_map@, k),
                    area_name_occ(
                        old(self).chunk_loader.store,
                        old(self).chunk_loader.section_range,
                        area.spec_coords(),
                        k,
                        area.spec_coords().len() as int,
                    ),
                ),
            forall|y: int, k: Seq<char>|
                final(self).layers.spec_count(y, k) == sat_add(
                    old(self).layers.spec_count(y, k),
                    area_layer_occ(
                        old(self).chunk_loader.store,
                        old(self).chunk_loader.section_range,
                        area.spec_coords(),
                        y,
                        k,
                        area.spec_coords().len() as int,
                    ),
                ),
    {
        let ghost store = self.chunk_loader.store;
        let ghost range = self.chunk_loader.section_range;
        let ghost m0 = self.blockstate_map@;
        let ghost l0 = self.layers;
        let coords = area.coords();
        let mut ci: usize = 0;
        while ci < coords.len()
            invariant
                self.wf(),
                coords@ == area.spec_coords(),
                store == old(self).chunk_loader.store,
                range == old(self).chunk_loader.section_range,
                m0 == old(self).blockstate_map@,
                l0 == old(self).layers,
                self.chunk_loader.store == store,
                self.chunk_loader.section_range == range,
                store_coords_covered(store, coords@),
                ci <= coords@.len(),
                forall|k: Seq<char>|
                    seq_count(self.blockstate_map@, k) == sat_add(
                        seq_count(m0, k),
                        area_name_occ(store, range, coords@, k, ci as int),
                    ),
                forall|y: int, k: Seq<char>|
                    self.layers.spec_count(y, k) == sat_add(
                        l0.spec_count(y, k),
                        area_layer_occ(store, range, coords@, y, k, ci as int),
                    ),
            decreases coords.len() - ci,
        {
            let (chunk_x, chunk_z) = coords[ci];
            proof {
                assert(coords@[ci as int] == (chunk_x, chunk_z));
            }
            let ghost m_pre = self.blockstate_map@;
            let ghost l_pre = self.layers;
            self.analyze_chunk(chunk_x, chunk_z);
            proof {
                assert forall|k: Seq<char>|
                    seq_count(self.blockstate_map@, k) == sat_add(
                        seq_count(m0, k),
                        area_name_occ(store, range, coords@, k, ci as int + 1),
                    ) by {
                    lemma_sat_add_assoc(
                        seq_count(m0, k),
                        area_name_occ(store, range, coords@, k, ci as int),
                        chunk_name_occ(store, range, chunk_x as int, chunk_z as int, k),
                    );
                    assert(area_name_occ(store, range, coords@, k, ci as int + 1)
                        == area_name_occ(store, range, coords@, k, ci as int) + chunk_name_occ(
                        store,
                        range,
                        chunk_x as int,
                        chunk_z as int,
                        k,
                    ));
                }
                assert forall|y: int, k: Seq<char>|
                    self.layers.spec_count(y, k) == sat_add(
                        l0.spec_count(y, k),
                        area_layer_occ(store, range, coords@, y, k, ci as int + 1),
                    ) by {
                    lemma_sat_add_assoc(
                        l0.spec_count(y, k),
                        area_layer_occ(store, range, coords@, y, k, ci as int),
                        chunk_layer_occ(store, range, chunk_x as int, chunk_z as int, y, k),
                    );
                    assert(area_layer_occ(store, range, coords@, y, k, ci as int + 1)
                        == area_layer_occ(store, range, coords@, y, k, ci as int)
                        + chunk_layer_occ(store, range, chunk_x as int, chunk_z as int, y, k));
                }
            }
            ci = ci + 1;
        }
    }

    /// Loads one chunk and counts all its voxels, section by section in
    /// ascending vertical order: every type name's global count grows by its
    /// occurrences in the chunk's stored, filtered sections, and every
    /// layer's count by its occurrences at that layer.
    fn analyze_chunk(&mut self, chunk_x: i32, chunk_z: i32)
        requires
            old(self).wf(),
            crate::store::store_contains(
                old(self).chunk_loader.store.entries@,
                chunk_x as int,
                chunk_z as int,
            ),
        ensures
            final(self).wf(),
            final(self).chunk_loader.store == old(self).chunk_loader.store,
            final(self).chunk_loader.section_range == old(self).chunk_loader.section_range,
            forall|k: Seq<char>|
                seq_count(final(self).blockstate_map@, k) == sat_add(
                    seq_count(old(self).blockstate_map@, k),
                    chunk_name_occ(
                        old(self).chunk_loader.store,
                        old(self).chunk_loader.section_range,
                        chunk_x as int,
                        chunk_z as int,
                        k,
                    ),
                ),
            forall|y: int, k: Seq<char>|
                final(self).layers.spec_count(y, k) == sat_add(
                    old(self).layers.spec_count(y, k),
                    chunk_layer_occ(
                        old(self).chunk_loader.store,
                        old(self).chunk_loader.section_range,
                        chunk_x as int,
                        chunk_z as int,
                        y,
                        k,
                    ),
                ),
    {
        let ghost store = self.chunk_loader.store;
        let ghost range = self.chunk_loader.section_range;
        let ghost m0 = self.blockstate_map@;
        let ghost l0 = self.layers;
        let ghost cxi = chunk_x as int;
        let ghost czi = chunk_z as int;
        let (ys, chv) = {
            let chunk = self.chunk_loader.get_or_load(chunk_x, chunk_z);
            (chunk.section_ys_sorted(), Ghost(*chunk))
        };
        let ghost chv = chv@;
        proof {
            // the sorted indices are exactly the stored, filtered sections
            let rawv = crate::store::store_chunk_at(store.entries@, cxi, czi)->Some_0;
            assert(chunk_filtered(rawv, range, chv));
            assert forall|yv: i8|
                ys@.contains(yv) == (stored_section_at(store, range, cxi, czi, yv as int)
                    is Some) by {
                if ys@.contains(yv) {
                    assert(crate::chunk::chunk_has_section(chv.sections@, yv as int));
                    let j = choose|j: int|
                        0 <= j < chv.sections@.len() && (#[trigger] chv.sections@[j]).pos.1
                            == yv as int;
                    lemma_section_found(chv.sections@, j);
                    assert(chv.spec_section_at(yv as int) is Some);
                    if !in_section_range(range, yv as int) {
                        assert(chv.spec_section_at(yv as int) is None);
                    }
                    assert(section_match(
                        crate::raw::raw_section_at(rawv.sections@, yv as int),
                        chv.spec_section_at(yv as int),
                        rawv.x,
                        rawv.z,
                    ));
                }
                if stored_section_at(store, range, cxi, czi, yv as int) is Some {
                    assert(in_section_range(range, yv as int));
                    assert(section_match(
                        crate::raw::raw_section_at(rawv.sections@, yv as int),
                        chv.spec_section_at(yv as int),
                        rawv.x,
                        rawv.z,
                    ));
                    assert(chv.spec_section_at(yv as int) is Some);
                    crate::chunk::lemma_section_with_y_elem(chv.sections@, yv as int);
                    assert(crate::chunk::chunk_has_section(chv.sections@, yv as int));
                }
            }
        }
        let mut j: usize = 0;
        while j < ys.len()
            invariant
                self.wf(),
                store == old(self).chunk_loader.store,
                range == old(self).chunk_loader.section_range,
                m0 == old(self).blockstate_map@,
                l0 == old(self).layers,
                cxi == chunk_x as int && czi == chunk_z as int,
                self.chunk_loader.store == store,
                self.chunk_loader.section_range == range,
                crate::store::store_contains(store.entries@, cxi, czi),
                j <= ys@.len(),
                forall|a: int, b: int| 0 <= a < b < ys@.len() ==> ys@[a] < ys@[b],
                forall|yv: i8|
                    ys@.contains(yv) == (stored_section_at(store, range, cxi, czi, yv as int)
                        is Some),
                forall|k: Seq<char>|
                    seq_count(self.blockstate_map@, k) == sat_add(
                        seq_count(m0, k),
                        ys_name_occ(store, range, cxi, czi, ys@, k, j as int),
                    ),
                forall|y: int, k: Seq<char>|
                    self.layers.spec_count(y, k) == sat_add(
                        l0.spec_count(y, k),
                        ys_layer_occ(store, range, cxi, czi, ys@, y, k, j as int),
                    ),
            decreases ys.len() - j,
        {
            let y = ys[j];
            let ghost rsv = stored_section_at(store, range, cxi, czi, y as int)->Some_0;
            let ghost m_pre = self.blockstate_map@;
            let ghost l_pre = self.layers;
            proof {
                assert(ys@[j as int] == y);
                assert(ys@.contains(y));
                assert(stored_section_at(store, range, cxi, czi, y as int) is Some);
            }
            {
                let chunk = self.chunk_loader.get_or_load(chunk_x, chunk_z);
                let ghost rawv = crate::store::store_chunk_at(store.entries@, cxi, czi)->Some_0;
                proof {
                    assert(chunk_filtered(rawv, range, *chunk));
                    assert(in_section_range(range, y as int));
                    assert(section_match(
                        crate::raw::raw_section_at(rawv.sections@, y as int),
                        chunk.spec_section_at(y as int),
                        rawv.x,
                        rawv.z,
                    ));
                }
                let section = match chunk.get_section(y) {
                    Some(s) => s,
                    None => unreached(),
                };
                proof {
                    assert(chunk.spec_section_at(y as int) == Some(*section));
                    assert(section.decodes(rsv, rawv.x, rawv.z));
                    crate::chunk::lemma_section_with_y_elem(chunk.sections@, y as int);
                    assert(section.wf());
                }
                count_chunk_section(section, &mut self.blockstate_map, &mut self.layers);
                proof {
                    crate::chunk_section::lemma_section_occ_decodes(
                        *section,
                        rsv,
                        rawv.x,
                        rawv.z,
                        4096,
                    );
                    assert forall|k: Seq<char>|
                        seq_count(self.blockstate_map@, k) == sat_add(
                            seq_count(m_pre, k),
                            raw_name_occ(rsv, k, 4096),
                        ) by {
                        assert(section_name_occ(*section, k, 4096) == raw_name_occ(
                            rsv,
                            k,
                            4096,
                        ));
                    }
                    assert forall|y2: int, k: Seq<char>|
                        self.layers.spec_count(y2, k) == sat_add(
                            l_pre.spec_count(y2, k),
                            raw_layer_occ(rsv, y2, k, 4096),
                        ) by {
                        assert(section_layer_occ(*section, y2, k, 4096) == raw_layer_occ(
                            rsv,
                            y2,
                            k,
                            4096,
                        ));
                    }
                }
            }
            proof {
                assert forall|k: Seq<char>|
                    seq_count(self.blockstate_map@, k) == sat_add(
                        seq_count(m0, k),
                        ys_name_occ(store, range, cxi, czi, ys@, k, j as int + 1),
                    ) by {
                    lemma_sat_add_assoc(
                        seq_count(m0, k),
                        ys_name_occ(store, range, cxi, czi, ys@, k, j as int),
                        raw_name_occ(rsv, k, 4096),
                    );
                    assert(ys_name_occ(store, range, cxi, czi, ys@, k, j as int + 1)
                        == ys_name_occ(store, range, cxi, czi, ys@, k, j as int) + raw_name_occ(
                        rsv,
                        k,
                        4096,
                    ));
                }
                assert forall|y2: int, k: Seq<char>|
                    self.layers.spec_count(y2, k) == sat_add(
                        l0.spec_count(y2, k),
                        ys_layer_occ(store, range, cxi, czi, ys@, y2, k, j as int + 1),
                    ) by {
                    lemma_sat_add_assoc(
                        l0.spec_count(y2, k),
                        ys_layer_occ(store, range, cxi, czi, ys@, y2, k, j as int),
                        raw_layer_occ(rsv, y2, k, 4096),
                    );
                    assert(ys_layer_occ(store, range, cxi, czi, ys@, y2, k, j as int + 1)
                        == ys_layer_occ(store, range, cxi, czi, ys@, y2, k, j as int)
                        + raw_layer_occ(rsv, y2, k, 4096));
                }
            }
            j = j + 1;
        }
        proof {
            lemma_ys_cover(store, range, cxi, czi, ys@);
        }
    }

    /// The finished composition table: type columns ordered by descending
    /// global count, a row per observed layer ordered by ascending height,
    /// and the global totals.
    pub fn csv_table(&self) -> (r: CsvTable)
        requires
            self.wf(),
        ensures
            r.header@.len() == r.totals@.len(),
            r.header@.len() == self.blockstate_map@.len(),
            forall|a: int, b: int| 0 <= a < b < r.totals@.len() ==> r.totals@[a] >= r.totals@[b],
            forall|i: int|
                0 <= i < r.header@.len() ==> r.totals@[i] == self.spec_total(
                    (#[trigger] r.header@[i])@,
                ),
            forall|a: int, b: int| 0 <= a < b < r.rows@.len() ==> r.rows@[a].0 < r.rows@[b].0,
            forall|j: int|
                0 <= j < r.rows@.len() ==> spec_has_layer(
                    self.layers.layers@,
                    (#[trigger] r.rows@[j]).0 as int,
                ),
            forall|y: i32|
                spec_has_layer(self.layers.layers@, y as int) ==> exists|j: int|
                    0 <= j < r.rows@.len() && (#[trigger] r.rows@[j]).0 == y,
            forall|j: int, i: int|
                0 <= j < r.rows@.len() && 0 <= i < r.header@.len()
                    ==> (#[trigger] r.rows@[j].1@[i]) == self.layers.spec_count(
                    r.rows@[j].0 as int,
                    r.header@[i]@,
                ),
            forall|j: int| 0 <= j < r.rows@.len() ==> (#[trigger] r.rows@[j]).1@.len()
                == r.header@.len(),
    {
        let list = sort_by_count_desc(&self.blockstate_map);
        let mut header: Vec<String> = Vec::new();
        let mut totals: Vec<u32> = Vec::new();
        let mut i: usize = 0;
        while i < list.len()
            invariant
                self.wf(),
                i <= list@.len(),
                header@.len() == i && totals@.len() == i,
                forall|a: int, b: int| 0 <= a < b < list@.len() ==> list@[a].1 >= list@[b].1,
                forall|a: int|
                    0 <= a < list@.len() ==> seq_count(
                        self.blockstate_map@,
                        (#[trigger] list@[a]).0@,
                    ) == list@[a].1,
                forall|a: int| 0 <= a < i ==> (#[trigger] header@[a])@ == list@[a].0@,
                forall|a: int| 0 <= a < i ==> (#[trigger] totals@[a]) == list@[a].1,
            decreases list.len() - i,
        {
            header.push(list[i].0.clone());
            totals.push(list[i].1);
            i = i + 1;
        }
        let ys = self.layers.sorted_ys();
        let mut rows: Vec<(i32, Vec<u32>)> = Vec::new();
        let mut j: usize = 0;
        while j < ys.len()
            invariant
                self.wf(),
                j <= ys@.len(),
                rows@.len() == j,
                header@.len() == list@.len(),
                forall|a: int| 0 <= a < list@.len() ==> (#[trigger] header@[a])@ == list@[a].0@,
                forall|a: int, b: int| 0 <= a < b < ys@.len() ==> ys@[a] < ys@[b],
                forall|y: i32| ys@.contains(y) == spec_has_layer(self.layers.layers@, y as int),
                forall|a: int| 0 <= a < j ==> (#[trigger] rows@[a]).0 == ys@[a],
                forall|a: int, i2: int|
                    0 <= a < j && 0 <= i2 < header@.len() ==> (#[trigger] rows@[a].1@[i2])
                        == self.layers.spec_count(rows@[a].0 as int, header@[i2]@),
                forall|a: int| 0 <= a < j ==> (#[trigger] rows@[a]).1@.len() == header@.len(),
            decreases ys.len() - j,
        {
            let y = ys[j];
            proof {
                assert(ys@[j as int] == y);
                assert(ys@.contains(y));
            }
            let layer = match self.layers.get_layer(y) {
                Some(l) => l,
                None => unreached(),
            };
            let mut row: Vec<u32> = Vec::new();
            let mut i2: usize = 0;
            while i2 < header.len()
                invariant
                    self.wf(),
                    layer.wf(),
                    forall|k: Seq<char>|
                        layer.spec_count(k) == self.layers.spec_count(y as int, k),
                    i2 <= header@.len(),
                    row@.len() == i2,
                    forall|a: int|
                        0 <= a < i2 ==> (#[trigger] row@[a]) == self.layers.spec_count(
                            y as int,
                            header@[a]@,
                        ),
                decreases header.len() - i2,
            {
                let c = layer.get_count(header[i2].as_str());
                row.push(c);
                i2 = i2 + 1;
            }
            rows.push((y, row));
            j = j + 1;
        }
        proof {
            assert forall|y: i32|
                spec_has_layer(self.layers.layers@, y as int) implies exists|a: int|
                    0 <= a < rows@.len() && (#[trigger] rows@[a]).0 == y by {
                assert(ys@.contains(y));
                let a = choose|a: int| 0 <= a < ys@.len() && ys@[a] == y;
                assert(rows@[a].0 == y);
            }
        }
        let result = CsvTable { header, rows, totals };
        proof {
            assert(result.header == header && result.rows == rows && result.totals == totals);
            assert forall|a: int, b: int|
                0 <= a < b < result.rows@.len() implies result.rows@[a].0 < result.rows@[b].0 by {
                assert(result.rows@[a].0 == ys@[a] && result.rows@[b].0 == ys@[b]);
            }
            assert forall|j: int|
                0 <= j < result.rows@.len() implies spec_has_layer(
                self.layers.layers@,
                (#[trigger] result.rows@[j]).0 as int,
            ) by {
                assert(result.rows@[j].0 == ys@[j]);
                assert(ys@.contains(ys@[j]));
            }
            assert forall|i: int|
                0 <= i < result.header@.len() implies result.totals@[i] == self.spec_total(
                (#[trigger] result.header@[i])@,
            ) by {
                assert(result.header@[i]@ == list@[i].0@);
                assert(result.totals@[i] == list@[i].1);
                assert(seq_count(self.blockstate_map@, list@[i].0@) == list@[i].1);
            }
        }
        result
    }
}

/// The entries of a per-type count table, ordered by descending count; ties
/// may come out in any order.
fn sort_by_count_desc(map: &Vec<(String, u32)>) -> (r: Vec<(String, u32)>)
    requires
        keys_unique(map@),
    ensures
        r@.len() == map@.len(),
        forall|a: int, b: int| 0 <= a < b < r@.len() ==> r@[a].1 >= r@[b].1,
        forall|a: int|
            0 <= a < r@.len() ==> seq_count(map@, (#[trigger] r@[a]).0@) == r@[a].1,
{
    let mut r: Vec<(String, u32)> = Vec::new();
    let mut i: usize = 0;
    while i < map.len()
        invariant
            keys_unique(map@),
            i <= map@.len(),
            r@.len() == i,
            forall|a: int, b: int| 0 <= a < b < r@.len() ==> r@[a].1 >= r@[b].1,
            forall|a: int|
                0 <= a < r@.len() ==> exists|j: int|
                    0 <= j < i && #[trigger] r@[a] == (map@[j].0, map@[j].1),
        decreases map.len() - i,
    {
        let name = map[i].0.clone();
        let count = map[i].1;
        let ghost r0 = r@;
        let mut p: usize = 0;
        while p < r.len() && r[p].1 >= count
            invariant
                p <= r@.len(),
                r@ == r0,
                forall|a: int| 0 <= a < p ==> r@[a].1 >= count,
            decreases r.len() - p,
        {
            p = p + 1;
        }
        r.insert(p, (name, count));
        proof {
            assert(r@[p as int] == (name, count));
            assert(name@ == map@[i as int].0@ && count == map@[i as int].1);
            assert(r@[p as int] == (map@[i as int].0, map@[i as int].1)) by {
                assert(name == map@[i as int].0);
            }
            assert forall|a: int, b: int| 0 <= a < b < r@.len() implies r@[a].1 >= r@[b].1 by {
                if b < p as int {
                } else if a < p as int && b == p as int {
                } else if a < p as int {
                    assert(r@[b] == r0[b - 1]);
                } else if a == p as int {
                    assert(r@[b] == r0[b - 1]);
                    assert(!(r0[p as int].1 >= count) || false);
                    if b - 1 > p as int {
                        assert(r0[b - 1].1 <= r0[p as int].1);
                    }
                } else {
                    assert(r@[a] == r0[a - 1] && r@[b] == r0[b - 1]);
                }
            }
            assert forall|a: int|
                0 <= a < r@.len() implies exists|j: int|
                    0 <= j < i + 1 && #[trigger] r@[a] == (map@[j].0, map@[j].1) by {
                if a == p as int {
                    assert(r@[a] == (map@[i as int].0, map@[i as int].1));
                } else {
                    let a0: int = if a < p as int {
                        a
                    } else {
                        a - 1
                    };
                    assert(r@[a] == r0[a0]);
                    let j = choose|j: int| 0 <= j < i && r0[a0] == (map@[j].0, map@[j].1);
                    assert(r@[a] == (map@[j].0, map@[j].1));
                }
            }
        }
        i = i + 1;
    }
    proof {
        assert forall|a: int|
            0 <= a < r@.len() implies seq_count(map@, (#[trigger] r@[a]).0@) == r@[a].1 by {
            let j = choose|j: int|
                0 <= j < map@.len() && r@[a] == (map@[j].0, map@[j].1);
            crate::layers::lemma_seq_count_found(map@, j, map@[j].0@);
        }
    }
    r
}

} // verus!
