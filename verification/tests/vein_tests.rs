use mca_analyzer::area::Area;
use mca_analyzer::codec::encode_ids;
use mca_analyzer::diamond_vein_analyzer::DiamondVeinAnalyzer;
use mca_analyzer::raw::{RawChunk, RawSection};
use mca_analyzer::store::RegionStore;

fn diamond_section(y: i8, diamond_offsets: &[usize]) -> RawSection {
    let palette = vec![
        "minecraft:air".to_string(),
        "minecraft:stone".to_string(),
        "minecraft:diamond_ore".to_string(),
    ];
    let mut ids = vec![0u64; 4096];
    for &off in diamond_offsets {
        ids[off] = 2;
    }
    let words = encode_ids(&ids, 4);
    RawSection { y, palette, block_states: Some(words) }
}

fn offset(x: usize, y: usize, z: usize) -> usize {
    y * 256 + z * 16 + x
}

/// A store whose chunks cover the given coordinate rectangle; `filled` maps
/// a chunk coordinate to its sections.
fn store_over(
    xs: std::ops::RangeInclusive<i32>,
    zs: std::ops::RangeInclusive<i32>,
    filled: Vec<((i32, i32), Vec<RawSection>)>,
) -> RegionStore {
    let mut entries = Vec::new();
    for x in xs {
        for z in zs.clone() {
            let sections = filled
                .iter()
                .find(|e| e.0 == (x, z))
                .map(|e| {
                    e.1.iter()
                        .map(|s| RawSection {
                            y: s.y,
                            palette: s.palette.clone(),
                            block_states: s.block_states.clone(),
                        })
                        .collect()
                })
                .unwrap_or_default();
            entries.push(((x, z), RawChunk { x, z, sections }));
        }
    }
    RegionStore::new(entries).ok().unwrap()
}

#[test]
fn cluster_at_the_cap_is_accepted_with_its_exact_size() {
    // a 4 x 4 plane of 16 connected diamond voxels at height 5
    let mut offs = Vec::new();
    for x in 0..4 {
        for z in 0..4 {
            offs.push(offset(x, 5, z));
        }
    }
    let store = store_over(
        -2..=2,
        -2..=2,
        vec![((0, 0), vec![diamond_section(0, &offs)])],
    );
    let mut analyzer = DiamondVeinAnalyzer::new(store, Area::new(0, 1, 0, 1));
    analyzer.analyze();
    assert_eq!(analyzer.vein_cells_sorted(), vec![((16, 5), 1)]);
    assert_eq!(analyzer.diamonds_per_chunk_sorted(), vec![(16, 1)]);
    // 16 finds darken the chunk's pixel to black
    assert_eq!(analyzer.diamond_img.pixels, vec![0]);
}

#[test]
fn cluster_over_the_cap_is_rejected_but_still_counted() {
    // 17 connected diamond voxels: the 4 x 4 plane plus one neighbour
    let mut offs = Vec::new();
    for x in 0..4 {
        for z in 0..4 {
            offs.push(offset(x, 5, z));
        }
    }
    offs.push(offset(4, 5, 0));
    let store = store_over(
        -2..=2,
        -2..=2,
        vec![((0, 0), vec![diamond_section(0, &offs)])],
    );
    let mut analyzer = DiamondVeinAnalyzer::new(store, Area::new(0, 1, 0, 1));
    analyzer.analyze();
    // no vein is recorded, yet all 17 seeds are counted
    assert_eq!(analyzer.vein_cells_sorted(), vec![]);
    assert_eq!(analyzer.diamonds_per_chunk_sorted(), vec![(17, 1)]);
}

#[test]
fn veins_are_not_rediscovered_across_chunks() {
    // a 4-voxel vein crossing from chunk (0,0) into chunk (1,0):
    // world x 14..=17 at height 5
    let offs_a = vec![offset(14, 5, 0), offset(15, 5, 0)];
    let offs_b = vec![offset(0, 5, 0), offset(1, 5, 0)];
    let store = store_over(
        -2..=3,
        -2..=2,
        vec![
            ((0, 0), vec![diamond_section(0, &offs_a)]),
            ((1, 0), vec![diamond_section(0, &offs_b)]),
        ],
    );
    let mut analyzer = DiamondVeinAnalyzer::new(store, Area::new(0, 2, 0, 1));
    analyzer.analyze();
    // one vein of size 4, found once; the scan of the second chunk hits the
    // recorded positions and does not record it again
    assert_eq!(analyzer.vein_cells_sorted(), vec![((4, 5), 1)]);
    // each chunk still counts its own two seeds
    assert_eq!(analyzer.diamonds_per_chunk_sorted(), vec![(2, 2)]);
    assert_eq!(analyzer.diamond_img.pixels, vec![255 - 32, 255 - 32]);
}

#[test]
fn separate_veins_are_recorded_separately() {
    // two disconnected pairs in one chunk
    let offs = vec![
        offset(0, 5, 0),
        offset(0, 6, 0),
        offset(8, 5, 8),
        offset(8, 5, 9),
    ];
    let store = store_over(
        -2..=2,
        -2..=2,
        vec![((0, 0), vec![diamond_section(0, &offs)])],
    );
    let mut analyzer = DiamondVeinAnalyzer::new(store, Area::new(0, 1, 0, 1));
    analyzer.analyze();
    assert_eq!(analyzer.vein_cells_sorted(), vec![((2, 5), 2)]);
    assert_eq!(analyzer.diamonds_per_chunk_sorted(), vec![(4, 1)]);
}

#[test]
fn deepslate_variant_counts_as_the_same_target() {
    let palette = vec![
        "minecraft:air".to_string(),
        "minecraft:deepslate_diamond_ore".to_string(),
    ];
    let mut ids = vec![0u64; 4096];
    ids[offset(3, 2, 3)] = 1;
    let words = encode_ids(&ids, 4);
    let section = RawSection { y: 0, palette, block_states: Some(words) };
    let store = store_over(-2..=2, -2..=2, vec![((0, 0), vec![section])]);
    let mut analyzer = DiamondVeinAnalyzer::new(store, Area::new(0, 1, 0, 1));
    analyzer.analyze();
    assert_eq!(analyzer.vein_cells_sorted(), vec![((1, 2), 1)]);
}

#[test]
fn clean_drops_only_positions_strictly_behind() {
    let store = store_over(-2..=2, -2..=2, vec![]);
    let mut analyzer = DiamondVeinAnalyzer::new(store, Area::new(0, 1, 0, 1));
    analyzer.found_veins = vec![(-5, 0, -5), (-5, 0, 10), (10, 0, -5), (10, 0, 10)];
    analyzer.clean_found_veins((0, 0));
    assert_eq!(analyzer.found_veins, vec![(-5, 0, 10), (10, 0, -5), (10, 0, 10)]);
}
