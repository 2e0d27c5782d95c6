use mca_analyzer::chunk_loader::ChunkLoader;
use mca_analyzer::codec::encode_ids;
use mca_analyzer::raw::{RawChunk, RawSection};
use mca_analyzer::store::RegionStore;

fn empty_chunk(x: i32, z: i32) -> ((i32, i32), RawChunk) {
    ((x, z), RawChunk { x, z, sections: vec![] })
}

fn section_with_ids(y: i8, ids: Vec<u64>) -> RawSection {
    let palette = vec![
        "minecraft:air".to_string(),
        "minecraft:stone".to_string(),
        "minecraft:diamond_ore".to_string(),
    ];
    let words = encode_ids(&ids, 4);
    RawSection { y, palette, block_states: Some(words) }
}

fn has_cached(loader: &ChunkLoader, x: i32, z: i32) -> bool {
    loader.loaded_chunks.iter().any(|e| e.0 == (x, z))
}

#[test]
fn cache_holds_exactly_the_capacity_after_overflow() {
    let mut entries = Vec::new();
    for i in 0..40 {
        entries.push(empty_chunk(i, 0));
    }
    let store = RegionStore::new(entries).ok().unwrap();
    let mut loader = ChunkLoader::new(store, None);
    for i in 0..33 {
        loader.get_or_load(i, 0);
    }
    assert_eq!(loader.loaded_chunks.len(), 32);
    assert_eq!(loader.recently_loaded_chunks.len(), 32);
    // the queue holds the 32 most recent coordinates, oldest first
    let expected: Vec<(i32, i32)> = (1..33).map(|i| (i, 0)).collect();
    assert_eq!(loader.recently_loaded_chunks, expected);
    // the first loaded coordinate was the least recently used one
    assert!(!has_cached(&loader, 0, 0));
    for i in 1..33 {
        assert!(has_cached(&loader, i, 0), "chunk {} should be cached", i);
    }
}

#[test]
fn touching_protects_from_the_next_eviction() {
    let mut entries = Vec::new();
    for i in 0..40 {
        entries.push(empty_chunk(i, 0));
    }
    let store = RegionStore::new(entries).ok().unwrap();
    let mut loader = ChunkLoader::new(store, None);
    for i in 0..32 {
        loader.get_or_load(i, 0);
    }
    // touch the oldest entry, then miss once
    loader.get_or_load(0, 0);
    loader.get_or_load(32, 0);
    assert_eq!(loader.loaded_chunks.len(), 32);
    assert!(has_cached(&loader, 0, 0));
    assert!(!has_cached(&loader, 1, 0));
}

#[test]
fn point_query_crosses_chunk_boundaries() {
    // chunk (0,0): diamond ore at local (15, 0, 0); stone elsewhere in the plane
    let mut ids_a = vec![1u64; 4096];
    ids_a[15] = 2;
    // chunk (1,0): stone at local (0, 0, 0), air elsewhere
    let mut ids_b = vec![0u64; 4096];
    ids_b[0] = 1;
    let chunk_a = RawChunk { x: 0, z: 0, sections: vec![section_with_ids(0, ids_a)] };
    let chunk_b = RawChunk { x: 1, z: 0, sections: vec![section_with_ids(0, ids_b)] };
    let store = RegionStore::new(vec![
        ((0, 0), chunk_a),
        ((1, 0), chunk_b),
    ])
    .ok()
    .unwrap();
    let mut loader = ChunkLoader::new(store, None);
    assert_eq!(loader.get_blockstate_at(15, 0, 0), Some("minecraft:diamond_ore"));
    assert_eq!(loader.get_blockstate_at(16, 0, 0), Some("minecraft:stone"));
    assert_eq!(loader.get_blockstate_at(17, 0, 0), Some("minecraft:air"));
    // loading B did not disturb A's cached contents
    assert!(has_cached(&loader, 0, 0));
    assert!(has_cached(&loader, 1, 0));
    assert_eq!(loader.get_blockstate_at(15, 0, 0), Some("minecraft:diamond_ore"));
}

#[test]
fn point_query_handles_negative_coordinates() {
    // chunk (-1,-1): stone at local (15, 0, 15), which is world (-1, 0, -1)
    let mut ids = vec![0u64; 4096];
    ids[15 * 16 + 15] = 1;
    let chunk = RawChunk { x: -1, z: -1, sections: vec![section_with_ids(0, ids)] };
    let store = RegionStore::new(vec![((-1, -1), chunk)]).ok().unwrap();
    let mut loader = ChunkLoader::new(store, None);
    assert_eq!(loader.get_blockstate_at(-1, 0, -1), Some("minecraft:stone"));
    assert_eq!(loader.get_blockstate_at(-2, 0, -1), Some("minecraft:air"));
}

#[test]
fn absent_sections_answer_none() {
    let store = RegionStore::new(vec![empty_chunk(0, 0)]).ok().unwrap();
    let mut loader = ChunkLoader::new(store, None);
    assert_eq!(loader.get_blockstate_at(3, 40, 5), None);
}

#[test]
fn section_filter_hides_sections_outside_the_range() {
    let mut ids = vec![0u64; 4096];
    ids[0] = 1;
    let sec_low = section_with_ids(0, ids.clone());
    let sec_high = section_with_ids(5, ids);
    let chunk = RawChunk { x: 0, z: 0, sections: vec![sec_low, sec_high] };
    let store = RegionStore::new(vec![((0, 0), chunk)]).ok().unwrap();
    let mut loader = ChunkLoader::new(store, Some((0, 4)));
    assert_eq!(loader.get_blockstate_at(0, 0, 0), Some("minecraft:stone"));
    // section 5 lies outside the filter range [0, 4)
    assert_eq!(loader.get_blockstate_at(0, 80, 0), None);
}
