use mca_analyzer::area::Area;
use mca_analyzer::codec::encode_ids;
use mca_analyzer::composition_analyzer::CompositionAnalyzer;
use mca_analyzer::layers::{Layer, Layers};
use mca_analyzer::raw::{RawChunk, RawSection};
use mca_analyzer::store::RegionStore;

#[test]
fn single_voxel_world_composition() {
    // one chunk, one section: palette [air, stone, diamond_ore], all air
    // except one diamond ore voxel at local (0, 0, 0)
    let palette = vec![
        "minecraft:air".to_string(),
        "minecraft:stone".to_string(),
        "minecraft:diamond_ore".to_string(),
    ];
    let mut ids = vec![0u64; 4096];
    ids[0] = 2;
    let words = encode_ids(&ids, 4);
    let section = RawSection { y: 0, palette, block_states: Some(words) };
    let chunk = RawChunk { x: 0, z: 0, sections: vec![section] };
    let store = RegionStore::new(vec![((0, 0), chunk)]).ok().unwrap();
    let mut analyzer = CompositionAnalyzer::new(store);
    analyzer.analyze(Area::new(0, 1, 0, 1));
    let table = analyzer.csv_table();
    // columns ordered by descending global count; stone never occurs
    assert_eq!(table.header, vec!["minecraft:air".to_string(), "minecraft:diamond_ore".to_string()]);
    assert_eq!(table.totals, vec![4095, 1]);
    // one row per layer, ascending; the diamond sits at layer 0
    assert_eq!(table.rows.len(), 16);
    assert_eq!(table.rows[0].0, 0);
    assert_eq!(table.rows[0].1, vec![255, 1]);
    for r in 1..16 {
        assert_eq!(table.rows[r].0, r as i32);
        assert_eq!(table.rows[r].1, vec![256, 0]);
    }
    // each total equals the sum of its column over the layer rows
    for col in 0..table.header.len() {
        let sum: u32 = table.rows.iter().map(|row| row.1[col]).sum();
        assert_eq!(table.totals[col], sum);
    }
}

#[test]
fn sections_at_negative_indices_count_into_negative_layers() {
    let palette = vec!["minecraft:air".to_string(), "minecraft:stone".to_string()];
    let mut ids = vec![0u64; 4096];
    ids[0] = 1;
    let words = encode_ids(&ids, 4);
    let section = RawSection { y: -1, palette, block_states: Some(words) };
    let chunk = RawChunk { x: 0, z: 0, sections: vec![section] };
    let store = RegionStore::new(vec![((0, 0), chunk)]).ok().unwrap();
    let mut analyzer = CompositionAnalyzer::new(store);
    analyzer.analyze(Area::new(0, 1, 0, 1));
    let table = analyzer.csv_table();
    assert_eq!(table.rows[0].0, -16);
    let stone_col = table.header.iter().position(|h| h == "minecraft:stone").unwrap();
    assert_eq!(table.rows[0].1[stone_col], 1);
}

#[test]
fn layer_counts_accumulate() {
    let mut layer = Layer { composition: vec![], y: 7 };
    assert_eq!(layer.get_count("minecraft:stone"), 0);
    layer.increment("minecraft:stone");
    layer.increment("minecraft:stone");
    layer.increment("minecraft:air");
    assert_eq!(layer.get_count("minecraft:stone"), 2);
    assert_eq!(layer.get_count("minecraft:air"), 1);
    assert_eq!(layer.get_count("minecraft:gravel"), 0);
}

#[test]
fn layers_keep_their_indices_apart() {
    let mut layers = Layers::new();
    layers.increment("minecraft:stone", 3);
    layers.increment("minecraft:stone", 3);
    layers.increment("minecraft:stone", -2);
    let ys = layers.sorted_ys();
    assert_eq!(ys, vec![-2, 3]);
    assert_eq!(layers.get_layer(3).unwrap().get_count("minecraft:stone"), 2);
    assert_eq!(layers.get_layer(-2).unwrap().get_count("minecraft:stone"), 1);
    assert!(layers.get_layer(0).is_none());
}
