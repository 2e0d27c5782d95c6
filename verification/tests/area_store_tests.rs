use mca_analyzer::area::Area;
use mca_analyzer::chunk::Chunk;
use mca_analyzer::chunk_section::ChunkSection;
use mca_analyzer::codec::encode_ids;
use mca_analyzer::raw::{DecodeError, RawChunk, RawSection};
use mca_analyzer::store::RegionStore;

#[test]
fn traversal_is_row_major_z_then_x() {
    let area = Area::new(0, 2, 0, 2);
    assert_eq!(area.coords(), vec![(0, 0), (1, 0), (0, 1), (1, 1)]);
}

#[test]
fn traversal_respects_offsets() {
    let area = Area::new(-1, 1, 5, 6);
    assert_eq!(area.coords(), vec![(-1, 5), (0, 5)]);
}

#[test]
fn widths_in_blocks_and_chunks() {
    let area = Area::new(-2, 3, 1, 3);
    assert_eq!(area.chunk_width_x(), 5);
    assert_eq!(area.chunk_width_z(), 2);
    assert_eq!(area.block_width_x(), 80);
    assert_eq!(area.block_width_z(), 32);
    let vis = area.to_vis_coords();
    assert_eq!(vis.x_range, (0, 5));
    assert_eq!(vis.z_range, (0, 2));
    assert_eq!(area.get_positive_coords(-2, 1), (0, 0));
    assert_eq!(area.get_positive_coords(2, 2), (4, 1));
}

#[test]
fn duplicate_chunk_coordinates_are_rejected() {
    let a = RawChunk { x: 0, z: 0, sections: vec![] };
    let b = RawChunk { x: 0, z: 0, sections: vec![] };
    let r = RegionStore::new(vec![((0, 0), a), ((0, 0), b)]);
    assert!(matches!(r, Err(DecodeError::DuplicateChunk)));
}

#[test]
fn mismatched_chunk_position_is_rejected() {
    let a = RawChunk { x: 1, z: 0, sections: vec![] };
    let r = RegionStore::new(vec![((0, 0), a)]);
    assert!(matches!(r, Err(DecodeError::ChunkPositionMismatch)));
}

#[test]
fn an_id_outside_the_palette_is_fatal() {
    // palette [air] only, but a packed id of 1 occurs
    let palette = vec!["minecraft:air".to_string()];
    let mut ids = vec![0u64; 4096];
    ids[7] = 1;
    let words = encode_ids(&ids, 4);
    let section = RawSection { y: 0, palette, block_states: Some(words) };
    let chunk = RawChunk { x: 0, z: 0, sections: vec![section] };
    let r = Chunk::from_raw(&chunk);
    assert!(matches!(r, Err(DecodeError::IdOutOfPalette)));
    let chunk2 = RawChunk {
        x: 0,
        z: 0,
        sections: vec![RawSection {
            y: 0,
            palette: vec!["minecraft:air".to_string()],
            block_states: Some(encode_ids(&vec![1u64; 4096], 4)),
        }],
    };
    let r2 = RegionStore::new(vec![((0, 0), chunk2)]);
    assert!(matches!(r2, Err(DecodeError::IdOutOfPalette)));
}

#[test]
fn sections_without_an_array_are_omitted() {
    let empty_section = RawSection {
        y: 2,
        palette: vec!["minecraft:air".to_string()],
        block_states: None,
    };
    let full_section = RawSection {
        y: 0,
        palette: vec!["minecraft:air".to_string()],
        block_states: Some(encode_ids(&vec![0u64; 4096], 4)),
    };
    let chunk = RawChunk { x: 0, z: 0, sections: vec![empty_section, full_section] };
    let decoded = Chunk::from_raw(&chunk).ok().unwrap();
    assert!(decoded.get_section(0).is_some());
    assert!(decoded.get_section(2).is_none());
    assert_eq!(decoded.section_ys_sorted(), vec![0]);
}

#[test]
fn a_later_duplicate_section_wins() {
    let mut ids = vec![0u64; 4096];
    ids[0] = 1;
    let first = RawSection {
        y: 0,
        palette: vec!["minecraft:air".to_string(), "minecraft:stone".to_string()],
        block_states: Some(encode_ids(&vec![0u64; 4096], 4)),
    };
    let second = RawSection {
        y: 0,
        palette: vec!["minecraft:air".to_string(), "minecraft:stone".to_string()],
        block_states: Some(encode_ids(&ids, 4)),
    };
    let chunk = RawChunk { x: 0, z: 0, sections: vec![first, second] };
    let decoded = Chunk::from_raw(&chunk).ok().unwrap();
    let section: &ChunkSection = decoded.get_section(0).unwrap();
    assert_eq!(section.get_block_at(0, 0, 0), Some("minecraft:stone"));
    assert_eq!(section.get_block_at(1, 0, 0), Some("minecraft:air"));
}

#[test]
fn section_blocks_carry_global_positions() {
    let section = RawSection {
        y: 1,
        palette: vec!["minecraft:air".to_string()],
        block_states: Some(encode_ids(&vec![0u64; 4096], 4)),
    };
    let chunk = RawChunk { x: 2, z: -1, sections: vec![section] };
    let decoded = Chunk::from_raw(&chunk).ok().unwrap();
    let blocks = decoded.get_section(1).unwrap().blocks_list();
    assert_eq!(blocks.len(), 4096);
    assert_eq!(blocks[0].chunk_pos, (0, 0, 0));
    assert_eq!(blocks[0].global_pos, (32, 16, -16));
    assert_eq!(blocks[0].blockstate, "minecraft:air");
    // offset x + 16 * z + 256 * y
    let b = &blocks[1 + 16 * 2 + 256 * 3];
    assert_eq!(b.chunk_pos, (1, 3, 2));
    assert_eq!(b.global_pos, (33, 19, -14));
}
