use std::io::Cursor;

use bitstream_io::{BitRead, BitReader, LittleEndian};

use mca_analyzer::codec::{encode_ids, get_block_ids_in_chunk, parse_blockstate_val};
use mca_analyzer::palette::Palette;

fn palette_of_size(n: usize) -> Palette {
    let mut names = vec!["minecraft:air".to_string()];
    for i in 1..n {
        names.push(format!("minecraft:type_{}", i));
    }
    Palette::from_raw(names)
}

#[test]
fn known_word_at_width_four() {
    let vals = parse_blockstate_val(4, 0x21);
    assert_eq!(vals.len(), 16);
    assert_eq!(vals[0], 1);
    assert_eq!(vals[1], 2);
    for k in 2..16 {
        assert_eq!(vals[k], 0);
    }
}

#[test]
fn known_word_at_width_five() {
    // twelve 5-bit values per word, 4 padding bits
    let word: u64 = 0b00010_00001;
    let vals = parse_blockstate_val(5, word);
    assert_eq!(vals.len(), 12);
    assert_eq!(vals[0], 1);
    assert_eq!(vals[1], 2);
}

#[test]
fn round_trip_reproduces_a_full_grid() {
    let palette = palette_of_size(16);
    assert_eq!(palette.get_elem_bit_size(), 4);
    let mut ids: Vec<u64> = Vec::new();
    for i in 0..4096u64 {
        ids.push((i * 7 + 3) % 16);
    }
    let words = encode_ids(&ids, 4);
    assert_eq!(words.len(), 256);
    let decoded = get_block_ids_in_chunk(&words, &palette);
    assert_eq!(decoded, ids);
}

#[test]
fn round_trip_at_width_five() {
    let palette = palette_of_size(17);
    assert_eq!(palette.get_elem_bit_size(), 5);
    let mut ids: Vec<u64> = Vec::new();
    for i in 0..4096u64 {
        ids.push((i * 11 + 5) % 17);
    }
    let words = encode_ids(&ids, 5);
    // 12 values per word
    assert_eq!(words.len(), (4096 + 11) / 12);
    let decoded = get_block_ids_in_chunk(&words, &palette);
    assert_eq!(&decoded[..4096], &ids[..]);
}

#[test]
fn padding_bits_are_ignored() {
    // at width 5 only the low 60 bits carry values
    let a: u64 = 0x0123_4567_89AB_CDEF & ((1u64 << 60) - 1);
    let b: u64 = a | (0xFu64 << 60);
    assert_ne!(a, b);
    assert_eq!(parse_blockstate_val(5, a), parse_blockstate_val(5, b));
}

#[test]
fn values_never_span_words() {
    // at width 63 each word carries exactly one value; the top bit is padding
    let a: u64 = 0x7FFF_FFFF_FFFF_FFFF;
    let b: u64 = 0xFFFF_FFFF_FFFF_FFFF;
    let va = parse_blockstate_val(63, a);
    let vb = parse_blockstate_val(63, b);
    assert_eq!(va, vb);
    assert_eq!(va, vec![0x7FFF_FFFF_FFFF_FFFF]);
}

#[test]
fn matches_a_bitstream_reader() {
    let words: [u64; 4] = [
        0x0123_4567_89AB_CDEF,
        0xFEDC_BA98_7654_3210,
        0x0F0F_0F0F_0F0F_0F0F,
        0x8000_0000_0000_0001,
    ];
    for width in [4u32, 5, 7, 8, 9, 12, 16, 21, 32, 63, 64] {
        for &word in words.iter() {
            let ours = parse_blockstate_val(width, word);
            let mut reader = BitReader::endian(Cursor::new(word.to_le_bytes()), LittleEndian);
            let mut theirs: Vec<u64> = Vec::new();
            while let Ok(v) = reader.read_var::<u64>(width) {
                theirs.push(v);
            }
            assert_eq!(ours, theirs, "width {} word {:#x}", width, word);
        }
    }
}
