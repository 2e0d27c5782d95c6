use mca_analyzer::palette::Palette;

fn palette_of_size(n: usize) -> Palette {
    // keep the declared first entry the empty type so no entry is inserted
    let mut names = vec!["minecraft:air".to_string()];
    for i in 1..n {
        names.push(format!("minecraft:type_{}", i));
    }
    let p = Palette::from_raw(names);
    assert_eq!(p.len(), n);
    p
}

#[test]
fn width_is_four_up_to_sixteen_entries() {
    for n in 1..=16 {
        assert_eq!(palette_of_size(n).get_elem_bit_size(), 4, "palette size {}", n);
    }
}

#[test]
fn width_grows_at_seventeen_entries() {
    assert_eq!(palette_of_size(17).get_elem_bit_size(), 5);
}

#[test]
fn width_at_larger_sizes() {
    assert_eq!(palette_of_size(256).get_elem_bit_size(), 8);
    assert_eq!(palette_of_size(257).get_elem_bit_size(), 9);
    assert_eq!(palette_of_size(1024).get_elem_bit_size(), 10);
    assert_eq!(palette_of_size(1025).get_elem_bit_size(), 11);
}

#[test]
fn empty_declaration_gets_the_empty_type() {
    let p = Palette::from_raw(vec![]);
    assert_eq!(p.len(), 1);
    assert_eq!(p.get_state(0), Some("minecraft:air"));
}

#[test]
fn missing_empty_type_is_inserted_at_zero() {
    let p = Palette::from_raw(vec!["minecraft:stone".to_string()]);
    assert_eq!(p.len(), 2);
    assert_eq!(p.get_state(0), Some("minecraft:air"));
    assert_eq!(p.get_state(1), Some("minecraft:stone"));
    assert_eq!(p.get_state(2), None);
}

#[test]
fn duplicate_names_are_kept() {
    let p = Palette::from_raw(vec![
        "minecraft:air".to_string(),
        "minecraft:stone".to_string(),
        "minecraft:stone".to_string(),
    ]);
    assert_eq!(p.len(), 3);
    assert_eq!(p.get_state(2), Some("minecraft:stone"));
}

#[test]
fn add_is_idempotent() {
    let mut p = Palette::from_raw(vec!["minecraft:air".to_string()]);
    assert_eq!(p.add("minecraft:stone"), 1);
    assert_eq!(p.add("minecraft:stone"), 1);
    assert_eq!(p.len(), 2);
    assert_eq!(p.add("minecraft:air"), 0);
    assert_eq!(p.len(), 2);
    assert_eq!(p.get_state(1), Some("minecraft:stone"));
}
