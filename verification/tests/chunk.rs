use kombox::world::chunk::{is_solid, ChunkSection, AIR, DIRT, GRASS, STONE};

#[test]
fn empty_section_is_all_air() {
    let section = ChunkSection::new_empty();
    assert_eq!(section.get_block(0, 0, 0), AIR);
    assert_eq!(section.palette_len(), 1);
}

#[test]
fn set_and_get_block() {
    let mut section = ChunkSection::new_empty();
    section.set_block(1, 2, 3, STONE);
    assert_eq!(section.get_block(1, 2, 3), STONE);
    assert_eq!(section.get_block(0, 0, 0), AIR);
    assert_eq!(section.palette_len(), 2);
}

#[test]
fn empty_section_corners_are_air() {
    let section = ChunkSection::new_empty();
    assert_eq!(section.get_block(15, 15, 15), AIR);
    assert_eq!(section.get_block(15, 0, 7), AIR);
}

#[test]
fn overwrite_keeps_other_voxels() {
    let mut section = ChunkSection::new_empty();
    section.set_block(4, 5, 6, GRASS);
    section.set_block(4, 5, 7, DIRT);
    section.set_block(4, 5, 6, STONE);
    assert_eq!(section.get_block(4, 5, 6), STONE);
    assert_eq!(section.get_block(4, 5, 7), DIRT);
    assert_eq!(section.get_block(6, 5, 4), AIR);
}

#[test]
fn palette_lists_the_types_present() {
    let mut section = ChunkSection::new_empty();
    section.set_block(0, 0, 0, STONE);
    section.set_block(1, 0, 0, STONE);
    assert_eq!(section.palette_len(), 2);
    section.set_block(2, 0, 0, AIR);
    assert_eq!(section.palette_len(), 2);
    section.set_block(3, 0, 0, DIRT);
    assert_eq!(section.palette_len(), 3);
    // Overwriting every stone drops stone from the palette.
    section.set_block(0, 0, 0, AIR);
    assert_eq!(section.palette_len(), 3);
    section.set_block(1, 0, 0, AIR);
    assert_eq!(section.palette_len(), 2);
    assert_eq!(section.get_block(3, 0, 0), DIRT);
    assert_eq!(section.get_block(0, 0, 0), AIR);
}

#[test]
fn overwritten_type_leaves_the_palette() {
    let mut section = ChunkSection::new_empty();
    section.set_block(1, 2, 3, STONE);
    section.set_block(1, 2, 3, AIR);
    assert_eq!(section.palette_len(), 1);
}

#[test]
fn equal_sections_stay_equal() {
    let mut a = ChunkSection::new_empty();
    let mut b = ChunkSection::new_empty();
    a.set_block(0, 0, 0, STONE);
    a.set_block(0, 0, 0, AIR);
    b.set_block(0, 0, 0, DIRT);
    b.set_block(0, 0, 0, AIR);
    a.set_block(5, 5, 5, STONE);
    b.set_block(5, 5, 5, STONE);
    b.set_block(5, 5, 5, STONE);
    assert_eq!(a.palette_len(), 2);
    assert_eq!(b.palette_len(), 2);
    assert_eq!(a.get_block(5, 5, 5), b.get_block(5, 5, 5));
}

#[test]
fn air_leaves_a_full_section() {
    let mut section = ChunkSection::new_empty();
    for i in 0..4096usize {
        section.set_block(i % 16, i / 256, (i / 16) % 16, STONE);
    }
    assert_eq!(section.palette_len(), 1);
    assert_eq!(section.get_block(15, 15, 15), STONE);
    section.set_block(7, 7, 7, GRASS);
    assert_eq!(section.palette_len(), 2);
    assert_eq!(section.get_block(7, 7, 7), GRASS);
    assert_eq!(section.get_block(7, 7, 8), STONE);
}

#[test]
fn many_distinct_types_fit_the_palette() {
    let mut section = ChunkSection::new_empty();
    for i in 0..300usize {
        let (x, y, z) = (i % 16, (i / 16) % 16, i / 256);
        section.set_block(x, y, z, (i + 1) as u16);
    }
    assert_eq!(section.palette_len(), 301);
    assert_eq!(section.get_block(299 % 16, (299 / 16) % 16, 1), 300);
    assert_eq!(section.get_block(15, 15, 15), AIR);
}

#[test]
fn only_air_is_not_solid() {
    assert!(!is_solid(AIR));
    assert!(is_solid(STONE));
    assert!(is_solid(999));
}
