use kombox::world::chunk::CHUNK_SIZE;
use kombox::world::World;

fn flat_grid(chunks_x: usize, chunks_z: usize, h: i32) -> Vec<Vec<Vec<i32>>> {
    vec![vec![vec![h; CHUNK_SIZE * CHUNK_SIZE]; chunks_z]; chunks_x]
}

#[test]
fn generate_covers_the_grid() {
    let world = World::generate(2, 3, 5, &flat_grid(2, 3, 4));
    let chunks = world.iter_chunks();
    assert_eq!(chunks.len(), 6);
    for cx in 0..2 {
        for cz in 0..3 {
            assert_eq!(chunks.iter().filter(|(k, _)| *k == (cx, cz)).count(), 1);
        }
    }
    assert_eq!(world.seed, 5);
    assert_eq!(world.chunks_x, 2);
    assert_eq!(world.chunks_z, 3);
}

#[test]
fn empty_grid_has_no_chunks() {
    let world = World::generate(0, 3, 5, &Vec::new());
    assert!(world.iter_chunks().is_empty());
    assert!(!world.is_solid_at(0, 0, 0));
}

#[test]
fn solid_lookup() {
    let world = World::generate(2, 2, 11, &flat_grid(2, 2, 4));
    assert!(world.is_solid_at(0, 0, 0));
    assert!(world.is_solid_at(31, 4, 17));
    assert!(!world.is_solid_at(5, -1, 5));
    assert!(!world.is_solid_at(5, 16, 5));
    assert!(!world.is_solid_at(-1, 0, 0));
    assert!(!world.is_solid_at(0, 0, 32));
    assert!(!world.is_solid_at(i32::MIN, 0, i32::MAX));
}

#[test]
fn solid_box_query() {
    let world = World::generate(1, 1, 11, &flat_grid(1, 1, 4));
    assert!(world.any_solid_in_box(0, 1, 3, 5, 0, 1));
    assert!(!world.any_solid_in_box(-5, -2, 0, 3, 0, 3));
    assert!(!world.any_solid_in_box(3, 2, 0, 3, 0, 3));
    assert!(world.any_solid_in_box(15, 15, 0, 0, 15, 15));
}
