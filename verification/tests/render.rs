use kombox::render::{mesh_chunk_section, MeshVertex};
use kombox::world::chunk::{ChunkSection, DIRT, STONE};

#[test]
fn empty_section_has_no_mesh() {
    let (vertices, indices) = mesh_chunk_section(&ChunkSection::new_empty());
    assert!(vertices.is_empty());
    assert!(indices.is_empty());
}

#[test]
fn single_block_has_six_quads() {
    let mut section = ChunkSection::new_empty();
    section.set_block(0, 0, 0, STONE);
    let (vertices, indices) = mesh_chunk_section(&section);
    assert_eq!(vertices.len(), 24);
    assert_eq!(indices.len(), 36);
    assert_eq!(&indices[0..6], &[0, 1, 2, 0, 2, 3]);
    assert_eq!(&indices[30..36], &[20, 21, 22, 20, 22, 23]);
    assert_eq!(vertices[0], MeshVertex { x: 1, y: 0, z: 0, block: STONE });
    assert_eq!(vertices[2], MeshVertex { x: 1, y: 1, z: 1, block: STONE });
    assert_eq!(vertices[23], MeshVertex { x: 1, y: 0, z: 0, block: STONE });
}

#[test]
fn shared_faces_are_culled() {
    let mut section = ChunkSection::new_empty();
    section.set_block(3, 4, 5, STONE);
    section.set_block(4, 4, 5, DIRT);
    let (vertices, indices) = mesh_chunk_section(&section);
    assert_eq!(vertices.len(), 40);
    assert_eq!(indices.len(), 60);
    assert!(indices.iter().all(|&i| (i as usize) < vertices.len()));
}

#[test]
fn cube_shows_only_its_surface() {
    let mut section = ChunkSection::new_empty();
    for x in 14..16 {
        for y in 0..3 {
            for z in 0..3 {
                section.set_block(x, y, z, STONE);
            }
        }
    }
    let (vertices, _) = mesh_chunk_section(&section);
    // A 2 x 3 x 3 box has 2 * (6 + 6 + 9) = 42 outer faces.
    assert_eq!(vertices.len(), 42 * 4);
}
