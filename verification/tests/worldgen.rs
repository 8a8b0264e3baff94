use kombox::world::chunk::{ChunkSection, AIR, CHUNK_SIZE, DIRT, GRASS, PLANK, STONE};
use kombox::world::worldgen::{generate_chunk, hash2d_bits, next_seed};

fn hash2d(x: i32, z: i32, seed: u32) -> f32 {
    hash2d_bits(x, z, seed) as f32 / 0x0100_0000 as f32
}

fn smoothstep(t: f32) -> f32 {
    t * t * (3.0 - 2.0 * t)
}

fn value_noise_2d(x: f32, z: f32, seed: u32) -> f32 {
    let x0 = x.floor() as i32;
    let z0 = z.floor() as i32;
    let tx = smoothstep(x - x0 as f32);
    let tz = smoothstep(z - z0 as f32);
    let v00 = hash2d(x0, z0, seed);
    let v10 = hash2d(x0 + 1, z0, seed);
    let v01 = hash2d(x0, z0 + 1, seed);
    let v11 = hash2d(x0 + 1, z0 + 1, seed);
    let a = v00 + (v10 - v00) * tx;
    let b = v01 + (v11 - v01) * tx;
    a + (b - a) * tz
}

fn column_height(world_x: i32, world_z: i32, seed: u32) -> i32 {
    let base = value_noise_2d(world_x as f32 * 0.08, world_z as f32 * 0.08, seed);
    let detail = value_noise_2d(world_x as f32 * 0.25, world_z as f32 * 0.25, seed.wrapping_add(101));
    let h = base * 7.0 + detail * 2.0 + 4.0;
    h.clamp(2.0, (CHUNK_SIZE - 6) as f32) as i32
}

fn heights(chunk_x: i32, chunk_z: i32, seed: u32) -> Vec<i32> {
    let mut t = Vec::new();
    for lx in 0..CHUNK_SIZE as i32 {
        for lz in 0..CHUNK_SIZE as i32 {
            t.push(column_height(chunk_x * 16 + lx, chunk_z * 16 + lz, seed));
        }
    }
    t
}

fn generate(chunk_x: i32, chunk_z: i32, seed: u32) -> ChunkSection {
    generate_chunk(chunk_x, chunk_z, seed, &heights(chunk_x, chunk_z, seed))
}

fn tree_at(world_x: i32, world_z: i32, seed: u32) -> bool {
    hash2d(world_x, world_z, seed.wrapping_add(777)) > 0.93
}

#[test]
fn deterministic_same_seed_same_result() {
    let a = generate(0, 0, 42);
    let b = generate(0, 0, 42);
    for y in 0..CHUNK_SIZE {
        for z in 0..CHUNK_SIZE {
            for x in 0..CHUNK_SIZE {
                assert_eq!(a.get_block(x, y, z), b.get_block(x, y, z));
            }
        }
    }
}

#[test]
fn different_seed_can_differ() {
    let a = generate(0, 0, 1);
    let b = generate(0, 0, 2);
    let _ = (a.palette_len(), b.palette_len());
}

#[test]
fn hash_is_24_bits_and_deterministic() {
    for x in -50..50 {
        for z in -3..3 {
            let h = hash2d_bits(x, z, 1337);
            assert!(h < 0x0100_0000);
            assert_eq!(h, hash2d_bits(x, z, 1337));
        }
    }
    assert_ne!(hash2d_bits(0, 0, 1), hash2d_bits(0, 0, 2));
}

#[test]
fn tree_threshold_matches_single_precision() {
    let t = 0.93f32;
    assert!((15602811u32 as f32 / 0x0100_0000 as f32) <= t);
    assert!((15602812u32 as f32 / 0x0100_0000 as f32) > t);
}

#[test]
fn columns_without_trees_are_layered() {
    let seed = 1337;
    for cx in 0..2 {
        let table = heights(cx, 1, seed);
        let section = generate_chunk(cx, 1, seed, &table);
        for lx in 0..16i32 {
            for lz in 0..16i32 {
                let mut near = false;
                for a in (lx - 1).max(0)..=(lx + 1).min(15) {
                    for b in (lz - 1).max(0)..=(lz + 1).min(15) {
                        near |= tree_at(cx * 16 + a, 16 + b, seed);
                    }
                }
                if near {
                    continue;
                }
                let h = table[(lx * 16 + lz) as usize];
                for y in 0..16i32 {
                    let expected = if y > h {
                        AIR
                    } else if y == h {
                        GRASS
                    } else if y >= h - 3 {
                        DIRT
                    } else {
                        STONE
                    };
                    assert_eq!(section.get_block(lx as usize, y as usize, lz as usize), expected);
                }
            }
        }
    }
}

#[test]
fn flat_heights_give_flat_terrain() {
    let table = vec![5i32; 256];
    let section = generate_chunk(3, -2, 7, &table);
    let mut trunks = 0;
    for x in 0..16 {
        for z in 0..16 {
            assert_eq!(section.get_block(x, 0, z), STONE);
            assert_eq!(section.get_block(x, 1, z), STONE);
            assert_eq!(section.get_block(x, 2, z), DIRT);
            assert_eq!(section.get_block(x, 4, z), DIRT);
            assert_eq!(section.get_block(x, 5, z), GRASS);
            if section.get_block(x, 6, z) == PLANK {
                trunks += 1;
            }
        }
    }
    let expected_trunks = (0..16)
        .flat_map(|x| (0..16).map(move |z| (x, z)))
        .filter(|&(x, z)| tree_at(3 * 16 + x, -2 * 16 + z, 7))
        .count();
    assert_eq!(trunks, expected_trunks);
}

#[test]
fn lowest_and_highest_heights() {
    let low = generate_chunk(0, 0, 9, &vec![-1i32; 256]);
    let high = generate_chunk(0, 0, 9, &vec![15i32; 256]);
    for x in 0..16 {
        for z in 0..16 {
            assert_eq!(high.get_block(x, 15, z), GRASS);
            assert_eq!(high.get_block(x, 12, z), DIRT);
            assert_eq!(high.get_block(x, 11, z), STONE);
            let b = low.get_block(x, 0, z);
            assert!(b == AIR || b == PLANK);
        }
    }
}

#[test]
fn next_seed_steps_by_1013() {
    assert_eq!(next_seed(1337), 2350);
    assert_eq!(next_seed(u32::MAX), 1012);
}
