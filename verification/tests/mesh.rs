use sand_engine::Block;
use sand_engine::Chunk;
use sand_engine::ChunkMesh;
use sand_engine::MeshType;
use sand_engine::Rect;

fn rect(x: u8, y: u8, w: u8, h: u8) -> Rect {
    Rect { x, y, w, h }
}

fn covers(r: &Rect, x: u8, y: u8) -> bool {
    r.x <= x && x < r.x + r.w && r.y <= y && y < r.y + r.h
}

fn check_partition(mesh: &ChunkMesh, blocks: &[Block]) {
    let mut area: u32 = 0;
    for (block, r) in mesh.mesh.iter() {
        assert!(*block != Block::Air);
        assert!(r.w >= 1 && r.h >= 1 && r.x + r.w <= 16 && r.y + r.h <= 16);
        area += (r.w as u32) * (r.h as u32);
        for y in r.y..r.y + r.h {
            for x in r.x..r.x + r.w {
                assert_eq!(blocks[(x as usize) + 16 * (y as usize)], *block);
            }
        }
    }
    for (i, (_, a)) in mesh.mesh.iter().enumerate() {
        for (_, b) in mesh.mesh.iter().skip(i + 1) {
            for y in 0..16u8 {
                for x in 0..16u8 {
                    assert!(!(covers(a, x, y) && covers(b, x, y)));
                }
            }
        }
    }
    let non_air = blocks.iter().filter(|b| **b != Block::Air).count() as u32;
    assert_eq!(area, non_air);
}

#[test]
fn stone_with_dirt_patch_meshes_exactly() {
    let mut blocks = vec![Block::Stone; 256];
    for y in 4..6usize {
        for x in 2..5usize {
            blocks[x + 16 * y] = Block::Dirt;
        }
    }
    let chunk = Chunk::new(blocks.clone(), 0);
    let mesh = ChunkMesh::greedy_mesh(&chunk);
    assert!(matches!(mesh.mesh_type, MeshType::GREEDY));
    assert_eq!(
        mesh.mesh,
        vec![
            (Block::Stone, rect(0, 0, 2, 16)),
            (Block::Stone, rect(2, 0, 14, 4)),
            (Block::Dirt, rect(2, 4, 3, 2)),
            (Block::Stone, rect(2, 6, 14, 10)),
            (Block::Stone, rect(5, 4, 11, 2)),
        ]
    );
    let dirt: Vec<_> = mesh.mesh.iter().filter(|(b, _)| *b == Block::Dirt).collect();
    assert_eq!(dirt.len(), 1);
    assert_eq!(*dirt[0], (Block::Dirt, rect(2, 4, 3, 2)));
    let total: u32 = mesh.mesh.iter().map(|(_, r)| (r.w as u32) * (r.h as u32)).sum();
    assert_eq!(total, 256);
    check_partition(&mesh, &blocks);
}

#[test]
fn uniform_chunk_meshes_to_one_rectangle() {
    let blocks = vec![Block::Sand; 256];
    let mesh = ChunkMesh::greedy_mesh(&Chunk::new(blocks, 0));
    assert_eq!(mesh.mesh, vec![(Block::Sand, rect(0, 0, 16, 16))]);
}

#[test]
fn air_chunk_meshes_to_nothing() {
    let blocks = vec![Block::Air; 256];
    let mesh = ChunkMesh::greedy_mesh(&Chunk::new(blocks, 0));
    assert!(mesh.mesh.is_empty());
}

#[test]
fn striped_chunk_partitions_non_air_cells() {
    let mut blocks = vec![Block::Air; 256];
    for y in 0..16usize {
        for x in 0..16usize {
            blocks[x + 16 * y] = match (x + 2 * y) % 4 {
                0 => Block::Water,
                1 => Block::Stone,
                2 => Block::Air,
                _ => Block::Dirt,
            };
        }
    }
    let chunk = Chunk::new(blocks.clone(), 0);
    let mesh = ChunkMesh::greedy_mesh(&chunk);
    check_partition(&mesh, &blocks);
}

#[test]
fn water_edge_stays_one_rectangle_in_the_core_mesh() {
    let mut blocks = vec![Block::Air; 256];
    for x in 0..16usize {
        blocks[x + 16 * 5] = Block::WaterEdge;
    }
    let mesh = ChunkMesh::greedy_mesh(&Chunk::new(blocks, 0));
    assert_eq!(mesh.mesh, vec![(Block::WaterEdge, rect(0, 5, 16, 1))]);
}

#[test]
fn culled_mesh_emits_one_unit_rect_per_cell() {
    let mut blocks = vec![Block::Air; 256];
    blocks[3 + 16 * 2] = Block::Dirt;
    let mesh = ChunkMesh::culled_mesh(&Chunk::new(blocks.clone(), 0));
    assert!(matches!(mesh.mesh_type, MeshType::CULLED));
    assert_eq!(mesh.mesh.len(), 256);
    for (i, (b, r)) in mesh.mesh.iter().enumerate() {
        assert_eq!(*b, blocks[i]);
        assert_eq!(*r, rect((i % 16) as u8, (i / 16) as u8, 1, 1));
    }
}

#[test]
fn empty_mesh_has_no_rectangles() {
    let mesh = ChunkMesh::empty();
    assert!(matches!(mesh.mesh_type, MeshType::CULLED));
    assert!(mesh.mesh.is_empty());
}
