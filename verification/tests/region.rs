use std::cell::Cell;

use sand_engine::Block;
use sand_engine::Chunk;
use sand_engine::ChunkMesh;
use sand_engine::Generator;
use sand_engine::Region;

struct CountingGen {
    chunk_calls: Cell<u32>,
}

impl CountingGen {
    fn new() -> CountingGen {
        CountingGen { chunk_calls: Cell::new(0) }
    }
}

impl Generator for CountingGen {
    fn block_spec(&self, world_x: i64, world_y: i64) -> Block {
        self.gen_block(world_x, world_y)
    }

    fn gen_block(&self, world_x: i64, _world_y: i64) -> Block {
        if world_x.rem_euclid(2) == 0 {
            Block::Stone
        } else {
            Block::Sand
        }
    }

    fn gen_chunk(&self, region_x: i64, region_y: i64, chunk_x: u8, chunk_y: u8, now: i64) -> Chunk {
        self.chunk_calls.set(self.chunk_calls.get() + 1);
        let mut blocks = Vec::new();
        for y in 0..16i64 {
            for x in 0..16i64 {
                let wx = (region_x << 8) | ((chunk_x as i64) << 4) | x;
                let wy = (region_y << 8) | ((chunk_y as i64) << 4) | y;
                blocks.push(self.gen_block(wx, wy));
            }
        }
        Chunk::new(blocks, now)
    }
}

#[test]
fn chunks_materialize_exactly_once() {
    let g = CountingGen::new();
    let mut region = Region::new_empty(0, 0, 0);
    region.get_chunk(&g, 3, 4, 1);
    region.get_chunk(&g, 3, 4, 2);
    region.get_block(&g, 3, 4, 0, 0, 3);
    region.get_chunk_mesh(&g, 3, 4, 4);
    assert_eq!(g.chunk_calls.get(), 1);
    region.get_chunk(&g, 5, 5, 5);
    assert_eq!(g.chunk_calls.get(), 2);
    region.get_block(&g, 0, 0, 15, 15, 6);
    assert_eq!(g.chunk_calls.get(), 3);
    region.get_chunk_mesh(&g, 0, 0, 7);
    region.get_block(&g, 5, 5, 8, 8, 8);
    assert_eq!(g.chunk_calls.get(), 3);
}

#[test]
fn get_block_reads_the_generated_grid() {
    let g = CountingGen::new();
    let mut region = Region::new_empty(0, 0, 0);
    for x in 0..16u8 {
        let b = region.get_block(&g, 0, 0, x, 5, 1);
        let expected = if x % 2 == 0 { Block::Stone } else { Block::Sand };
        assert_eq!(b, expected);
    }
    assert_eq!(g.chunk_calls.get(), 1);
}

#[test]
fn access_touches_timestamps() {
    let g = CountingGen::new();
    let mut region = Region::new_empty(7, -7, 0);
    region.get_chunk(&g, 1, 1, 42);
    assert_eq!(region.last_used, 42);
    let c = region.get_chunk(&g, 1, 1, 99);
    assert_eq!(c.last_used, 99);
    assert_eq!(region.last_used, 99);
}

#[test]
fn cached_mesh_matches_fresh_greedy_mesh() {
    let g = CountingGen::new();
    let mut region = Region::new_empty(0, 0, 0);
    let expected = {
        let chunk = region.get_chunk(&g, 2, 2, 1).clone();
        ChunkMesh::greedy_mesh(&chunk).mesh
    };
    let first = region.get_chunk_mesh(&g, 2, 2, 2).mesh.clone();
    let second = region.get_chunk_mesh(&g, 2, 2, 3).mesh.clone();
    assert_eq!(first, expected);
    assert_eq!(second, expected);
}

#[test]
fn generated_chunk_uses_region_world_coordinates() {
    let g = CountingGen::new();
    let mut region = Region::new_empty(-1, 0, 0);
    // World x of local (0, 0) in chunk (15, 0) of region -1 is -16: even.
    let b = region.get_block(&g, 15, 0, 0, 0, 1);
    assert_eq!(b, Block::Stone);
    let b = region.get_block(&g, 15, 0, 1, 0, 1);
    assert_eq!(b, Block::Sand);
}
