//! World generation: a capability trait for block generators, the verified
//! chunk-filling loop shared by all of them, and the depth/elevation
//! bucketing that turns terrain-height samples into blocks.

use vstd::prelude::*;

use crate::blocks::Block;
use crate::chunks::Chunk;
use crate::conversion::cell_world_coord;

verus! {

/// Every block of `c` is the generator's block for the corresponding world
/// coordinate of chunk `(chunk_x, chunk_y)` of region `(region_x, region_y)`.
pub open spec fn chunk_matches_generator<G: Generator>(
    c: Chunk,
    g: G,
    region_x: i64,
    region_y: i64,
    chunk_x: u8,
    chunk_y: u8,
) -> bool {
    forall|lx: u8, ly: u8|
        lx < 16 && ly < 16 ==> c.blocks@[lx + 16 * ly] == #[trigger] g.block_spec(
            cell_world_coord(region_x, chunk_x, lx),
            cell_world_coord(region_y, chunk_y, ly),
        )
}

/// A deterministic block generator: a pure function from world coordinate to
/// block. `block_spec` is that function; `gen_block` must compute it, so two
/// calls with identical arguments always return the identical block.
pub trait Generator: Sized {
    /// The block this generator assigns to the world coordinate.
    spec fn block_spec(&self, world_x: i64, world_y: i64) -> Block;

    /// Computes the block at a world coordinate.
    fn gen_block(&self, world_x: i64, world_y: i64) -> (b: Block)
        ensures
            b == self.block_spec(world_x, world_y),
    ;

    /// Generates the full 16x16 grid of chunk `(chunk_x, chunk_y)` of region
    /// `(region_x, region_y)`, one `gen_block` call per cell, and stamps the
    /// chunk with the given time.
    fn gen_chunk(&self, region_x: i64, region_y: i64, chunk_x: u8, chunk_y: u8, now: i64) -> (c:
        Chunk)
        requires
            chunk_x < 16,
            chunk_y < 16,
        ensures
            c.wf(),
            c.last_used == now,
            forall|lx: u8, ly: u8|
                lx < 16 && ly < 16 ==> c.blocks@[lx + 16 * ly] == #[trigger] self.block_spec(
                    cell_world_coord(region_x, chunk_x, lx),
                    cell_world_coord(region_y, chunk_y, ly),
                ),
    {
        let base_x: i64 = (region_x << 8) | ((chunk_x as i64) << 4);
        let base_y: i64 = (region_y << 8) | ((chunk_y as i64) << 4);
        let mut blocks: Vec<Block> = Vec::new();
        for ly in 0..16u8
            invariant
                blocks.len() == 16 * ly,
                base_x == (region_x << 8) | ((chunk_x as i64) << 4),
                base_y == (region_y << 8) | ((chunk_y as i64) << 4),
                forall|jx: u8, jy: u8|
                    jx < 16 && jy < ly ==> blocks@[jx + 16 * jy] == #[trigger] self.block_spec(
                        cell_world_coord(region_x, chunk_x, jx),
                        cell_world_coord(region_y, chunk_y, jy),
                    ),
        {
            for lx in 0..16u8
                invariant
                    blocks.len() == 16 * ly + lx,
                    ly < 16,
                    base_x == (region_x << 8) | ((chunk_x as i64) << 4),
                    base_y == (region_y << 8) | ((chunk_y as i64) << 4),
                    forall|jx: u8, jy: u8|
                        jx < 16 && (jy < ly || (jy == ly && jx < lx)) ==> blocks@[jx + 16 * jy]
                            == #[trigger] self.block_spec(
                            cell_world_coord(region_x, chunk_x, jx),
                            cell_world_coord(region_y, chunk_y, jy),
                        ),
            {
                let b = self.gen_block(base_x | (lx as i64), base_y | (ly as i64));
                blocks.push(b);
            }
        }
        Chunk::new(blocks, now)
    }
}

/// Placeholder for a generator producing a featureless flat world.
pub struct FlatWorldGenerator {}

/// The block for a column whose terrain height is `height`, given the
/// column's jitter sample, at world height `world_y`: at or below the
/// terrain line, bucket by depth and jittered elevation into sand,
/// sandstone, grass, dirt or stone; above it, air above sea level, a
/// one-row water edge at the waterline, water below.
pub open spec fn terrain_block_spec(height: int, jitter: int, world_y: int) -> Block {
    if height >= world_y {
        let depth = height - world_y;
        let jittered_y = world_y - jitter;
        if depth < 4 && jittered_y < 54 {
            Block::Sand
        } else if depth < 9 && jittered_y < 54 {
            Block::SandStone
        } else if depth < 3 {
            Block::GrassBlock
        } else if depth < 8 {
            Block::Dirt
        } else {
            Block::Stone
        }
    } else {
        if world_y >= 51 {
            Block::Air
        } else if world_y == 50 {
            Block::WaterEdge
        } else {
            Block::Water
        }
    }
}

/// Buckets a terrain-height sample, a jitter sample and a world height into
/// a block. Total: every input yields a block.
pub fn terrain_block(height: i64, jitter: i64, world_y: i64) -> (b: Block)
    ensures
        b == terrain_block_spec(height as int, jitter as int, world_y as int),
{
    let h = height as i128;
    let j = jitter as i128;
    let y = world_y as i128;
    if h >= y {
        let depth = h - y;
        let jittered_y = y - j;
        if depth < 4 && jittered_y < 54 {
            Block::Sand
        } else if depth < 9 && jittered_y < 54 {
            Block::SandStone
        } else if depth < 3 {
            Block::GrassBlock
        } else if depth < 8 {
            Block::Dirt
        } else {
            Block::Stone
        }
    } else {
        if y >= 51 {
            Block::Air
        } else if y == 50 {
            Block::WaterEdge
        } else {
            Block::Water
        }
    }
}

/// Generation is deterministic: two chunks that both hold the generator's
/// blocks for the same (region, chunk) coordinate hold identical block grids.
pub proof fn lemma_generation_deterministic<G: Generator>(
    g: G,
    c1: Chunk,
    c2: Chunk,
    region_x: i64,
    region_y: i64,
    chunk_x: u8,
    chunk_y: u8,
)
    requires
        c1.wf(),
        c2.wf(),
        chunk_matches_generator(c1, g, region_x, region_y, chunk_x, chunk_y),
        chunk_matches_generator(c2, g, region_x, region_y, chunk_x, chunk_y),
    ensures
        c1.blocks@ =~= c2.blocks@,
{
    assert forall|i: int| 0 <= i < 256 implies c1.blocks@[i] == c2.blocks@[i] by {
        let lx = (i % 16) as u8;
        let ly = (i / 16) as u8;
        assert(lx + 16 * ly == i);
        assert(c1.blocks@[lx + 16 * ly] == g.block_spec(
            cell_world_coord(region_x, chunk_x, lx),
            cell_world_coord(region_y, chunk_y, ly),
        ));
        assert(c2.blocks@[lx + 16 * ly] == g.block_spec(
            cell_world_coord(region_x, chunk_x, lx),
            cell_world_coord(region_y, chunk_y, ly),
        ));
    }
}

} // verus!
