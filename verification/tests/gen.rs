use sand_engine::terrain_block;
use sand_engine::Block;
use sand_engine::Generator;

struct ParityGen;

impl Generator for ParityGen {
    fn block_spec(&self, world_x: i64, world_y: i64) -> Block {
        self.gen_block(world_x, world_y)
    }

    fn gen_block(&self, world_x: i64, world_y: i64) -> Block {
        if (world_x + world_y).rem_euclid(2) == 0 {
            Block::Stone
        } else {
            Block::Dirt
        }
    }
}

#[test]
fn gen_chunk_fills_every_cell_from_gen_block() {
    let g = ParityGen;
    let c = g.gen_chunk(0, 0, 0, 0, 7);
    assert_eq!(c.last_used, 7);
    assert_eq!(c.blocks.len(), 256);
    for y in 0..16i64 {
        for x in 0..16i64 {
            assert_eq!(c.blocks[(x + 16 * y) as usize], g.gen_block(x, y));
        }
    }
}

#[test]
fn gen_chunk_uses_world_coordinates_of_its_slot() {
    let g = ParityGen;
    let c = g.gen_chunk(-1, 2, 15, 3, 0);
    for y in 0..16i64 {
        for x in 0..16i64 {
            let wx = (-1i64 << 8) | (15i64 << 4) | x;
            let wy = (2i64 << 8) | (3i64 << 4) | y;
            assert_eq!(c.blocks[(x + 16 * y) as usize], g.gen_block(wx, wy));
        }
    }
}

#[test]
fn generation_is_deterministic() {
    let g = ParityGen;
    let c1 = g.gen_chunk(2, -3, 4, 9, 0);
    let c2 = g.gen_chunk(2, -3, 4, 9, 99);
    assert_eq!(c1.blocks, c2.blocks);
    assert_eq!(g.gen_block(123, -456), g.gen_block(123, -456));
}

#[test]
fn terrain_block_buckets_below_surface() {
    // Shallow and low: sand, then sandstone below it.
    assert_eq!(terrain_block(50, 0, 50), Block::Sand);
    assert_eq!(terrain_block(50, 0, 47), Block::Sand);
    assert_eq!(terrain_block(50, 0, 45), Block::SandStone);
    assert_eq!(terrain_block(50, 0, 42), Block::SandStone);
    // High elevation: grass, dirt, then stone by depth.
    assert_eq!(terrain_block(100, 0, 100), Block::GrassBlock);
    assert_eq!(terrain_block(100, 0, 98), Block::GrassBlock);
    assert_eq!(terrain_block(100, 0, 95), Block::Dirt);
    assert_eq!(terrain_block(100, 0, 93), Block::Dirt);
    assert_eq!(terrain_block(100, 0, 92), Block::Stone);
    assert_eq!(terrain_block(100, 0, 0), Block::Stone);
}

#[test]
fn terrain_block_buckets_above_surface() {
    assert_eq!(terrain_block(0, 0, 51), Block::Air);
    assert_eq!(terrain_block(0, 0, 1000), Block::Air);
    assert_eq!(terrain_block(0, 0, 50), Block::WaterEdge);
    assert_eq!(terrain_block(0, 0, 49), Block::Water);
    assert_eq!(terrain_block(0, 0, 1), Block::Water);
}

#[test]
fn terrain_block_jitter_shifts_the_sand_line() {
    // Depth 1 at height 53: sand without jitter, but jitter pushing the
    // compared elevation to 54 turns it into grass.
    assert_eq!(terrain_block(54, 1, 53), Block::Sand);
    assert_eq!(terrain_block(54, -1, 53), Block::GrassBlock);
}

#[test]
fn terrain_block_total_at_extremes() {
    assert_eq!(terrain_block(i64::MAX, 0, i64::MIN), Block::Stone);
    assert_eq!(terrain_block(i64::MIN, 0, i64::MAX), Block::Air);
    assert_eq!(terrain_block(i64::MAX, i64::MIN, i64::MAX), Block::GrassBlock);
}
