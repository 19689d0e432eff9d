use sand_engine::Block;
use sand_engine::Generator;
use sand_engine::Region;
use sand_engine::WorldManager;
use sand_engine::EVICTION_THRESHOLD_MS;

struct StripeGen;

struct AirGen;

impl Generator for AirGen {
    fn block_spec(&self, world_x: i64, world_y: i64) -> Block {
        self.gen_block(world_x, world_y)
    }

    fn gen_block(&self, _x: i64, _y: i64) -> Block {
        Block::Air
    }
}

impl Generator for StripeGen {
    fn block_spec(&self, world_x: i64, world_y: i64) -> Block {
        self.gen_block(world_x, world_y)
    }

    fn gen_block(&self, _world_x: i64, world_y: i64) -> Block {
        if world_y >= 0 {
            Block::Air
        } else {
            Block::Dirt
        }
    }
}

#[test]
fn get_block_loads_a_region_and_generates() {
    let mut m = WorldManager::new(StripeGen);
    assert_eq!(m.get_region_count(), 0);
    assert_eq!(m.get_block(0, -1, 1), Block::Dirt);
    assert_eq!(m.get_region_count(), 1);
    assert_eq!(m.get_block(0, 1, 2), Block::Air);
    assert_eq!(m.get_region_count(), 2);
    assert_eq!(m.get_block(100, -50, 3), Block::Dirt);
    assert_eq!(m.get_region_count(), 2);
}

#[test]
fn regions_evict_strictly_after_the_threshold() {
    let touch = 1000i64;
    let mut m = WorldManager::new(StripeGen);
    m.get_block(0, 0, touch);
    assert_eq!(m.get_region_count(), 1);
    m.clean(touch + EVICTION_THRESHOLD_MS - 1);
    assert_eq!(m.get_region_count(), 1);
    m.clean(touch + EVICTION_THRESHOLD_MS);
    assert_eq!(m.get_region_count(), 1);
    m.clean(touch + EVICTION_THRESHOLD_MS + 1);
    assert_eq!(m.get_region_count(), 0);
}

#[test]
fn clean_evicts_only_idle_regions() {
    let mut m = WorldManager::new(StripeGen);
    m.get_block(0, 0, 1000);
    m.get_block(1000, 1000, 2500);
    assert_eq!(m.get_region_count(), 2);
    m.clean(3500);
    assert_eq!(m.get_region_count(), 1);
    // The fresh region survives and still answers without reloading.
    assert_eq!(m.get_block(1000, 1000, 3600), Block::Air);
    assert_eq!(m.get_region_count(), 1);
}

#[test]
fn touching_a_region_defers_its_eviction() {
    let mut m = WorldManager::new(StripeGen);
    m.get_block(0, 0, 1000);
    m.get_block(3, 4, 2000);
    m.clean(3500);
    assert_eq!(m.get_region_count(), 1);
}

#[test]
fn get_chunk_mesh_is_cached_per_chunk() {
    let mut m = WorldManager::new(StripeGen);
    let first = m.get_chunk_mesh(0, -1, 2, 3, 1).mesh.clone();
    let second = m.get_chunk_mesh(0, -1, 2, 3, 2).mesh.clone();
    assert_eq!(first, second);
    assert!(!first.is_empty());
    assert_eq!(m.get_region_count(), 1);
}

#[test]
fn mesh_of_an_air_chunk_is_empty() {
    let mut m = WorldManager::new(StripeGen);
    let mesh = m.get_chunk_mesh(0, 1, 0, 0, 1);
    assert!(mesh.mesh.is_empty());
}

#[test]
fn inserted_regions_take_priority_over_generation() {
    // Persist a region full of dirt rows, then hand it to a manager whose
    // generator would answer air for those coordinates.
    let mut source = WorldManager::new(StripeGen);
    source.get_block(5, -256, 1);
    let (rx, ry) = sand_engine::get_region_cords(5, -256);
    assert_eq!((rx, ry), (0, -1));
    let bytes = region_of(&source, rx, ry).to_save_bytes();
    let mut m = WorldManager::new(AirGen);
    assert!(!m.contains_region(rx, ry));
    m.insert_region(Region::from_saved_bytes(rx, ry, Some(&bytes), 10));
    assert!(m.contains_region(rx, ry));
    assert_eq!(m.get_block(5, -256, 11), Block::Dirt);
    // A coordinate whose chunk was never persisted is generated afresh.
    assert_eq!(m.get_block(5 + 16, -256, 12), Block::Air);
}

fn region_of<'a, G: Generator>(m: &'a WorldManager<G>, rx: i64, ry: i64) -> &'a Region {
    m.regions
        .iter()
        .find(|r| r.region_x == rx && r.region_y == ry)
        .expect("region loaded")
}

#[test]
fn insert_region_keeps_the_loaded_one() {
    let mut m = WorldManager::new(StripeGen);
    m.get_block(0, -1, 1);
    assert_eq!(m.get_region_count(), 1);
    m.insert_region(Region::new_empty(0, -1, 2));
    assert_eq!(m.get_region_count(), 1);
    m.insert_region(Region::new_empty(9, 9, 2));
    assert_eq!(m.get_region_count(), 2);
}
