use sand_engine::decode_region;
use sand_engine::Block;
use sand_engine::Chunk;
use sand_engine::Generator;
use sand_engine::Region;
use sand_engine::REGION_FILE_LEN;

struct CheckerGen;

impl Generator for CheckerGen {
    fn block_spec(&self, world_x: i64, world_y: i64) -> Block {
        self.gen_block(world_x, world_y)
    }

    fn gen_block(&self, world_x: i64, world_y: i64) -> Block {
        match (world_x + world_y).rem_euclid(3) {
            0 => Block::Stone,
            1 => Block::Water,
            _ => Block::Air,
        }
    }
}

fn slots_match(a: &Region, b: &Region) {
    assert_eq!(a.chunks.len(), 256);
    assert_eq!(b.chunks.len(), 256);
    for i in 0..256 {
        match (&a.chunks[i], &b.chunks[i]) {
            (None, None) => {},
            (Some(ca), Some(cb)) => assert_eq!(ca.blocks, cb.blocks),
            _ => panic!("slot presence differs at {i}"),
        }
    }
}

#[test]
fn save_then_load_reproduces_chunk_contents() {
    let g = CheckerGen;
    let mut region = Region::new_empty(4, -9, 0);
    region.get_chunk(&g, 0, 0, 1);
    region.get_chunk(&g, 15, 3, 2);
    region.get_chunk(&g, 7, 7, 3);
    let bytes = region.to_save_bytes();
    assert_eq!(bytes.len(), REGION_FILE_LEN);
    let loaded = Region::from_saved_bytes(0, 0, Some(&bytes), 777);
    assert_eq!(loaded.region_x, 4);
    assert_eq!(loaded.region_y, -9);
    assert_eq!(loaded.last_used, 777);
    slots_match(&region, &loaded);
    for m in loaded.chunk_meshes.iter() {
        assert!(m.is_none());
    }
}

#[test]
fn untouched_slots_stay_absent_after_round_trip() {
    let g = CheckerGen;
    let mut region = Region::new_empty(0, 0, 0);
    region.get_chunk(&g, 5, 5, 1);
    let bytes = region.to_save_bytes();
    let loaded = Region::from_saved_bytes(0, 0, Some(&bytes), 2);
    let present: Vec<usize> =
        (0..256).filter(|i| loaded.chunks[*i].is_some()).collect();
    assert_eq!(present, vec![5 + 16 * 5]);
}

#[test]
fn missing_file_falls_back_to_empty_region() {
    let region = Region::from_saved_bytes(3, -4, None, 5);
    assert_eq!(region.region_x, 3);
    assert_eq!(region.region_y, -4);
    assert_eq!(region.last_used, 5);
    for c in region.chunks.iter() {
        assert!(c.is_none());
    }
}

#[test]
fn garbage_bytes_fall_back_to_empty_region() {
    let garbage: Vec<u8> = b"not a region file".to_vec();
    let region = Region::from_saved_bytes(1, 2, Some(&garbage), 9);
    assert_eq!((region.region_x, region.region_y), (1, 2));
    for c in region.chunks.iter() {
        assert!(c.is_none());
    }
}

#[test]
fn right_length_garbage_still_falls_back() {
    let garbage = vec![0xffu8; REGION_FILE_LEN];
    assert!(decode_region(&garbage, 0).is_none());
    let region = Region::from_saved_bytes(0, 0, Some(&garbage), 0);
    for c in region.chunks.iter() {
        assert!(c.is_none());
    }
}

#[test]
fn corrupting_one_block_byte_invalidates_the_file() {
    let g = CheckerGen;
    let mut region = Region::new_empty(0, 0, 0);
    region.get_chunk(&g, 0, 0, 1);
    let mut bytes = region.to_save_bytes();
    // First block byte of the first (present) slot.
    bytes[17] = 200;
    assert!(decode_region(&bytes, 0).is_none());
}

#[test]
fn corrupting_an_absent_slot_padding_invalidates_the_file() {
    let region = Region::new_empty(0, 0, 0);
    let mut bytes = region.to_save_bytes();
    bytes[20] = 1;
    assert!(decode_region(&bytes, 0).is_none());
}

#[test]
fn empty_region_round_trips() {
    let region = Region::new_empty(-1234567, 7654321, 0);
    let bytes = region.to_save_bytes();
    let decoded = decode_region(&bytes, 4).expect("a fresh encoding decodes");
    assert_eq!(decoded.region_x, -1234567);
    assert_eq!(decoded.region_y, 7654321);
    assert_eq!(decoded.last_used, 4);
    for c in decoded.chunks.iter() {
        assert!(c.is_none());
    }
}

#[test]
fn decoded_chunks_are_stamped_with_the_load_time() {
    let g = CheckerGen;
    let mut region = Region::new_empty(0, 0, 0);
    region.get_chunk(&g, 1, 2, 111);
    let bytes = region.to_save_bytes();
    let loaded = Region::from_saved_bytes(0, 0, Some(&bytes), 321);
    let c = loaded.chunks[1 + 16 * 2].as_ref().expect("slot present");
    assert_eq!(c.last_used, 321);
}

#[test]
fn truncated_file_is_rejected() {
    let g = CheckerGen;
    let mut region = Region::new_empty(0, 0, 0);
    region.get_chunk(&g, 0, 0, 1);
    let mut bytes = region.to_save_bytes();
    bytes.pop();
    assert!(decode_region(&bytes, 0).is_none());
}
