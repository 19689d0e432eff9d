use sand_engine::get_chunk_world_cords;
use sand_engine::get_local_chunk_cords;
use sand_engine::get_region_chunk_cords;
use sand_engine::get_region_cords;

fn round_trip(wx: i64, wy: i64) {
    let (rx, ry) = get_region_cords(wx, wy);
    let (cx, cy) = get_region_chunk_cords(wx, wy);
    let (lx, ly) = get_local_chunk_cords(wx, wy);
    assert!(cx < 16 && cy < 16 && lx < 16 && ly < 16);
    assert_eq!((rx << 8) | ((cx as i64) << 4) | (lx as i64), wx);
    assert_eq!((ry << 8) | ((cy as i64) << 4) | (ly as i64), wy);
}

#[test]
fn coordinates_round_trip_samples() {
    let vals = [
        0i64,
        1,
        15,
        16,
        17,
        255,
        256,
        257,
        -1,
        -15,
        -16,
        -17,
        -255,
        -256,
        -257,
        1_000_000_007,
        -987_654_321,
        i64::MAX,
        i64::MIN,
        i64::MAX - 16,
        i64::MIN + 16,
    ];
    for &wx in vals.iter() {
        for &wy in vals.iter() {
            round_trip(wx, wy);
        }
    }
}

#[test]
fn negative_one_maps_to_last_cell() {
    let (rx, ry) = get_region_cords(-1, -1);
    let (cx, cy) = get_region_chunk_cords(-1, -1);
    let (lx, ly) = get_local_chunk_cords(-1, -1);
    assert_eq!((rx, ry), (-1, -1));
    assert_eq!((cx, cy), (15, 15));
    assert_eq!((lx, ly), (15, 15));
}

#[test]
fn region_cords_round_toward_negative_infinity() {
    assert_eq!(get_region_cords(255, -255).0, 0);
    assert_eq!(get_region_cords(256, 0).0, 1);
    assert_eq!(get_region_cords(-1, 0).0, -1);
    assert_eq!(get_region_cords(-256, 0).0, -1);
    assert_eq!(get_region_cords(-257, 0).0, -2);
}

#[test]
fn chunk_world_cords_align_to_sixteen() {
    assert_eq!(get_chunk_world_cords(37, -3), (32, -16));
    assert_eq!(get_chunk_world_cords(0, 0), (0, 0));
    assert_eq!(get_chunk_world_cords(-1, -16), (-16, -16));
    assert_eq!(get_chunk_world_cords(17, 33), (16, 32));
}

#[test]
fn chunk_cords_within_region() {
    assert_eq!(get_region_chunk_cords(0, 255), (0, 15));
    assert_eq!(get_region_chunk_cords(16, 31), (1, 1));
    assert_eq!(get_region_chunk_cords(-16, -1), (15, 15));
}
