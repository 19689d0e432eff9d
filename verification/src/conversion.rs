//! Pure integer arithmetic mapping a signed 64-bit world coordinate to its
//! enclosing region, chunk-in-region and local-block coordinates, and back.
//!
//! A region spans 256 world units per axis (16 chunks of 16 blocks); the
//! conversions are arithmetic shifts and masks, so negative coordinates
//! round toward negative infinity.

use vstd::prelude::*;

verus! {

/// Region coordinate of the world coordinate `w` (one axis).
pub open spec fn region_coord(w: i64) -> i64 {
    w >> 8
}

/// Chunk coordinate within its region of the world coordinate `w` (one axis).
pub open spec fn chunk_coord(w: i64) -> u8 {
    ((w >> 4) & 0xf) as u8
}

/// Local block coordinate within its chunk of the world coordinate `w` (one axis).
pub open spec fn local_coord(w: i64) -> u8 {
    (w & 0xf) as u8
}

/// World coordinate of the origin cell of the chunk containing `w` (one axis).
pub open spec fn chunk_origin_coord(w: i64) -> i64 {
    w & !0xf
}

/// World coordinate (one axis) of the cell at local coordinate `local` of
/// chunk `chunk` of region `region`.
pub open spec fn cell_world_coord(region: i64, chunk: u8, local: u8) -> i64 {
    (region << 8) | ((chunk as i64) << 4) | (local as i64)
}

/// Region coordinate of the world position.
pub fn get_region_cords(world_x: i64, world_y: i64) -> (r: (i64, i64))
    ensures
        r.0 == region_coord(world_x),
        r.1 == region_coord(world_y),
{
    (world_x >> 8, world_y >> 8)
}

/// Chunk coordinate, within its region, of the world position; both in [0, 16).
pub fn get_region_chunk_cords(world_x: i64, world_y: i64) -> (r: (u8, u8))
    ensures
        r.0 == chunk_coord(world_x),
        r.1 == chunk_coord(world_y),
        r.0 < 16,
        r.1 < 16,
{
    proof {
        assert(0 <= (world_x >> 4) & 0xf < 16 && 0 <= (world_y >> 4) & 0xf < 16) by (bit_vector);
    }
    (((world_x >> 4) & 0xf) as u8, ((world_y >> 4) & 0xf) as u8)
}

/// World coordinate of the (0, 0) cell of the chunk containing the position.
pub fn get_chunk_world_cords(world_x: i64, world_y: i64) -> (r: (i64, i64))
    ensures
        r.0 == chunk_origin_coord(world_x),
        r.1 == chunk_origin_coord(world_y),
{
    (world_x & !0xf, world_y & !0xf)
}

/// Local block coordinate, within its chunk, of the world position; both in [0, 16).
pub fn get_local_chunk_cords(world_x: i64, world_y: i64) -> (r: (u8, u8))
    ensures
        r.0 == local_coord(world_x),
        r.1 == local_coord(world_y),
        r.0 < 16,
        r.1 < 16,
{
    proof {
        assert(0 <= world_x & 0xf < 16 && 0 <= world_y & 0xf < 16) by (bit_vector);
    }
    ((world_x & 0xf) as u8, (world_y & 0xf) as u8)
}

/// Recombining the region, chunk and local coordinates of any signed 64-bit
/// world coordinate as `(region << 8) | (chunk << 4) | local` reproduces the
/// original coordinate, negative inputs included.
pub proof fn lemma_coordinate_round_trip(w: i64)
    ensures
        cell_world_coord(region_coord(w), chunk_coord(w), local_coord(w)) == w,
{
    assert((w >> 8) << 8 | ((((w >> 4) & 0xf) as u8) as i64) << 4 | (((w & 0xf) as u8) as i64)
        == w) by (bit_vector);
}

} // verus!
