//! Binary persistence of regions: a fixed-size byte format holding the
//! region coordinate and the 256 chunk slots (absent, or 256 blocks each),
//! with a verified encoder and a strict decoder. Timestamps and cached
//! meshes are never persisted; the decoder stamps everything with the
//! caller's clock. A byte string decodes successfully exactly when it is
//! the encoding of some well-formed region.

use vstd::prelude::*;

use crate::blocks::Block;
use crate::chunks::Chunk;
use crate::world::Region;

verus! {

/// Encoded size of a region: a 16-byte coordinate header plus 256 slots of
/// one tag byte and 256 block bytes each.
pub const REGION_FILE_LEN: usize = 65808;

/// Byte code of a block.
pub open spec fn block_code(b: Block) -> u8 {
    match b {
        Block::Air => 0,
        Block::GrassBlock => 1,
        Block::Dirt => 2,
        Block::Stone => 3,
        Block::Water => 4,
        Block::WaterEdge => 5,
        Block::Sand => 6,
        Block::SandStone => 7,
        Block::OakWood => 8,
        Block::OakLeave => 9,
        Block::Fire => 10,
    }
}

/// The block a byte code stands for, if any.
pub open spec fn block_of_code(v: u8) -> Option<Block> {
    if v == 0 {
        Some(Block::Air)
    } else if v == 1 {
        Some(Block::GrassBlock)
    } else if v == 2 {
        Some(Block::Dirt)
    } else if v == 3 {
        Some(Block::Stone)
    } else if v == 4 {
        Some(Block::Water)
    } else if v == 5 {
        Some(Block::WaterEdge)
    } else if v == 6 {
        Some(Block::Sand)
    } else if v == 7 {
        Some(Block::SandStone)
    } else if v == 8 {
        Some(Block::OakWood)
    } else if v == 9 {
        Some(Block::OakLeave)
    } else if v == 10 {
        Some(Block::Fire)
    } else {
        None
    }
}

/// Byte code of a block.
fn block_to_byte(b: Block) -> (v: u8)
    ensures
        v == block_code(b),
{
    match b {
        Block::Air => 0,
        Block::GrassBlock => 1,
        Block::Dirt => 2,
        Block::Stone => 3,
        Block::Water => 4,
        Block::WaterEdge => 5,
        Block::Sand => 6,
        Block::SandStone => 7,
        Block::OakWood => 8,
        Block::OakLeave => 9,
        Block::Fire => 10,
    }
}

/// The block a byte code stands for, if any.
fn block_from_byte(v: u8) -> (r: Option<Block>)
    ensures
        r == block_of_code(v),
{
    if v == 0 {
        Some(Block::Air)
    } else if v == 1 {
        Some(Block::GrassBlock)
    } else if v == 2 {
        Some(Block::Dirt)
    } else if v == 3 {
        Some(Block::Stone)
    } else if v == 4 {
        Some(Block::Water)
    } else if v == 5 {
        Some(Block::WaterEdge)
    } else if v == 6 {
        Some(Block::Sand)
    } else if v == 7 {
        Some(Block::SandStone)
    } else if v == 8 {
        Some(Block::OakWood)
    } else if v == 9 {
        Some(Block::OakLeave)
    } else if v == 10 {
        Some(Block::Fire)
    } else {
        None
    }
}

/// The eight little-endian bytes of a 64-bit value.
pub open spec fn u64_le_bytes(v: u64) -> Seq<u8> {
    seq![
        v as u8,
        (v >> 8) as u8,
        (v >> 16) as u8,
        (v >> 24) as u8,
        (v >> 32) as u8,
        (v >> 40) as u8,
        (v >> 48) as u8,
        (v >> 56) as u8,
    ]
}

/// The 64-bit value read from eight little-endian bytes.
pub open spec fn u64_from_bytes(
    b0: u8,
    b1: u8,
    b2: u8,
    b3: u8,
    b4: u8,
    b5: u8,
    b6: u8,
    b7: u8,
) -> u64 {
    (b0 as u64) | ((b1 as u64) << 8) | ((b2 as u64) << 16) | ((b3 as u64) << 24) | ((b4 as u64)
        << 32) | ((b5 as u64) << 40) | ((b6 as u64) << 48) | ((b7 as u64) << 56)
}

/// Reading back the little-endian bytes of a value yields the value.
proof fn lemma_u64_bytes_round_trip(v: u64)
    by (bit_vector)
    ensures
        u64_from_bytes(
            v as u8,
            (v >> 8) as u8,
            (v >> 16) as u8,
            (v >> 24) as u8,
            (v >> 32) as u8,
            (v >> 40) as u8,
            (v >> 48) as u8,
            (v >> 56) as u8,
        ) == v,
{
}

/// The little-endian bytes of a value read from eight bytes are those bytes.
proof fn lemma_u64_bytes_extract(b0: u8, b1: u8, b2: u8, b3: u8, b4: u8, b5: u8, b6: u8, b7: u8)
    by (bit_vector)
    ensures
        u64_from_bytes(b0, b1, b2, b3, b4, b5, b6, b7) as u8 == b0,
        (u64_from_bytes(b0, b1, b2, b3, b4, b5, b6, b7) >> 8) as u8 == b1,
        (u64_from_bytes(b0, b1, b2, b3, b4, b5, b6, b7) >> 16) as u8 == b2,
        (u64_from_bytes(b0, b1, b2, b3, b4, b5, b6, b7) >> 24) as u8 == b3,
        (u64_from_bytes(b0, b1, b2, b3, b4, b5, b6, b7) >> 32) as u8 == b4,
        (u64_from_bytes(b0, b1, b2, b3, b4, b5, b6, b7) >> 40) as u8 == b5,
        (u64_from_bytes(b0, b1, b2, b3, b4, b5, b6, b7) >> 48) as u8 == b6,
        (u64_from_bytes(b0, b1, b2, b3, b4, b5, b6, b7) >> 56) as u8 == b7,
{
}

/// Casting an i64 through u64 and back is the identity, and so is the
/// reverse.
proof fn lemma_i64_u64_round_trip(x: i64, v: u64)
    by (bit_vector)
    ensures
        ((x as u64) as i64) == x,
        ((v as i64) as u64) == v,
{
}

/// Two values with the same eight little-endian bytes are equal.
proof fn lemma_u64_bytes_inj(a: u64, b: u64)
    by (bit_vector)
    requires
        a as u8 == b as u8,
        (a >> 8) as u8 == (b >> 8) as u8,
        (a >> 16) as u8 == (b >> 16) as u8,
        (a >> 24) as u8 == (b >> 24) as u8,
        (a >> 32) as u8 == (b >> 32) as u8,
        (a >> 40) as u8 == (b >> 40) as u8,
        (a >> 48) as u8 == (b >> 48) as u8,
        (a >> 56) as u8 == (b >> 56) as u8,
    ensures
        a == b,
{
}

/// Encoding of one chunk slot: a tag byte, then 256 block codes (or zero
/// padding for an absent slot).
pub open spec fn encode_slot(slot: Option<Chunk>) -> Seq<u8> {
    match slot {
        None => seq![0u8] + Seq::new(256, |j: int| 0u8),
        Some(c) => seq![1u8] + Seq::new(256, |j: int| block_code(c.blocks@[j])),
    }
}

/// Encoding of the first `n` chunk slots, in order.
pub open spec fn encode_slots(chunks: Seq<Option<Chunk>>, n: int) -> Seq<u8>
    decreases n,
{
    if n <= 0 {
        Seq::empty()
    } else {
        encode_slots(chunks, n - 1) + encode_slot(chunks[n - 1])
    }
}

/// Encoding of a whole region: both coordinates, then the 256 chunk slots.
/// Timestamps and meshes do not appear.
pub open spec fn encode_region_spec(r: Region) -> Seq<u8> {
    u64_le_bytes(r.region_x as u64) + u64_le_bytes(r.region_y as u64) + encode_slots(r.chunks@, 256)
}

proof fn lemma_encode_slots_len(chunks: Seq<Option<Chunk>>, n: int)
    requires
        0 <= n,
    ensures
        encode_slots(chunks, n).len() == 257 * n,
    decreases n,
{
    if n > 0 {
        lemma_encode_slots_len(chunks, n - 1);
    }
}

proof fn lemma_encode_slots_index(chunks: Seq<Option<Chunk>>, n: int, i: int, k: int)
    requires
        0 <= i < n,
        0 <= k < 257,
    ensures
        encode_slots(chunks, n)[257 * i + k] == encode_slot(chunks[i])[k],
    decreases n,
{
    lemma_encode_slots_len(chunks, n - 1);
    if i == n - 1 {
    } else {
        lemma_encode_slots_index(chunks, n - 1, i, k);
    }
}

/// Every region encoding is `REGION_FILE_LEN` bytes long.
pub proof fn lemma_encode_region_len(r: Region)
    ensures
        encode_region_spec(r).len() == REGION_FILE_LEN,
{
    lemma_encode_slots_len(r.chunks@, 256);
}

proof fn lemma_encode_region_slot_index(r: Region, i: int, k: int)
    requires
        0 <= i < 256,
        0 <= k < 257,
    ensures
        encode_region_spec(r)[16 + 257 * i + k] == encode_slot(r.chunks@[i])[k],
{
    lemma_encode_slots_len(r.chunks@, 256);
    lemma_encode_slots_index(r.chunks@, 256, i, k);
}

/// Appends the encoding of one chunk slot.
fn push_slot(out: &mut Vec<u8>, slot: &Option<Chunk>)
    requires
        slot is Some ==> slot->0.wf(),
    ensures
        final(out)@ == old(out)@ + encode_slot(*slot),
{
    let ghost pre = out@;
    match slot {
        None => {
            out.push(0);
            let mut j: usize = 0;
            while j < 256
                invariant
                    j <= 256,
                    out@.len() == pre.len() + 1 + j,
                    forall|q: int| 0 <= q < pre.len() ==> out@[q] == pre[q],
                    forall|q: int| pre.len() <= q < out@.len() ==> out@[q] == 0u8,
                decreases 256 - j,
            {
                out.push(0);
                j += 1;
            }
            proof {
                assert(out@ =~= pre + encode_slot(*slot));
            }
        },
        Some(c) => {
            out.push(1);
            let mut j: usize = 0;
            while j < 256
                invariant
                    j <= 256,
                    c.wf(),
                    out@.len() == pre.len() + 1 + j,
                    forall|q: int| 0 <= q < pre.len() ==> out@[q] == pre[q],
                    out@[pre.len() as int] == 1u8,
                    forall|q: int|
                        0 <= q < j ==> out@[pre.len() + 1 + q] == block_code(c.blocks@[q]),
                decreases 256 - j,
            {
                let v = block_to_byte(c.blocks[j]);
                out.push(v);
                j += 1;
            }
            proof {
                assert(out@ =~= pre + encode_slot(*slot));
            }
        },
    }
}

/// Decodes one chunk slot; `None` when the segment at `off` is not a slot
/// encoding.
fn decode_slot(bytes: &Vec<u8>, off: usize, now: i64) -> (r: Option<Option<Chunk>>)
    requires
        off + 257 <= bytes@.len(),
    ensures
        match r {
            Some(slot) => {
                &&& (slot is Some ==> slot->0.wf() && slot->0.last_used == now)
                &&& encode_slot(slot) == bytes@.subrange(off as int, off + 257)
            },
            None => forall|slot: Option<Chunk>|
                (slot is Some ==> slot->0.wf()) ==> #[trigger] encode_slot(slot)
                    != bytes@.subrange(off as int, off + 257),
        },
{
    let len: usize = bytes.len();
    let ghost seg = bytes@.subrange(off as int, off + 257);
    let tag = bytes[off];
    if tag == 0 {
        let mut j: usize = 0;
        while j < 256
            invariant
                j <= 256,
                off + 257 <= len,
                len == bytes@.len(),
                bytes@[off as int] == 0u8,
                seg == bytes@.subrange(off as int, off + 257),
                forall|q: int| off + 1 <= q < off + 1 + j ==> (#[trigger] bytes@[q]) == 0u8,
            decreases 256 - j,
        {
            if bytes[off + 1 + j] != 0 {
                proof {
                    assert forall|slot: Option<Chunk>| (slot is Some ==> slot->0.wf())
                        implies #[trigger] encode_slot(slot) != seg by {
                        if encode_slot(slot) == seg {
                            if slot is Some {
                                assert(encode_slot(slot)[0] == 1u8);
                                assert(seg[0] == bytes@[off as int]);
                            } else {
                                assert(encode_slot(slot)[1 + j] == 0u8);
                                assert(seg[1 + j] == bytes@[off + 1 + j]);
                            }
                        }
                    }
                }
                return None;
            }
            j += 1;
        }
        proof {
            assert(encode_slot(None::<Chunk>) =~= seg);
        }
        Some(None)
    } else if tag == 1 {
        let mut blocks: Vec<Block> = Vec::new();
        let mut j: usize = 0;
        while j < 256
            invariant
                j <= 256,
                blocks.len() == j,
                off + 257 <= len,
                len == bytes@.len(),
                bytes@[off as int] == 1u8,
                seg == bytes@.subrange(off as int, off + 257),
                forall|q: int|
                    0 <= q < j ==> block_of_code(bytes@[off + 1 + q]) == Some(
                        #[trigger] blocks@[q],
                    ),
            decreases 256 - j,
        {
            match block_from_byte(bytes[off + 1 + j]) {
                Some(b) => {
                    blocks.push(b);
                },
                None => {
                    proof {
                        assert forall|slot: Option<Chunk>| (slot is Some ==> slot->0.wf())
                            implies #[trigger] encode_slot(slot) != seg by {
                            if encode_slot(slot) == seg {
                                if slot is Some {
                                    let b = slot->0.blocks@[j as int];
                                    assert(encode_slot(slot)[1 + j] == block_code(b));
                                    assert(block_of_code(block_code(b)) == Some(b));
                                    assert(seg[1 + j] == bytes@[off + 1 + j]);
                                } else {
                                    assert(encode_slot(slot)[0] == 0u8);
                                    assert(seg[0] == bytes@[off as int]);
                                }
                            }
                        }
                    }
                    return None;
                },
            }
            j += 1;
        }
        let c = Chunk::new(blocks, now);
        proof {
            assert forall|q: int| 0 <= q < 256 implies block_code(c.blocks@[q]) == bytes@[off + 1
                + q] by {
                assert(block_of_code(bytes@[off + 1 + q]) == Some(c.blocks@[q]));
                let b = c.blocks@[q];
                assert(block_of_code(block_code(b)) == Some(b));
            }
            assert(encode_slot(Some(c)) =~= seg);
        }
        Some(Some(c))
    } else {
        proof {
            assert forall|slot: Option<Chunk>| (slot is Some ==> slot->0.wf())
                implies #[trigger] encode_slot(slot) != seg by {
                if encode_slot(slot) == seg {
                    if slot is Some {
                        assert(encode_slot(slot)[0] == 1u8);
                    } else {
                        assert(encode_slot(slot)[0] == 0u8);
                    }
                    assert(seg[0] == bytes@[off as int]);
                }
            }
        }
        None
    }
}

/// Decodes a persisted region, stamping it (and every chunk) with the given
/// time and leaving every mesh slot empty. Returns `None` exactly when the
/// bytes are not the encoding of any well-formed region.
pub fn decode_region(bytes: &Vec<u8>, now: i64) -> (r: Option<Region>)
    ensures
        match r {
            Some(reg) => {
                &&& reg.wf()
                &&& reg.last_used == now
                &&& forall|i: int| 0 <= i < 256 ==> (#[trigger] reg.chunk_meshes@[i]) is None
                &&& forall|i: int|
                    0 <= i < 256 && reg.chunks@[i] is Some ==> (
                    #[trigger] reg.chunks@[i])->0.last_used == now
                &&& bytes@ == encode_region_spec(reg)
            },
            None => forall|reg: Region|
                reg.wf() ==> bytes@ != #[trigger] encode_region_spec(reg),
        },
{
    if bytes.len() != REGION_FILE_LEN {
        proof {
            assert forall|reg: Region| reg.wf() implies bytes@ != #[trigger] encode_region_spec(
                reg,
            ) by {
                lemma_encode_region_len(reg);
            }
        }
        return None;
    }
    let x0 = bytes[0];
    let x1 = bytes[1];
    let x2 = bytes[2];
    let x3 = bytes[3];
    let x4 = bytes[4];
    let x5 = bytes[5];
    let x6 = bytes[6];
    let x7 = bytes[7];
    let y0 = bytes[8];
    let y1 = bytes[9];
    let y2 = bytes[10];
    let y3 = bytes[11];
    let y4 = bytes[12];
    let y5 = bytes[13];
    let y6 = bytes[14];
    let y7 = bytes[15];
    let ux: u64 = (x0 as u64) | ((x1 as u64) << 8) | ((x2 as u64) << 16) | ((x3 as u64) << 24) | ((
    x4 as u64) << 32) | ((x5 as u64) << 40) | ((x6 as u64) << 48) | ((x7 as u64) << 56);
    let uy: u64 = (y0 as u64) | ((y1 as u64) << 8) | ((y2 as u64) << 16) | ((y3 as u64) << 24) | ((
    y4 as u64) << 32) | ((y5 as u64) << 40) | ((y6 as u64) << 48) | ((y7 as u64) << 56);
    let region_x: i64 = #[verifier::truncate] (ux as i64);
    let region_y: i64 = #[verifier::truncate] (uy as i64);
    let mut chunks: Vec<Option<Chunk>> = Vec::new();
    let mut chunk_meshes: Vec<Option<crate::mesh::ChunkMesh>> = Vec::new();
    let mut i: usize = 0;
    while i < 256
        invariant
            bytes@.len() == 65808,
            i <= 256,
            chunks.len() == i,
            chunk_meshes.len() == i,
            forall|s: int| 0 <= s < i ==> (#[trigger] chunk_meshes@[s]) is None,
            forall|s: int|
                0 <= s < i ==> ((#[trigger] chunks@[s]) is Some ==> chunks@[s]->0.wf()
                    && chunks@[s]->0.last_used == now),
            forall|s: int|
                0 <= s < i ==> encode_slot(#[trigger] chunks@[s]) == bytes@.subrange(
                    16 + 257 * s,
                    16 + 257 * s + 257,
                ),
        decreases 256 - i,
    {
        let off: usize = 16 + 257 * i;
        match decode_slot(bytes, off, now) {
            Some(slot) => {
                chunks.push(slot);
                chunk_meshes.push(None);
            },
            None => {
                proof {
                    assert forall|reg: Region| reg.wf() implies bytes@
                        != #[trigger] encode_region_spec(reg) by {
                        if bytes@ == encode_region_spec(reg) {
                            lemma_encode_region_len(reg);
                            assert forall|k: int| 0 <= k < 257 implies encode_slot(
                                reg.chunks@[i as int],
                            )[k] == bytes@.subrange(off as int, off + 257)[k] by {
                                lemma_encode_region_slot_index(reg, i as int, k);
                            }
                            assert(encode_slot(reg.chunks@[i as int]) =~= bytes@.subrange(
                                off as int,
                                off + 257,
                            ));
                        }
                    }
                }
                return None;
            },
        }
        i += 1;
    }
    let reg = Region { region_x, region_y, last_used: now, chunks, chunk_meshes };
    proof {
        lemma_u64_bytes_extract(x0, x1, x2, x3, x4, x5, x6, x7);
        lemma_u64_bytes_extract(y0, y1, y2, y3, y4, y5, y6, y7);
        lemma_i64_u64_round_trip(region_x, ux);
        lemma_i64_u64_round_trip(region_y, uy);
        lemma_encode_region_len(reg);
        assert(reg.region_x as u64 == ux && reg.region_y as u64 == uy);
        assert forall|p: int| 0 <= p < 65808 implies encode_region_spec(reg)[p] == bytes@[p] by {
            if p < 16 {
                assert(encode_region_spec(reg)[p] == (u64_le_bytes(ux) + u64_le_bytes(uy))[p]);
            } else {
                let s = (p - 16) / 257;
                let k = (p - 16) % 257;
                assert(p - 16 == 257 * s + k && 0 <= k < 257) by {
                    vstd::arithmetic::div_mod::lemma_fundamental_div_mod(p - 16, 257);
                };
                assert(0 <= s < 256);
                lemma_encode_region_slot_index(reg, s, k);
                assert(encode_slot(reg.chunks@[s]) == bytes@.subrange(
                    16 + 257 * s,
                    16 + 257 * s + 257,
                ));
                assert(bytes@.subrange(16 + 257 * s, 16 + 257 * s + 257)[k] == bytes@[16 + 257 * s
                    + k]);
            }
        }
        assert(encode_region_spec(reg) =~= bytes@);
    }
    Some(reg)
}

/// A save followed by a load reproduces the region: any two well-formed
/// regions with the same encoding agree on their coordinate, on which chunk
/// slots are present, and on every present chunk's blocks. Timestamps and
/// cached meshes are not persisted and are not compared.
pub proof fn lemma_persistence_round_trip(r1: Region, r2: Region)
    requires
        r1.wf(),
        r2.wf(),
        encode_region_spec(r1) == encode_region_spec(r2),
    ensures
        r1.region_x == r2.region_x,
        r1.region_y == r2.region_y,
        forall|i: int|
            0 <= i < 256 ==> ((#[trigger] r1.chunks@[i]) is Some <==> r2.chunks@[i] is Some),
        forall|i: int|
            0 <= i < 256 && r1.chunks@[i] is Some ==> (#[trigger] r1.chunks@[i])->0.blocks@
                == r2.chunks@[i]->0.blocks@,
{
    let v1 = r1.region_x as u64;
    let v2 = r2.region_x as u64;
    let w1 = r1.region_y as u64;
    let w2 = r2.region_y as u64;
    let h1 = u64_le_bytes(v1) + u64_le_bytes(w1);
    let h2 = u64_le_bytes(v2) + u64_le_bytes(w2);
    assert forall|p: int| 0 <= p < 16 implies h1[p] == h2[p] by {
        assert(encode_region_spec(r1)[p] == h1[p]);
        assert(encode_region_spec(r2)[p] == h2[p]);
    }
    assert(h1[0] == v1 as u8 && h1[1] == (v1 >> 8) as u8 && h1[2] == (v1 >> 16) as u8 && h1[3] == (
    v1 >> 24) as u8 && h1[4] == (v1 >> 32) as u8 && h1[5] == (v1 >> 40) as u8 && h1[6] == (v1
        >> 48) as u8 && h1[7] == (v1 >> 56) as u8);
    assert(h2[0] == v2 as u8 && h2[1] == (v2 >> 8) as u8 && h2[2] == (v2 >> 16) as u8 && h2[3] == (
    v2 >> 24) as u8 && h2[4] == (v2 >> 32) as u8 && h2[5] == (v2 >> 40) as u8 && h2[6] == (v2
        >> 48) as u8 && h2[7] == (v2 >> 56) as u8);
    assert(h1[8] == w1 as u8 && h1[9] == (w1 >> 8) as u8 && h1[10] == (w1 >> 16) as u8 && h1[11]
        == (w1 >> 24) as u8 && h1[12] == (w1 >> 32) as u8 && h1[13] == (w1 >> 40) as u8 && h1[14]
        == (w1 >> 48) as u8 && h1[15] == (w1 >> 56) as u8);
    assert(h2[8] == w2 as u8 && h2[9] == (w2 >> 8) as u8 && h2[10] == (w2 >> 16) as u8 && h2[11]
        == (w2 >> 24) as u8 && h2[12] == (w2 >> 32) as u8 && h2[13] == (w2 >> 40) as u8 && h2[14]
        == (w2 >> 48) as u8 && h2[15] == (w2 >> 56) as u8);
    lemma_u64_bytes_inj(v1, v2);
    lemma_u64_bytes_inj(w1, w2);
    lemma_i64_u64_round_trip(r1.region_x, 0);
    lemma_i64_u64_round_trip(r2.region_x, 0);
    lemma_i64_u64_round_trip(r1.region_y, 0);
    lemma_i64_u64_round_trip(r2.region_y, 0);
    assert forall|i: int| 0 <= i < 256 implies ((#[trigger] r1.chunks@[i]) is Some
        <==> r2.chunks@[i] is Some) by {
        lemma_encode_region_slot_index(r1, i, 0);
        lemma_encode_region_slot_index(r2, i, 0);
        if r1.chunks@[i] is Some {
            assert(encode_slot(r1.chunks@[i])[0] == 1u8);
        } else {
            assert(encode_slot(r1.chunks@[i])[0] == 0u8);
        }
        if r2.chunks@[i] is Some {
            assert(encode_slot(r2.chunks@[i])[0] == 1u8);
        } else {
            assert(encode_slot(r2.chunks@[i])[0] == 0u8);
        }
    }
    assert forall|i: int| 0 <= i < 256 && r1.chunks@[i] is Some implies (
    #[trigger] r1.chunks@[i])->0.blocks@ == r2.chunks@[i]->0.blocks@ by {
        let c1 = r1.chunks@[i]->0;
        let c2 = r2.chunks@[i]->0;
        assert forall|q: int| 0 <= q < 256 implies c1.blocks@[q] == c2.blocks@[q] by {
            lemma_encode_region_slot_index(r1, i, 1 + q);
            lemma_encode_region_slot_index(r2, i, 1 + q);
            assert(encode_slot(r1.chunks@[i])[1 + q] == block_code(c1.blocks@[q]));
            assert(encode_slot(r2.chunks@[i])[1 + q] == block_code(c2.blocks@[q]));
            let b1 = c1.blocks@[q];
            let b2 = c2.blocks@[q];
            assert(block_of_code(block_code(b1)) == Some(b1));
            assert(block_of_code(block_code(b2)) == Some(b2));
        }
        assert(c1.blocks@ =~= c2.blocks@);
    }
}

impl Region {
    /// Builds a region from the bytes of its save file, if one was found:
    /// a valid encoding is decoded; a missing file or any byte string that
    /// is not a region encoding falls back to an empty region at the given
    /// coordinate, and no error escapes. Everything is stamped with the
    /// given time.
    pub fn from_saved_bytes(region_x: i64, region_y: i64, bytes: Option<&Vec<u8>>, now: i64) -> (r:
        Region)
        ensures
            r.wf(),
            r.last_used == now,
            forall|i: int| 0 <= i < 256 ==> (#[trigger] r.chunk_meshes@[i]) is None,
            match bytes {
                Some(b) => {
                    if exists|reg: Region| reg.wf() && b@ == #[trigger] encode_region_spec(reg) {
                        b@ == encode_region_spec(r)
                    } else {
                        r.region_x == region_x && r.region_y == region_y && forall|i: int|
                            0 <= i < 256 ==> (#[trigger] r.chunks@[i]) is None
                    }
                },
                None => r.region_x == region_x && r.region_y == region_y && forall|i: int|
                    0 <= i < 256 ==> (#[trigger] r.chunks@[i]) is None,
            },
    {
        match bytes {
            None => Region::new_empty(region_x, region_y, now),
            Some(b) => {
                match decode_region(b, now) {
                    Some(reg) => reg,
                    None => Region::new_empty(region_x, region_y, now),
                }
            },
        }
    }

    /// Encodes the region for persistence: its coordinate and the contents
    /// of every chunk slot, meshes and timestamps excluded.
    pub fn to_save_bytes(&self) -> (out: Vec<u8>)
        requires
            self.wf(),
        ensures
            out@ == encode_region_spec(*self),
            out@.len() == REGION_FILE_LEN,
    {
        let mut out: Vec<u8> = Vec::new();
        let ux = self.region_x as u64;
        let uy = self.region_y as u64;
        out.push(#[verifier::truncate] (ux as u8));
        out.push(#[verifier::truncate] ((ux >> 8) as u8));
        out.push(#[verifier::truncate] ((ux >> 16) as u8));
        out.push(#[verifier::truncate] ((ux >> 24) as u8));
        out.push(#[verifier::truncate] ((ux >> 32) as u8));
        out.push(#[verifier::truncate] ((ux >> 40) as u8));
        out.push(#[verifier::truncate] ((ux >> 48) as u8));
        out.push(#[verifier::truncate] ((ux >> 56) as u8));
        out.push(#[verifier::truncate] (uy as u8));
        out.push(#[verifier::truncate] ((uy >> 8) as u8));
        out.push(#[verifier::truncate] ((uy >> 16) as u8));
        out.push(#[verifier::truncate] ((uy >> 24) as u8));
        out.push(#[verifier::truncate] ((uy >> 32) as u8));
        out.push(#[verifier::truncate] ((uy >> 40) as u8));
        out.push(#[verifier::truncate] ((uy >> 48) as u8));
        out.push(#[verifier::truncate] ((uy >> 56) as u8));
        let ghost header = u64_le_bytes(ux) + u64_le_bytes(uy);
        proof {
            assert(out@ =~= header);
        }
        let mut i: usize = 0;
        while i < 256
            invariant
                self.wf(),
                i <= 256,
                ux == self.region_x as u64,
                uy == self.region_y as u64,
                header == u64_le_bytes(ux) + u64_le_bytes(uy),
                out@ == header + encode_slots(self.chunks@, i as int),
            decreases 256 - i,
        {
            push_slot(&mut out, &self.chunks[i]);
            proof {
                assert(out@ =~= header + encode_slots(self.chunks@, i + 1));
            }
            i += 1;
        }
        proof {
            lemma_encode_region_len(*self);
        }
        out
    }
}

} // verus!
