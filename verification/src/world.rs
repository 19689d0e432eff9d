//! A region: a 16-by-16 grid of lazily materialized chunks with their cached
//! meshes, plus a last-access timestamp. A chunk slot is empty until first
//! accessed, then holds a generated (or loaded) chunk for the life of the
//! region; a cached mesh always describes the chunk in its slot.

use vstd::prelude::*;

use crate::blocks::Block;
use crate::chunks::Chunk;
use crate::conversion::cell_world_coord;
use crate::gen::chunk_matches_generator;
use crate::gen::Generator;
use crate::mesh::greedy_mesh_spec;
use crate::mesh::mesh_partitions;
use crate::mesh::ChunkMesh;
use crate::mesh::MeshType;

verus! {

/// A 256-by-256-block tile of the world: up to 256 chunks, their cached
/// meshes, and the time of the last access, in milliseconds.
pub struct Region {
    pub region_x: i64,
    pub region_y: i64,
    pub last_used: i64,
    pub chunks: Vec<Option<Chunk>>,
    pub chunk_meshes: Vec<Option<ChunkMesh>>,
}

impl Region {
    /// Both slot arrays hold 256 entries; every present chunk is well
    /// formed; every cached mesh sits beside its chunk and is a greedy mesh
    /// of exactly that chunk's blocks.
    pub open spec fn wf(self) -> bool {
        &&& self.chunks.len() == 256
        &&& self.chunk_meshes.len() == 256
        &&& forall|i: int|
            0 <= i < 256 && self.chunks@[i] is Some ==> (#[trigger] self.chunks@[i])->0.wf()
        &&& forall|i: int|
            0 <= i < 256 && self.chunk_meshes@[i] is Some ==> {
                &&& self.chunks@[i] is Some
                &&& (#[trigger] self.chunk_meshes@[i])->0.mesh_type == MeshType::GREEDY
                &&& self.chunk_meshes@[i]->0.mesh@ == greedy_mesh_spec(self.chunks@[i]->0.blocks@)
                &&& mesh_partitions(self.chunk_meshes@[i]->0.mesh@, self.chunks@[i]->0.blocks@)
            }
    }

    /// A region with every chunk slot empty, stamped with the given time.
    pub fn new_empty(region_x: i64, region_y: i64, now: i64) -> (r: Region)
        ensures
            r.wf(),
            r.region_x == region_x,
            r.region_y == region_y,
            r.last_used == now,
            forall|i: int| 0 <= i < 256 ==> (#[trigger] r.chunks@[i]) is None,
            forall|i: int| 0 <= i < 256 ==> (#[trigger] r.chunk_meshes@[i]) is None,
    {
        let mut chunks: Vec<Option<Chunk>> = Vec::new();
        let mut chunk_meshes: Vec<Option<ChunkMesh>> = Vec::new();
        let mut i: usize = 0;
        while i < 256
            invariant
                i <= 256,
                chunks.len() == i,
                chunk_meshes.len() == i,
                forall|k: int| 0 <= k < i ==> (#[trigger] chunks@[k]) is None,
                forall|k: int| 0 <= k < i ==> (#[trigger] chunk_meshes@[k]) is None,
            decreases 256 - i,
        {
            chunks.push(None);
            chunk_meshes.push(None);
            i += 1;
        }
        Region { region_x, region_y, last_used: now, chunks, chunk_meshes }
    }

    /// Returns the chunk at chunk coordinate `(x, y)` of this region,
    /// generating it on first access: the generator runs at most once per
    /// slot for the life of the region, and an already-present chunk keeps
    /// its blocks. Touches the region's and the chunk's timestamps.
    pub fn get_chunk<'a, G: Generator>(&'a mut self, gen: &G, x: u8, y: u8, now: i64) -> (c:
        &'a Chunk)
        requires
            old(self).wf(),
            x < 16,
            y < 16,
        ensures
            final(self).wf(),
            final(self).region_x == old(self).region_x,
            final(self).region_y == old(self).region_y,
            final(self).last_used == now,
            final(self).chunk_meshes@ == old(self).chunk_meshes@,
            forall|j: int|
                0 <= j < 256 && j != x + 16 * y ==> (#[trigger] final(self).chunks@[j]) == old(
                    self,
                ).chunks@[j],
            final(self).chunks@[x + 16 * y] is Some,
            final(self).chunks@[x + 16 * y]->0.last_used == now,
            old(self).chunks@[x + 16 * y] is Some ==> final(self).chunks@[x + 16 * y]->0.blocks@
                == old(self).chunks@[x + 16 * y]->0.blocks@,
            old(self).chunks@[x + 16 * y] is None ==> chunk_matches_generator(
                final(self).chunks@[x + 16 * y]->0,
                *gen,
                old(self).region_x,
                old(self).region_y,
                x,
                y,
            ),
            *c == final(self).chunks@[x + 16 * y]->0,
    {
        self.last_used = now;
        let index: usize = (x as usize) + (y as usize) * 16;
        let slot = &mut self.chunks[index];
        match slot {
            Some(chunk) => {
                chunk.last_used = now;
            },
            None => {
                *slot = Some(gen.gen_chunk(self.region_x, self.region_y, x, y, now));
            },
        }
        self.chunks[index].as_ref().unwrap()
    }

    /// Returns the block at local coordinate `(x, y)` of chunk
    /// `(chunk_x, chunk_y)`, materializing the chunk first if needed.
    pub fn get_block<G: Generator>(
        &mut self,
        gen: &G,
        chunk_x: u8,
        chunk_y: u8,
        x: u8,
        y: u8,
        now: i64,
    ) -> (b: Block)
        requires
            old(self).wf(),
            chunk_x < 16,
            chunk_y < 16,
            x < 16,
            y < 16,
        ensures
            final(self).wf(),
            final(self).region_x == old(self).region_x,
            final(self).region_y == old(self).region_y,
            final(self).last_used == now,
            final(self).chunk_meshes@ == old(self).chunk_meshes@,
            forall|j: int|
                0 <= j < 256 && j != chunk_x + 16 * chunk_y ==> (#[trigger] final(self).chunks@[j])
                    == old(self).chunks@[j],
            final(self).chunks@[chunk_x + 16 * chunk_y] is Some,
            b == final(self).chunks@[chunk_x + 16 * chunk_y]->0.blocks@[x + 16 * y],
            old(self).chunks@[chunk_x + 16 * chunk_y] is Some ==> b == old(self).chunks@[chunk_x
                + 16 * chunk_y]->0.blocks@[x + 16 * y],
            old(self).chunks@[chunk_x + 16 * chunk_y] is Some ==> final(self).chunks@[chunk_x + 16
                * chunk_y]->0.blocks@ == old(self).chunks@[chunk_x + 16 * chunk_y]->0.blocks@,
            old(self).chunks@[chunk_x + 16 * chunk_y] is None ==> b == gen.block_spec(
                cell_world_coord(old(self).region_x, chunk_x, x),
                cell_world_coord(old(self).region_y, chunk_y, y),
            ),
            old(self).chunks@[chunk_x + 16 * chunk_y] is None ==> chunk_matches_generator(
                final(self).chunks@[chunk_x + 16 * chunk_y]->0,
                *gen,
                old(self).region_x,
                old(self).region_y,
                chunk_x,
                chunk_y,
            ),
    {
        let c = self.get_chunk(gen, chunk_x, chunk_y, now);
        let b = c.blocks[(x as usize) + 16 * (y as usize)];
        b
    }

    /// Returns the mesh of chunk `(x, y)`, materializing the chunk first if
    /// needed and computing and caching its greedy mesh on first request.
    /// An already-cached mesh is returned as it is.
    pub fn get_chunk_mesh<'a, G: Generator>(&'a mut self, gen: &G, x: u8, y: u8, now: i64) -> (m:
        &'a ChunkMesh)
        requires
            old(self).wf(),
            x < 16,
            y < 16,
        ensures
            final(self).wf(),
            final(self).region_x == old(self).region_x,
            final(self).region_y == old(self).region_y,
            final(self).last_used == now,
            forall|j: int|
                0 <= j < 256 && j != x + 16 * y ==> (#[trigger] final(self).chunks@[j]) == old(
                    self,
                ).chunks@[j],
            forall|j: int|
                0 <= j < 256 && j != x + 16 * y ==> (#[trigger] final(self).chunk_meshes@[j])
                    == old(self).chunk_meshes@[j],
            final(self).chunks@[x + 16 * y] is Some,
            old(self).chunks@[x + 16 * y] is Some ==> final(self).chunks@[x + 16 * y]->0.blocks@
                == old(self).chunks@[x + 16 * y]->0.blocks@,
            old(self).chunks@[x + 16 * y] is None ==> chunk_matches_generator(
                final(self).chunks@[x + 16 * y]->0,
                *gen,
                old(self).region_x,
                old(self).region_y,
                x,
                y,
            ),
            final(self).chunk_meshes@[x + 16 * y] is Some,
            old(self).chunk_meshes@[x + 16 * y] is Some ==> final(self).chunk_meshes@[x + 16 * y]
                == old(self).chunk_meshes@[x + 16 * y],
            *m == final(self).chunk_meshes@[x + 16 * y]->0,
            m.mesh_type == MeshType::GREEDY,
            m.mesh@ == greedy_mesh_spec(final(self).chunks@[x + 16 * y]->0.blocks@),
            mesh_partitions(m.mesh@, final(self).chunks@[x + 16 * y]->0.blocks@),
    {
        let _ = self.get_chunk(gen, x, y, now);
        let index: usize = (x as usize) + (y as usize) * 16;
        if self.chunk_meshes[index].is_none() {
            let mesh = ChunkMesh::greedy_mesh(self.chunks[index].as_ref().unwrap());
            self.chunk_meshes[index] = Some(mesh);
        }
        self.chunk_meshes[index].as_ref().unwrap()
    }
}

} // verus!
