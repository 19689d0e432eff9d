//! The top-level cache: owns the generator and the loaded regions, exposes
//! block and mesh queries keyed by world coordinates, and evicts regions
//! that have sat idle past a fixed threshold.

use vstd::prelude::*;

use crate::blocks::Block;
use crate::conversion::chunk_coord;
use crate::conversion::get_local_chunk_cords;
use crate::conversion::get_region_chunk_cords;
use crate::conversion::get_region_cords;
use crate::conversion::lemma_coordinate_round_trip;
use crate::conversion::local_coord;
use crate::conversion::region_coord;
use crate::gen::chunk_matches_generator;
use crate::gen::Generator;
use crate::mesh::greedy_mesh_spec;
use crate::mesh::mesh_partitions;
use crate::mesh::ChunkMesh;
use crate::mesh::MeshType;
use crate::world::Region;

verus! {

/// Idle time, in milliseconds, beyond which a region is evicted by `clean`.
pub const EVICTION_THRESHOLD_MS: i64 = 2000;

/// The region has sat untouched longer than the eviction threshold.
pub open spec fn region_expired(r: Region, now: i64) -> bool {
    now - r.last_used > EVICTION_THRESHOLD_MS
}

/// No two regions of the sequence share a coordinate.
pub open spec fn regions_distinct(s: Seq<Region>) -> bool {
    forall|i: int, j: int|
        0 <= i < j < s.len() ==> !((#[trigger] s[i]).region_x == (#[trigger] s[j]).region_x
            && s[i].region_y == s[j].region_y)
}

/// Top-level world cache: one generator, fixed at construction, and the
/// currently loaded regions, at most one per region coordinate.
pub struct WorldManager<G: Generator> {
    pub gen: G,
    pub regions: Vec<Region>,
}

impl<G: Generator> WorldManager<G> {
    /// Every loaded region is well formed and no coordinate is loaded twice.
    pub open spec fn wf(self) -> bool {
        &&& forall|i: int| 0 <= i < self.regions.len() ==> (#[trigger] self.regions@[i]).wf()
        &&& regions_distinct(self.regions@)
    }

    /// A region with the given coordinate is loaded.
    pub open spec fn has_region(self, rx: i64, ry: i64) -> bool {
        exists|i: int|
            0 <= i < self.regions.len() && (#[trigger] self.regions@[i]).region_x == rx
                && self.regions@[i].region_y == ry
    }

    /// Index of the loaded region with the given coordinate.
    pub open spec fn region_index(self, rx: i64, ry: i64) -> int {
        choose|i: int|
            0 <= i < self.regions.len() && (#[trigger] self.regions@[i]).region_x == rx
                && self.regions@[i].region_y == ry
    }

    /// The loaded region with the given coordinate.
    pub open spec fn region_at(self, rx: i64, ry: i64) -> Region {
        self.regions@[self.region_index(rx, ry)]
    }

    /// A manager around the given generator, with no region loaded.
    pub fn new(gen: G) -> (m: Self)
        ensures
            m.wf(),
            m.gen == gen,
            m.regions@.len() == 0,
    {
        WorldManager { gen, regions: Vec::new() }
    }

    /// Number of currently loaded regions.
    pub fn get_region_count(&self) -> (n: usize)
        ensures
            n == self.regions@.len(),
    {
        self.regions.len()
    }

    /// Whether the region with the given coordinate is loaded.
    pub fn contains_region(&self, region_x: i64, region_y: i64) -> (b: bool)
        ensures
            b == self.has_region(region_x, region_y),
    {
        self.find_region(region_x, region_y).is_some()
    }

    /// Linear scan for the region with the given coordinate.
    fn find_region(&self, region_x: i64, region_y: i64) -> (r: Option<usize>)
        ensures
            match r {
                Some(i) => {
                    &&& i < self.regions@.len()
                    &&& self.regions@[i as int].region_x == region_x
                    &&& self.regions@[i as int].region_y == region_y
                    &&& self.has_region(region_x, region_y)
                },
                None => !self.has_region(region_x, region_y),
            },
    {
        let mut i: usize = 0;
        while i < self.regions.len()
            invariant
                i <= self.regions@.len(),
                forall|k: int|
                    0 <= k < i ==> !((#[trigger] self.regions@[k]).region_x == region_x
                        && self.regions@[k].region_y == region_y),
            decreases self.regions@.len() - i,
        {
            if self.regions[i].region_x == region_x && self.regions[i].region_y == region_y {
                return Some(i);
            }
            i += 1;
        }
        None
    }

    /// Hands a loaded (or freshly built) region to the cache: inserted if
    /// its coordinate is not loaded yet, dropped otherwise.
    pub fn insert_region(&mut self, region: Region)
        requires
            old(self).wf(),
            region.wf(),
        ensures
            final(self).wf(),
            final(self).gen == old(self).gen,
            final(self).has_region(region.region_x, region.region_y),
            old(self).has_region(region.region_x, region.region_y) ==> *final(self) == *old(self),
            !old(self).has_region(region.region_x, region.region_y) ==> final(self).regions@ == old(self).regions@.push(region) && final(self).region_at(
                region.region_x,
                region.region_y,
            ) == region,
    {
        if self.find_region(region.region_x, region.region_y).is_none() {
            let ghost pre = self.regions@;
            proof {
                assert forall|k: int| 0 <= k < pre.len() implies !((#[trigger] pre[k]).region_x
                    == region.region_x && pre[k].region_y == region.region_y) by {
                    if pre[k].region_x == region.region_x && pre[k].region_y == region.region_y {
                        assert(old(self).has_region(region.region_x, region.region_y));
                    }
                }
            }
            let ghost n = pre.len() as int;
            self.regions.push(region);
            proof {
                assert(self.regions@[n].region_x == region.region_x);
                lemma_region_lookup::<G>(*self, n);
            }
        }
    }

    /// Returns the block at the world coordinate, loading an empty region
    /// into the cache first if none is loaded for it (callers that persist
    /// regions hand a loaded one to `insert_region` beforehand), and
    /// materializing the owning chunk on first access.
    #[verifier::rlimit(100)]
    #[verifier::spinoff_prover]
    pub fn get_block(&mut self, world_x: i64, world_y: i64, now: i64) -> (b: Block)
        requires
            old(self).wf(),
        ensures
            final(self).wf(),
            final(self).gen == old(self).gen,
            final(self).has_region(region_coord(world_x), region_coord(world_y)),
            final(self).regions@.len() == old(self).regions@.len() + (if old(self).has_region(
                region_coord(world_x),
                region_coord(world_y),
            ) {
                0int
            } else {
                1int
            }),
            ({
                let rx = region_coord(world_x);
                let ry = region_coord(world_y);
                let ci = chunk_coord(world_x) + 16 * chunk_coord(world_y);
                let li = local_coord(world_x) + 16 * local_coord(world_y);
                if old(self).has_region(rx, ry) && old(self).region_at(rx, ry).chunks@[ci]
                    is Some {
                    b == old(self).region_at(rx, ry).chunks@[ci]->0.blocks@[li]
                } else {
                    b == old(self).gen.block_spec(world_x, world_y)
                }
            }),
            ({
                let rx = region_coord(world_x);
                let ry = region_coord(world_y);
                let ci = chunk_coord(world_x) + 16 * chunk_coord(world_y);
                let newreg = final(self).region_at(rx, ry);
                &&& newreg.chunks@[ci] is Some
                &&& (old(self).has_region(rx, ry) && old(self).region_at(rx, ry).chunks@[ci]
                    is Some ==> newreg.chunks@[ci]->0.blocks@ == old(self).region_at(
                    rx,
                    ry,
                ).chunks@[ci]->0.blocks@)
                &&& (!(old(self).has_region(rx, ry) && old(self).region_at(rx, ry).chunks@[ci]
                    is Some) ==> chunk_matches_generator(
                    newreg.chunks@[ci]->0,
                    old(self).gen,
                    rx,
                    ry,
                    chunk_coord(world_x),
                    chunk_coord(world_y),
                ))
                &&& (old(self).has_region(rx, ry) ==> forall|j: int|
                    0 <= j < 256 && j != ci ==> (#[trigger] newreg.chunks@[j]) == old(
                        self,
                    ).region_at(rx, ry).chunks@[j])
                &&& (old(self).has_region(rx, ry) ==> newreg.chunk_meshes@ == old(self).region_at(
                    rx,
                    ry,
                ).chunk_meshes@)
                &&& (!old(self).has_region(rx, ry) ==> forall|j: int|
                    0 <= j < 256 && j != ci ==> (#[trigger] newreg.chunks@[j]) is None
                        && newreg.chunk_meshes@[j] is None)
            }),
            forall|ax: i64, ay: i64|
                !(ax == region_coord(world_x) && ay == region_coord(world_y)) ==> (
                (#[trigger] final(self).has_region(ax, ay)) == old(self).has_region(ax, ay) && (old(self).has_region(ax, ay) ==> final(self).region_at(ax, ay) == old(self).region_at(
                    ax,
                    ay,
                ))),
    {
        let (region_x, region_y) = get_region_cords(world_x, world_y);
        let idx: usize = match self.find_region(region_x, region_y) {
            Some(i) => i,
            None => {
                let n = self.regions.len();
                let r = Region::new_empty(region_x, region_y, now);
                let ghost pre = self.regions@;
                proof {
                    assert forall|k: int| 0 <= k < pre.len() implies !((#[trigger] pre[k]).region_x
                        == region_x && pre[k].region_y == region_y) by {
                        if pre[k].region_x == region_x && pre[k].region_y == region_y {
                            assert(old(self).has_region(region_x, region_y));
                        }
                    }
                }
                self.regions.push(r);
                n
            },
        };
        let ghost mid = *self;
        let (chunk_x, chunk_y) = get_region_chunk_cords(world_x, world_y);
        let (local_x, local_y) = get_local_chunk_cords(world_x, world_y);
        let gen = &self.gen;
        let region = &mut self.regions[idx];
        let b = region.get_block(gen, chunk_x, chunk_y, local_x, local_y, now);
        proof {
            lemma_coordinate_round_trip(world_x);
            lemma_coordinate_round_trip(world_y);
            lemma_frame_after_update::<G>(*old(self), mid, *self, idx as int, region_x, region_y);
            if old(self).has_region(region_x, region_y) {
                lemma_region_lookup::<G>(*old(self), idx as int);
            }
            lemma_region_lookup::<G>(*self, idx as int);
            let rx = region_coord(world_x);
            let ry = region_coord(world_y);
            let ci = chunk_x + 16 * chunk_y;
            let newreg = self.region_at(rx, ry);
            assert(newreg == self.regions@[idx as int]);
            if old(self).has_region(rx, ry) {
                assert(mid.regions@[idx as int] == old(self).region_at(rx, ry));
                assert forall|j: int| 0 <= j < 256 && j != ci implies (
                #[trigger] newreg.chunks@[j]) == old(self).region_at(rx, ry).chunks@[j] by {
                    assert(newreg.chunks@[j] == mid.regions@[idx as int].chunks@[j]);
                }
            } else {
                assert forall|j: int| 0 <= j < 256 && j != ci implies (
                #[trigger] newreg.chunks@[j]) is None && newreg.chunk_meshes@[j] is None by {
                    assert(newreg.chunks@[j] == mid.regions@[idx as int].chunks@[j]);
                    assert(mid.regions@[idx as int].chunks@[j] is None);
                    assert(newreg.chunk_meshes@[j] == mid.regions@[idx as int].chunk_meshes@[j]);
                    assert(mid.regions@[idx as int].chunk_meshes@[j] is None);
                }
                assert(mid.regions@[idx as int].chunks@[ci] is None);
            }
        }
        b
    }

    /// Returns the greedy mesh of chunk `(chunk_x, chunk_y)` of region
    /// `(region_x, region_y)`, loading an empty region first if none is
    /// loaded for that coordinate, materializing the chunk on first access,
    /// and caching the mesh until the region is evicted.
    #[verifier::rlimit(100)]
    #[verifier::spinoff_prover]
    pub fn get_chunk_mesh<'a>(
        &'a mut self,
        region_x: i64,
        region_y: i64,
        chunk_x: u8,
        chunk_y: u8,
        now: i64,
    ) -> (m: &'a ChunkMesh)
        requires
            old(self).wf(),
            chunk_x < 16,
            chunk_y < 16,
        ensures
            final(self).wf(),
            final(self).gen == old(self).gen,
            final(self).has_region(region_x, region_y),
            final(self).regions@.len() == old(self).regions@.len() + (if old(self).has_region(
                region_x,
                region_y,
            ) {
                0int
            } else {
                1int
            }),
            m.mesh_type == MeshType::GREEDY,
            ({
                let reg = final(self).region_at(region_x, region_y);
                let ci = chunk_x + 16 * chunk_y;
                &&& reg.chunks@[ci] is Some
                &&& reg.chunk_meshes@[ci] is Some
                &&& *m == reg.chunk_meshes@[ci]->0
                &&& m.mesh@ == greedy_mesh_spec(reg.chunks@[ci]->0.blocks@)
                &&& mesh_partitions(m.mesh@, reg.chunks@[ci]->0.blocks@)
                &&& (old(self).has_region(region_x, region_y) && old(self).region_at(
                    region_x,
                    region_y,
                ).chunks@[ci] is Some ==> reg.chunks@[ci]->0.blocks@ == old(self).region_at(
                    region_x,
                    region_y,
                ).chunks@[ci]->0.blocks@)
                &&& (old(self).has_region(region_x, region_y) && old(self).region_at(
                    region_x,
                    region_y,
                ).chunk_meshes@[ci] is Some ==> reg.chunk_meshes@[ci] == old(self).region_at(
                    region_x,
                    region_y,
                ).chunk_meshes@[ci])
                &&& (!(old(self).has_region(region_x, region_y) && old(self).region_at(
                    region_x,
                    region_y,
                ).chunks@[ci] is Some) ==> chunk_matches_generator(
                    reg.chunks@[ci]->0,
                    old(self).gen,
                    region_x,
                    region_y,
                    chunk_x,
                    chunk_y,
                ))
                &&& (old(self).has_region(region_x, region_y) ==> forall|j: int|
                    0 <= j < 256 && j != ci ==> (#[trigger] reg.chunks@[j]) == old(
                        self,
                    ).region_at(region_x, region_y).chunks@[j] && reg.chunk_meshes@[j] == old(
                        self,
                    ).region_at(region_x, region_y).chunk_meshes@[j])
                &&& (!old(self).has_region(region_x, region_y) ==> forall|j: int|
                    0 <= j < 256 && j != ci ==> (#[trigger] reg.chunks@[j]) is None
                        && reg.chunk_meshes@[j] is None)
            }),
            forall|ax: i64, ay: i64|
                !(ax == region_x && ay == region_y) ==> ((#[trigger] final(self).has_region(ax, ay))
                    == old(self).has_region(ax, ay) && (old(self).has_region(ax, ay) ==> final(self).region_at(ax, ay) == old(self).region_at(ax, ay))),
    {
        let idx: usize = match self.find_region(region_x, region_y) {
            Some(i) => i,
            None => {
                let n = self.regions.len();
                let r = Region::new_empty(region_x, region_y, now);
                let ghost pre = self.regions@;
                proof {
                    assert forall|k: int| 0 <= k < pre.len() implies !((#[trigger] pre[k]).region_x
                        == region_x && pre[k].region_y == region_y) by {
                        if pre[k].region_x == region_x && pre[k].region_y == region_y {
                            assert(old(self).has_region(region_x, region_y));
                        }
                    }
                }
                self.regions.push(r);
                n
            },
        };
        let ghost mid = *self;
        let gen = &self.gen;
        let region = &mut self.regions[idx];
        let _ = region.get_chunk_mesh(gen, chunk_x, chunk_y, now);
        proof {
            lemma_frame_after_update::<G>(*old(self), mid, *self, idx as int, region_x, region_y);
            if old(self).has_region(region_x, region_y) {
                lemma_region_lookup::<G>(*old(self), idx as int);
            }
            lemma_region_lookup::<G>(*self, idx as int);
        }
        let index: usize = (chunk_x as usize) + 16 * (chunk_y as usize);
        self.regions[idx].chunk_meshes[index].as_ref().unwrap()
    }

    /// Eviction sweep: drops every loaded region whose last access lies
    /// longer ago than the eviction threshold; regions touched within the
    /// threshold stay, untouched. Expected to run once per tick.
    #[verifier::loop_isolation(false)]
    #[verifier::rlimit(100)]
    #[verifier::spinoff_prover]
    pub fn clean(&mut self, now: i64)
        requires
            old(self).wf(),
        ensures
            final(self).wf(),
            final(self).gen == old(self).gen,
            final(self).regions@ == old(self).regions@.filter(keep_region(now)),
            forall|ax: i64, ay: i64|
                #[trigger] final(self).has_region(ax, ay) <==> (old(self).has_region(ax, ay)
                    && !region_expired(old(self).region_at(ax, ay), now)),
            forall|ax: i64, ay: i64|
                old(self).has_region(ax, ay) && !region_expired(old(self).region_at(ax, ay), now)
                    ==> (#[trigger] final(self).region_at(ax, ay)) == old(self).region_at(ax, ay),
    {
        let ghost orig = self.regions@;
        let ghost p = keep_region(now);
        let mut i: usize = 0;
        let ghost k: int = 0;
        while i < self.regions.len()
            invariant
                0 <= k <= orig.len(),
                i as int == orig.take(k).filter(p).len(),
                self.regions@ == orig.take(k).filter(p) + orig.skip(k),
                self.gen == old(self).gen,
            decreases orig.len() - k,
        {
            proof {
                assert(self.regions@[i as int] == orig.skip(k)[0]);
                assert(orig.skip(k)[0] == orig[k]);
            }
            let last_used = self.regions[i].last_used;
            let expired = (now as i128) - (last_used as i128) > (EVICTION_THRESHOLD_MS as i128);
            proof {
                assert(expired == !p(orig[k]));
                reveal(Seq::filter);
                assert(orig.take(k + 1).drop_last() =~= orig.take(k));
                assert(orig.take(k + 1).last() == orig[k]);
            }
            if expired {
                self.regions.remove(i);
                proof {
                    assert(orig.take(k + 1).filter(p) == orig.take(k).filter(p));
                    assert(self.regions@ =~= orig.take(k + 1).filter(p) + orig.skip(k + 1));
                }
            } else {
                i += 1;
                proof {
                    assert(orig.take(k + 1).filter(p) == orig.take(k).filter(p).push(orig[k]));
                    assert(self.regions@ =~= orig.take(k + 1).filter(p) + orig.skip(k + 1));
                }
            }
            proof {
                k = k + 1;
            }
        }
        proof {
            assert(k == orig.len());
            assert(orig.take(k) =~= orig);
            assert(orig.skip(k) =~= Seq::<Region>::empty());
            assert(self.regions@ =~= orig.filter(p));
            lemma_filter_regions_distinct(orig, p);
            let post = *self;
            assert forall|j: int| 0 <= j < post.regions@.len() implies (
            #[trigger] post.regions@[j]).wf() by {
                assert(orig.filter(p).contains(post.regions@[j]));
                assert(orig.contains(post.regions@[j]));
                let jo = choose|jo: int| 0 <= jo < orig.len() && orig[jo] == post.regions@[j];
                assert(old(self).regions@[jo].wf());
            }
            assert forall|ax: i64, ay: i64| #[trigger] post.has_region(ax, ay) <==> (old(
                self,
            ).has_region(ax, ay) && !region_expired(old(self).region_at(ax, ay), now)) by {
                if post.has_region(ax, ay) {
                    let j = post.region_index(ax, ay);
                    assert(0 <= j < post.regions@.len() && post.regions@[j].region_x == ax
                        && post.regions@[j].region_y == ay);
                    orig.lemma_filter_pred(p, j);
                    let v = post.regions@[j];
                    assert(orig.filter(p).contains(v));
                    assert(orig.contains(v));
                    let jo = choose|jo: int| 0 <= jo < orig.len() && orig[jo] == v;
                    lemma_region_lookup::<G>(*old(self), jo);
                    assert(old(self).has_region(ax, ay));
                    assert(old(self).region_at(ax, ay) == v);
                    assert(!region_expired(v, now));
                    lemma_region_lookup::<G>(post, j);
                    assert(post.region_at(ax, ay) == v);
                }
                if old(self).has_region(ax, ay) && !region_expired(
                    old(self).region_at(ax, ay),
                    now,
                ) {
                    let jo = old(self).region_index(ax, ay);
                    assert(0 <= jo < orig.len() && orig[jo].region_x == ax && orig[jo].region_y
                        == ay);
                    lemma_region_lookup::<G>(*old(self), jo);
                    let v = orig[jo];
                    assert(p(v));
                    orig.lemma_filter_contains(p, jo);
                    assert(orig.filter(p).contains(v));
                    let j = choose|j: int|
                        0 <= j < orig.filter(p).len() && orig.filter(p)[j] == v;
                    assert(post.regions@[j] == v);
                    assert(post.has_region(ax, ay));
                }
            }
            assert forall|ax: i64, ay: i64|
                old(self).has_region(ax, ay) && !region_expired(old(self).region_at(ax, ay), now)
                    implies (#[trigger] post.region_at(ax, ay)) == old(self).region_at(ax, ay) by {
                assert(post.has_region(ax, ay));
                let j = post.region_index(ax, ay);
                orig.lemma_filter_pred(p, j);
                let v = post.regions@[j];
                assert(orig.filter(p).contains(v));
                assert(orig.contains(v));
                let jo = choose|jo: int| 0 <= jo < orig.len() && orig[jo] == v;
                lemma_region_lookup::<G>(*old(self), jo);
                lemma_region_lookup::<G>(post, j);
                assert(old(self).region_at(ax, ay) == v);
                assert(post.region_at(ax, ay) == v);
            }
        }
    }
}

/// Keep a region in the cache only while it is not expired.
pub open spec fn keep_region(now: i64) -> spec_fn(Region) -> bool {
    |r: Region| !region_expired(r, now)
}

/// Filtering a sequence of coordinate-distinct regions keeps the
/// coordinates distinct, and yields only regions of the original sequence.
proof fn lemma_filter_regions_distinct(s: Seq<Region>, p: spec_fn(Region) -> bool)
    requires
        regions_distinct(s),
    ensures
        regions_distinct(s.filter(p)),
        forall|x: Region| #[trigger] s.filter(p).contains(x) ==> s.contains(x),
    decreases s.len(),
{
    reveal(Seq::filter);
    if s.len() == 0 {
    } else {
        let prefix = s.drop_last();
        assert forall|i: int, j: int| 0 <= i < j < prefix.len() implies !((
        #[trigger] prefix[i]).region_x == (#[trigger] prefix[j]).region_x && prefix[i].region_y
            == prefix[j].region_y) by {
            assert(prefix[i] == s[i] && prefix[j] == s[j]);
            assert(!(s[i].region_x == s[j].region_x && s[i].region_y == s[j].region_y));
        }
        lemma_filter_regions_distinct(prefix, p);
        let f = s.filter(p);
        let fp = prefix.filter(p);
        assert forall|x: Region| #[trigger] f.contains(x) implies s.contains(x) by {
            let j = choose|j: int| 0 <= j < f.len() && f[j] == x;
            if p(s.last()) {
                assert(f == fp.push(s.last()));
                if j < fp.len() {
                    assert(fp[j] == x);
                    assert(fp.contains(x));
                    assert(prefix.contains(x));
                    let jo = choose|jo: int| 0 <= jo < prefix.len() && prefix[jo] == x;
                    assert(s[jo] == x);
                } else {
                    assert(x == s.last());
                    assert(s[s.len() - 1] == x);
                }
            } else {
                assert(f == fp);
                assert(fp.contains(x));
                assert(prefix.contains(x));
                let jo = choose|jo: int| 0 <= jo < prefix.len() && prefix[jo] == x;
                assert(s[jo] == x);
            }
        }
        assert forall|i: int, j: int| 0 <= i < j < f.len() implies !((#[trigger] f[i]).region_x == (
        #[trigger] f[j]).region_x && f[i].region_y == f[j].region_y) by {
            if p(s.last()) {
                assert(f == fp.push(s.last()));
                if j < fp.len() {
                    assert(fp[i] == f[i] && fp[j] == f[j]);
                } else {
                    assert(f[j] == s.last());
                    assert(fp[i] == f[i]);
                    assert(fp.contains(f[i]));
                    assert(prefix.contains(f[i]));
                    let jo = choose|jo: int| 0 <= jo < prefix.len() && prefix[jo] == f[i];
                    assert(s[jo] == f[i]);
                    assert(!(s[jo].region_x == s[s.len() - 1].region_x && s[jo].region_y == s[s.len()
                        - 1].region_y));
                }
            } else {
                assert(f == fp);
                assert(fp[i] == f[i] && fp[j] == f[j]);
            }
        }
    }
}

/// In a well-formed manager the region at any index is the one its own
/// coordinate looks up.
proof fn lemma_region_lookup<G: Generator>(m: WorldManager<G>, i: int)
    requires
        m.wf(),
        0 <= i < m.regions.len(),
    ensures
        m.has_region(m.regions@[i].region_x, m.regions@[i].region_y),
        m.region_index(m.regions@[i].region_x, m.regions@[i].region_y) == i,
        m.region_at(m.regions@[i].region_x, m.regions@[i].region_y) == m.regions@[i],
{
    let rx = m.regions@[i].region_x;
    let ry = m.regions@[i].region_y;
    assert(m.has_region(rx, ry));
    let j = m.region_index(rx, ry);
    assert(0 <= j < m.regions.len() && m.regions@[j].region_x == rx && m.regions@[j].region_y
        == ry);
    if i != j {
        assert(!(m.regions@[if i < j {
            i
        } else {
            j
        }].region_x == m.regions@[if i < j {
            j
        } else {
            i
        }].region_x && m.regions@[if i < j {
            i
        } else {
            j
        }].region_y == m.regions@[if i < j {
            j
        } else {
            i
        }].region_y));
    }
}

/// After at most appending a fresh region for `(rx, ry)` and then replacing
/// the region at `idx` by one with the same coordinate, the manager is
/// still well formed, `(rx, ry)` resolves to slot `idx`, and every other
/// coordinate keeps the region it had.
proof fn lemma_frame_after_update<G: Generator>(
    pre: WorldManager<G>,
    mid: WorldManager<G>,
    post: WorldManager<G>,
    idx: int,
    rx: i64,
    ry: i64,
)
    requires
        pre.wf(),
        mid.wf(),
        post.gen == mid.gen,
        0 <= idx < mid.regions@.len(),
        mid.regions@[idx].region_x == rx,
        mid.regions@[idx].region_y == ry,
        mid.regions@.len() == pre.regions@.len() || mid.regions@.len() == pre.regions@.len() + 1,
        forall|j: int| 0 <= j < pre.regions@.len() ==> mid.regions@[j] == (#[trigger] pre.regions@[j]),
        mid.regions@.len() == pre.regions@.len() + 1 ==> !pre.has_region(rx, ry) && idx
            == pre.regions@.len(),
        mid.regions@.len() == pre.regions@.len() ==> pre.has_region(rx, ry),
        post.regions@ == mid.regions@.update(idx, post.regions@[idx]),
        post.regions@[idx].region_x == rx,
        post.regions@[idx].region_y == ry,
        post.regions@[idx].wf(),
    ensures
        post.wf(),
        post.has_region(rx, ry),
        post.region_index(rx, ry) == idx,
        post.region_at(rx, ry) == post.regions@[idx],
        post.regions@.len() == pre.regions@.len() + (if pre.has_region(rx, ry) {
            0int
        } else {
            1int
        }),
        forall|ax: i64, ay: i64|
            !(ax == rx && ay == ry) ==> ((#[trigger] post.has_region(ax, ay)) == pre.has_region(
                ax,
                ay,
            ) && (pre.has_region(ax, ay) ==> post.region_at(ax, ay) == pre.region_at(ax, ay))),
{
    assert forall|i: int| 0 <= i < post.regions@.len() implies (#[trigger] post.regions@[i]).wf() by {
        if i != idx {
            assert(post.regions@[i] == mid.regions@[i]);
        }
    }
    assert forall|i: int, j: int| 0 <= i < j < post.regions@.len() implies !((
    #[trigger] post.regions@[i]).region_x == (#[trigger] post.regions@[j]).region_x
        && post.regions@[i].region_y == post.regions@[j].region_y) by {
        assert(post.regions@[i].region_x == mid.regions@[i].region_x && post.regions@[i].region_y
            == mid.regions@[i].region_y);
        assert(post.regions@[j].region_x == mid.regions@[j].region_x && post.regions@[j].region_y
            == mid.regions@[j].region_y);
        assert(!(mid.regions@[i].region_x == mid.regions@[j].region_x && mid.regions@[i].region_y
            == mid.regions@[j].region_y));
    }
    lemma_region_lookup::<G>(post, idx);
    assert forall|ax: i64, ay: i64| !(ax == rx && ay == ry) implies ((#[trigger] post.has_region(
        ax,
        ay,
    )) == pre.has_region(ax, ay) && (pre.has_region(ax, ay) ==> post.region_at(ax, ay)
        == pre.region_at(ax, ay))) by {
        if pre.has_region(ax, ay) {
            let j = pre.region_index(ax, ay);
            assert(0 <= j < pre.regions@.len() && pre.regions@[j].region_x == ax
                && pre.regions@[j].region_y == ay);
            assert(mid.regions@[j] == pre.regions@[j]);
            assert(j != idx);
            assert(post.regions@[j] == pre.regions@[j]);
            lemma_region_lookup::<G>(post, j);
            lemma_region_lookup::<G>(pre, j);
            assert(post.has_region(ax, ay));
            assert(post.region_at(ax, ay) == pre.region_at(ax, ay));
        }
        if post.has_region(ax, ay) {
            let j = post.region_index(ax, ay);
            assert(0 <= j < post.regions@.len() && post.regions@[j].region_x == ax
                && post.regions@[j].region_y == ay);
            assert(j != idx);
            assert(post.regions@[j] == mid.regions@[j]);
            if j < pre.regions@.len() {
                assert(pre.regions@[j] == mid.regions@[j]);
                assert(pre.has_region(ax, ay));
            } else {
                assert(false);
            }
        }
    }
}

} // verus!
