//! Meshing: compacts a chunk's block grid into rectangles of uniform block
//! type for rendering. The greedy mesher merges runs of identical non-air
//! blocks into maximal rectangles; the emitted rectangles never overlap and
//! together cover exactly the non-air cells of the chunk.

use vstd::prelude::*;

use crate::blocks::Block;
use crate::chunks::Chunk;

verus! {

/// Distinguishes culled meshes from greedy ones.
#[derive(Clone, Copy, PartialEq, Eq, Structural, Debug)]
pub enum MeshType {
    CULLED,
    GREEDY,
}

/// An axis-aligned rectangle in local chunk coordinates.
#[derive(Clone, Copy, PartialEq, Eq, Structural, Debug)]
pub struct Rect {
    pub x: u8,
    pub y: u8,
    pub w: u8,
    pub h: u8,
}

/// Cell `(x, y)` lies inside the rectangle.
pub open spec fn rect_covers(r: Rect, x: int, y: int) -> bool {
    r.x <= x < r.x + r.w && r.y <= y < r.y + r.h
}

/// The rectangle is non-degenerate and lies inside the 16x16 grid.
pub open spec fn rect_in_bounds(r: Rect) -> bool {
    1 <= r.w && 1 <= r.h && r.x + r.w <= 16 && r.y + r.h <= 16
}

/// The block of the row-major 16x16 grid at `(x, y)`.
pub open spec fn cell_at(blocks: Seq<Block>, x: int, y: int) -> Block {
    blocks[x + 16 * y]
}

/// Some rectangle of the mesh covers cell `(x, y)`.
pub open spec fn mesh_covers(m: Seq<(Block, Rect)>, x: int, y: int) -> bool {
    exists|i: int| 0 <= i < m.len() && rect_covers(#[trigger] m[i].1, x, y)
}

/// Every rectangle of the mesh lies in bounds, carries a non-air block type,
/// and every grid cell it covers holds exactly that block type.
pub open spec fn mesh_rects_match(m: Seq<(Block, Rect)>, blocks: Seq<Block>) -> bool {
    forall|i: int|
        0 <= i < m.len() ==> {
            &&& rect_in_bounds((#[trigger] m[i]).1)
            &&& m[i].0 != Block::Air
            &&& forall|x: int, y: int|
                #[trigger] rect_covers(m[i].1, x, y) ==> cell_at(blocks, x, y) == m[i].0
        }
}

/// No two rectangles of the mesh overlap.
pub open spec fn mesh_disjoint(m: Seq<(Block, Rect)>) -> bool {
    forall|i: int, j: int, x: int, y: int|
        0 <= i < j < m.len() ==> !(#[trigger] rect_covers(m[i].1, x, y)
            && #[trigger] rect_covers(m[j].1, x, y))
}

/// The mesh partitions the non-air cells of the grid: its rectangles are
/// disjoint, each covers only cells of its own (non-air) block type, and
/// every non-air cell is covered.
pub open spec fn mesh_partitions(m: Seq<(Block, Rect)>, blocks: Seq<Block>) -> bool {
    &&& mesh_rects_match(m, blocks)
    &&& mesh_disjoint(m)
    &&& forall|x: int, y: int|
        0 <= x < 16 && 0 <= y < 16 && cell_at(blocks, x, y) != Block::Air
            ==> #[trigger] mesh_covers(m, x, y)
}

/// An ordered list of (block type, rectangle) pairs describing how to draw a
/// chunk.
pub struct ChunkMesh {
    pub mesh_type: MeshType,
    pub mesh: Vec<(Block, Rect)>,
}

/// Tracking invariant of the greedy sweep: a scratch cell is air exactly
/// where the original cell was consumed by an emitted rectangle, and holds
/// the original block everywhere else.
spec fn scratch_tracks(m: Seq<(Block, Rect)>, scratch: Seq<Block>, orig: Seq<Block>) -> bool {
    forall|x: int, y: int|
        0 <= x < 16 && 0 <= y < 16 ==> #[trigger] cell_at(scratch, x, y) == (if mesh_covers(
            m,
            x,
            y,
        ) {
            Block::Air
        } else {
            cell_at(orig, x, y)
        })
}

/// Height of the run at `(x, y)`: starting from a candidate height `h`, the
/// run grows downward while the next row of the column holds `bt`.
pub open spec fn grow_h(s: Seq<Block>, x: int, y: int, bt: Block, h: int) -> int
    decreases 16 - (y + h),
{
    if y + h < 16 && cell_at(s, x, y + h) == bt {
        grow_h(s, x, y, bt, h + 1)
    } else {
        h
    }
}

/// Rows `y..y + h` of column `x` all hold `bt`.
pub open spec fn col_matches(s: Seq<Block>, x: int, y: int, h: int, bt: Block) -> bool {
    forall|cy: int| y <= cy < y + h ==> cell_at(s, x, cy) == bt
}

/// Width of the run: starting from a candidate width `w`, the run grows
/// rightward while the next whole column keeps `bt` over the run's rows.
pub open spec fn grow_w(s: Seq<Block>, x: int, y: int, h: int, bt: Block, w: int) -> int
    decreases 16 - (x + w),
{
    if x + w < 16 && col_matches(s, x + w, y, h, bt) {
        grow_w(s, x, y, h, bt, w + 1)
    } else {
        w
    }
}

/// The grid with the rectangle's cells consumed (turned to air).
pub open spec fn mark_rect(s: Seq<Block>, r: Rect) -> Seq<Block> {
    Seq::new(s.len(), |i: int| if rect_covers(r, i % 16, i / 16) {
        Block::Air
    } else {
        s[i]
    })
}

/// Growing a run keeps the candidate as a lower bound and never leaves the
/// grid.
proof fn lemma_grow_h_bounds(s: Seq<Block>, x: int, y: int, bt: Block, h: int)
    requires
        1 <= h,
        y + h <= 16,
    ensures
        h <= grow_h(s, x, y, bt, h),
        y + grow_h(s, x, y, bt, h) <= 16,
    decreases 16 - (y + h),
{
    if y + h < 16 && cell_at(s, x, y + h) == bt {
        lemma_grow_h_bounds(s, x, y, bt, h + 1);
    }
}

/// The greedy sweep from position `(x, y)` on, scanning the column
/// downward, then the columns to the right: skip air, grow each run to its
/// rectangle, consume it, and continue below it.
pub open spec fn greedy_from(s: Seq<Block>, x: int, y: int) -> Seq<(Block, Rect)>
    decreases 16 - x, 16 - y,
    via greedy_from_decreases
{
    if x >= 16 {
        Seq::empty()
    } else if y >= 16 {
        greedy_from(s, x + 1, 0)
    } else if cell_at(s, x, y) == Block::Air {
        greedy_from(s, x, y + 1)
    } else {
        let bt = cell_at(s, x, y);
        let h = grow_h(s, x, y, bt, 1);
        let w = grow_w(s, x, y, h, bt, 1);
        let r = (Rect { x: x as u8, y: y as u8, w: w as u8, h: h as u8 });
        seq![(bt, r)] + greedy_from(mark_rect(s, r), x, y + h)
    }
}

#[via_fn]
proof fn greedy_from_decreases(s: Seq<Block>, x: int, y: int) {
    if x < 16 && y < 16 && cell_at(s, x, y) != Block::Air {
        lemma_grow_h_bounds(s, x, y, cell_at(s, x, y), 1);
    }
}

/// The mesh the greedy mesher produces for a block grid.
pub open spec fn greedy_mesh_spec(blocks: Seq<Block>) -> Seq<(Block, Rect)> {
    greedy_from(blocks, 0, 0)
}

/// The sweep skips an air cell.
proof fn lemma_greedy_step_air(s: Seq<Block>, x: int, y: int)
    requires
        0 <= x < 16,
        0 <= y < 16,
        cell_at(s, x, y) == Block::Air,
    ensures
        greedy_from(s, x, y) == greedy_from(s, x, y + 1),
{
}

/// The sweep moves to the next column at the bottom of a column.
proof fn lemma_greedy_step_col(s: Seq<Block>, x: int, y: int)
    requires
        0 <= x < 16,
        y >= 16,
    ensures
        greedy_from(s, x, y) == greedy_from(s, x + 1, 0),
{
}

/// At a non-air cell the sweep emits the grown rectangle, consumes it, and
/// continues below the run.
proof fn lemma_greedy_step_rect(s: Seq<Block>, x: int, y: int, bt: Block, h: int, w: int, r: Rect)
    requires
        0 <= x < 16,
        0 <= y < 16,
        cell_at(s, x, y) == bt,
        bt != Block::Air,
        h == grow_h(s, x, y, bt, 1),
        w == grow_w(s, x, y, h, bt, 1),
        r == (Rect { x: x as u8, y: y as u8, w: w as u8, h: h as u8 }),
    ensures
        greedy_from(s, x, y) == seq![(bt, r)] + greedy_from(mark_rect(s, r), x, y + h),
{
}

/// Area of the rectangle, in cells.
pub open spec fn rect_area(r: Rect) -> int {
    r.w * r.h
}

/// Sum of the areas of the mesh's rectangles.
pub open spec fn mesh_area(m: Seq<(Block, Rect)>) -> int
    decreases m.len(),
{
    if m.len() == 0 {
        0
    } else {
        mesh_area(m.drop_last()) + rect_area(m.last().1)
    }
}

/// Number of non-air cells in row `y` with x-coordinate below `upto_x`.
pub open spec fn non_air_in_row(blocks: Seq<Block>, y: int, upto_x: int) -> int
    decreases upto_x,
{
    if upto_x <= 0 {
        0
    } else {
        non_air_in_row(blocks, y, upto_x - 1) + if cell_at(blocks, upto_x - 1, y) != Block::Air {
            1int
        } else {
            0int
        }
    }
}

/// Number of non-air cells in the rows below `upto_y` of the 16-wide grid.
pub open spec fn non_air_count(blocks: Seq<Block>, upto_y: int) -> int
    decreases upto_y,
{
    if upto_y <= 0 {
        0
    } else {
        non_air_count(blocks, upto_y - 1) + non_air_in_row(blocks, upto_y - 1, 16)
    }
}

/// Number of cells of row `y` below `upto_x` covered by the mesh.
spec fn covered_in_row(m: Seq<(Block, Rect)>, y: int, upto_x: int) -> int
    decreases upto_x,
{
    if upto_x <= 0 {
        0
    } else {
        covered_in_row(m, y, upto_x - 1) + if mesh_covers(m, upto_x - 1, y) {
            1int
        } else {
            0int
        }
    }
}

/// Number of cells in the rows below `upto_y` covered by the mesh.
spec fn covered_count(m: Seq<(Block, Rect)>, upto_y: int) -> int
    decreases upto_y,
{
    if upto_y <= 0 {
        0
    } else {
        covered_count(m, upto_y - 1) + covered_in_row(m, upto_y - 1, 16)
    }
}

/// Number of cells of row `y` below `upto_x` covered by the rectangle.
spec fn rect_in_row(r: Rect, y: int, upto_x: int) -> int
    decreases upto_x,
{
    if upto_x <= 0 {
        0
    } else {
        rect_in_row(r, y, upto_x - 1) + if rect_covers(r, upto_x - 1, y) {
            1int
        } else {
            0int
        }
    }
}

/// Number of cells in the rows below `upto_y` covered by the rectangle.
spec fn rect_count(r: Rect, upto_y: int) -> int
    decreases upto_y,
{
    if upto_y <= 0 {
        0
    } else {
        rect_count(r, upto_y - 1) + rect_in_row(r, upto_y - 1, 16)
    }
}

/// Closed form of `rect_in_row`: a rectangle covers `w` cells of each of its
/// rows, clipped at `upto_x`, and none of any other row.
proof fn lemma_rect_in_row(r: Rect, y: int, upto_x: int)
    requires
        0 <= upto_x <= 16,
    ensures
        rect_in_row(r, y, upto_x) == (if r.y <= y < r.y + r.h {
            if upto_x <= r.x {
                0int
            } else if upto_x >= r.x + r.w {
                r.w as int
            } else {
                upto_x - r.x
            }
        } else {
            0int
        }),
    decreases upto_x,
{
    if upto_x > 0 {
        lemma_rect_in_row(r, y, upto_x - 1);
    }
}

/// Closed form of `rect_count`: an in-bounds rectangle covers `w * h` cells
/// of the grid, `w` per row it meets.
proof fn lemma_rect_count(r: Rect, upto_y: int)
    requires
        rect_in_bounds(r),
        0 <= upto_y <= 16,
    ensures
        rect_count(r, upto_y) == r.w * (if upto_y <= r.y {
            0int
        } else if upto_y >= r.y + r.h {
            r.h as int
        } else {
            upto_y - r.y
        }),
    decreases upto_y,
{
    if upto_y > 0 {
        lemma_rect_count(r, upto_y - 1);
        lemma_rect_in_row(r, upto_y - 1, 16);
        let prev = (if upto_y - 1 <= r.y {
            0int
        } else if upto_y - 1 >= r.y + r.h {
            r.h as int
        } else {
            upto_y - 1 - r.y
        });
        let cur = (if upto_y <= r.y {
            0int
        } else if upto_y >= r.y + r.h {
            r.h as int
        } else {
            upto_y - r.y
        });
        if r.y <= upto_y - 1 < r.y + r.h {
            assert(cur == prev + 1);
            assert(r.w * cur == r.w * prev + r.w) by (nonlinear_arith)
                requires
                    cur == prev + 1,
            ;
            assert(rect_in_row(r, upto_y - 1, 16) == r.w);
        } else {
            assert(cur == prev);
            assert(rect_in_row(r, upto_y - 1, 16) == 0);
        }
    }
}

/// Appending a rectangle to a mesh covers exactly the cells covered before
/// plus those of the new rectangle.
proof fn lemma_mesh_covers_push(m: Seq<(Block, Rect)>, e: (Block, Rect), x: int, y: int)
    ensures
        mesh_covers(m.push(e), x, y) <==> (mesh_covers(m, x, y) || rect_covers(e.1, x, y)),
{
    if mesh_covers(m, x, y) {
        let i = choose|i: int| 0 <= i < m.len() && rect_covers(#[trigger] m[i].1, x, y);
        assert(m.push(e)[i].1 == m[i].1);
        assert(mesh_covers(m.push(e), x, y));
    }
    if rect_covers(e.1, x, y) {
        assert(m.push(e)[m.len() as int].1 == e.1);
        assert(mesh_covers(m.push(e), x, y));
    }
    if mesh_covers(m.push(e), x, y) {
        let i = choose|i: int|
            0 <= i < m.push(e).len() && rect_covers(#[trigger] m.push(e)[i].1, x, y);
        if i < m.len() {
            assert(m[i].1 == m.push(e)[i].1);
            assert(mesh_covers(m, x, y));
        } else {
            assert(m.push(e)[i].1 == e.1);
        }
    }
}

/// With the last rectangle disjoint from the rest of the mesh, per-row
/// coverage counts add.
proof fn lemma_covered_in_row_additive(m: Seq<(Block, Rect)>, y: int, upto_x: int)
    requires
        m.len() > 0,
        mesh_disjoint(m),
        0 <= upto_x <= 16,
    ensures
        covered_in_row(m, y, upto_x) == covered_in_row(m.drop_last(), y, upto_x) + rect_in_row(
            m.last().1,
            y,
            upto_x,
        ),
    decreases upto_x,
{
    if upto_x > 0 {
        lemma_covered_in_row_additive(m, y, upto_x - 1);
        let x = upto_x - 1;
        let prefix = m.drop_last();
        let e = m.last();
        assert(prefix.push(e) =~= m);
        lemma_mesh_covers_push(prefix, e, x, y);
        if mesh_covers(prefix, x, y) && rect_covers(e.1, x, y) {
            let i = choose|i: int|
                0 <= i < prefix.len() && rect_covers(#[trigger] prefix[i].1, x, y);
            assert(m[i].1 == prefix[i].1);
            assert(rect_covers(m[i].1, x, y) && rect_covers(m[m.len() - 1].1, x, y));
            assert(false);
        }
    }
}

/// With the last rectangle disjoint from the rest of the mesh, grid
/// coverage counts add.
proof fn lemma_covered_count_additive(m: Seq<(Block, Rect)>, upto_y: int)
    requires
        m.len() > 0,
        mesh_disjoint(m),
        0 <= upto_y <= 16,
    ensures
        covered_count(m, upto_y) == covered_count(m.drop_last(), upto_y) + rect_count(
            m.last().1,
            upto_y,
        ),
    decreases upto_y,
{
    if upto_y > 0 {
        lemma_covered_count_additive(m, upto_y - 1);
        lemma_covered_in_row_additive(m, upto_y - 1, 16);
    }
}

/// A prefix of a disjoint mesh is disjoint.
proof fn lemma_disjoint_prefix(m: Seq<(Block, Rect)>)
    requires
        mesh_disjoint(m),
        m.len() > 0,
    ensures
        mesh_disjoint(m.drop_last()),
{
    let prefix = m.drop_last();
    assert forall|i: int, j: int, x: int, y: int|
        0 <= i < j < prefix.len() implies !(rect_covers(prefix[i].1, x, y) && rect_covers(
        prefix[j].1,
        x,
        y,
    )) by {
        assert(prefix[i] == m[i] && prefix[j] == m[j]);
        assert(!(rect_covers(m[i].1, x, y) && rect_covers(m[j].1, x, y)));
    }
}

/// A disjoint mesh of in-bounds rectangles covers exactly as many grid
/// cells as its rectangles have area.
proof fn lemma_area_equals_covered(m: Seq<(Block, Rect)>)
    requires
        mesh_disjoint(m),
        forall|i: int| 0 <= i < m.len() ==> rect_in_bounds((#[trigger] m[i]).1),
    ensures
        mesh_area(m) == covered_count(m, 16),
    decreases m.len(),
{
    if m.len() == 0 {
        assert forall|y: int| 0 <= y <= 16 implies covered_count(m, y) == 0 by {
            assert forall|yy: int, x: int| 0 <= x <= 16 implies covered_in_row(m, yy, x) == 0 by {
                lemma_covered_in_row_empty(m, yy, x);
            }
            lemma_covered_count_empty(m, y);
        }
    } else {
        let prefix = m.drop_last();
        lemma_disjoint_prefix(m);
        assert forall|i: int| 0 <= i < prefix.len() implies rect_in_bounds(
            (#[trigger] prefix[i]).1,
        ) by {
            assert(prefix[i] == m[i]);
        }
        lemma_area_equals_covered(prefix);
        lemma_covered_count_additive(m, 16);
        assert(rect_in_bounds(m[m.len() - 1].1));
        lemma_rect_count(m.last().1, 16);
    }
}

/// An empty mesh covers no cell of a row.
proof fn lemma_covered_in_row_empty(m: Seq<(Block, Rect)>, y: int, upto_x: int)
    requires
        m.len() == 0,
        upto_x >= 0,
    ensures
        covered_in_row(m, y, upto_x) == 0,
    decreases upto_x,
{
    if upto_x > 0 {
        lemma_covered_in_row_empty(m, y, upto_x - 1);
    }
}

/// An empty mesh covers no cell of the grid.
proof fn lemma_covered_count_empty(m: Seq<(Block, Rect)>, upto_y: int)
    requires
        m.len() == 0,
        upto_y >= 0,
    ensures
        covered_count(m, upto_y) == 0,
    decreases upto_y,
{
    if upto_y > 0 {
        lemma_covered_count_empty(m, upto_y - 1);
        lemma_covered_in_row_empty(m, upto_y - 1, 16);
    }
}

/// In a partitioning mesh, a row's covered cells are exactly its non-air
/// cells.
proof fn lemma_non_air_equals_covered_row(
    m: Seq<(Block, Rect)>,
    blocks: Seq<Block>,
    y: int,
    upto_x: int,
)
    requires
        mesh_partitions(m, blocks),
        0 <= y < 16,
        0 <= upto_x <= 16,
    ensures
        non_air_in_row(blocks, y, upto_x) == covered_in_row(m, y, upto_x),
    decreases upto_x,
{
    if upto_x > 0 {
        lemma_non_air_equals_covered_row(m, blocks, y, upto_x - 1);
        let x = upto_x - 1;
        if cell_at(blocks, x, y) != Block::Air {
            assert(mesh_covers(m, x, y));
        }
        if mesh_covers(m, x, y) {
            let i = choose|i: int| 0 <= i < m.len() && rect_covers(#[trigger] m[i].1, x, y);
            assert(cell_at(blocks, x, y) == m[i].0);
            assert(cell_at(blocks, x, y) != Block::Air);
        }
    }
}

/// In a partitioning mesh, the grid's covered cells are exactly its non-air
/// cells.
proof fn lemma_non_air_equals_covered(m: Seq<(Block, Rect)>, blocks: Seq<Block>, upto_y: int)
    requires
        mesh_partitions(m, blocks),
        0 <= upto_y <= 16,
    ensures
        non_air_count(blocks, upto_y) == covered_count(m, upto_y),
    decreases upto_y,
{
    if upto_y > 0 {
        lemma_non_air_equals_covered(m, blocks, upto_y - 1);
        lemma_non_air_equals_covered_row(m, blocks, upto_y - 1, 16);
    }
}

/// Mesh partition law: a mesh that partitions a chunk's non-air cells -- as
/// every mesh produced by the greedy mesher does -- has rectangles whose
/// areas sum to exactly the number of non-air cells of the chunk.
pub proof fn lemma_mesh_area_partition(m: Seq<(Block, Rect)>, blocks: Seq<Block>)
    requires
        mesh_partitions(m, blocks),
    ensures
        mesh_area(m) == non_air_count(blocks, 16),
{
    lemma_non_air_equals_covered(m, blocks, 16);
    assert forall|i: int| 0 <= i < m.len() implies rect_in_bounds((#[trigger] m[i]).1) by {}
    lemma_area_equals_covered(m);
}

impl ChunkMesh {
    /// Compacts the chunk into maximal uniform rectangles: scanning columns
    /// left to right and each column top to bottom, it grows each non-air
    /// run downward, then rightward, and consumes the covered cells.
    #[verifier::loop_isolation(false)]
    #[verifier::rlimit(100)]
    #[verifier::spinoff_prover]
    pub fn greedy_mesh(chunk: &Chunk) -> (m: ChunkMesh)
        requires
            chunk.wf(),
        ensures
            m.mesh_type == MeshType::GREEDY,
            m.mesh@ == greedy_mesh_spec(chunk.blocks@),
            mesh_partitions(m.mesh@, chunk.blocks@),
    {
        let ghost orig = chunk.blocks@;
        let mut blocks: Vec<Block> = Vec::new();
        let mut ci: usize = 0;
        while ci < 256
            invariant
                chunk.wf(),
                ci <= 256,
                blocks.len() == ci,
                forall|k: int| 0 <= k < ci ==> blocks@[k] == orig[k],
            decreases 256 - ci,
        {
            blocks.push(chunk.blocks[ci]);
            ci += 1;
        }
        assert(blocks@ =~= orig);

        let mut mesh: Vec<(Block, Rect)> = Vec::new();
        for x in 0..16usize
            invariant
                blocks.len() == 256,
                mesh_rects_match(mesh@, orig),
                mesh_disjoint(mesh@),
                scratch_tracks(mesh@, blocks@, orig),
                orig.len() == 256,
                orig == chunk.blocks@,
                mesh@ + greedy_from(blocks@, x as int, 0) == greedy_mesh_spec(orig),
                forall|cx: int, cy: int|
                    0 <= cx < x && 0 <= cy < 16 ==> #[trigger] cell_at(blocks@, cx, cy)
                        == Block::Air,
        {
            let mut y: usize = 0;
            while y < 16
                invariant
                    x < 16,
                    y <= 16,
                    blocks.len() == 256,
                    mesh_rects_match(mesh@, orig),
                    mesh_disjoint(mesh@),
                    scratch_tracks(mesh@, blocks@, orig),
                    orig.len() == 256,
                    orig == chunk.blocks@,
                    mesh@ + greedy_from(blocks@, x as int, y as int) == greedy_mesh_spec(orig),
                    forall|cx: int, cy: int|
                        0 <= cx < x && 0 <= cy < 16 ==> #[trigger] cell_at(blocks@, cx, cy)
                            == Block::Air,
                    forall|cy: int| 0 <= cy < y ==> #[trigger] cell_at(blocks@, x as int, cy)
                        == Block::Air,
                decreases 16 - y,
            {
                if blocks[x + y * 16] == Block::Air {
                    proof {
                        lemma_greedy_step_air(blocks@, x as int, y as int);
                    }
                    y += 1;
                } else {
                    let block_type = blocks[x + y * 16];
                    assert(cell_at(blocks@, x as int, y as int) == block_type);

                    // Grow the run downward while the column keeps the type.
                    let mut h: usize = 1;
                    while y + h < 16 && blocks[x + (y + h) * 16] == block_type
                        invariant
                            x < 16,
                            y < 16,
                            1 <= h,
                            y + h <= 16,
                            blocks.len() == 256,
                            grow_h(blocks@, x as int, y as int, block_type, h as int) == grow_h(
                                blocks@,
                                x as int,
                                y as int,
                                block_type,
                                1,
                            ),
                            forall|cy: int|
                                y <= cy < y + h ==> #[trigger] cell_at(blocks@, x as int, cy)
                                    == block_type,
                        decreases 16 - (y + h),
                    {
                        h += 1;
                    }
                    proof {
                        assert(h as int == grow_h(blocks@, x as int, y as int, block_type, 1));
                    }

                    // Grow rightward while whole columns keep the type.
                    let mut w: usize = 1;
                    let mut stop = false;
                    while !stop && x + w < 16
                        invariant
                            x < 16,
                            y < 16,
                            1 <= h,
                            y + h <= 16,
                            1 <= w,
                            x + w <= 16,
                            blocks.len() == 256,
                            !stop ==> grow_w(
                                blocks@,
                                x as int,
                                y as int,
                                h as int,
                                block_type,
                                w as int,
                            ) == grow_w(blocks@, x as int, y as int, h as int, block_type, 1),
                            stop ==> w as int == grow_w(
                                blocks@,
                                x as int,
                                y as int,
                                h as int,
                                block_type,
                                1,
                            ),
                            forall|cx: int, cy: int|
                                x <= cx < x + w && y <= cy < y + h ==> #[trigger] cell_at(
                                    blocks@,
                                    cx,
                                    cy,
                                ) == block_type,
                        decreases 16 - (x + w), (if stop { 0int } else { 1int }),
                    {
                        let mut ok = true;
                        let mut cy: usize = y;
                        let ghost mut bad: int = 0;
                        while cy < y + h
                            invariant
                                x + w < 16,
                                y <= cy <= y + h,
                                y + h <= 16,
                                blocks.len() == 256,
                                ok ==> forall|r: int|
                                    y <= r < cy ==> #[trigger] cell_at(blocks@, (x + w) as int, r)
                                        == block_type,
                                !ok ==> y <= bad < cy && cell_at(blocks@, (x + w) as int, bad)
                                    != block_type,
                            decreases y + h - cy,
                        {
                            if blocks[(x + w) + cy * 16] != block_type {
                                if ok {
                                    proof {
                                        bad = cy as int;
                                    }
                                }
                                ok = false;
                            }
                            cy += 1;
                        }
                        if ok {
                            proof {
                                assert(col_matches(
                                    blocks@,
                                    (x + w) as int,
                                    y as int,
                                    h as int,
                                    block_type,
                                ));
                            }
                            w += 1;
                        } else {
                            proof {
                                assert(!col_matches(
                                    blocks@,
                                    (x + w) as int,
                                    y as int,
                                    h as int,
                                    block_type,
                                ));
                            }
                            stop = true;
                        }
                    }
                    proof {
                        assert(w as int == grow_w(
                            blocks@,
                            x as int,
                            y as int,
                            h as int,
                            block_type,
                            1,
                        ));
                    }

                    let rect = Rect { x: x as u8, y: y as u8, w: w as u8, h: h as u8 };
                    assert(rect_in_bounds(rect));
                    assert(forall|cx: int, cy: int|
                        rect_covers(rect, cx, cy) ==> #[trigger] cell_at(blocks@, cx, cy)
                            == block_type);
                    let ghost pre_mark = blocks@;
                    proof {
                        // The run's cells hold its (non-air) type, so no
                        // earlier rectangle covers them and they hold the
                        // same type in the original grid.
                        assert forall|cx: int, cy: int| rect_covers(rect, cx, cy) implies {
                            &&& !mesh_covers(mesh@, cx, cy)
                            &&& cell_at(orig, cx, cy) == block_type
                        } by {
                            assert(cell_at(pre_mark, cx, cy) == block_type);
                        }
                    }

                    // Consume the covered cells so they are not reprocessed.
                    let mut dx: usize = 0;
                    while dx < w
                        invariant
                            x + w <= 16,
                            y + h <= 16,
                            dx <= w,
                            blocks.len() == 256,
                            pre_mark.len() == 256,
                            forall|cx: int, cy: int|
                                0 <= cx < 16 && 0 <= cy < 16 ==> #[trigger] cell_at(blocks@, cx, cy)
                                    == (if rect_covers(rect, cx, cy) && cx < x + dx {
                                    Block::Air
                                } else {
                                    cell_at(pre_mark, cx, cy)
                                }),
                        decreases w - dx,
                    {
                        let mut dy: usize = 0;
                        while dy < h
                            invariant
                                x + w <= 16,
                                y + h <= 16,
                                dx < w,
                                dy <= h,
                                blocks.len() == 256,
                                pre_mark.len() == 256,
                                forall|cx: int, cy: int|
                                    0 <= cx < 16 && 0 <= cy < 16 ==> #[trigger] cell_at(
                                        blocks@,
                                        cx,
                                        cy,
                                    ) == (if rect_covers(rect, cx, cy) && (cx < x + dx || (cx == x
                                        + dx && cy < y + dy)) {
                                        Block::Air
                                    } else {
                                        cell_at(pre_mark, cx, cy)
                                    }),
                            decreases h - dy,
                        {
                            let ghost before = blocks@;
                            blocks[(x + dx) + (y + dy) * 16] = Block::Air;
                            proof {
                                assert forall|cx: int, cy: int|
                                    0 <= cx < 16 && 0 <= cy < 16 implies #[trigger] cell_at(
                                    blocks@,
                                    cx,
                                    cy,
                                ) == (if rect_covers(rect, cx, cy) && (cx < x + dx || (cx == x + dx
                                    && cy < y + dy + 1)) {
                                    Block::Air
                                } else {
                                    cell_at(pre_mark, cx, cy)
                                }) by {
                                    if cx == x + dx && cy == y + dy {
                                        assert(cell_at(blocks@, cx, cy) == Block::Air);
                                    } else {
                                        assert(cx + 16 * cy != (x + dx) + (y + dy) * 16);
                                        assert(cell_at(blocks@, cx, cy) == cell_at(before, cx, cy));
                                    }
                                }
                            }
                            dy += 1;
                        }
                        dx += 1;
                    }

                    let ghost old_mesh = mesh@;
                    mesh.push((block_type, rect));
                    proof {
                        assert(mesh@ == old_mesh.push((block_type, rect)));
                        assert forall|cx: int, cy: int| true implies #[trigger] mesh_covers(
                            mesh@,
                            cx,
                            cy,
                        ) == (mesh_covers(old_mesh, cx, cy) || rect_covers(rect, cx, cy)) by {
                            lemma_mesh_covers_push(old_mesh, (block_type, rect), cx, cy);
                        }
                        assert forall|i: int, j: int, cx: int, cy: int|
                            0 <= i < j < mesh@.len() implies !(rect_covers(mesh@[i].1, cx, cy)
                            && rect_covers(mesh@[j].1, cx, cy)) by {
                            if j == mesh@.len() - 1 {
                                assert(mesh@[j].1 == rect);
                                if rect_covers(mesh@[i].1, cx, cy) && rect_covers(rect, cx, cy) {
                                    assert(mesh_covers(old_mesh, cx, cy));
                                }
                            }
                        }
                        assert forall|cx: int, cy: int|
                            0 <= cx < 16 && 0 <= cy < 16 implies #[trigger] cell_at(
                            blocks@,
                            cx,
                            cy,
                        ) == (if mesh_covers(mesh@, cx, cy) {
                            Block::Air
                        } else {
                            cell_at(orig, cx, cy)
                        }) by {
                            if rect_covers(rect, cx, cy) {
                                assert(cell_at(blocks@, cx, cy) == Block::Air);
                            } else {
                                assert(cell_at(blocks@, cx, cy) == cell_at(pre_mark, cx, cy));
                                assert(cell_at(pre_mark, cx, cy) == (if mesh_covers(
                                    old_mesh,
                                    cx,
                                    cy,
                                ) {
                                    Block::Air
                                } else {
                                    cell_at(orig, cx, cy)
                                }));
                            }
                        }
                        assert forall|i: int| 0 <= i < mesh@.len() implies {
                            &&& rect_in_bounds((#[trigger] mesh@[i]).1)
                            &&& mesh@[i].0 != Block::Air
                            &&& forall|cx: int, cy: int|
                                #[trigger] rect_covers(mesh@[i].1, cx, cy) ==> cell_at(
                                    orig,
                                    cx,
                                    cy,
                                ) == mesh@[i].0
                        } by {
                            if i < mesh@.len() - 1 {
                                assert(mesh@[i] == old_mesh[i]);
                            } else {
                                assert(mesh@[i] == (block_type, rect));
                            }
                        }
                        // The step taken matches one unfolding of the
                        // greedy sweep on the pre-consumption scratch grid.
                        assert forall|i: int| 0 <= i < 256 implies blocks@[i] == mark_rect(
                            pre_mark,
                            rect,
                        )[i] by {
                            vstd::arithmetic::div_mod::lemma_fundamental_div_mod(i, 16);
                            let cx = i % 16;
                            let cyy = i / 16;
                            assert(0 <= cx < 16 && 0 <= cyy < 16);
                            assert(cell_at(blocks@, cx, cyy) == blocks@[i]);
                            assert(cell_at(pre_mark, cx, cyy) == pre_mark[i]);
                        }
                        assert(blocks@ =~= mark_rect(pre_mark, rect));
                        lemma_greedy_step_rect(
                            pre_mark,
                            x as int,
                            y as int,
                            block_type,
                            h as int,
                            w as int,
                            rect,
                        );
                        assert(mesh@ =~= old_mesh + seq![(block_type, rect)]);
                        assert((old_mesh + (seq![(block_type, rect)] + greedy_from(
                            blocks@,
                            x as int,
                            y + h,
                        ))) =~= (mesh@ + greedy_from(blocks@, x as int, y + h)));
                        assert(mesh@ + greedy_from(blocks@, x as int, y + h)
                            == greedy_mesh_spec(orig));
                    }
                    y += h;
                }
            }
            proof {
                lemma_greedy_step_col(blocks@, x as int, y as int);
            }
        }
        proof {
            assert(greedy_from(blocks@, 16, 0) =~= Seq::<(Block, Rect)>::empty());
            assert(mesh@ + greedy_from(blocks@, 16, 0) =~= mesh@);
            assert forall|cx: int, cy: int|
                0 <= cx < 16 && 0 <= cy < 16 && cell_at(orig, cx, cy) != Block::Air
                implies #[trigger] mesh_covers(mesh@, cx, cy) by {
                assert(cell_at(blocks@, cx, cy) == Block::Air);
            }
        }
        ChunkMesh { mesh_type: MeshType::GREEDY, mesh }
    }

    /// One unit rectangle per cell of the chunk, air included, in row-major
    /// order.
    pub fn culled_mesh(chunk: &Chunk) -> (m: ChunkMesh)
        requires
            chunk.wf(),
        ensures
            m.mesh_type == MeshType::CULLED,
            m.mesh@.len() == 256,
            forall|i: int|
                0 <= i < 256 ==> #[trigger] m.mesh@[i] == (chunk.blocks@[i], (Rect {
                    x: (i % 16) as u8,
                    y: (i / 16) as u8,
                    w: 1,
                    h: 1,
                })),
    {
        let mut mesh: Vec<(Block, Rect)> = Vec::new();
        let mut i: usize = 0;
        while i < 256
            invariant
                chunk.wf(),
                i <= 256,
                mesh.len() == i,
                forall|k: int|
                    0 <= k < i ==> #[trigger] mesh@[k] == (chunk.blocks@[k], (Rect {
                        x: (k % 16) as u8,
                        y: (k / 16) as u8,
                        w: 1,
                        h: 1,
                    })),
            decreases 256 - i,
        {
            let rect = Rect { x: (i % 16) as u8, y: (i / 16) as u8, w: 1, h: 1 };
            mesh.push((chunk.blocks[i], rect));
            i += 1;
        }
        ChunkMesh { mesh_type: MeshType::CULLED, mesh }
    }

    /// An empty mesh: nothing to draw.
    pub fn empty() -> (m: ChunkMesh)
        ensures
            m.mesh_type == MeshType::CULLED,
            m.mesh@.len() == 0,
    {
        ChunkMesh { mesh_type: MeshType::CULLED, mesh: Vec::new() }
    }
}

} // verus!
