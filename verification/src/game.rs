//! High-level game logic: score accumulation, the placement operation that
//! ties board and scoring together, and the supply generator that only
//! offers shapes guaranteed to fit.

use vstd::prelude::*;
use rand::seq::SliceRandom;
use crate::block::{
    diag_pts, elle_pts, line_pts, rect_pts, rot_l_iter, rot_l_seq, rot_l_pt, tee_pts, Block, Point,
};
use crate::canvas::{
    fits_at, fits_somewhere, grid_cell, lemma_filled_cols_bound, lemma_filled_rows_bound,
    lemma_fits_monotone, lemma_index_decomp, lemma_occupied_full, lemma_place_occupied_bound,
    lemma_place_pointwise, occupied_cells, place, place_and_clear, cleared_by_placing, Canvas,
    PointStatus, DEFAULT_CANVAS_HEIGHT, DEFAULT_CANVAS_WIDTH,
};

verus! {

broadcast use vstd::seq_lib::group_to_multiset_ensures;

/// Points awarded for each cleared line. This implementation fixes the
/// fixed-points-per-line policy: the score grows by 50 per line.
pub const POINTS_PER_LINE_CLEAR: usize = 50;

/// A game session: one board and a score that only grows.
pub struct Game {
    pub canvas: Canvas,
    pub score: usize,
}

/// Every coordinate of every point is small, so rotations stay exact and a
/// shape covers few cells.
pub open spec fn pts_small(s: Seq<Point>) -> bool {
    forall|i: int| 0 <= i < s.len() ==> -9 <= (#[trigger] s[i]).x <= 9 && -9 <= s[i].y <= 9
}

/// The fixed candidate pool the generator draws from: a cross-section of
/// rectangle sizes, the tee, line lengths, elle variants and diagonals,
/// given by their point lists.
pub open spec fn pool() -> Seq<Seq<Point>> {
    seq![
        rect_pts(3, 3),
        rect_pts(3, 2),
        rect_pts(2, 3),
        rect_pts(2, 2),
        rect_pts(1, 1),
        tee_pts(),
        line_pts(2),
        line_pts(3),
        line_pts(4),
        line_pts(5),
        elle_pts(3, 3),
        elle_pts(3, 2),
        elle_pts(2, 3),
        elle_pts(2, 2),
        diag_pts(2),
        diag_pts(3),
        diag_pts(4),
    ]
}

proof fn lemma_rect_pts_props(w: int, h: int)
    requires
        0 <= w <= 3,
        0 <= h <= 3,
    ensures
        rect_pts(w, h).len() == w * h,
        pts_small(rect_pts(w, h)),
    decreases w,
{
    if w > 0 {
        lemma_rect_pts_props(w - 1, h);
        assert((w - 1) * h + h == w * h) by (nonlinear_arith);
        let s = rect_pts(w, h);
        assert forall|i: int| 0 <= i < s.len() implies -9 <= (#[trigger] s[i]).x <= 9 && -9
            <= s[i].y <= 9 by {
            if i < rect_pts(w - 1, h).len() {
                assert(s[i] == rect_pts(w - 1, h)[i]);
            } else {
                assert(s[i] == crate::block::column_pts(w - 1, h)[i - rect_pts(w - 1, h).len()]);
            }
        }
    }
}

/// Every pool entry has at most nine points and small coordinates, and the
/// fifth entry is the single-cell shape.
pub proof fn lemma_pool_entries()
    ensures
        forall|bi: int|
            0 <= bi < pool().len() ==> (#[trigger] pool()[bi]).len() <= 9 && pts_small(
                pool()[bi],
            ),
        pool()[4].len() == 1,
        pool()[4][0] == (Point { x: 0, y: 0 }),
{
    lemma_rect_pts_props(3, 3);
    lemma_rect_pts_props(3, 2);
    lemma_rect_pts_props(2, 3);
    lemma_rect_pts_props(2, 2);
    lemma_rect_pts_props(1, 1);
    assert(rect_pts(0, 1) =~= Seq::<Point>::empty());
    assert(rect_pts(1, 1)[0] == (Point { x: 0, y: 0 }));
}

/// A small-coordinate point list stays small under a left rotation.
proof fn lemma_pts_small_rot_l(s: Seq<Point>)
    requires
        pts_small(s),
    ensures
        pts_small(rot_l_seq(s)),
        rot_l_seq(s).len() == s.len(),
{
    assert forall|i: int|
        0 <= i < rot_l_seq(s).len() implies -9 <= (#[trigger] rot_l_seq(s)[i]).x <= 9 && -9
        <= rot_l_seq(s)[i].y <= 9 by {
        assert(rot_l_seq(s)[i] == rot_l_pt(s[i]));
        assert(-9 <= s[i].x <= 9 && -9 <= s[i].y <= 9);
    }
}

/// The executable candidate pool, one block per pool entry, in pool order.
fn candidate_pool() -> (v: Vec<Block>)
    ensures
        v@.len() == pool().len(),
        forall|i: int| 0 <= i < v@.len() ==> (#[trigger] v@[i])@ == pool()[i],
{
    let mut v: Vec<Block> = Vec::new();
    v.push(Block::rectangle(3, 3));
    v.push(Block::rectangle(3, 2));
    v.push(Block::rectangle(2, 3));
    v.push(Block::rectangle(2, 2));
    v.push(Block::rectangle(1, 1));
    v.push(Block::tee());
    v.push(Block::line(2));
    v.push(Block::line(3));
    v.push(Block::line(4));
    v.push(Block::line(5));
    v.push(Block::elle(3, 3));
    v.push(Block::elle(3, 2));
    v.push(Block::elle(2, 3));
    v.push(Block::elle(2, 2));
    v.push(Block::diagonal(2));
    v.push(Block::diagonal(3));
    v.push(Block::diagonal(4));
    v
}

/// Relies on rand's `SliceRandom::shuffle`, driven by the thread-local
/// generator from `rand::rng`: a Fisher-Yates pass that swaps elements in
/// place, so whatever order comes out, the blocks after the call are exactly
/// a rearrangement of the blocks before it.
#[verifier::external_body]
fn shuffle_blocks(blocks: &mut Vec<Block>)
    ensures
        final(blocks)@.to_multiset() == old(blocks)@.to_multiset(),
{
    blocks.shuffle(&mut rand::rng());
}

/// Whether a point list is one of the four left-rotations of some pool
/// entry.
pub open spec fn is_pool_rotation(s: Seq<Point>) -> bool {
    exists|pi: int, k: int|
        0 <= pi < pool().len() && 0 <= k < 4 && s == #[trigger] rot_l_iter(pool()[pi], k)
}

/// Whether `g2` is `g` with the shape placed at some on-grid origin where it
/// fit.
pub open spec fn placed_somewhere(
    g: Seq<PointStatus>,
    rows: int,
    cols: int,
    pts: Seq<Point>,
    g2: Seq<PointStatus>,
) -> bool {
    exists|ro: int, co: int|
        0 <= ro < rows && 0 <= co < cols && #[trigger] fits_at(g, rows, cols, pts, ro, co) && g2
            == place(g, rows, cols, pts, ro, co)
}

/// What a committed placement on a shadow board yields: the shape also fits
/// any board with fewer occupied cells (such as the real one), the shadow
/// gained at most one occupied cell per shape point, and no cell of it was
/// freed.
proof fn lemma_placed_somewhere_props(
    g: Seq<PointStatus>,
    rows: int,
    cols: int,
    pts: Seq<Point>,
    g2: Seq<PointStatus>,
    actual: Seq<PointStatus>,
)
    requires
        placed_somewhere(g, rows, cols, pts, g2),
        g.len() == rows * cols,
        0 <= rows,
        0 <= cols,
        actual.len() == g.len(),
        forall|k: int|
            0 <= k < actual.len() ==> ((#[trigger] actual[k]) is Occupied ==> g[k] is Occupied),
    ensures
        fits_somewhere(actual, rows, cols, pts),
        g2.len() == g.len(),
        occupied_cells(g2) <= occupied_cells(g) + pts.len(),
        forall|k: int| 0 <= k < g.len() ==> (#[trigger] g2[k]) == g[k] || g2[k] is Occupied,
{
    let (ro, co) = choose|ro: int, co: int|
        0 <= ro < rows && 0 <= co < cols && #[trigger] fits_at(g, rows, cols, pts, ro, co) && g2
            == place(g, rows, cols, pts, ro, co);
    lemma_fits_monotone(actual, g, rows, cols, pts, ro, co);
    lemma_place_occupied_bound(g, rows, cols, pts, ro, co);
    lemma_place_pointwise(g, rows, cols, pts, ro, co);
    assert(fits_at(actual, rows, cols, pts, ro, co));
}

/// The point lists of a sequence of blocks, in order.
pub open spec fn views_of(bs: Seq<Block>) -> Seq<Seq<Point>> {
    bs.map_values(|b: Block| b@)
}

/// Whether placing the shapes front to back, each at some origin where it
/// fits on the board left by its predecessors, can turn `g` into `end`.
pub open spec fn chain_reaches(
    g: Seq<PointStatus>,
    rows: int,
    cols: int,
    shapes: Seq<Seq<Point>>,
    end: Seq<PointStatus>,
) -> bool
    decreases shapes.len(),
{
    if shapes.len() == 0 {
        end == g
    } else {
        exists|ro: int, co: int|
            0 <= ro < rows && 0 <= co < cols && #[trigger] fits_at(g, rows, cols, shapes[0], ro, co)
                && chain_reaches(
                place(g, rows, cols, shapes[0], ro, co),
                rows,
                cols,
                shapes.drop_first(),
                end,
            )
    }
}

/// Whether the shapes can be placed front to back, each fitting the board
/// left by its predecessors.
pub open spec fn chain_placeable(
    g: Seq<PointStatus>,
    rows: int,
    cols: int,
    shapes: Seq<Seq<Point>>,
) -> bool
    decreases shapes.len(),
{
    shapes.len() == 0 || (exists|ro: int, co: int|
        0 <= ro < rows && 0 <= co < cols && #[trigger] fits_at(g, rows, cols, shapes[0], ro, co)
            && chain_placeable(place(g, rows, cols, shapes[0], ro, co), rows, cols, shapes.drop_first()))
}

/// A chain that reaches some end grid extends by one more placement on that
/// end grid.
proof fn lemma_chain_snoc(
    g: Seq<PointStatus>,
    rows: int,
    cols: int,
    shapes: Seq<Seq<Point>>,
    end: Seq<PointStatus>,
    s: Seq<Point>,
    g2: Seq<PointStatus>,
)
    requires
        chain_reaches(g, rows, cols, shapes, end),
        placed_somewhere(end, rows, cols, s, g2),
    ensures
        chain_reaches(g, rows, cols, shapes.push(s), g2),
    decreases shapes.len(),
{
    if shapes.len() == 0 {
        let (ro, co) = choose|ro: int, co: int|
            0 <= ro < rows && 0 <= co < cols && #[trigger] fits_at(end, rows, cols, s, ro, co) && g2
                == place(end, rows, cols, s, ro, co);
        assert(shapes.push(s)[0] == s);
        assert(shapes.push(s).drop_first() =~= Seq::<Seq<Point>>::empty());
        assert(fits_at(g, rows, cols, shapes.push(s)[0], ro, co));
        assert(chain_reaches(place(g, rows, cols, s, ro, co), rows, cols, shapes.push(s).drop_first(), g2));
    } else {
        let (ro, co) = choose|ro: int, co: int|
            0 <= ro < rows && 0 <= co < cols && #[trigger] fits_at(g, rows, cols, shapes[0], ro, co)
                && chain_reaches(
                place(g, rows, cols, shapes[0], ro, co),
                rows,
                cols,
                shapes.drop_first(),
                end,
            );
        lemma_chain_snoc(
            place(g, rows, cols, shapes[0], ro, co),
            rows,
            cols,
            shapes.drop_first(),
            end,
            s,
            g2,
        );
        assert(shapes.push(s)[0] == shapes[0]);
        assert(shapes.push(s).drop_first() =~= shapes.drop_first().push(s));
        assert(fits_at(g, rows, cols, shapes.push(s)[0], ro, co));
        assert(chain_reaches(
            place(g, rows, cols, shapes.push(s)[0], ro, co),
            rows,
            cols,
            shapes.push(s).drop_first(),
            g2,
        ));
    }
}

/// A chain that reaches some end grid is in particular placeable.
proof fn lemma_chain_reaches_placeable(
    g: Seq<PointStatus>,
    rows: int,
    cols: int,
    shapes: Seq<Seq<Point>>,
    end: Seq<PointStatus>,
)
    requires
        chain_reaches(g, rows, cols, shapes, end),
    ensures
        chain_placeable(g, rows, cols, shapes),
    decreases shapes.len(),
{
    if shapes.len() > 0 {
        let (ro, co) = choose|ro: int, co: int|
            0 <= ro < rows && 0 <= co < cols && #[trigger] fits_at(g, rows, cols, shapes[0], ro, co)
                && chain_reaches(
                place(g, rows, cols, shapes[0], ro, co),
                rows,
                cols,
                shapes.drop_first(),
                end,
            );
        lemma_chain_reaches_placeable(
            place(g, rows, cols, shapes[0], ro, co),
            rows,
            cols,
            shapes.drop_first(),
            end,
        );
    }
}

impl Game {
    /// Empty the board and zero the score.
    pub fn reset(&mut self)
        requires
            old(self).canvas.wf(),
        ensures
            final(self).canvas.wf(),
            final(self).canvas.rows == old(self).canvas.rows,
            final(self).canvas.columns == old(self).canvas.columns,
            final(self).score == 0,
            forall|k: int|
                0 <= k < final(self).canvas.grid().len() ==> (#[trigger] final(self).canvas.grid()[k]) is Empty,
    {
        self.canvas.clear_all();
        self.score = 0;
    }

    fn update_score(&mut self, lines_cleared: usize)
        requires
            old(self).score + lines_cleared * POINTS_PER_LINE_CLEAR <= usize::MAX,
        ensures
            final(self).score == old(self).score + lines_cleared * POINTS_PER_LINE_CLEAR,
            final(self).canvas == old(self).canvas,
    {
        self.score = self.score + lines_cleared * POINTS_PER_LINE_CLEAR;
    }

    /// Generate `n` blocks that are guaranteed to fit within the available
    /// playing area: each is drawn against a private shadow copy of the
    /// board that accumulates the hypothetical placements, so every
    /// returned block also fits the real board as it stands now. Blocks
    /// come back in reverse generation order. The batch either fully
    /// succeeds or fully fails; it always succeeds while the board keeps
    /// room for nine cells per requested block.
    pub fn generate_blocks(&self, n: usize) -> (r: Option<Vec<Block>>)
        requires
            self.canvas.wf(),
        ensures
            r matches Some(blocks) ==> blocks@.len() == n,
            r matches Some(blocks) ==> (forall|i: int|
                0 <= i < n ==> fits_somewhere(
                    self.canvas.grid(),
                    self.canvas.rows as int,
                    self.canvas.columns as int,
                    (#[trigger] blocks@[i])@,
                )),
            r matches Some(blocks) ==> (forall|i: int|
                0 <= i < n ==> is_pool_rotation((#[trigger] blocks@[i])@)),
            r matches Some(blocks) ==> chain_placeable(
                self.canvas.grid(),
                self.canvas.rows as int,
                self.canvas.columns as int,
                views_of(blocks@).reverse(),
            ),
            occupied_cells(self.canvas.grid()) + 9 * n <= self.canvas.rows * self.canvas.columns
                ==> r is Some,
    {
        let ghost g0 = self.canvas.grid();
        let ghost r_ = self.canvas.rows as int;
        let ghost c_ = self.canvas.columns as int;
        let mut blocks: Vec<Block> = Vec::new();
        let mut shadow_canvas = self.canvas.clone();
        proof {
            assert(views_of(blocks@) =~= Seq::<Seq<Point>>::empty());
            assert(chain_reaches(g0, r_, c_, views_of(blocks@), shadow_canvas.grid()));
        }
        let mut slot: usize = 0;
        while slot < n
            invariant
                self.canvas.wf(),
                g0 == self.canvas.grid(),
                r_ == self.canvas.rows as int,
                c_ == self.canvas.columns as int,
                shadow_canvas.wf(),
                shadow_canvas.rows as int == r_,
                shadow_canvas.columns as int == c_,
                shadow_canvas.grid().len() == g0.len(),
                slot <= n,
                blocks@.len() == slot,
                occupied_cells(shadow_canvas.grid()) <= occupied_cells(g0) + 9 * slot,
                forall|kk: int|
                    0 <= kk < g0.len() ==> ((#[trigger] g0[kk]) is Occupied
                        ==> shadow_canvas.grid()[kk] is Occupied),
                forall|i: int|
                    0 <= i < slot ==> fits_somewhere(g0, r_, c_, (#[trigger] blocks@[i])@),
                forall|i: int| 0 <= i < slot ==> is_pool_rotation((#[trigger] blocks@[i])@),
                chain_reaches(g0, r_, c_, views_of(blocks@), shadow_canvas.grid()),
            decreases n - slot,
        {
            let ghost shadow_before = shadow_canvas.grid();
            match self.naive_generate_block(&mut shadow_canvas) {
                Some(generated_block) => {
                    proof {
                        lemma_placed_somewhere_props(
                            shadow_before,
                            r_,
                            c_,
                            generated_block@,
                            shadow_canvas.grid(),
                            g0,
                        );
                        lemma_chain_snoc(
                            g0,
                            r_,
                            c_,
                            views_of(blocks@),
                            shadow_before,
                            generated_block@,
                            shadow_canvas.grid(),
                        );
                        assert(views_of(blocks@.push(generated_block)) =~= views_of(
                            blocks@,
                        ).push(generated_block@));
                        assert forall|kk: int|
                            0 <= kk < g0.len() implies ((#[trigger] g0[kk]) is Occupied
                            ==> shadow_canvas.grid()[kk] is Occupied) by {
                            if g0[kk] is Occupied {
                                assert(shadow_before[kk] is Occupied);
                                assert(shadow_canvas.grid()[kk] == shadow_before[kk]
                                    || shadow_canvas.grid()[kk] is Occupied);
                            }
                        }
                    }
                    blocks.push(generated_block);
                },
                None => {
                    proof {
                        if occupied_cells(g0) + 9 * n <= r_ * c_ {
                            lemma_pool_entries();
                            let unit = pool()[4];
                            assert(rot_l_iter(pool()[4], 0) == pool()[4]);
                            assert(!fits_somewhere(shadow_before, r_, c_, unit));
                            assert forall|kk: int|
                                0 <= kk < shadow_before.len() implies (#[trigger] shadow_before[kk])
                                is Occupied by {
                                lemma_index_decomp(r_, c_, kk);
                                let x = kk % c_;
                                let y = kk / c_;
                                assert(unit.len() == 1);
                                assert(unit[0] == (Point { x: 0, y: 0 }));
                                assert(!fits_at(shadow_before, r_, c_, unit, y, x));
                                assert(grid_cell(shadow_before, c_, x + unit[0].x, y + unit[0].y)
                                    is Occupied);
                                assert(grid_cell(shadow_before, c_, x, y) is Occupied);
                            }
                            lemma_occupied_full(shadow_before, shadow_before.len() as int);
                            assert(false);
                        }
                    }
                    return None;
                },
            }
            slot = slot + 1;
        }
        proof {
            lemma_chain_reaches_placeable(g0, r_, c_, views_of(blocks@), shadow_canvas.grid());
        }
        let ghost generation_order = blocks@;
        let mut out: Vec<Block> = Vec::new();
        while blocks.len() > 0
            invariant
                g0 == self.canvas.grid(),
                r_ == self.canvas.rows as int,
                c_ == self.canvas.columns as int,
                chain_placeable(g0, r_, c_, views_of(generation_order)),
                blocks@ + out@.reverse() == generation_order,
                out@.len() + blocks@.len() == n,
                forall|i: int|
                    0 <= i < blocks@.len() ==> fits_somewhere(g0, r_, c_, (#[trigger] blocks@[i])@),
                forall|i: int|
                    0 <= i < blocks@.len() ==> is_pool_rotation((#[trigger] blocks@[i])@),
                forall|i: int|
                    0 <= i < out@.len() ==> fits_somewhere(g0, r_, c_, (#[trigger] out@[i])@),
                forall|i: int|
                    0 <= i < out@.len() ==> is_pool_rotation((#[trigger] out@[i])@),
            decreases blocks@.len(),
        {
            let ghost blocks_prev = blocks@;
            let ghost out_prev = out@;
            if let Some(b) = blocks.pop() {
                out.push(b);
                proof {
                    assert(out@.reverse() =~= seq![b] + out_prev.reverse());
                    assert(blocks@ + out@.reverse() =~= blocks_prev + out_prev.reverse());
                }
            }
        }
        proof {
            assert(out@.reverse() =~= generation_order);
            assert(views_of(out@).reverse() =~= views_of(generation_order));
        }
        Some(out)
    }

    /// Produce one shape that fits somewhere on the given board, drawn from
    /// the shuffled candidate pool, trying all four rotations of each
    /// candidate, and commit the found placement into that board. Fails
    /// only when no candidate fits in any rotation: the board is
    /// effectively full.
    pub fn naive_generate_block(&self, canvas: &mut Canvas) -> (r: Option<Block>)
        requires
            old(canvas).wf(),
        ensures
            final(canvas).wf(),
            final(canvas).rows == old(canvas).rows,
            final(canvas).columns == old(canvas).columns,
            final(canvas).grid().len() == old(canvas).grid().len(),
            r is None ==> final(canvas).grid() == old(canvas).grid(),
            r is None ==> (forall|pi: int, k: int|
                0 <= pi < pool().len() && 0 <= k < 4 ==> !fits_somewhere(
                    old(canvas).grid(),
                    old(canvas).rows as int,
                    old(canvas).columns as int,
                    #[trigger] rot_l_iter(pool()[pi], k),
                )),
            r matches Some(b) ==> pts_small(b@) && b@.len() <= 9,
            r matches Some(b) ==> is_pool_rotation(b@),
            r matches Some(b) ==> placed_somewhere(
                old(canvas).grid(),
                old(canvas).rows as int,
                old(canvas).columns as int,
                b@,
                final(canvas).grid(),
            ),
    {
        let ghost g0 = canvas.grid();
        let ghost r_ = canvas.rows as int;
        let ghost c_ = canvas.columns as int;
        let mut all_blocks = candidate_pool();
        let ghost orig = all_blocks@;
        shuffle_blocks(&mut all_blocks);
        proof {
            lemma_pool_entries();
            all_blocks@.to_multiset_ensures();
            orig.to_multiset_ensures();
            assert(all_blocks@.to_multiset().len() == orig.to_multiset().len());
            assert(all_blocks@.len() == orig.len());
            assert forall|j: int|
                0 <= j < all_blocks@.len() implies exists|pi: int|
                0 <= pi < pool().len() && (#[trigger] all_blocks@[j])@ == pool()[pi] by {
                let b = all_blocks@[j];
                assert(all_blocks@.contains(b));
                assert(all_blocks@.to_multiset().count(b) > 0);
                assert(orig.to_multiset().count(b) > 0);
                assert(orig.contains(b));
                let pi = choose|pi: int| 0 <= pi < orig.len() && orig[pi] == b;
                assert(orig[pi]@ == pool()[pi]);
            }
        }
        let n = all_blocks.len();
        let mut bi: usize = 0;
        while bi < n
            invariant
                canvas.wf(),
                canvas.grid() == g0,
                canvas.rows as int == r_,
                canvas.columns as int == c_,
                old(canvas).rows as int == r_,
                old(canvas).columns as int == c_,
                old(canvas).grid() == g0,
                n == all_blocks@.len(),
                n == pool().len(),
                forall|j: int|
                    0 <= j < n ==> exists|pi: int|
                        0 <= pi < pool().len() && (#[trigger] all_blocks@[j])@ == pool()[pi],
                forall|j: int, kk: int|
                    0 <= j < bi && 0 <= kk < 4 ==> !fits_somewhere(
                        g0,
                        r_,
                        c_,
                        #[trigger] rot_l_iter(all_blocks@[j]@, kk),
                    ),
            decreases n - bi,
        {
            let block_start = &all_blocks[bi];
            let mut block = block_start.clone();
            let ghost base = block@;
            proof {
                lemma_pool_entries();
                let pi = choose|pi: int|
                    0 <= pi < pool().len() && (#[trigger] all_blocks@[bi as int])@ == pool()[pi];
                assert(pts_small(base));
                assert(base.len() <= 9);
            }
            let mut k: usize = 0;
            while k < 4
                invariant
                    canvas.wf(),
                    canvas.grid() == g0,
                    canvas.rows as int == r_,
                    canvas.columns as int == c_,
                    old(canvas).rows as int == r_,
                    old(canvas).columns as int == c_,
                    old(canvas).grid() == g0,
                    k <= 4,
                    bi < n,
                    n == all_blocks@.len(),
                    n == pool().len(),
                    base == all_blocks@[bi as int]@,
                    pts_small(base),
                    base.len() <= 9,
                    block@ == rot_l_iter(base, k as int),
                    pts_small(block@),
                    block@.len() == base.len(),
                    exists|pi: int| 0 <= pi < pool().len() && base == #[trigger] pool()[pi],
                    forall|kk: int|
                        0 <= kk < k ==> !fits_somewhere(
                            g0,
                            r_,
                            c_,
                            #[trigger] rot_l_iter(base, kk),
                        ),
                decreases 4 - k,
            {
                if let Some(rc) = canvas.first_fit(&block) {
                    let playable = canvas.try_make_playable(&block, rc.0, rc.1);
                    if let Some(pb) = playable {
                        canvas.add(&pb);
                        proof {
                            let pi = choose|pi: int|
                                0 <= pi < pool().len() && base == #[trigger] pool()[pi];
                            assert(block@ == rot_l_iter(pool()[pi], k as int));
                            assert(fits_at(
                                old(canvas).grid(),
                                old(canvas).rows as int,
                                old(canvas).columns as int,
                                block@,
                                rc.0 as int,
                                rc.1 as int,
                            ));
                            assert(canvas.grid() == place(
                                old(canvas).grid(),
                                old(canvas).rows as int,
                                old(canvas).columns as int,
                                block@,
                                rc.0 as int,
                                rc.1 as int,
                            ));
                            assert(is_pool_rotation(block@));
                            assert(placed_somewhere(
                                old(canvas).grid(),
                                old(canvas).rows as int,
                                old(canvas).columns as int,
                                block@,
                                canvas.grid(),
                            ));
                        }
                        return Some(block);
                    }
                    proof {
                        // The fit just found guarantees the pairing
                        // validates, so this path cannot be taken.
                        assert(false);
                    }
                }
                proof {
                    assert(!fits_somewhere(g0, r_, c_, rot_l_iter(base, k as int)));
                    lemma_pts_small_rot_l(block@);
                    assert forall|i: int|
                        0 <= i < block@.len() implies (#[trigger] block@[i]).y > i32::MIN by {
                        assert(-9 <= block@[i].y);
                    }
                }
                block.rotate_left();
                k = k + 1;
            }
            bi = bi + 1;
        }
        proof {
            assert forall|pi: int, kk: int|
                0 <= pi < pool().len() && 0 <= kk < 4 implies !fits_somewhere(
                g0,
                r_,
                c_,
                #[trigger] rot_l_iter(pool()[pi], kk),
            ) by {
                all_blocks@.to_multiset_ensures();
                orig.to_multiset_ensures();
                let b = orig[pi];
                assert(orig.contains(b));
                assert(orig.to_multiset().count(b) > 0);
                assert(all_blocks@.to_multiset().count(b) > 0);
                assert(all_blocks@.contains(b));
                let j = choose|j: int| 0 <= j < all_blocks@.len() && all_blocks@[j] == b;
                assert(all_blocks@[j]@ == pool()[pi]);
                assert(!fits_somewhere(g0, r_, c_, rot_l_iter(all_blocks@[j]@, kk)));
            }
        }
        None
    }

    /// Validate the placement, and on success add the block, clear the
    /// lines it completed, and award points per cleared line. A failed
    /// placement changes nothing.
    pub fn maybe_place_block(&mut self, block: &Block, row: i32, column: i32) -> (r: Result<
        (),
        &'static str,
    >)
        requires
            old(self).canvas.wf(),
            old(self).score + (old(self).canvas.rows + old(self).canvas.columns)
                * POINTS_PER_LINE_CLEAR <= usize::MAX,
        ensures
            final(self).canvas.wf(),
            final(self).canvas.rows == old(self).canvas.rows,
            final(self).canvas.columns == old(self).canvas.columns,
            final(self).score >= old(self).score,
            r is Ok <==> fits_at(
                old(self).canvas.grid(),
                old(self).canvas.rows as int,
                old(self).canvas.columns as int,
                block@,
                row as int,
                column as int,
            ),
            r is Err ==> final(self).canvas.grid() == old(self).canvas.grid() && final(self).score
                == old(self).score,
            r is Ok ==> final(self).canvas.grid() == place_and_clear(
                old(self).canvas.grid(),
                old(self).canvas.rows as int,
                old(self).canvas.columns as int,
                block@,
                row as int,
                column as int,
            ) && final(self).score == old(self).score + cleared_by_placing(
                old(self).canvas.grid(),
                old(self).canvas.rows as int,
                old(self).canvas.columns as int,
                block@,
                row as int,
                column as int,
            ) * POINTS_PER_LINE_CLEAR,
    {
        let playable = match self.canvas.try_make_playable(block, row, column) {
            Some(p) => p,
            None => {
                return Err("Unable to place block.");
            },
        };
        self.canvas.add(&playable);
        let lines_cleared = self.canvas.clear_completed_lines();
        proof {
            lemma_filled_rows_bound(
                place(
                    old(self).canvas.grid(),
                    old(self).canvas.rows as int,
                    old(self).canvas.columns as int,
                    block@,
                    row as int,
                    column as int,
                ),
                old(self).canvas.columns as int,
                old(self).canvas.rows as int,
            );
            lemma_filled_cols_bound(
                place(
                    old(self).canvas.grid(),
                    old(self).canvas.rows as int,
                    old(self).canvas.columns as int,
                    block@,
                    row as int,
                    column as int,
                ),
                old(self).canvas.rows as int,
                old(self).canvas.columns as int,
                old(self).canvas.columns as int,
            );
        }
        self.update_score(lines_cleared);
        Ok(())
    }
}

impl Default for Game {
    /// A fresh session: the default board and a zero score.
    fn default() -> (r: Self)
        ensures
            r.canvas.wf(),
            r.canvas.rows == DEFAULT_CANVAS_HEIGHT,
            r.canvas.columns == DEFAULT_CANVAS_WIDTH,
            r.score == 0,
            forall|k: int|
                0 <= k < r.canvas.grid().len() ==> (#[trigger] r.canvas.grid()[k]) is Empty,
    {
        Self { canvas: Canvas::default(), score: 0 }
    }
}

} // verus!
