//! Shapes: a point in shape-local space, the closed set of shape variants, and
//! the `Block` type with its constructors, 90-degree rotations about the
//! origin, and bounding-dimension measurement.

use vstd::prelude::*;

verus! {

/// The smallest component of a piece: a pair of signed grid coordinates,
/// where x grows right and y grows up.
#[derive(Copy, Clone, PartialEq, Eq, Structural, Debug)]
pub struct Point {
    pub x: i32,
    pub y: i32,
}

/// The image of a point under a right (clockwise) rotation by 90 degrees
/// about the origin: (x, y) maps to (y, -x).
pub open spec fn rot_r_pt(p: Point) -> Point {
    Point { x: p.y, y: (0 - p.x as int) as i32 }
}

/// The image of a point under a left (counter-clockwise) rotation by
/// 90 degrees about the origin: (x, y) maps to (-y, x).
pub open spec fn rot_l_pt(p: Point) -> Point {
    Point { x: (0 - p.y as int) as i32, y: p.x }
}

impl Point {
    /// Rotate right 90 degrees about the origin.
    pub fn rotate_right(&mut self)
        requires
            old(self).x > i32::MIN,
        ensures
            *final(self) == rot_r_pt(*old(self)),
    {
        let tmp = self.x;
        self.x = self.y;
        self.y = 0 - tmp;
    }

    /// Rotate left 90 degrees about the origin.
    pub fn rotate_left(&mut self)
        requires
            old(self).y > i32::MIN,
        ensures
            *final(self) == rot_l_pt(*old(self)),
    {
        let tmp = self.x;
        self.x = 0 - self.y;
        self.y = tmp;
    }
}

impl Default for Point {
    fn default() -> (r: Self)
        ensures
            r == (Point { x: 0, y: 0 }),
    {
        Point { x: 0, y: 0 }
    }
}

/// Largest edge a rectangle accepts before clamping.
pub const MAX_RECTANGLE_EDGE: usize = 3;

/// Largest length a line accepts before clamping.
pub const MAX_LINE_LENGTH: usize = 5;

/// Smallest edge an elle accepts before clamping.
pub const MIN_ELLE_EDGE: usize = 2;

/// Largest edge an elle accepts before clamping.
pub const MAX_ELLE_EDGE: usize = 3;

/// The closed set of shape variants.
#[derive(Copy, Clone, PartialEq, Eq, Structural, Debug)]
pub enum Variant {
    /// An axis-aligned filled rectangle of cells, origin at the lower
    /// leftmost cell; edges clamp into 1..=3.
    Rectangle,
    /// Three cells in a row with one on top of the middle, origin at the
    /// lower leftmost cell.
    Tee,
    /// Cells along the main diagonal, one per step.
    Diagonal,
    /// An L: a horizontal arm and a vertical arm sharing the origin cell;
    /// arms clamp into 2..=3.
    Elle,
    /// A horizontal run of cells, origin at the leftmost; length clamps
    /// into 2..=5.
    Line,
}

/// A bounding measurement of a shape: the extent along y (height) and
/// along x (width).
pub struct Dimension {
    pub height: usize,
    pub width: usize,
}

/// A polyomino shape: an ordered list of grid offsets from its local origin,
/// tagged with the variant it was built as.
pub struct Block {
    coords: Vec<Point>,
    variant: Variant,
}

impl View for Block {
    type V = Seq<Point>;

    closed spec fn view(&self) -> Seq<Point> {
        self.coords@
    }
}

/// Clamping of a requested size into a closed range.
pub open spec fn spec_clamp(v: int, lo: int, hi: int) -> int {
    if v < lo {
        lo
    } else if v > hi {
        hi
    } else {
        v
    }
}

/// The point list of a rectangle of `w` columns and `h` rows: column 0
/// bottom-to-top, then column 1, and so on.
pub open spec fn column_pts(i: int, h: int) -> Seq<Point> {
    Seq::new(h as nat, |j: int| Point { x: i as i32, y: j as i32 })
}

pub open spec fn rect_pts(w: int, h: int) -> Seq<Point>
    decreases w,
{
    if w <= 0 {
        Seq::empty()
    } else {
        rect_pts(w - 1, h) + column_pts(w - 1, h)
    }
}

/// The point list of a horizontal line of `n` cells starting at the origin.
pub open spec fn line_pts(n: int) -> Seq<Point> {
    Seq::new(n as nat, |k: int| Point { x: k as i32, y: 0 })
}

/// The point list of the tee: three cells in a row and one on top of the
/// middle.
pub open spec fn tee_pts() -> Seq<Point> {
    seq![
        Point { x: 0, y: 0 },
        Point { x: 1, y: 0 },
        Point { x: 2, y: 0 },
        Point { x: 1, y: 1 },
    ]
}

/// The point list of a diagonal of `n` cells from the origin up-right.
pub open spec fn diag_pts(n: int) -> Seq<Point> {
    Seq::new(n as nat, |k: int| Point { x: k as i32, y: k as i32 })
}

/// The point list of an elle: the origin, a horizontal arm of `h - 1` further
/// cells, and a vertical arm of `w - 1` further cells.
pub open spec fn elle_pts(w: int, h: int) -> Seq<Point> {
    seq![Point { x: 0, y: 0 }] + Seq::new((h - 1) as nat, |k: int| Point { x: (k + 1) as i32, y: 0 })
        + Seq::new((w - 1) as nat, |k: int| Point { x: 0, y: (k + 1) as i32 })
}

/// Clamp `v` into `lo..=hi`.
fn clamp_size(v: usize, lo: usize, hi: usize) -> (r: usize)
    requires
        lo <= hi,
    ensures
        r == spec_clamp(v as int, lo as int, hi as int),
        lo <= r <= hi,
{
    if v < lo {
        lo
    } else if v > hi {
        hi
    } else {
        v
    }
}

impl Block {
    /// The variant tag this shape was built as.
    pub closed spec fn spec_variant(&self) -> Variant {
        self.variant
    }

    /// Tee constructor. Tees are always the same size.
    pub fn tee() -> (r: Self)
        ensures
            r@ == tee_pts(),
            r.spec_variant() == Variant::Tee,
    {
        let mut coords: Vec<Point> = Vec::new();
        coords.push(Point { x: 0, y: 0 });
        coords.push(Point { x: 1, y: 0 });
        coords.push(Point { x: 2, y: 0 });
        coords.push(Point { x: 1, y: 1 });
        proof {
            assert(coords@ =~= tee_pts());
        }
        Self { coords, variant: Variant::Tee }
    }

    /// Rectangle constructor; width and height clamp into
    /// [1, `MAX_RECTANGLE_EDGE`].
    pub fn rectangle(width: usize, height: usize) -> (r: Self)
        ensures
            r@ == rect_pts(
                spec_clamp(width as int, 1, MAX_RECTANGLE_EDGE as int),
                spec_clamp(height as int, 1, MAX_RECTANGLE_EDGE as int),
            ),
            r.spec_variant() == Variant::Rectangle,
    {
        let w = clamp_size(width, 1, MAX_RECTANGLE_EDGE);
        let h = clamp_size(height, 1, MAX_RECTANGLE_EDGE);
        let mut coords: Vec<Point> = Vec::new();
        proof {
            assert(coords@ =~= rect_pts(0, h as int));
        }
        for i in 0..w
            invariant
                h >= 1,
                w <= MAX_RECTANGLE_EDGE,
                h <= MAX_RECTANGLE_EDGE,
                coords@ == rect_pts(i as int, h as int),
        {
            let ghost before_col = coords@;
            for j in 0..h
                invariant
                    h >= 1,
                    i < w <= MAX_RECTANGLE_EDGE,
                    h <= MAX_RECTANGLE_EDGE,
                    before_col == rect_pts(i as int, h as int),
                    coords@ == before_col + column_pts(i as int, j as int),
            {
                coords.push(Point { x: i as i32, y: j as i32 });
                proof {
                    assert(coords@ =~= before_col + column_pts(i as int, j + 1));
                }
            }
            proof {
                assert(column_pts(i as int, h as int) =~= column_pts(i as int, h as int));
                assert(coords@ == rect_pts(i + 1, h as int));
            }
        }
        Self { coords, variant: Variant::Rectangle }
    }

    /// Line constructor; length clamps into [2, `MAX_LINE_LENGTH`].
    pub fn line(length: usize) -> (r: Self)
        ensures
            r@ == line_pts(spec_clamp(length as int, 2, MAX_LINE_LENGTH as int)),
            r.spec_variant() == Variant::Line,
    {
        let n = clamp_size(length, 2, MAX_LINE_LENGTH);
        let mut coords: Vec<Point> = Vec::new();
        for i in 0..n
            invariant
                n <= MAX_LINE_LENGTH,
                coords@.len() == i,
                forall|k: int| 0 <= k < i ==> coords@[k] == (Point { x: k as i32, y: 0 }),
        {
            coords.push(Point { x: i as i32, y: 0 });
        }
        proof {
            assert(coords@ =~= line_pts(n as int));
        }
        Self { coords, variant: Variant::Line }
    }

    /// Diagonal constructor; one cell per step along the main diagonal. The
    /// width is unbounded by policy but must fit 32-bit coordinates; a
    /// requested width of zero is lifted to one, since a shape always holds
    /// at least one point.
    pub fn diagonal(width: usize) -> (r: Self)
        requires
            width <= i32::MAX as usize,
        ensures
            r@ == diag_pts(
                if width == 0 {
                    1int
                } else {
                    width as int
                },
            ),
            r.spec_variant() == Variant::Diagonal,
    {
        let w: usize = if width == 0 {
            1
        } else {
            width
        };
        let mut coords: Vec<Point> = Vec::new();
        for i in 0..w
            invariant
                w <= i32::MAX as usize,
                coords@.len() == i,
                forall|k: int| 0 <= k < i ==> coords@[k] == (Point { x: k as i32, y: k as i32 }),
        {
            coords.push(Point { x: i as i32, y: i as i32 });
        }
        proof {
            assert(coords@ =~= diag_pts(w as int));
        }
        Self { coords, variant: Variant::Diagonal }
    }

    /// Elle constructor; both arm lengths clamp into
    /// [`MIN_ELLE_EDGE`, `MAX_ELLE_EDGE`].
    pub fn elle(width: usize, height: usize) -> (r: Self)
        ensures
            r@ == elle_pts(
                spec_clamp(width as int, MIN_ELLE_EDGE as int, MAX_ELLE_EDGE as int),
                spec_clamp(height as int, MIN_ELLE_EDGE as int, MAX_ELLE_EDGE as int),
            ),
            r.spec_variant() == Variant::Elle,
    {
        let w = clamp_size(width, MIN_ELLE_EDGE, MAX_ELLE_EDGE);
        let h = clamp_size(height, MIN_ELLE_EDGE, MAX_ELLE_EDGE);
        let mut coords: Vec<Point> = Vec::new();
        coords.push(Point { x: 0, y: 0 });
        for i in 1..h
            invariant
                h <= MAX_ELLE_EDGE,
                coords@.len() == i,
                coords@[0] == (Point { x: 0, y: 0 }),
                forall|k: int| 1 <= k < i ==> coords@[k] == (Point { x: k as i32, y: 0 }),
        {
            coords.push(Point { x: i as i32, y: 0 });
        }
        for i in 1..w
            invariant
                w <= MAX_ELLE_EDGE,
                MIN_ELLE_EDGE <= h <= MAX_ELLE_EDGE,
                coords@.len() == h + i - 1,
                coords@[0] == (Point { x: 0, y: 0 }),
                forall|k: int| 1 <= k < h ==> coords@[k] == (Point { x: k as i32, y: 0 }),
                forall|k: int|
                    h <= k < h + i - 1 ==> coords@[k] == (Point { x: 0, y: (k - h + 1) as i32 }),
        {
            coords.push(Point { x: 0, y: i as i32 });
        }
        proof {
            assert(coords@ =~= elle_pts(w as int, h as int));
        }
        Self { coords, variant: Variant::Elle }
    }

    /// The shape's point list, for rendering and inspection.
    pub fn coordinates(&self) -> (r: &Vec<Point>)
        ensures
            r@ == self@,
    {
        &self.coords
    }

    /// Mutable access to the point list, e.g. to renormalize a rotated
    /// shape. No contract can be put on the returned reference, so after
    /// using it a caller forfeits everything previously proved about this
    /// shape's points, including that it holds any.
    pub fn coordinates_mut(&mut self) -> &mut Vec<Point> {
        &mut self.coords
    }

    /// The variant tag this shape was built as, for rendering and
    /// persistence of piece choice.
    pub fn variant_tag(&self) -> (r: Variant)
        ensures
            r == self.spec_variant(),
    {
        self.variant
    }

    /// Bounding dimensions of the shape. For the diagonal both extents equal
    /// the point count by construction; otherwise each extent is the largest
    /// number of cells that share one coordinate on the other axis.
    pub fn dimensions(&self) -> (d: Dimension)
        ensures
            d.height == self.spec_dim_height(),
            d.width == self.spec_dim_width(),
    {
        if let Variant::Diagonal = self.variant {
            let points = self.coords.len();
            return Dimension { width: points, height: points };
        }

        let n = self.coords.len();
        let mut height: usize = 0;
        let mut idx: usize = 0;
        while idx < n
            invariant
                n == self@.len(),
                idx <= n,
                height == max_count_x_prefix(self@, idx as int),
            decreases n - idx,
        {
            let target = self.coords[idx].x;
            let mut c: usize = 0;
            let mut j: usize = 0;
            while j < n
                invariant
                    n == self@.len(),
                    j <= n,
                    c <= j,
                    c == count_x(self@.take(j as int), target as int),
                decreases n - j,
            {
                proof {
                    lemma_count_x_take_succ(self@, target as int, j as int);
                }
                if self.coords[j].x == target {
                    c = c + 1;
                }
                j = j + 1;
            }
            proof {
                assert(self@.take(n as int) =~= self@);
            }
            if c > height {
                height = c;
            }
            idx = idx + 1;
        }

        let mut width: usize = 0;
        let mut idx2: usize = 0;
        while idx2 < n
            invariant
                n == self@.len(),
                idx2 <= n,
                width == max_count_y_prefix(self@, idx2 as int),
            decreases n - idx2,
        {
            let target = self.coords[idx2].y;
            let mut c: usize = 0;
            let mut j: usize = 0;
            while j < n
                invariant
                    n == self@.len(),
                    j <= n,
                    c <= j,
                    c == count_y(self@.take(j as int), target as int),
                decreases n - j,
            {
                proof {
                    lemma_count_y_take_succ(self@, target as int, j as int);
                }
                if self.coords[j].y == target {
                    c = c + 1;
                }
                j = j + 1;
            }
            proof {
                assert(self@.take(n as int) =~= self@);
            }
            if c > width {
                width = c;
            }
            idx2 = idx2 + 1;
        }

        Dimension { width, height }
    }

    /// Rotate every point 90 degrees to the right about the origin.
    pub fn rotate_right(&mut self)
        requires
            forall|i: int| 0 <= i < old(self)@.len() ==> (#[trigger] old(self)@[i]).x > i32::MIN,
        ensures
            final(self)@ == rot_r_seq(old(self)@),
            final(self).spec_variant() == old(self).spec_variant(),
    {
        let ghost orig: Seq<Point> = self@;
        let ghost tag = self.variant;
        let n = self.coords.len();
        let mut idx: usize = 0;
        while idx < n
            invariant
                n == self@.len(),
                idx <= n,
                orig.len() == n,
                self.variant == tag,
                forall|i: int| 0 <= i < n ==> (#[trigger] orig[i]).x > i32::MIN,
                forall|k: int| 0 <= k < idx ==> self@[k] == rot_r_pt(orig[k]),
                forall|k: int| idx <= k < n ==> self@[k] == orig[k],
            decreases n - idx,
        {
            let mut p = self.coords[idx];
            proof {
                assert(p == orig[idx as int]);
                assert(orig[idx as int].x > i32::MIN);
            }
            p.rotate_right();
            self.coords.set(idx, p);
            idx = idx + 1;
        }
        proof {
            assert(self@ =~= rot_r_seq(orig));
        }
    }

    /// Rotate every point 90 degrees to the left about the origin.
    pub fn rotate_left(&mut self)
        requires
            forall|i: int| 0 <= i < old(self)@.len() ==> (#[trigger] old(self)@[i]).y > i32::MIN,
        ensures
            final(self)@ == rot_l_seq(old(self)@),
            final(self).spec_variant() == old(self).spec_variant(),
    {
        let ghost orig: Seq<Point> = self@;
        let ghost tag = self.variant;
        let n = self.coords.len();
        let mut idx: usize = 0;
        while idx < n
            invariant
                n == self@.len(),
                idx <= n,
                orig.len() == n,
                self.variant == tag,
                forall|i: int| 0 <= i < n ==> (#[trigger] orig[i]).y > i32::MIN,
                forall|k: int| 0 <= k < idx ==> self@[k] == rot_l_pt(orig[k]),
                forall|k: int| idx <= k < n ==> self@[k] == orig[k],
            decreases n - idx,
        {
            let mut p = self.coords[idx];
            proof {
                assert(p == orig[idx as int]);
                assert(orig[idx as int].y > i32::MIN);
            }
            p.rotate_left();
            self.coords.set(idx, p);
            idx = idx + 1;
        }
        proof {
            assert(self@ =~= rot_l_seq(orig));
        }
    }

    /// Bounding height as a spec value.
    pub open spec fn spec_dim_height(&self) -> nat {
        if self.spec_variant() is Diagonal {
            self@.len()
        } else {
            seq_height(self@)
        }
    }

    /// Bounding width as a spec value.
    pub open spec fn spec_dim_width(&self) -> nat {
        if self.spec_variant() is Diagonal {
            self@.len()
        } else {
            seq_width(self@)
        }
    }
}

/// The pointwise image of a point list under a right rotation.
pub open spec fn rot_r_seq(s: Seq<Point>) -> Seq<Point> {
    s.map_values(|p: Point| rot_r_pt(p))
}

/// The pointwise image of a point list under a left rotation.
pub open spec fn rot_l_seq(s: Seq<Point>) -> Seq<Point> {
    s.map_values(|p: Point| rot_l_pt(p))
}

/// `k` successive left rotations of a point list.
pub open spec fn rot_l_iter(s: Seq<Point>, k: int) -> Seq<Point>
    decreases k,
{
    if k <= 0 {
        s
    } else {
        rot_l_seq(rot_l_iter(s, k - 1))
    }
}

/// How many points of `s` lie on the vertical through `v`.
pub open spec fn count_x(s: Seq<Point>, v: int) -> nat
    decreases s.len(),
{
    if s.len() == 0 {
        0
    } else {
        count_x(s.drop_last(), v) + (if s.last().x == v {
            1nat
        } else {
            0nat
        })
    }
}

/// How many points of `s` lie on the horizontal through `v`.
pub open spec fn count_y(s: Seq<Point>, v: int) -> nat
    decreases s.len(),
{
    if s.len() == 0 {
        0
    } else {
        count_y(s.drop_last(), v) + (if s.last().y == v {
            1nat
        } else {
            0nat
        })
    }
}

/// The largest vertical run length witnessed by the first `n` points.
pub open spec fn max_count_x_prefix(s: Seq<Point>, n: int) -> nat
    decreases n,
{
    if n <= 0 {
        0
    } else {
        let rest = max_count_x_prefix(s, n - 1);
        let c = count_x(s, s[n - 1].x as int);
        if c > rest {
            c
        } else {
            rest
        }
    }
}

/// The largest horizontal run length witnessed by the first `n` points.
pub open spec fn max_count_y_prefix(s: Seq<Point>, n: int) -> nat
    decreases n,
{
    if n <= 0 {
        0
    } else {
        let rest = max_count_y_prefix(s, n - 1);
        let c = count_y(s, s[n - 1].y as int);
        if c > rest {
            c
        } else {
            rest
        }
    }
}

/// Bounding height of a point list: the tallest column of cells.
pub open spec fn seq_height(s: Seq<Point>) -> nat {
    max_count_x_prefix(s, s.len() as int)
}

/// Bounding width of a point list: the widest row of cells.
pub open spec fn seq_width(s: Seq<Point>) -> nat {
    max_count_y_prefix(s, s.len() as int)
}

/// No coordinate is the minimum 32-bit value, so negating a coordinate stays
/// exact under any number of rotations.
pub open spec fn no_min_coords(s: Seq<Point>) -> bool {
    forall|i: int| 0 <= i < s.len() ==> (#[trigger] s[i]).x > i32::MIN && s[i].y > i32::MIN
}

/// Rotation is a group of order four: four right rotations reproduce the
/// original point list exactly.
pub proof fn lemma_rotate_right_four_identity(s: Seq<Point>)
    requires
        no_min_coords(s),
    ensures
        rot_r_seq(rot_r_seq(rot_r_seq(rot_r_seq(s)))) == s,
{
    let s4 = rot_r_seq(rot_r_seq(rot_r_seq(rot_r_seq(s))));
    assert forall|i: int| 0 <= i < s.len() implies s4[i] == s[i] by {
        let p = s[i];
        let p1 = rot_r_pt(p);
        let p2 = rot_r_pt(p1);
        let p3 = rot_r_pt(p2);
        assert(p1.x == p.y && p1.y == 0 - p.x);
        assert(p2.x == 0 - p.x && p2.y == 0 - p.y);
        assert(p3.x == 0 - p.y && p3.y == p.x);
        assert(rot_r_pt(p3) == p);
    }
    assert(s4 =~= s);
}

/// A left rotation undoes a right rotation, and a right rotation undoes a
/// left one.
pub proof fn lemma_rotate_inverses(s: Seq<Point>)
    requires
        no_min_coords(s),
    ensures
        rot_r_seq(rot_l_seq(s)) == s,
        rot_l_seq(rot_r_seq(s)) == s,
{
    assert forall|i: int| 0 <= i < s.len() implies rot_r_seq(rot_l_seq(s))[i] == s[i] by {
        let p = s[i];
        assert(rot_l_pt(p).x == 0 - p.y && rot_l_pt(p).y == p.x);
        assert(rot_r_pt(rot_l_pt(p)) == p);
    }
    assert forall|i: int| 0 <= i < s.len() implies rot_l_seq(rot_r_seq(s))[i] == s[i] by {
        let p = s[i];
        assert(rot_r_pt(p).x == p.y && rot_r_pt(p).y == 0 - p.x);
        assert(rot_l_pt(rot_r_pt(p)) == p);
    }
    assert(rot_r_seq(rot_l_seq(s)) =~= s);
    assert(rot_l_seq(rot_r_seq(s)) =~= s);
}

proof fn lemma_no_min_drop_last(s: Seq<Point>)
    requires
        no_min_coords(s),
        s.len() > 0,
    ensures
        no_min_coords(s.drop_last()),
{
    assert forall|i: int|
        0 <= i < s.drop_last().len() implies (#[trigger] s.drop_last()[i]).x > i32::MIN
        && s.drop_last()[i].y > i32::MIN by {
        assert(s.drop_last()[i] == s[i]);
        assert(s[i].x > i32::MIN && s[i].y > i32::MIN);
    }
}

proof fn lemma_count_rot_r(s: Seq<Point>, v: int)
    requires
        no_min_coords(s),
    ensures
        count_x(rot_r_seq(s), v) == count_y(s, v),
        count_y(rot_r_seq(s), v) == count_x(s, 0 - v),
    decreases s.len(),
{
    if s.len() == 0 {
        assert(rot_r_seq(s) =~= Seq::<Point>::empty());
    } else {
        let t = s.drop_last();
        lemma_no_min_drop_last(s);
        lemma_count_rot_r(t, v);
        assert(rot_r_seq(s).drop_last() =~= rot_r_seq(t));
        assert(rot_r_seq(s).last() == rot_r_pt(s.last()));
        assert(s.last().x > i32::MIN && s.last().y > i32::MIN);
        assert(rot_r_pt(s.last()).x == s.last().y);
        assert(rot_r_pt(s.last()).y == 0 - s.last().x);
    }
}

proof fn lemma_count_rot_l(s: Seq<Point>, v: int)
    requires
        no_min_coords(s),
    ensures
        count_x(rot_l_seq(s), v) == count_y(s, 0 - v),
        count_y(rot_l_seq(s), v) == count_x(s, v),
    decreases s.len(),
{
    if s.len() == 0 {
        assert(rot_l_seq(s) =~= Seq::<Point>::empty());
    } else {
        let t = s.drop_last();
        lemma_no_min_drop_last(s);
        lemma_count_rot_l(t, v);
        assert(rot_l_seq(s).drop_last() =~= rot_l_seq(t));
        assert(rot_l_seq(s).last() == rot_l_pt(s.last()));
        assert(s.last().x > i32::MIN && s.last().y > i32::MIN);
        assert(rot_l_pt(s.last()).x == 0 - s.last().y);
        assert(rot_l_pt(s.last()).y == s.last().x);
    }
}

proof fn lemma_max_count_rot_r(s: Seq<Point>, n: int)
    requires
        no_min_coords(s),
        n <= s.len(),
    ensures
        max_count_x_prefix(rot_r_seq(s), n) == max_count_y_prefix(s, n),
        max_count_y_prefix(rot_r_seq(s), n) == max_count_x_prefix(s, n),
    decreases n,
{
    if n > 0 {
        lemma_max_count_rot_r(s, n - 1);
        let r = rot_r_seq(s);
        assert(s[n - 1].x > i32::MIN && s[n - 1].y > i32::MIN);
        assert(r[n - 1] == rot_r_pt(s[n - 1]));
        assert(r[n - 1].x == s[n - 1].y);
        assert(r[n - 1].y == 0 - s[n - 1].x);
        lemma_count_rot_r(s, r[n - 1].x as int);
        lemma_count_rot_r(s, r[n - 1].y as int);
        assert(count_x(r, r[n - 1].x as int) == count_y(s, s[n - 1].y as int));
        assert(count_y(r, r[n - 1].y as int) == count_x(s, s[n - 1].x as int));
    }
}

proof fn lemma_max_count_rot_l(s: Seq<Point>, n: int)
    requires
        no_min_coords(s),
        n <= s.len(),
    ensures
        max_count_x_prefix(rot_l_seq(s), n) == max_count_y_prefix(s, n),
        max_count_y_prefix(rot_l_seq(s), n) == max_count_x_prefix(s, n),
    decreases n,
{
    if n > 0 {
        lemma_max_count_rot_l(s, n - 1);
        let r = rot_l_seq(s);
        assert(s[n - 1].x > i32::MIN && s[n - 1].y > i32::MIN);
        assert(r[n - 1] == rot_l_pt(s[n - 1]));
        assert(r[n - 1].x == 0 - s[n - 1].y);
        assert(r[n - 1].y == s[n - 1].x);
        lemma_count_rot_l(s, r[n - 1].x as int);
        lemma_count_rot_l(s, r[n - 1].y as int);
        assert(count_x(r, r[n - 1].x as int) == count_y(s, s[n - 1].y as int));
        assert(count_y(r, r[n - 1].y as int) == count_x(s, s[n - 1].x as int));
    }
}

/// Rotating a point list in either direction swaps its bounding width and
/// height.
pub proof fn lemma_seq_dimensions_swap(s: Seq<Point>)
    requires
        no_min_coords(s),
    ensures
        seq_height(rot_r_seq(s)) == seq_width(s),
        seq_width(rot_r_seq(s)) == seq_height(s),
        seq_height(rot_l_seq(s)) == seq_width(s),
        seq_width(rot_l_seq(s)) == seq_height(s),
{
    lemma_max_count_rot_r(s, s.len() as int);
    lemma_max_count_rot_l(s, s.len() as int);
}

/// Dimensions after a rotation swap width and height: what one measures after
/// `rotate_right` or `rotate_left` is the transpose of what one measured
/// before.
pub proof fn lemma_dimensions_swap(a: Block, b: Block)
    requires
        b@ == rot_r_seq(a@) || b@ == rot_l_seq(a@),
        b.spec_variant() == a.spec_variant(),
        no_min_coords(a@),
    ensures
        b.spec_dim_width() == a.spec_dim_height(),
        b.spec_dim_height() == a.spec_dim_width(),
{
    if a.spec_variant() is Diagonal {
        assert(b@.len() == a@.len());
    } else {
        lemma_seq_dimensions_swap(a@);
    }
}

proof fn lemma_count_x_take_succ(s: Seq<Point>, v: int, j: int)
    requires
        0 <= j < s.len(),
    ensures
        count_x(s.take(j + 1), v) == count_x(s.take(j), v) + (if s[j].x == v {
            1int
        } else {
            0int
        }),
{
    assert(s.take(j + 1).drop_last() =~= s.take(j));
    assert(s.take(j + 1).last() == s[j]);
}

proof fn lemma_count_y_take_succ(s: Seq<Point>, v: int, j: int)
    requires
        0 <= j < s.len(),
    ensures
        count_y(s.take(j + 1), v) == count_y(s.take(j), v) + (if s[j].y == v {
            1int
        } else {
            0int
        }),
{
    assert(s.take(j + 1).drop_last() =~= s.take(j));
    assert(s.take(j + 1).last() == s[j]);
}

impl Clone for Block {
    /// An exact copy: same point list, same variant tag.
    fn clone(&self) -> (r: Self)
        ensures
            r@ == self@,
            r.spec_variant() == self.spec_variant(),
    {
        let mut coords: Vec<Point> = Vec::new();
        let n = self.coords.len();
        for i in 0..n
            invariant
                n == self@.len(),
                coords@.len() == i,
                forall|k: int| 0 <= k < i ==> coords@[k] == self@[k],
        {
            coords.push(self.coords[i]);
        }
        proof {
            assert(coords@ =~= self@);
        }
        Block { coords, variant: self.variant }
    }
}

} // verus!
