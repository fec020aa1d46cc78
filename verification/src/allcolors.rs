use vstd::prelude::*;
use vstd::arithmetic::power2::{pow2, lemma_pow2_adds, lemma_pow2_pos, lemma_pow2_strictly_increases, lemma2_to64};
use crate::colortree::{ColorTree, Point, coord_bound, remove_effect, spec_point_dist};
use crate::imagemap::{Image, Pixel, near};

verus! {

/// The growth engine: the octree of still-available colors, the grid being
/// filled, and the configured per-channel bit depth.
#[derive(Debug)]
pub struct AllColors {
    pub width: usize,
    pub height: usize,
    pub bits: u32,
    pub ctree: ColorTree,
    pub image: Image,
}

/// A channel value rescaled from `bits`-deep native range to the 8-bit
/// display range.
pub open spec fn spec_scale(v: int, bits: nat) -> int {
    v * pow2((8 - bits) as nat)
}

/// The color stored at a placed cell, as a point of the color cube.
pub open spec fn placed_point(px: Pixel) -> Point {
    match px {
        Pixel::Placed(r, g, b) => Point { r: r as u32, g: g as u32, b: b as u32 },
        _ => Point { r: 0, g: 0, b: 0 },
    }
}

impl AllColors {
    pub open spec fn spec_bits(self) -> nat {
        self.bits as nat
    }

    /// The engine invariant: both components are well-formed and agree on
    /// their extents, the octree covers `[0, 2^bits)^3`, every placed color
    /// lies in that cube and is no longer available in the octree, and no
    /// color sits at two different cells.
    pub open spec fn inv(self) -> bool {
        &&& self.image.wf()
        &&& self.ctree.wf()
        &&& self.spec_bits() <= 8
        &&& self.ctree.origin() == (Point { r: 0, g: 0, b: 0 })
        &&& self.ctree.side() == pow2(self.spec_bits())
        &&& self.ctree.bounded(coord_bound())
        &&& self.image.width == self.width
        &&& self.image.height == self.height
        &&& forall|i: int, j: int|
            self.image.in_bounds(i, j) && (#[trigger] self.image.cell(i, j)) is Placed ==> {
                &&& placed_point(self.image.cell(i, j)).r < pow2(self.spec_bits())
                &&& placed_point(self.image.cell(i, j)).g < pow2(self.spec_bits())
                &&& placed_point(self.image.cell(i, j)).b < pow2(self.spec_bits())
                &&& !self.ctree.contains_active(placed_point(self.image.cell(i, j)))
            }
        &&& forall|i1: int, j1: int, i2: int, j2: int|
            self.image.in_bounds(i1, j1) && self.image.in_bounds(i2, j2)
                && (#[trigger] self.image.cell(i1, j1)) is Placed
                && (#[trigger] self.image.cell(i2, j2)) == self.image.cell(i1, j1)
                ==> i1 == i2 && j1 == j2
    }

    /// A fresh engine over the full color cube for `bits` and an untouched
    /// grid of the given extents.
    pub fn new(bits: u32, width: usize, height: usize) -> (ac: AllColors)
        requires
            bits <= 8,
            width <= 0x40000000,
            height <= 0x40000000,
        ensures
            ac.inv(),
            ac.width == width,
            ac.height == height,
            ac.spec_bits() == bits,
            ac.ctree.count() == pow2((3 * bits) as nat),
            forall|q: Point| ac.ctree.contains_active(q) <==> {
                &&& q.r < pow2(bits as nat)
                &&& q.g < pow2(bits as nat)
                &&& q.b < pow2(bits as nat)
            },
            ac.image.frontier().len() == 0,
            forall|i: int, j: int| ac.image.in_bounds(i, j) ==> ac.image.cell(i, j) is Free,
    {
        let ctree = ColorTree::new(bits);
        let image = Image::new(width, height);
        AllColors { width, height, bits, ctree, image }
    }

    /// Whether the growth has run out of frontier cells.
    pub fn done(&self) -> (r: bool)
        ensures
            r <==> self.image.frontier().len() == 0,
    {
        self.image.done()
    }

    /// Bootstraps growth: places `color` at `(x, y)` and consumes it from
    /// the octree. Consuming an already-removed color is a silent no-op on
    /// the octree side; the grid placement still proceeds. The color must
    /// lie in the configured cube and not already sit in the grid — that
    /// keeps every placed color unique — and the target cell must not be
    /// pending in the frontier, which holds wherever seeding precedes
    /// growth.
    pub fn seed(&mut self, x: usize, y: usize, color: (u8, u8, u8))
        requires
            old(self).inv(),
            x < old(self).width,
            y < old(self).height,
            (color.0 as nat) < pow2(old(self).spec_bits()),
            (color.1 as nat) < pow2(old(self).spec_bits()),
            (color.2 as nat) < pow2(old(self).spec_bits()),
            !old(self).image.open_contains((x, y)),
            forall|i: int, j: int| old(self).image.in_bounds(i, j)
                ==> old(self).image.cell(i, j) != Pixel::Placed(color.0, color.1, color.2),
        ensures
            final(self).inv(),
            final(self).width == old(self).width,
            final(self).height == old(self).height,
            final(self).spec_bits() == old(self).spec_bits(),
            final(self).image.cell(x as int, y as int)
                == Pixel::Placed(color.0, color.1, color.2),
            crate::imagemap::place_effect(old(self).image, final(self).image, x, y, color),
            !final(self).ctree.contains_active(placed_point(Pixel::Placed(color.0, color.1, color.2))),
            forall|q: Point| q != placed_point(Pixel::Placed(color.0, color.1, color.2))
                ==> final(self).ctree.contains_active(q) == old(self).ctree.contains_active(q),
            final(self).ctree.count()
                + (if old(self).ctree.contains_active(placed_point(Pixel::Placed(color.0, color.1, color.2))) { 1nat } else { 0nat })
                == old(self).ctree.count(),
    {
        let cp = Point { r: color.0 as u32, g: color.1 as u32, b: color.2 as u32 };
        self.image.place(x, y, color);
        let _removed = self.ctree.remove(cp);
        proof {
            self.lemma_restore_inv(*old(self), x as int, y as int, color, cp);
        }
    }

    /// Re-establishes the engine invariant after one placement of `color`
    /// at `(x, y)` followed by the removal of the matching point `cp`.
    proof fn lemma_restore_inv(self, prev: AllColors, x: int, y: int, color: (u8, u8, u8), cp: Point)
        requires
            prev.inv(),
            self.bits == prev.bits,
            self.width == prev.width,
            self.height == prev.height,
            self.image.wf(),
            self.ctree.wf(),
            self.ctree.origin() == prev.ctree.origin(),
            self.ctree.side() == prev.ctree.side(),
            self.image.width == prev.image.width,
            self.image.height == prev.image.height,
            0 <= x < prev.width,
            0 <= y < prev.height,
            cp == (Point { r: color.0 as u32, g: color.1 as u32, b: color.2 as u32 }),
            (color.0 as nat) < pow2(prev.spec_bits()),
            (color.1 as nat) < pow2(prev.spec_bits()),
            (color.2 as nat) < pow2(prev.spec_bits()),
            // no cell other than `(x, y)` held this color before
            forall|i: int, j: int| prev.image.in_bounds(i, j)
                ==> prev.image.cell(i, j) != Pixel::Placed(color.0, color.1, color.2),
            // the grid changed as `place` says
            self.image.cell(x, y) == Pixel::Placed(color.0, color.1, color.2),
            forall|i: int, j: int|
                prev.image.in_bounds(i, j) && (i != x || j != y)
                    ==> self.image.cell(i, j) == (if prev.image.cell(i, j) is Free
                        && near(x, y, i, j) {
                        Pixel::Marked
                    } else {
                        prev.image.cell(i, j)
                    }),
            // the octree changed as `remove` says
            !self.ctree.contains_active(cp),
            forall|q: Point| q != cp
                ==> self.ctree.contains_active(q) == prev.ctree.contains_active(q),
        ensures
            self.inv(),
    {
        assert forall|i: int, j: int|
            self.image.in_bounds(i, j) && (#[trigger] self.image.cell(i, j)) is Placed
            implies {
                &&& placed_point(self.image.cell(i, j)).r < pow2(self.spec_bits())
                &&& placed_point(self.image.cell(i, j)).g < pow2(self.spec_bits())
                &&& placed_point(self.image.cell(i, j)).b < pow2(self.spec_bits())
                &&& !self.ctree.contains_active(placed_point(self.image.cell(i, j)))
            } by {
            if i == x && j == y {
            } else {
                assert(self.image.cell(i, j) == prev.image.cell(i, j));
            }
        }
        assert forall|i1: int, j1: int, i2: int, j2: int|
            self.image.in_bounds(i1, j1) && self.image.in_bounds(i2, j2)
                && (#[trigger] self.image.cell(i1, j1)) is Placed
                && (#[trigger] self.image.cell(i2, j2)) == self.image.cell(i1, j1)
            implies i1 == i2 && j1 == j2 by {
            if i1 == x && j1 == y {
                if i2 != x || j2 != y {
                    assert(self.image.cell(i2, j2) == prev.image.cell(i2, j2));
                }
            } else if i2 == x && j2 == y {
                assert(self.image.cell(i1, j1) == prev.image.cell(i1, j1));
            } else {
                assert(self.image.cell(i1, j1) == prev.image.cell(i1, j1));
                assert(self.image.cell(i2, j2) == prev.image.cell(i2, j2));
            }
        }
    }
}

/// The channel value a pixel contributes to the neighborhood average.
pub open spec fn nb_val(px: Pixel, chan: int) -> int {
    match px {
        Pixel::Placed(r, g, b) => if chan == 0 {
            r as int
        } else if chan == 1 {
            g as int
        } else {
            b as int
        },
        _ => 0,
    }
}

/// The squared channel value at `(i, j)`, or zero when the cell is out of
/// bounds or not placed.
pub open spec fn nb_sq(im: Image, i: int, j: int, chan: int) -> int {
    if im.in_bounds(i, j) && im.cell(i, j) is Placed {
        nb_val(im.cell(i, j), chan) * nb_val(im.cell(i, j), chan)
    } else {
        0
    }
}

/// One when `(i, j)` holds a placed cell, else zero.
pub open spec fn nb_cnt1(im: Image, i: int, j: int) -> int {
    if im.in_bounds(i, j) && im.cell(i, j) is Placed {
        1
    } else {
        0
    }
}

/// Sum of the squared channel values over the first `k` cells of the
/// 3-by-3 block centered on `(x, y)`, walked column by column.
pub open spec fn nb_sq_upto(im: Image, x: int, y: int, chan: int, k: int) -> int
    decreases k,
{
    if k <= 0 {
        0
    } else {
        nb_sq_upto(im, x, y, chan, k - 1) + nb_sq(im, x - 1 + (k - 1) / 3, y - 1 + (k - 1) % 3, chan)
    }
}

/// Number of placed cells among the first `k` cells of the 3-by-3 block
/// centered on `(x, y)`.
pub open spec fn nb_cnt_upto(im: Image, x: int, y: int, k: int) -> int
    decreases k,
{
    if k <= 0 {
        0
    } else {
        nb_cnt_upto(im, x, y, k - 1) + nb_cnt1(im, x - 1 + (k - 1) / 3, y - 1 + (k - 1) % 3)
    }
}

/// The integer square root: the largest value whose square is at most `v`.
pub open spec fn spec_isqrt(v: int) -> int
    decreases v,
{
    if v <= 0 {
        0
    } else {
        let s = spec_isqrt(v - 1);
        if (s + 1) * (s + 1) <= v {
            s + 1
        } else {
            s
        }
    }
}

/// The integer square root lies between the bracketing squares.
pub proof fn lemma_isqrt_bounds(v: int)
    requires
        0 <= v,
    ensures
        0 <= spec_isqrt(v),
        spec_isqrt(v) * spec_isqrt(v) <= v,
        v < (spec_isqrt(v) + 1) * (spec_isqrt(v) + 1),
    decreases v,
{
    if v > 0 {
        lemma_isqrt_bounds(v - 1);
        let s = spec_isqrt(v - 1);
        if (s + 1) * (s + 1) <= v {
            assert((s + 1) * (s + 1) < (s + 2) * (s + 2)) by (nonlinear_arith)
                requires s >= 0,
            {}
        }
    }
}

/// Bracketing squares pin the integer square root uniquely.
pub proof fn lemma_isqrt_unique(v: int, s: int)
    requires
        0 <= v,
        0 <= s,
        s * s <= v,
        v < (s + 1) * (s + 1),
    ensures
        s == spec_isqrt(v),
{
    lemma_isqrt_bounds(v);
    let t = spec_isqrt(v);
    assert(s == t) by (nonlinear_arith)
        requires
            0 <= s,
            0 <= t,
            s * s <= v,
            v < (s + 1) * (s + 1),
            t * t <= v,
            v < (t + 1) * (t + 1),
    {}
}

/// The target color estimated for cell `(x, y)`: per channel the integer
/// square root of the mean of the squared placed-neighbor values over the
/// clipped 3-by-3 block; black when no neighbor is placed.
pub open spec fn spec_target(im: Image, x: int, y: int) -> Point {
    let n = nb_cnt_upto(im, x, y, 9);
    if n == 0 {
        Point { r: 0, g: 0, b: 0 }
    } else {
        Point {
            r: spec_isqrt(nb_sq_upto(im, x, y, 0, 9) / n) as u32,
            g: spec_isqrt(nb_sq_upto(im, x, y, 1, 9) / n) as u32,
            b: spec_isqrt(nb_sq_upto(im, x, y, 2, 9) / n) as u32,
        }
    }
}

/// The neighborhood sums read only the cells: two grids with equal extents
/// and equal cells give the same counts, sums and target.
proof fn lemma_nb_same(im1: Image, im2: Image, x: int, y: int, k: int)
    requires
        im1.width == im2.width,
        im1.height == im2.height,
        forall|i: int, j: int| im1.in_bounds(i, j) ==> im1.cell(i, j) == im2.cell(i, j),
        0 <= k,
    ensures
        nb_cnt_upto(im1, x, y, k) == nb_cnt_upto(im2, x, y, k),
        nb_sq_upto(im1, x, y, 0, k) == nb_sq_upto(im2, x, y, 0, k),
        nb_sq_upto(im1, x, y, 1, k) == nb_sq_upto(im2, x, y, 1, k),
        nb_sq_upto(im1, x, y, 2, k) == nb_sq_upto(im2, x, y, 2, k),
    decreases k,
{
    if k > 0 {
        lemma_nb_same(im1, im2, x, y, k - 1);
        let i = x - 1 + (k - 1) / 3;
        let j = y - 1 + (k - 1) % 3;
        if im1.in_bounds(i, j) {
            assert(im1.cell(i, j) == im2.cell(i, j));
        }
    }
}

impl AllColors {
    /// Per-channel quadratic mean (the root of the mean of the squares) of
    /// the placed colors in the 3-by-3 neighborhood of `(x, y)`; black when
    /// no neighbor is placed. The quadratic mean deliberately weights
    /// brighter channel values more heavily than a plain average would.
    pub fn average(&self, x: usize, y: usize) -> (c: (u8, u8, u8))
        requires
            self.inv(),
            x < self.width,
            y < self.height,
        ensures
            ({
                let n = nb_cnt_upto(self.image, x as int, y as int, 9);
                &&& (n == 0 ==> c == (0u8, 0u8, 0u8))
                &&& (n > 0 ==> {
                    &&& c.0 * c.0 <= nb_sq_upto(self.image, x as int, y as int, 0, 9) / n
                        < (c.0 + 1) * (c.0 + 1)
                    &&& c.1 * c.1 <= nb_sq_upto(self.image, x as int, y as int, 1, 9) / n
                        < (c.1 + 1) * (c.1 + 1)
                    &&& c.2 * c.2 <= nb_sq_upto(self.image, x as int, y as int, 2, 9) / n
                        < (c.2 + 1) * (c.2 + 1)
                })
            }),
            (Point { r: c.0 as u32, g: c.1 as u32, b: c.2 as u32 })
                == spec_target(self.image, x as int, y as int),
    {
        let mut cnt: u32 = 0;
        let mut sr: u32 = 0;
        let mut sg: u32 = 0;
        let mut sb: u32 = 0;
        let mut di: u32 = 0;
        while di < 3
            invariant
                self.inv(),
                x < self.width,
                y < self.height,
                di <= 3,
                cnt == nb_cnt_upto(self.image, x as int, y as int, 3 * di),
                sr == nb_sq_upto(self.image, x as int, y as int, 0, 3 * di),
                sg == nb_sq_upto(self.image, x as int, y as int, 1, 3 * di),
                sb == nb_sq_upto(self.image, x as int, y as int, 2, 3 * di),
                cnt <= 3 * di,
                sr <= cnt * 65025,
                sg <= cnt * 65025,
                sb <= cnt * 65025,
            decreases 3 - di,
        {
            let mut dj: u32 = 0;
            while dj < 3
                invariant
                    self.inv(),
                    x < self.width,
                    y < self.height,
                    di < 3,
                    dj <= 3,
                    cnt == nb_cnt_upto(self.image, x as int, y as int, 3 * di + dj),
                    sr == nb_sq_upto(self.image, x as int, y as int, 0, 3 * di + dj),
                    sg == nb_sq_upto(self.image, x as int, y as int, 1, 3 * di + dj),
                    sb == nb_sq_upto(self.image, x as int, y as int, 2, 3 * di + dj),
                    cnt <= 3 * di + dj,
                    sr <= cnt * 65025,
                    sg <= cnt * 65025,
                    sb <= cnt * 65025,
                decreases 3 - dj,
            {
                let cx = x as i32 + di as i32 - 1;
                let cy = y as i32 + dj as i32 - 1;
                match self.image.get_color(cx, cy) {
                    Some((nr, ng, nb)) => {
                        proof {
                            assert(nr as int * nr as int <= 65025 && ng as int * ng as int
                                <= 65025 && nb as int * nb as int <= 65025) by (nonlinear_arith)
                                requires nr as int <= 255, ng as int <= 255, nb as int <= 255,
                            {}
                        }
                        sr = sr + nr as u32 * nr as u32;
                        sg = sg + ng as u32 * ng as u32;
                        sb = sb + nb as u32 * nb as u32;
                        cnt = cnt + 1;
                    },
                    None => {},
                }
                dj = dj + 1;
            }
            di = di + 1;
        }
        if cnt == 0 {
            (0, 0, 0)
        } else {
            proof {
                lemma_div_le_each(sr as int, cnt as int, 65025);
                lemma_div_le_each(sg as int, cnt as int, 65025);
                lemma_div_le_each(sb as int, cnt as int, 65025);
            }
            let r8 = isqrt_small(sr / cnt);
            let g8 = isqrt_small(sg / cnt);
            let b8 = isqrt_small(sb / cnt);
            proof {
                let n = nb_cnt_upto(self.image, x as int, y as int, 9);
                lemma_isqrt_unique(nb_sq_upto(self.image, x as int, y as int, 0, 9) / n, r8 as int);
                lemma_isqrt_unique(nb_sq_upto(self.image, x as int, y as int, 1, 9) / n, g8 as int);
                lemma_isqrt_unique(nb_sq_upto(self.image, x as int, y as int, 2, 9) / n, b8 as int);
            }
            (r8, g8, b8)
        }
    }
}

/// Integer division by a positive count keeps a per-item bound.
proof fn lemma_div_le_each(s: int, n: int, m: int)
    requires
        n >= 1,
        0 <= s <= n * m,
        m >= 0,
    ensures
        0 <= s / n <= m,
{
    assert(0 <= s / n <= m) by (nonlinear_arith)
        requires n >= 1, 0 <= s <= n * m, m >= 0,
    {}
}

/// The observable effect of one successful growth step: the coordinate
/// `(x, y)` was drawn from the pending frontier, the available color `p`
/// nearest to the quadratic-mean target of that cell's placed neighbors was
/// placed there and consumed from the octree, and the cell's still-free
/// neighbors joined the frontier.
pub open spec fn step_effect(pre: AllColors, post: AllColors, x: usize, y: usize, p: Point) -> bool {
    let target = spec_target(pre.image, x as int, y as int);
    &&& x < pre.width
    &&& y < pre.height
    // the filled coordinate was a member of the old frontier
    &&& pre.image.open_contains((x, y))
    &&& pre.image.cell(x as int, y as int) is Marked
    // the consumed color was available and none available was nearer to the
    // estimated target
    &&& pre.ctree.contains_active(p)
    &&& (forall|q: Point| pre.ctree.contains_active(q)
        ==> spec_point_dist(target, q) >= spec_point_dist(target, p))
    &&& p.r < 256 && p.g < 256 && p.b < 256
    // the grid after: the drawn cell holds the color, the free cells of its
    // 3-by-3 block are marked, everything else is untouched
    &&& post.image.cell(x as int, y as int)
        == Pixel::Placed(p.r as u8, p.g as u8, p.b as u8)
    &&& (forall|i: int, j: int|
        pre.image.in_bounds(i, j) && (i != x || j != y)
            ==> post.image.cell(i, j) == (if pre.image.cell(i, j) is Free
                && near(x as int, y as int, i, j) {
                Pixel::Marked
            } else {
                pre.image.cell(i, j)
            }))
    // the frontier after: the drawn coordinate left it, exactly the newly
    // marked cells joined it
    &&& (forall|q: (usize, usize)|
        post.image.open_contains(q) <==> ((!(q == (x, y)) && pre.image.open_contains(q)) || {
            &&& pre.image.in_bounds(q.0 as int, q.1 as int)
            &&& near(x as int, y as int, q.0 as int, q.1 as int)
            &&& pre.image.cell(q.0 as int, q.1 as int) is Free
            &&& !(q.0 == x && q.1 == y)
        }))
    // the octree consumed exactly `p`
    &&& remove_effect(pre.ctree, post.ctree, p, true)
}

impl AllColors {
    /// One growth step: draws a random frontier cell, estimates its target
    /// color from its placed neighbors, consumes the nearest available color
    /// and places it there. An empty frontier is a no-op. Returns `false`
    /// only when the octree was exhausted while a frontier cell remained;
    /// that cell is left unresolved for the caller to report.
    pub fn iterate(&mut self) -> (ok: bool)
        requires
            old(self).inv(),
        ensures
            final(self).inv(),
            final(self).width == old(self).width,
            final(self).height == old(self).height,
            final(self).spec_bits() == old(self).spec_bits(),
            ok <==> (old(self).image.frontier().len() == 0 || old(self).ctree.count() > 0),
            // once complete, the engine stays complete and untouched
            old(self).image.frontier().len() == 0 ==> {
                &&& final(self).image.frontier().len() == 0
                &&& final(self).ctree.count() == old(self).ctree.count()
                &&& forall|i: int, j: int| old(self).image.in_bounds(i, j)
                    ==> final(self).image.cell(i, j) == old(self).image.cell(i, j)
            },
            // a successful step consumes exactly one color
            old(self).image.frontier().len() > 0 && old(self).ctree.count() > 0
                ==> final(self).ctree.count() == old(self).ctree.count() - 1,
            // a failed step leaves the state uncorrupted: no cell changes,
            // the octree is untouched, and the frontier merely loses the
            // one drawn coordinate
            old(self).image.frontier().len() > 0 && old(self).ctree.count() == 0 ==> {
                &&& final(self).ctree.count() == 0
                &&& final(self).image.frontier().len() == old(self).image.frontier().len() - 1
                &&& (forall|i: int, j: int| old(self).image.in_bounds(i, j)
                    ==> final(self).image.cell(i, j) == old(self).image.cell(i, j))
                &&& (forall|q: Point| final(self).ctree.contains_active(q)
                    == old(self).ctree.contains_active(q))
                &&& (exists|q: (usize, usize)| {
                    &&& #[trigger] old(self).image.open_contains(q)
                    &&& !final(self).image.open_contains(q)
                    &&& (forall|r: (usize, usize)| r != q
                        ==> final(self).image.open_contains(r)
                            == old(self).image.open_contains(r))
                })
            },
            // placements are permanent
            forall|i: int, j: int|
                old(self).image.in_bounds(i, j)
                    && (#[trigger] old(self).image.cell(i, j)) is Placed
                    ==> final(self).image.cell(i, j) == old(self).image.cell(i, j),
            // a successful step is one full draw-estimate-place-consume
            // round, for some frontier coordinate and its nearest color
            old(self).image.frontier().len() > 0 && old(self).ctree.count() > 0
                ==> exists|x: usize, y: usize, p: Point|
                    #[trigger] step_effect(*old(self), *final(self), x, y, p),
    {
        let picked = self.image.get_open();
        match picked {
            None => true,
            Some((x, y)) => {
                let c = self.average(x, y);
                let target = Point { r: c.0 as u32, g: c.1 as u32, b: c.2 as u32 };
                let found = self.ctree.nearest(target);
                match found {
                    Some((p, _d)) => {
                        proof {
                            ColorTree::lemma_active_in_region(self.ctree, p);
                            lemma_pow2_le_256(self.bits as nat);
                        }
                        let color = (p.r as u8, p.g as u8, p.b as u8);
                        let ghost prev = *self;
                        self.image.place(x, y, color);
                        let _removed = self.ctree.remove(p);
                        proof {
                            assert(placed_point(Pixel::Placed(color.0, color.1, color.2)) == p);
                            assert forall|i: int, j: int| prev.image.in_bounds(i, j)
                                implies prev.image.cell(i, j)
                                    != Pixel::Placed(color.0, color.1, color.2) by {
                                if prev.image.cell(i, j) == Pixel::Placed(
                                    color.0,
                                    color.1,
                                    color.2,
                                ) {
                                    assert(prev.image.cell(i, j) is Placed);
                                    assert(!prev.ctree.contains_active(p));
                                }
                            }
                            self.lemma_restore_inv(prev, x as int, y as int, color, p);
                            // the round matches `step_effect` with these witnesses
                            lemma_nb_same(old(self).image, prev.image, x as int, y as int, 9);
                            let tgt = spec_target(old(self).image, x as int, y as int);
                            assert(tgt == (Point { r: c.0 as u32, g: c.1 as u32, b: c.2 as u32 }));
                            assert(remove_effect(prev.ctree, self.ctree, p, true));
                            assert forall|q: (usize, usize)|
                                self.image.open_contains(q) <==> ((!(q == (x, y))
                                    && old(self).image.open_contains(q)) || {
                                    &&& old(self).image.in_bounds(q.0 as int, q.1 as int)
                                    &&& near(x as int, y as int, q.0 as int, q.1 as int)
                                    &&& old(self).image.cell(q.0 as int, q.1 as int) is Free
                                    &&& !(q.0 == x && q.1 == y)
                                }) by {
                                if q == (x, y) {
                                    assert(!prev.image.open_contains(q));
                                    assert(prev.image.cell(q.0 as int, q.1 as int) is Marked);
                                } else {
                                    assert(prev.image.open_contains(q)
                                        == old(self).image.open_contains(q));
                                }
                            }
                            assert(step_effect(*old(self), *self, x, y, p));
                        }
                        true
                    },
                    None => {
                        proof {
                            assert(self.ctree.count() == 0);
                            assert forall|i: int, j: int|
                                self.image.in_bounds(i, j)
                                    && (#[trigger] self.image.cell(i, j)) is Placed
                                implies {
                                    &&& placed_point(self.image.cell(i, j)).r
                                        < pow2(self.bits as nat)
                                    &&& placed_point(self.image.cell(i, j)).g
                                        < pow2(self.bits as nat)
                                    &&& placed_point(self.image.cell(i, j)).b
                                        < pow2(self.bits as nat)
                                    &&& !self.ctree.contains_active(
                                        placed_point(self.image.cell(i, j)),
                                    )
                                } by {
                                assert(self.image.cell(i, j) == old(self).image.cell(i, j));
                            }
                            assert(old(self).image.open_contains((x, y)));
                            assert(!self.image.open_contains((x, y)));
                            assert(forall|r: (usize, usize)| r != (x, y)
                                ==> self.image.open_contains(r)
                                    == old(self).image.open_contains(r));
                        }
                        false
                    },
                }
            },
        }
    }

    /// The current grid rescaled to the 8-bit display range: each channel
    /// multiplied by `256 / 2^bits`, with integer truncation; unplaced cells
    /// show black. A pure display-range conversion, independent of the
    /// allocation logic.
    pub fn to_image(&self) -> (out: Vec<Vec<(u8, u8, u8)>>)
        requires
            self.inv(),
        ensures
            out@.len() == self.width,
            forall|i: int| 0 <= i < self.width ==> (#[trigger] out@[i])@.len() == self.height,
            forall|i: int, j: int| self.image.in_bounds(i, j)
                ==> (#[trigger] out@[i]@[j]) == (match self.image.cell(i, j) {
                    Pixel::Placed(r, g, b) => (
                        spec_scale(r as int, self.spec_bits()) as u8,
                        spec_scale(g as int, self.spec_bits()) as u8,
                        spec_scale(b as int, self.spec_bits()) as u8,
                    ),
                    _ => (0u8, 0u8, 0u8),
                }),
    {
        let v = self.image.to_image((0, 0, 0));
        let mut out: Vec<Vec<(u8, u8, u8)>> = Vec::new();
        let mut i: usize = 0;
        while i < self.width
            invariant
                self.inv(),
                i <= self.width,
                v@.len() == self.width,
                forall|a: int| 0 <= a < self.width ==> (#[trigger] v@[a])@.len() == self.height,
                forall|a: int, b: int| self.image.in_bounds(a, b)
                    ==> v@[a]@[b] == (match self.image.cell(a, b) {
                        Pixel::Placed(r, g, bb) => (r, g, bb),
                        _ => (0u8, 0u8, 0u8),
                    }),
                out@.len() == i,
                forall|a: int| 0 <= a < i ==> (#[trigger] out@[a])@.len() == self.height,
                forall|a: int, b: int| 0 <= a < i && 0 <= b < self.height
                    ==> (#[trigger] out@[a]@[b]) == (match self.image.cell(a, b) {
                        Pixel::Placed(r, g, bb) => (
                            spec_scale(r as int, self.spec_bits()) as u8,
                            spec_scale(g as int, self.spec_bits()) as u8,
                            spec_scale(bb as int, self.spec_bits()) as u8,
                        ),
                        _ => (0u8, 0u8, 0u8),
                    }),
            decreases self.width - i,
        {
            let mut col: Vec<(u8, u8, u8)> = Vec::new();
            let mut j: usize = 0;
            while j < self.height
                invariant
                    self.inv(),
                    i < self.width,
                    j <= self.height,
                    v@.len() == self.width,
                    forall|a: int| 0 <= a < self.width ==> (#[trigger] v@[a])@.len()
                        == self.height,
                    forall|a: int, b: int| self.image.in_bounds(a, b)
                        ==> v@[a]@[b] == (match self.image.cell(a, b) {
                            Pixel::Placed(r, g, bb) => (r, g, bb),
                            _ => (0u8, 0u8, 0u8),
                        }),
                    col@.len() == j,
                    forall|b: int| 0 <= b < j ==> (#[trigger] col@[b])
                        == (match self.image.cell(i as int, b) {
                            Pixel::Placed(r, g, bb) => (
                                spec_scale(r as int, self.spec_bits()) as u8,
                                spec_scale(g as int, self.spec_bits()) as u8,
                                spec_scale(bb as int, self.spec_bits()) as u8,
                            ),
                            _ => (0u8, 0u8, 0u8),
                        }),
                decreases self.height - j,
            {
                let cell = v[i][j];
                proof {
                    lemma_pow2_pos(self.bits as nat);
                    assert(self.image.in_bounds(i as int, j as int));
                    assert(v@[i as int]@[j as int] == (match self.image.cell(i as int, j as int) {
                        Pixel::Placed(r, g, bb) => (r, g, bb),
                        _ => (0u8, 0u8, 0u8),
                    }));
                }
                let sc = (
                    scale_channel(cell.0, self.bits),
                    scale_channel(cell.1, self.bits),
                    scale_channel(cell.2, self.bits),
                );
                col.push(sc);
                j = j + 1;
            }
            out.push(col);
            i = i + 1;
        }
        out
    }
}

/// Two to any depth up to eight stays within the byte range.
proof fn lemma_pow2_le_256(bits: nat)
    requires
        bits <= 8,
    ensures
        pow2(bits) <= 256,
{
    lemma2_to64();
    if bits < 8 {
        lemma_pow2_strictly_increases(bits, 8);
    }
}

/// One channel value rescaled from the native `bits`-deep range up to the
/// 8-bit display range by the factor `256 / 2^bits`.
pub fn scale_channel(v: u8, bits: u32) -> (s: u8)
    requires
        bits <= 8,
        (v as nat) < pow2(bits as nat),
    ensures
        s == spec_scale(v as int, bits as nat),
{
    let fac = crate::colortree::pow2_u32(8 - bits);
    proof {
        lemma_pow2_adds(bits as nat, (8 - bits) as nat);
        lemma2_to64();
        lemma_pow2_pos((8 - bits) as nat);
        assert(pow2(bits as nat) * pow2((8 - bits) as nat) == 256);
        assert(fac as int >= 1);
        assert(v as int * fac as int <= (pow2(bits as nat) - 1) * (fac as int))
            by (nonlinear_arith)
            requires v as int <= pow2(bits as nat) - 1, fac as int >= 1,
        {}
        assert((pow2(bits as nat) - 1) * (fac as int) == pow2(bits as nat) * (fac as int)
            - fac as int) by (nonlinear_arith);
        assert(v as int * fac as int <= 255);
    }
    (v as u32 * fac) as u8
}

/// Grid extents for a bit depth and a target aspect ratio `num / den`
/// (width over height): each extent is the integer square root of the color
/// count scaled by the ratio and by the square of the 0.95 slack factor, so
/// that `width * height` lands slightly below the number of distinct colors.
pub fn derive_dimensions(bits: u32, num: u64, den: u64) -> (wh: (usize, usize))
    requires
        bits <= 10,
        1 <= num <= 10000,
        1 <= den <= 10000,
    ensures
        ({
            let colors = pow2((3 * bits) as nat) as int;
            let tw = colors * num * 9025 / (den * 10000);
            let th = colors * den * 9025 / (num * 10000);
            &&& wh.0 * wh.0 <= tw < (wh.0 + 1) * (wh.0 + 1)
            &&& wh.1 * wh.1 <= th < (wh.1 + 1) * (wh.1 + 1)
        }),
        wh.0 <= 0x40000000,
        wh.1 <= 0x40000000,
{
    let colors = crate::colortree::pow2_u32(3 * bits) as u64;
    proof {
        lemma2_to64();
        if 3 * bits < 30 {
            lemma_pow2_strictly_increases((3 * bits) as nat, 30);
        }
        assert(colors as int * num * 9025 < 0x4000000000000000) by (nonlinear_arith)
            requires colors as int <= 0x40000000, 1 <= num <= 10000,
        {}
        assert(colors as int * den * 9025 < 0x4000000000000000) by (nonlinear_arith)
            requires colors as int <= 0x40000000, 1 <= den <= 10000,
        {}
    }
    let tw = colors * num * 9025 / (den * 10000);
    let th = colors * den * 9025 / (num * 10000);
    let w = isqrt64(tw);
    let h = isqrt64(th);
    proof {
        assert(tw as int * 10000 <= colors as int * num * 9025) by (nonlinear_arith)
            requires
                tw == colors as int * num * 9025 / (den as int * 10000),
                1 <= den,
                colors as int * num * 9025 >= 0,
        {}
        assert(th as int * 10000 <= colors as int * den * 9025) by (nonlinear_arith)
            requires
                th == colors as int * den * 9025 / (num as int * 10000),
                1 <= num,
                colors as int * den * 9025 >= 0,
        {}
        assert(w <= 0x40000000) by (nonlinear_arith)
            requires
                w as int * w as int <= tw as int,
                tw as int * 10000 <= 0x4000000000000000,
                w >= 0,
        {}
        assert(h <= 0x40000000) by (nonlinear_arith)
            requires
                h as int * h as int <= th as int,
                th as int * 10000 <= 0x4000000000000000,
                h >= 0,
        {}
    }
    (w as usize, h as usize)
}

/// Integer square root by bisection.
fn isqrt64(v: u64) -> (s: u64)
    requires
        v < 0x4000000000000000,
    ensures
        s * s <= v < (s + 1) * (s + 1),
{
    let mut lo: u64 = 0;
    let mut hi: u64 = 0x80000000;
    while lo + 1 < hi
        invariant
            lo < hi,
            hi <= 0x80000000,
            lo * lo <= v,
            v < hi * hi,
        decreases hi - lo,
    {
        let mid = lo + (hi - lo) / 2;
        proof {
            assert(mid * mid < 0x8000000000000000) by (nonlinear_arith)
                requires mid < 0x80000000,
            {}
        }
        if mid * mid <= v {
            lo = mid;
        } else {
            hi = mid;
        }
    }
    lo
}

/// Integer square root of a mean of squared channel values.
fn isqrt_small(v: u32) -> (s: u8)
    requires
        v <= 65025,
    ensures
        s * s <= v < (s + 1) * (s + 1),
{
    let mut s: u32 = 0;
    while (s + 1) * (s + 1) <= v
        invariant
            v <= 65025,
            s <= 255,
            s * s <= v,
            (s + 1) * (s + 1) <= 65536,
        decreases v - s * s,
    {
        proof {
            assert(s < 255) by (nonlinear_arith)
                requires (s + 1) * (s + 1) <= 65025,
            {}
            assert((s + 1) * (s + 1) > s * s) by (nonlinear_arith)
                requires s >= 0,
            {}
            assert((s + 2) * (s + 2) <= 65536) by (nonlinear_arith)
                requires s + 2 <= 256,
            {}
        }
        s = s + 1;
    }
    s as u8
}

} // verus!
