use vstd::prelude::*;
use vstd::arithmetic::power2::{pow2, lemma_pow2_adds, lemma_pow2_unfold, lemma_pow2_strictly_increases, lemma2_to64};

verus! {

/// A color, used both as a color identity and as a coordinate in the
/// three-dimensional color cube. One channel value per axis.
#[derive(Copy, Clone, Debug, PartialEq, Eq, Structural)]
pub struct Point {
    pub r: u32,
    pub g: u32,
    pub b: u32,
}

/// An axis-aligned cube in color space: top-left corner, bottom-right corner
/// (inclusive) and edge length, with `br == tl + (size - 1)` on every axis.
#[derive(Debug)]
pub struct Cube {
    pub tl: Point,
    pub br: Point,
    pub size: u32,
}

/// An octree over the color cube. An `Octant` covers a cube of even edge
/// length and splits it into eight congruent children; a `Leaf` covers a
/// single color point together with its availability flag. `num_leaf` caches
/// the number of still-available leaves beneath an octant.
#[derive(Debug)]
pub enum ColorTree {
    Octant { cube: Cube, num_leaf: u32, children: Vec<ColorTree> },
    Leaf { pos: Point, active: bool },
}

/// All coordinates handled by the tree stay below this bound, which keeps
/// every squared distance below `u32::MAX`.
pub open spec fn coord_bound() -> int {
    0x8000
}

pub open spec fn sq(x: int) -> int {
    x * x
}

/// Exact squared Euclidean distance between two color points.
pub open spec fn spec_point_dist(a: Point, b: Point) -> int {
    sq(a.r - b.r) + sq(a.g - b.g) + sq(a.b - b.b)
}

/// Distance from a value to the interval `[lo, hi]` on one axis.
pub open spec fn axis_gap(lo: int, hi: int, v: int) -> int {
    if v < lo {
        lo - v
    } else if v > hi {
        v - hi
    } else {
        0
    }
}

/// Exact minimum squared distance from `p` to any point of the cube
/// `[tl, br]` (corners inclusive).
pub open spec fn spec_cube_dist(tl: Point, br: Point, p: Point) -> int {
    sq(axis_gap(tl.r as int, br.r as int, p.r as int))
        + sq(axis_gap(tl.g as int, br.g as int, p.g as int))
        + sq(axis_gap(tl.b as int, br.b as int, p.b as int))
}

impl ColorTree {
    /// Top-left corner of the region of color space this node covers.
    pub open spec fn origin(self) -> Point {
        match self {
            ColorTree::Octant { cube, .. } => cube.tl,
            ColorTree::Leaf { pos, .. } => pos,
        }
    }

    /// Edge length of the region of color space this node covers.
    pub open spec fn side(self) -> int {
        match self {
            ColorTree::Octant { cube, .. } => cube.size as int,
            ColorTree::Leaf { .. } => 1,
        }
    }

    /// Whether `p` lies in the region this node covers.
    pub open spec fn in_region(self, p: Point) -> bool {
        &&& self.origin().r <= p.r < self.origin().r + self.side()
        &&& self.origin().g <= p.g < self.origin().g + self.side()
        &&& self.origin().b <= p.b < self.origin().b + self.side()
    }

    /// The whole region, corners included, stays below `m` on every axis.
    pub open spec fn bounded(self, m: int) -> bool {
        &&& self.origin().r + self.side() <= m
        &&& self.origin().g + self.side() <= m
        &&& self.origin().b + self.side() <= m
    }

    /// Number of available leaves beneath this node.
    pub open spec fn count(self) -> nat
        decreases self, 1int, 0int,
    {
        match self {
            ColorTree::Leaf { active, .. } => if active {
                1nat
            } else {
                0nat
            },
            ColorTree::Octant { children, .. } => Self::count_children(
                children@,
                children@.len() as int,
            ),
        }
    }

    /// Sum of the available-leaf counts of the first `n` trees of `s`.
    pub open spec fn count_children(s: Seq<ColorTree>, n: int) -> nat
        decreases s, 0int, n,
    {
        if n <= 0 || n > s.len() {
            0nat
        } else {
            Self::count_children(s, n - 1) + s[n - 1].count()
        }
    }

    /// Whether `p` is an available leaf of this subtree.
    pub open spec fn contains_active(self, p: Point) -> bool
        decreases self,
    {
        match self {
            ColorTree::Leaf { pos, active } => active && pos == p,
            ColorTree::Octant { children, .. } => exists|i: int|
                0 <= i < children@.len() && (#[trigger] children@[i]).contains_active(p),
        }
    }

    /// Well-formedness: every octant stores a consistent cube of even edge
    /// length, its eight children cover the eight octants of that cube in the
    /// fixed axis order (red, green, blue; bit set means upper half), and its
    /// cached count equals the number of available leaves beneath it.
    pub open spec fn wf(self) -> bool
        decreases self,
    {
        match self {
            ColorTree::Leaf { .. } => true,
            ColorTree::Octant { cube, num_leaf, children } => {
                let size = cube.size as int;
                let half = size / 2;
                &&& children@.len() == 8
                &&& size >= 2
                &&& size == half * 2
                &&& cube.br.r == cube.tl.r + size - 1
                &&& cube.br.g == cube.tl.g + size - 1
                &&& cube.br.b == cube.tl.b + size - 1
                &&& num_leaf as nat == self.count()
                &&& forall|i: int| 0 <= i < 8 ==> {
                    &&& (#[trigger] children@[i]).wf()
                    &&& children@[i].side() == half
                    &&& children@[i].origin().r == cube.tl.r + if i >= 4 { half } else { 0 }
                    &&& children@[i].origin().g == cube.tl.g + if i % 4 >= 2 { half } else { 0 }
                    &&& children@[i].origin().b == cube.tl.b + if i % 2 == 1 { half } else { 0 }
                }
            },
        }
    }
}

impl ColorTree {
    /// Each summand is no larger than the whole sum.
    proof fn lemma_count_children_le(s: Seq<ColorTree>, n: int, i: int)
        requires
            0 <= i < n <= s.len(),
        ensures
            s[i].count() <= Self::count_children(s, n),
        decreases n,
    {
        if i < n - 1 {
            Self::lemma_count_children_le(s, n - 1, i);
        }
    }

    /// A positive sum has a positive summand.
    proof fn lemma_count_children_pos(s: Seq<ColorTree>, n: int)
        requires
            0 < n <= s.len(),
            Self::count_children(s, n) > 0,
        ensures
            exists|i: int| 0 <= i < n && (#[trigger] s[i]).count() > 0,
        decreases n,
    {
        if s[n - 1].count() > 0 {
            assert(0 <= n - 1 < n && s[n - 1].count() > 0);
        } else {
            assert(Self::count_children(s, 0) == 0);
            Self::lemma_count_children_pos(s, n - 1);
        }
    }

    /// Updating one tree of the list changes the sum by the difference of the
    /// two counts.
    proof fn lemma_count_children_update(s: Seq<ColorTree>, n: int, i: int, t: ColorTree)
        requires
            0 <= i < s.len(),
            n <= s.len(),
        ensures
            i < n ==> Self::count_children(s.update(i, t), n) + s[i].count()
                == Self::count_children(s, n) + t.count(),
            i >= n ==> Self::count_children(s.update(i, t), n) == Self::count_children(s, n),
        decreases n,
    {
        if n > 0 {
            Self::lemma_count_children_update(s, n - 1, i, t);
            if i == n - 1 {
                assert(s.update(i, t)[n - 1] == t);
            } else {
                assert(s.update(i, t)[n - 1] == s[n - 1]);
            }
        }
    }

    /// Every available leaf lies in the region its subtree covers.
    pub proof fn lemma_active_in_region(t: ColorTree, q: Point)
        requires
            t.wf(),
            t.contains_active(q),
        ensures
            t.in_region(q),
        decreases t,
    {
        match t {
            ColorTree::Leaf { .. } => {},
            ColorTree::Octant { children, .. } => {
                let i = choose|i: int|
                    0 <= i < children@.len() && (#[trigger] children@[i]).contains_active(q);
                Self::lemma_active_in_region(children@[i], q);
            },
        }
    }

    /// A subtree whose count is zero has no available leaf.
    proof fn lemma_count_zero_no_active(t: ColorTree, q: Point)
        requires
            t.wf(),
            t.count() == 0,
        ensures
            !t.contains_active(q),
        decreases t,
    {
        match t {
            ColorTree::Leaf { .. } => {},
            ColorTree::Octant { children, .. } => {
                assert forall|i: int| 0 <= i < children@.len()
                    implies !(#[trigger] children@[i]).contains_active(q) by {
                    Self::lemma_count_children_le(children@, 8, i);
                    Self::lemma_count_zero_no_active(children@[i], q);
                }
            },
        }
    }

    /// A subtree with an available leaf has a positive count.
    proof fn lemma_active_count_pos(t: ColorTree, q: Point)
        requires
            t.wf(),
            t.contains_active(q),
        ensures
            t.count() >= 1,
        decreases t,
    {
        match t {
            ColorTree::Leaf { .. } => {},
            ColorTree::Octant { children, .. } => {
                let i = choose|i: int|
                    0 <= i < children@.len() && (#[trigger] children@[i]).contains_active(q);
                Self::lemma_active_count_pos(children@[i], q);
                Self::lemma_count_children_le(children@, 8, i);
            },
        }
    }

    /// A subtree with a positive count has an available leaf.
    proof fn lemma_count_pos_active(t: ColorTree)
        requires
            t.wf(),
            t.count() > 0,
        ensures
            exists|q: Point| t.contains_active(q),
        decreases t,
    {
        match t {
            ColorTree::Leaf { pos, active } => {
                assert(t.contains_active(pos));
            },
            ColorTree::Octant { children, .. } => {
                Self::lemma_count_children_pos(children@, 8);
                let i = choose|i: int| 0 <= i < 8 && (#[trigger] children@[i]).count() > 0;
                Self::lemma_count_pos_active(children@[i]);
                let q = choose|q: Point| children@[i].contains_active(q);
                assert(t.contains_active(q));
            },
        }
    }
}

/// The geometric cube distance is an admissible lower bound: no point of the
/// cube is closer to `p` than the cube itself.
proof fn lemma_cube_dist_le(tl: Point, br: Point, p: Point, q: Point)
    requires
        tl.r <= q.r <= br.r,
        tl.g <= q.g <= br.g,
        tl.b <= q.b <= br.b,
    ensures
        spec_cube_dist(tl, br, p) <= spec_point_dist(p, q),
{
    lemma_axis_gap_sq_le(tl.r as int, br.r as int, p.r as int, q.r as int);
    lemma_axis_gap_sq_le(tl.g as int, br.g as int, p.g as int, q.g as int);
    lemma_axis_gap_sq_le(tl.b as int, br.b as int, p.b as int, q.b as int);
}

/// One axis of the admissibility argument: the squared gap to the interval is
/// at most the squared difference to any value inside the interval.
proof fn lemma_axis_gap_sq_le(lo: int, hi: int, v: int, q: int)
    requires
        lo <= q <= hi,
    ensures
        sq(axis_gap(lo, hi, v)) <= sq(v - q),
{
    let g = axis_gap(lo, hi, v);
    if v < lo {
        assert(g <= q - v);
        assert(sq(g) <= sq(q - v)) by (nonlinear_arith)
            requires 0 <= g, g <= q - v,
        {}
        assert(sq(q - v) == sq(v - q)) by (nonlinear_arith);
    } else if v > hi {
        assert(g <= v - q);
        assert(sq(g) <= sq(v - q)) by (nonlinear_arith)
            requires 0 <= g, g <= v - q,
        {}
    } else {
        assert(sq(v - q) >= 0) by (nonlinear_arith);
    }
}

/// Squares of small values stay below `u32::MAX`; used to rule out overflow.
proof fn lemma_sq_bound(x: int, m: int)
    requires
        0 <= x <= m,
        0 <= m,
    ensures
        0 <= sq(x) <= m * m,
{
    assert(0 <= x * x <= m * m) by (nonlinear_arith)
        requires 0 <= x <= m,
    {}
}

impl Point {
    /// Squared Euclidean distance between two color points.
    pub fn dist(&self, other: &Point) -> (d: u32)
        requires
            self.r <= coord_bound(),
            self.g <= coord_bound(),
            self.b <= coord_bound(),
            other.r <= coord_bound(),
            other.g <= coord_bound(),
            other.b <= coord_bound(),
        ensures
            d == spec_point_dist(*self, *other),
    {
        let dr = self.r as i64 - other.r as i64;
        let dg = self.g as i64 - other.g as i64;
        let db = self.b as i64 - other.b as i64;
        proof {
            lemma_sq_bound(if dr >= 0 { dr as int } else { -dr as int }, coord_bound());
            lemma_sq_bound(if dg >= 0 { dg as int } else { -dg as int }, coord_bound());
            lemma_sq_bound(if db >= 0 { db as int } else { -db as int }, coord_bound());
            assert(dr * dr == sq(dr as int)) by (nonlinear_arith);
            assert(dg * dg == sq(dg as int)) by (nonlinear_arith);
            assert(db * db == sq(db as int)) by (nonlinear_arith);
            assert(sq(dr as int) == sq(-dr as int)) by (nonlinear_arith);
            assert(sq(dg as int) == sq(-dg as int)) by (nonlinear_arith);
            assert(sq(db as int) == sq(-db as int)) by (nonlinear_arith);
        }
        (dr * dr + dg * dg + db * db) as u32
    }
}

impl Cube {
    /// Minimum squared distance from `from` to any point inside this cube.
    pub fn dist(&self, from: &Point) -> (d: u32)
        requires
            self.tl.r <= coord_bound(),
            self.tl.g <= coord_bound(),
            self.tl.b <= coord_bound(),
            self.br.r <= coord_bound(),
            self.br.g <= coord_bound(),
            self.br.b <= coord_bound(),
            from.r <= coord_bound(),
            from.g <= coord_bound(),
            from.b <= coord_bound(),
        ensures
            d == spec_cube_dist(self.tl, self.br, *from),
    {
        let dr = axis_dist(self.tl.r, self.br.r, from.r);
        let dg = axis_dist(self.tl.g, self.br.g, from.g);
        let db = axis_dist(self.tl.b, self.br.b, from.b);
        proof {
            lemma_sq_bound(dr as int, coord_bound());
            lemma_sq_bound(dg as int, coord_bound());
            lemma_sq_bound(db as int, coord_bound());
            assert(dr as i64 * dr as i64 == sq(dr as int)) by (nonlinear_arith);
            assert(dg as i64 * dg as i64 == sq(dg as int)) by (nonlinear_arith);
            assert(db as i64 * db as i64 == sq(db as int)) by (nonlinear_arith);
        }
        (dr as i64 * dr as i64 + dg as i64 * dg as i64 + db as i64 * db as i64) as u32
    }
}

/// Two raised to the power `e`.
pub(crate) fn pow2_u32(e: u32) -> (r: u32)
    requires
        e <= 31,
    ensures
        r as nat == pow2(e as nat),
{
    proof {
        lemma2_to64();
    }
    let mut r: u32 = 1;
    let mut i: u32 = 0;
    while i < e
        invariant
            i <= e,
            e <= 31,
            r as nat == pow2(i as nat),
        decreases e - i,
    {
        proof {
            lemma_pow2_unfold(i as nat + 1);
            if (i as nat + 1) < 32 {
                lemma_pow2_strictly_increases(i as nat + 1, 32);
            }
            lemma2_to64();
        }
        r = r * 2;
        i = i + 1;
    }
    r
}

impl ColorTree {
    /// Builds the balanced octree over the full color cube `[0, 2^bits)^3`,
    /// with every one of its `2^(3*bits)` colors initially available.
    pub fn new(bits: u32) -> (t: ColorTree)
        requires
            bits <= 10,
        ensures
            t.wf(),
            t.origin() == (Point { r: 0, g: 0, b: 0 }),
            t.side() == pow2(bits as nat),
            t.bounded(coord_bound()),
            t.count() == pow2((3 * bits) as nat),
            forall|q: Point| t.contains_active(q) <==> t.in_region(q),
    {
        proof {
            lemma2_to64();
            if bits < 10 {
                lemma_pow2_strictly_increases(bits as nat, 10);
            }
        }
        ColorTree::mk_subtree(bits, Point { r: 0, g: 0, b: 0 })
    }

    /// Builds the subtree that covers the cube of edge `2^bits` whose
    /// top-left corner is `offset`.
    fn mk_subtree(bits: u32, offset: Point) -> (t: ColorTree)
        requires
            bits <= 10,
            offset.r + pow2(bits as nat) <= coord_bound(),
            offset.g + pow2(bits as nat) <= coord_bound(),
            offset.b + pow2(bits as nat) <= coord_bound(),
        ensures
            t.wf(),
            t.origin() == offset,
            t.side() == pow2(bits as nat),
            t.count() == pow2((3 * bits) as nat),
            forall|q: Point| t.contains_active(q) <==> t.in_region(q),
        decreases bits,
    {
        proof {
            lemma2_to64();
        }
        if bits > 0 {
            let size = pow2_u32(bits);
            let csize = size / 2;
            proof {
                lemma_pow2_unfold(bits as nat);
                assert(csize as nat == pow2((bits - 1) as nat));
            }
            let mut children: Vec<ColorTree> = Vec::new();
            children.push(ColorTree::mk_subtree(bits - 1, offset));
            children.push(ColorTree::mk_subtree(
                bits - 1,
                Point { r: offset.r, g: offset.g, b: offset.b + csize },
            ));
            children.push(ColorTree::mk_subtree(
                bits - 1,
                Point { r: offset.r, g: offset.g + csize, b: offset.b },
            ));
            children.push(ColorTree::mk_subtree(
                bits - 1,
                Point { r: offset.r, g: offset.g + csize, b: offset.b + csize },
            ));
            children.push(ColorTree::mk_subtree(
                bits - 1,
                Point { r: offset.r + csize, g: offset.g, b: offset.b },
            ));
            children.push(ColorTree::mk_subtree(
                bits - 1,
                Point { r: offset.r + csize, g: offset.g, b: offset.b + csize },
            ));
            children.push(ColorTree::mk_subtree(
                bits - 1,
                Point { r: offset.r + csize, g: offset.g + csize, b: offset.b },
            ));
            children.push(ColorTree::mk_subtree(
                bits - 1,
                Point { r: offset.r + csize, g: offset.g + csize, b: offset.b + csize },
            ));
            let num_leaf = pow2_u32(3 * bits);
            let t = ColorTree::Octant {
                cube: Cube {
                    tl: offset,
                    br: Point {
                        r: offset.r + (size - 1),
                        g: offset.g + (size - 1),
                        b: offset.b + (size - 1),
                    },
                    size,
                },
                num_leaf,
                children,
            };
            proof {
                let s = children@;
                let half = pow2((bits - 1) as nat) as int;
                let sz = pow2(bits as nat) as int;
                let sub = pow2((3 * (bits - 1)) as nat);
                assert(Self::count_children(s, 0) == 0);
                assert(Self::count_children(s, 1) == sub);
                assert(Self::count_children(s, 2) == 2 * sub);
                assert(Self::count_children(s, 3) == 3 * sub);
                assert(Self::count_children(s, 4) == 4 * sub);
                assert(Self::count_children(s, 5) == 5 * sub);
                assert(Self::count_children(s, 6) == 6 * sub);
                assert(Self::count_children(s, 7) == 7 * sub);
                assert(Self::count_children(s, 8) == 8 * sub);
                assert(pow2(3) == 8) by {
                    lemma2_to64();
                }
                lemma_pow2_adds(3, (3 * (bits - 1)) as nat);
                assert((3 * bits) as nat == 3 + (3 * (bits - 1)) as nat);
                assert(t.count() == pow2((3 * bits) as nat));
                assert forall|i: int| 0 <= i < 8 implies {
                    &&& (#[trigger] s[i]).wf()
                    &&& s[i].side() == half
                    &&& s[i].origin().r == offset.r + if i >= 4 { half } else { 0 }
                    &&& s[i].origin().g == offset.g + if i % 4 >= 2 { half } else { 0 }
                    &&& s[i].origin().b == offset.b + if i % 2 == 1 { half } else { 0 }
                } by {
                    assert(s[0].wf() && s[1].wf() && s[2].wf() && s[3].wf() && s[4].wf()
                        && s[5].wf() && s[6].wf() && s[7].wf());
                }
                assert(t.wf());
                assert forall|q: Point| t.contains_active(q) <==> t.in_region(q) by {
                    if t.contains_active(q) {
                        let i = choose|i: int| 0 <= i < 8 && (#[trigger] s[i]).contains_active(q);
                        assert(s[i].in_region(q));
                        assert(t.in_region(q));
                    }
                    if t.in_region(q) {
                        let i: int = (if q.r >= offset.r + half { 4int } else { 0int })
                            + (if q.g >= offset.g + half { 2int } else { 0int })
                            + (if q.b >= offset.b + half { 1int } else { 0int });
                        assert(s[i].in_region(q));
                        assert(s[i].contains_active(q));
                        assert(t.contains_active(q));
                    }
                }
            }
            t
        } else {
            ColorTree::Leaf { pos: offset, active: true }
        }
    }

    /// The number of colors still available in this tree.
    pub fn live_count(&self) -> (n: u32)
        requires
            self.wf(),
        ensures
            n as nat == self.count(),
    {
        match self {
            ColorTree::Leaf { active, .. } => if *active {
                1
            } else {
                0
            },
            ColorTree::Octant { num_leaf, .. } => *num_leaf,
        }
    }
}

/// The observable effect of one `remove(p)` call that returned `res`: the
/// leaf for `p` is no longer available, every other leaf keeps its state,
/// and the live count drops by one exactly when `p` was still available.
pub open spec fn remove_effect(pre: ColorTree, post: ColorTree, p: Point, res: bool) -> bool {
    &&& post.wf()
    &&& post.origin() == pre.origin()
    &&& post.side() == pre.side()
    &&& res == pre.contains_active(p)
    &&& !post.contains_active(p)
    &&& (forall|q: Point| q != p ==> post.contains_active(q) == pre.contains_active(q))
    &&& post.count() + (if res { 1nat } else { 0nat }) == pre.count()
}

/// Removing the same available point twice succeeds exactly once: the first
/// call returns true, the second false, and the live count drops exactly
/// once, with every other leaf untouched.
pub proof fn lemma_remove_twice(
    t0: ColorTree,
    t1: ColorTree,
    t2: ColorTree,
    p: Point,
    r1: bool,
    r2: bool,
)
    requires
        t0.wf(),
        t0.contains_active(p),
        remove_effect(t0, t1, p, r1),
        remove_effect(t1, t2, p, r2),
    ensures
        r1,
        !r2,
        t2.count() + 1 == t0.count(),
        forall|q: Point| q != p ==> t2.contains_active(q) == t0.contains_active(q),
{
}

impl ColorTree {
    /// One-time removal of a color. Returns whether the leaf for `point` was
    /// still available; if so, flips it to unavailable and decrements the
    /// cached count on every octant of the path. A repeated removal is a
    /// `false`-returning no-op.
    #[verifier::rlimit(60)]
    pub fn remove(&mut self, point: Point) -> (removed: bool)
        requires
            old(self).wf(),
            old(self).in_region(point),
        ensures
            remove_effect(*old(self), *final(self), point, removed),
        decreases old(self).side(),
    {
        match self {
            ColorTree::Leaf { active, .. } => {
                if *active {
                    *active = false;
                    true
                } else {
                    false
                }
            },
            ColorTree::Octant { cube, num_leaf, children } => {
                if *num_leaf == 0 {
                    proof {
                        assert forall|q: Point| !old(self).contains_active(q) by {
                            Self::lemma_count_zero_no_active(*old(self), q);
                        }
                    }
                    return false;
                }
                let half = cube.size / 2;
                let mut idx: usize = 0;
                if point.r >= cube.tl.r + half {
                    idx = idx + 4;
                }
                if point.g >= cube.tl.g + half {
                    idx = idx + 2;
                }
                if point.b >= cube.tl.b + half {
                    idx = idx + 1;
                }
                let ghost olds = children@;
                let ghost oldchild = children@[idx as int];
                proof {
                    assert(olds[idx as int].wf());
                    assert(olds[idx as int].in_region(point));
                }
                let child = &mut children[idx];
                let removed = child.remove(point);
                if removed {
                    proof {
                        Self::lemma_active_count_pos(oldchild, point);
                        Self::lemma_count_children_le(olds, 8, idx as int);
                    }
                    *num_leaf = *num_leaf - 1;
                }
                proof {
                    let news = final(self)->Octant_children@;
                    let newchild = news[idx as int];
                    assert(news == olds.update(idx as int, newchild));
                    Self::lemma_count_children_update(olds, 8, idx as int, newchild);
                    // No sibling's region holds `point`, so the change is
                    // confined to the chosen child.
                    assert forall|j: int| 0 <= j < 8 && j != idx as int
                        implies !(#[trigger] olds[j]).contains_active(point) by {
                        if olds[j].contains_active(point) {
                            Self::lemma_active_in_region(olds[j], point);
                        }
                    }
                    assert forall|q: Point| q != point
                        implies final(self).contains_active(q)
                            == old(self).contains_active(q) by {
                        if old(self).contains_active(q) {
                            let j = choose|j: int|
                                0 <= j < 8 && (#[trigger] olds[j]).contains_active(q);
                            assert(news[j].contains_active(q));
                        }
                        if final(self).contains_active(q) {
                            let j = choose|j: int|
                                0 <= j < 8 && (#[trigger] news[j]).contains_active(q);
                            assert(olds[j].contains_active(q));
                        }
                    }
                    assert forall|j: int| 0 <= j < 8
                        implies !(#[trigger] news[j]).contains_active(point) by {}
                    if old(self).contains_active(point) {
                        let j = choose|j: int|
                            0 <= j < 8 && (#[trigger] olds[j]).contains_active(point);
                        assert(j == idx as int);
                        assert(removed);
                    }
                    if oldchild.contains_active(point) {
                        assert(old(self).contains_active(point));
                    }
                }
                removed
            },
        }
    }
}

impl ColorTree {
    /// The available leaf nearest to `from`, with its squared distance, or
    /// nothing when every color has been removed.
    pub fn nearest(&self, from: Point) -> (r: Option<(Point, u32)>)
        requires
            self.wf(),
            self.bounded(coord_bound()),
            from.r <= coord_bound(),
            from.g <= coord_bound(),
            from.b <= coord_bound(),
        ensures
            r is Some <==> self.count() > 0,
            r matches Some((p, d)) ==> {
                &&& self.contains_active(p)
                &&& d == spec_point_dist(from, p)
                &&& forall|q: Point| self.contains_active(q) ==> spec_point_dist(from, q) >= d
            },
    {
        let r = self.nearest_radius(from, u32::MAX);
        proof {
            if self.count() > 0 {
                Self::lemma_count_pos_active(*self);
                let q = choose|q: Point| self.contains_active(q);
                Self::lemma_active_in_region(*self, q);
                lemma_point_dist_bound(from, q);
                assert(r is Some);
            } else {
                match r {
                    Some((p, _d)) => {
                        Self::lemma_active_count_pos(*self, p);
                    },
                    None => {},
                }
            }
        }
        r
    }

    /// Branch-and-bound search for the available leaf nearest to `from`
    /// among those strictly closer than `radius`: visits the non-empty
    /// children ordered by their geometric lower bound and skips a child
    /// whose bound cannot beat the best distance found so far.
    fn nearest_radius(&self, from: Point, radius: u32) -> (r: Option<(Point, u32)>)
        requires
            self.wf(),
            self.bounded(coord_bound()),
            from.r <= coord_bound(),
            from.g <= coord_bound(),
            from.b <= coord_bound(),
        ensures
            r is None ==> forall|q: Point| self.contains_active(q)
                ==> spec_point_dist(from, q) >= radius,
            r matches Some((p, d)) ==> {
                &&& self.contains_active(p)
                &&& d == spec_point_dist(from, p)
                &&& d < radius
                &&& forall|q: Point| self.contains_active(q) ==> spec_point_dist(from, q) >= d
            },
        decreases self.side(),
    {
        match self {
            ColorTree::Leaf { pos, active } => {
                if *active {
                    let dist = from.dist(pos);
                    if radius > dist {
                        Some((*pos, dist))
                    } else {
                        None
                    }
                } else {
                    None
                }
            },
            ColorTree::Octant { cube, num_leaf, children } => {
                if *num_leaf == 0 {
                    proof {
                        assert forall|q: Point| !self.contains_active(q) by {
                            Self::lemma_count_zero_no_active(*self, q);
                        }
                    }
                    return None;
                }
                // Collect each non-empty child with its geometric lower
                // bound, kept sorted by bound ascending.
                let mut order: Vec<(u32, usize)> = Vec::new();
                let mut i: usize = 0;
                while i < 8
                    invariant
                        self.wf(),
                        self.bounded(coord_bound()),
                        from.r <= coord_bound(),
                        from.g <= coord_bound(),
                        from.b <= coord_bound(),
                        self is Octant,
                        self->Octant_children@ == children@,
                        children@.len() == 8,
                        i <= 8,
                        forall|m: int| 0 <= m < order@.len() ==> (#[trigger] order@[m]).1 < 8,
                        forall|m: int, q: Point| 0 <= m < order@.len()
                            && (#[trigger] children@[(#[trigger] order@[m]).1 as int].contains_active(q))
                                ==> spec_point_dist(from, q) >= order@[m].0,
                        forall|j: int| 0 <= j < i && (#[trigger] children@[j]).count() > 0
                            ==> exists|m: int| 0 <= m < order@.len() && (#[trigger] order@[m]).1 == j,
                    decreases 8 - i,
                {
                    proof {
                        lemma_child_facts(*self, i as int);
                    }
                    let c = &children[i];
                    let bound = c.dist(from);
                    match bound {
                        Some(d) => {
                            let mut pos: usize = 0;
                            while pos < order.len() && order[pos].0 <= d
                                invariant
                                    pos <= order@.len(),
                                decreases order@.len() - pos,
                            {
                                pos = pos + 1;
                            }
                            let ghost olds = order@;
                            order.insert(pos, (d, i));
                            proof {
                                olds.insert_ensures(pos as int, (d, i));
                                assert forall|j: int|
                                    0 <= j < i + 1 && (#[trigger] children@[j]).count() > 0
                                    implies exists|m: int|
                                        0 <= m < order@.len() && (#[trigger] order@[m]).1 == j by {
                                    if j == i {
                                        assert(order@[pos as int].1 == j);
                                    } else {
                                        let m = choose|m: int|
                                            0 <= m < olds.len() && (#[trigger] olds[m]).1 == j;
                                        if m < pos {
                                            assert(order@[m].1 == j);
                                        } else {
                                            assert(order@[m + 1].1 == j);
                                        }
                                    }
                                }
                            }
                        },
                        None => {},
                    }
                    i = i + 1;
                }
                // Visit the children in that order, keeping the running
                // best; a child whose lower bound is not smaller than the
                // current best cannot improve it.
                let mut best: u32 = radius;
                let mut bestpos: Option<(Point, u32)> = None;
                let mut k: usize = 0;
                while k < order.len()
                    invariant
                        self.wf(),
                        self.bounded(coord_bound()),
                        from.r <= coord_bound(),
                        from.g <= coord_bound(),
                        from.b <= coord_bound(),
                        self is Octant,
                        self->Octant_children@ == children@,
                        children@.len() == 8,
                        k <= order@.len(),
                        forall|m: int| 0 <= m < order@.len() ==> (#[trigger] order@[m]).1 < 8,
                        forall|m: int, q: Point| 0 <= m < order@.len()
                            && (#[trigger] children@[(#[trigger] order@[m]).1 as int].contains_active(q))
                                ==> spec_point_dist(from, q) >= order@[m].0,
                        forall|j: int| 0 <= j < 8 && (#[trigger] children@[j]).count() > 0
                            ==> exists|m: int| 0 <= m < order@.len() && (#[trigger] order@[m]).1 == j,
                        best <= radius,
                        bestpos is None ==> best == radius,
                        bestpos matches Some((p, d)) ==> {
                            &&& d == best
                            &&& best < radius
                            &&& self.contains_active(p)
                            &&& d == spec_point_dist(from, p)
                        },
                        forall|m: int, q: Point| 0 <= m < k
                            && (#[trigger] children@[(#[trigger] order@[m]).1 as int].contains_active(q))
                                ==> spec_point_dist(from, q) >= best,
                    decreases order@.len() - k,
                {
                    let entry = order[k];
                    let dc = entry.0;
                    let ci = entry.1;
                    if dc < best {
                        proof {
                            lemma_child_facts(*self, ci as int);
                        }
                        let c = &children[ci];
                        let sub = c.nearest_radius(from, best);
                        match sub {
                            Some(found) => {
                                proof {
                                    assert(self.contains_active(found.0));
                                }
                                best = found.1;
                                bestpos = Some(found);
                            },
                            None => {},
                        }
                    }
                    k = k + 1;
                }
                proof {
                    assert forall|q: Point| self.contains_active(q)
                        implies spec_point_dist(from, q) >= best by {
                        let j = choose|j: int|
                            0 <= j < children@.len()
                                && (#[trigger] children@[j]).contains_active(q);
                        Self::lemma_active_count_pos(children@[j], q);
                        let m = choose|m: int|
                            0 <= m < order@.len() && (#[trigger] order@[m]).1 == j;
                        assert(children@[order@[m].1 as int].contains_active(q));
                    }
                }
                bestpos
            },
        }
    }
}

impl ColorTree {
    /// Admissible lower bound on the distance from `from` to any available
    /// leaf of this subtree: the exact distance at a leaf, the geometric cube
    /// distance at an octant, nothing when no leaf is available.
    fn dist(&self, from: Point) -> (r: Option<u32>)
        requires
            self.wf(),
            self.bounded(coord_bound()),
            from.r <= coord_bound(),
            from.g <= coord_bound(),
            from.b <= coord_bound(),
        ensures
            r is Some <==> self.count() > 0,
            r matches Some(d) ==> forall|q: Point| self.contains_active(q)
                ==> spec_point_dist(from, q) >= d,
            r matches Some(d) ==> ((*self) matches ColorTree::Leaf { pos, .. }
                ==> d == spec_point_dist(from, pos)),
    {
        match self {
            ColorTree::Leaf { pos, active } => {
                if *active {
                    Some(from.dist(pos))
                } else {
                    None
                }
            },
            ColorTree::Octant { cube, num_leaf, .. } => {
                if *num_leaf > 0 {
                    let d = cube.dist(&from);
                    proof {
                        if self.count() == 0 {
                            assert(false);
                        }
                        assert forall|q: Point| self.contains_active(q)
                            implies spec_point_dist(from, q) >= d by {
                            Self::lemma_active_in_region(*self, q);
                            lemma_cube_dist_le(cube.tl, cube.br, from, q);
                        }
                    }
                    Some(d)
                } else {
                    proof {
                        if self.count() > 0 {
                            assert(false);
                        }
                    }
                    None
                }
            },
        }
    }
}

/// Every squared distance between bounded points stays below `u32::MAX`.
proof fn lemma_point_dist_bound(a: Point, b: Point)
    requires
        a.r <= coord_bound(),
        a.g <= coord_bound(),
        a.b <= coord_bound(),
        b.r <= coord_bound(),
        b.g <= coord_bound(),
        b.b <= coord_bound(),
    ensures
        0 <= spec_point_dist(a, b) < u32::MAX,
{
    lemma_abs_sq_le(a.r as int, b.r as int, coord_bound());
    lemma_abs_sq_le(a.g as int, b.g as int, coord_bound());
    lemma_abs_sq_le(a.b as int, b.b as int, coord_bound());
}

/// The square of a difference of values out of `[0, m]` is at most `m * m`.
proof fn lemma_abs_sq_le(x: int, y: int, m: int)
    requires
        0 <= x <= m,
        0 <= y <= m,
    ensures
        0 <= sq(x - y) <= m * m,
{
    assert(0 <= (x - y) * (x - y) <= m * m) by (nonlinear_arith)
        requires 0 <= x <= m, 0 <= y <= m,
    {}
}

/// What the parent's well-formedness says of one child: well-formed, half the
/// side, covering one octant, still inside the coordinate bound.
proof fn lemma_child_facts(t: ColorTree, i: int)
    requires
        t.wf(),
        t.bounded(coord_bound()),
        t is Octant,
        0 <= i < 8,
    ensures
        (t->Octant_children@[i]).wf(),
        (t->Octant_children@[i]).bounded(coord_bound()),
        (t->Octant_children@[i]).side() * 2 == t.side(),
        (t->Octant_children@[i]).side() < t.side(),
{
    assert(t->Octant_children@[i].wf());
}

/// Distance from `v` to the interval `[lo, hi]` on one axis.
fn axis_dist(lo: u32, hi: u32, v: u32) -> (d: u32)
    requires
        lo <= coord_bound(),
        hi <= coord_bound(),
        v <= coord_bound(),
    ensures
        d == axis_gap(lo as int, hi as int, v as int),
{
    if v < lo {
        lo - v
    } else if v > hi {
        v - hi
    } else {
        0
    }
}

} // verus!
