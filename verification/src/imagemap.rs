use vstd::prelude::*;
use rand::Rng;

verus! {

/// The state of one grid cell: untouched, reserved for growth (adjacent to a
/// placed cell, enqueued at most once), or filled with a color.
#[derive(Debug, Copy, Clone, PartialEq, Eq, Structural)]
pub enum Pixel {
    Free,
    Marked,
    Placed(u8, u8, u8),
}

/// A fixed-size grid of cells together with the frontier: `open` holds the
/// marked coordinates still pending placement, each at most once, and the
/// next growth site is drawn from it uniformly at random.
#[derive(Debug)]
pub struct Image {
    pub width: usize,
    pub height: usize,
    pub data: Vec<Vec<Pixel>>,
    pub open: Vec<(usize, usize)>,
}

/// Whether `(i, j)` lies in the 3-by-3 block centered on `(x, y)`.
pub open spec fn near(x: int, y: int, i: int, j: int) -> bool {
    &&& x - 1 <= i <= x + 1
    &&& y - 1 <= j <= y + 1
}

/// The observable effect of placing `color` at `(x, y)`: the cell is
/// filled; every other cell is untouched except the free cells of the
/// 3-by-3 block, which become marked; and exactly those marked cells join
/// the pending frontier.
pub open spec fn place_effect(pre: Image, post: Image, x: usize, y: usize, color: (u8, u8, u8)) -> bool {
    &&& post.wf()
    &&& post.width == pre.width
    &&& post.height == pre.height
    &&& post.cell(x as int, y as int) == Pixel::Placed(color.0, color.1, color.2)
    &&& (forall|i: int, j: int|
        pre.in_bounds(i, j) && (i != x || j != y)
            ==> post.cell(i, j) == (if pre.cell(i, j) is Free
                && near(x as int, y as int, i, j) {
                Pixel::Marked
            } else {
                pre.cell(i, j)
            }))
    &&& (forall|p: (usize, usize)|
        post.open_contains(p) <==> (pre.open_contains(p) || {
            &&& pre.in_bounds(p.0 as int, p.1 as int)
            &&& near(x as int, y as int, p.0 as int, p.1 as int)
            &&& pre.cell(p.0 as int, p.1 as int) is Free
            &&& !(p.0 == x && p.1 == y)
        }))
}

/// The frontier never holds the same coordinate twice, however many
/// placements reached it from different directions.
pub proof fn lemma_frontier_no_duplicates(im: Image, m: int, n: int)
    requires
        im.wf(),
        0 <= m < n < im.open@.len(),
    ensures
        im.open@[m] != im.open@[n],
{
}

/// A placement enqueues only coordinates of cells that were still free:
/// whatever is already pending, already marked or already placed never
/// enters the frontier again.
pub proof fn lemma_no_reenqueue(pre: Image, post: Image, x: usize, y: usize, color: (u8, u8, u8), p: (usize, usize))
    requires
        pre.wf(),
        place_effect(pre, post, x, y, color),
        post.open_contains(p),
        !pre.open_contains(p),
    ensures
        pre.cell(p.0 as int, p.1 as int) is Free,
{
}

/// A coordinate enters the frontier at most once over the grid's lifetime:
/// once it is out of the pending list with a non-free cell — as when it was
/// drawn by `get_open`, which keeps every cell and only removes the drawn
/// member — no later placement re-enqueues it or frees its cell, from
/// whichever direction the placement reaches it. This state is therefore
/// preserved by both mutators forever.
pub proof fn lemma_drawn_never_reenqueued(pre: Image, post: Image, x: usize, y: usize, color: (u8, u8, u8), p: (usize, usize))
    requires
        pre.wf(),
        place_effect(pre, post, x, y, color),
        !pre.open_contains(p),
        pre.in_bounds(p.0 as int, p.1 as int),
        !(pre.cell(p.0 as int, p.1 as int) is Free),
    ensures
        !post.open_contains(p),
        !(post.cell(p.0 as int, p.1 as int) is Free),
{
    if p.0 == x && p.1 == y {
        assert(post.cell(p.0 as int, p.1 as int) is Placed);
    }
}

/// Once the frontier is empty, a placement whose whole neighborhood is
/// already reserved or filled keeps it empty: only a still-free neighbor
/// can reopen growth.
pub proof fn lemma_place_keeps_complete(pre: Image, post: Image, x: usize, y: usize, color: (u8, u8, u8))
    requires
        pre.wf(),
        place_effect(pre, post, x, y, color),
        pre.open@.len() == 0,
        forall|i: int, j: int| pre.in_bounds(i, j) && near(x as int, y as int, i, j)
            ==> !((#[trigger] pre.cell(i, j)) is Free),
    ensures
        post.open@.len() == 0,
{
    if post.open@.len() > 0 {
        let p = post.open@[0];
        assert(post.open_contains(p));
        assert(pre.cell(p.0 as int, p.1 as int) is Free);
        assert(false);
    }
}

impl Image {
    /// The cell at `(x, y)`.
    pub open spec fn cell(self, x: int, y: int) -> Pixel {
        self.data@[x]@[y]
    }

    /// The pending frontier list, as a sequence of coordinates.
    pub open spec fn frontier(self) -> Seq<(usize, usize)> {
        self.open@
    }

    pub open spec fn in_bounds(self, x: int, y: int) -> bool {
        &&& 0 <= x < self.width
        &&& 0 <= y < self.height
    }

    /// Whether `p` is in the pending frontier list.
    pub open spec fn open_contains(self, p: (usize, usize)) -> bool {
        exists|m: int| 0 <= m < self.open@.len() && self.open@[m] == p
    }

    /// Well-formedness: the grid is rectangular and fits the machine, every
    /// pending coordinate names a marked cell, and no coordinate is pending
    /// twice.
    pub open spec fn wf(self) -> bool {
        &&& self.width <= 0x40000000
        &&& self.height <= 0x40000000
        &&& self.data@.len() == self.width
        &&& forall|x: int| 0 <= x < self.width ==> (#[trigger] self.data@[x])@.len()
            == self.height
        &&& forall|m: int| 0 <= m < self.open@.len() ==> {
            &&& (#[trigger] self.open@[m]).0 < self.width
            &&& self.open@[m].1 < self.height
            &&& self.cell(self.open@[m].0 as int, self.open@[m].1 as int) is Marked
        }
        &&& forall|m: int, n: int| 0 <= m < n < self.open@.len()
            ==> self.open@[m] != self.open@[n]
    }

    /// A fresh grid: every cell free, nothing pending.
    pub fn new(width: usize, height: usize) -> (im: Image)
        requires
            width <= 0x40000000,
            height <= 0x40000000,
        ensures
            im.wf(),
            im.width == width,
            im.height == height,
            im.open@.len() == 0,
            forall|i: int, j: int| im.in_bounds(i, j) ==> im.cell(i, j) is Free,
    {
        let mut data: Vec<Vec<Pixel>> = Vec::new();
        let mut x: usize = 0;
        while x < width
            invariant
                x <= width,
                data@.len() == x,
                forall|i: int| 0 <= i < x ==> (#[trigger] data@[i])@.len() == height,
                forall|i: int, j: int| 0 <= i < x && 0 <= j < height
                    ==> data@[i]@[j] is Free,
            decreases width - x,
        {
            let mut col: Vec<Pixel> = Vec::new();
            let mut y: usize = 0;
            while y < height
                invariant
                    y <= height,
                    col@.len() == y,
                    forall|j: int| 0 <= j < y ==> col@[j] is Free,
                decreases height - y,
            {
                col.push(Pixel::Free);
                y = y + 1;
            }
            data.push(col);
            x = x + 1;
        }
        Image { width, height, data, open: Vec::new() }
    }

    /// The cell at signed coordinates, or nothing when out of bounds.
    fn get(&self, x: i32, y: i32) -> (r: Option<&Pixel>)
        requires
            self.wf(),
        ensures
            r is Some <==> self.in_bounds(x as int, y as int),
            r matches Some(p) ==> *p == self.cell(x as int, y as int),
    {
        if !((0 <= x) && (x < self.width as i32)) || !((0 <= y) && (y < self.height as i32)) {
            return None;
        }
        Some(&self.data[x as usize][y as usize])
    }

    /// The placed color at signed coordinates, or nothing when the cell is
    /// out of bounds or not placed.
    pub fn get_color(&self, x: i32, y: i32) -> (r: Option<(u8, u8, u8)>)
        requires
            self.wf(),
        ensures
            r is Some <==> (self.in_bounds(x as int, y as int)
                && self.cell(x as int, y as int) is Placed),
            r matches Some(c) ==> self.cell(x as int, y as int)
                == Pixel::Placed(c.0, c.1, c.2),
    {
        match self.get(x, y) {
            Some(px) => match *px {
                Pixel::Placed(r, g, b) => Some((r, g, b)),
                _ => None,
            },
            None => None,
        }
    }

    /// Fills `(x, y)` with `color`, then reserves every currently free cell
    /// of the surrounding 3-by-3 block as frontier. A cell already marked or
    /// placed is left untouched, so a coordinate enters the frontier at most
    /// once over the grid's lifetime. The target must not itself be pending:
    /// a pending coordinate is exactly a reserved cell awaiting placement,
    /// and it is placed by first drawing it from the frontier, never while
    /// it still waits there.
    pub fn place(&mut self, x: usize, y: usize, color: (u8, u8, u8))
        requires
            old(self).wf(),
            x < old(self).width,
            y < old(self).height,
            !old(self).open_contains((x, y)),
        ensures
            place_effect(*old(self), *final(self), x, y, color),
    {
        let (r, g, b) = color;
        self.data[x][y] = Pixel::Placed(r, g, b);
        let mut di: usize = 0;
        while di < 3
            invariant
                di <= 3,
                self.wf(),
                self.width == old(self).width,
                self.height == old(self).height,
                x < self.width,
                y < self.height,
                !old(self).open_contains((x, y)),
                self.cell(x as int, y as int) == Pixel::Placed(color.0, color.1, color.2),
                forall|i: int, j: int|
                    old(self).in_bounds(i, j) && (i != x || j != y)
                        ==> self.cell(i, j) == (if old(self).cell(i, j) is Free
                            && near(x as int, y as int, i, j)
                            && i - x < di - 1 {
                            Pixel::Marked
                        } else {
                            old(self).cell(i, j)
                        }),
                forall|p: (usize, usize)|
                    self.open_contains(p) <==> (old(self).open_contains(p) || {
                        &&& old(self).in_bounds(p.0 as int, p.1 as int)
                        &&& near(x as int, y as int, p.0 as int, p.1 as int)
                        &&& p.0 as int - x < di - 1
                        &&& old(self).cell(p.0 as int, p.1 as int) is Free
                        &&& !(p.0 == x && p.1 == y)
                    }),
            decreases 3 - di,
        {
            let mut dj: usize = 0;
            while dj < 3
                invariant
                    di < 3,
                    dj <= 3,
                    self.wf(),
                    self.width == old(self).width,
                    self.height == old(self).height,
                    x < self.width,
                    y < self.height,
                    !old(self).open_contains((x, y)),
                    self.cell(x as int, y as int) == Pixel::Placed(color.0, color.1, color.2),
                    forall|i: int, j: int|
                        old(self).in_bounds(i, j) && (i != x || j != y)
                            ==> self.cell(i, j) == (if old(self).cell(i, j) is Free
                                && near(x as int, y as int, i, j)
                                && (i - x < di - 1 || (i - x == di - 1 && j - y < dj - 1)) {
                                Pixel::Marked
                            } else {
                                old(self).cell(i, j)
                            }),
                    forall|p: (usize, usize)|
                        self.open_contains(p) <==> (old(self).open_contains(p) || {
                            &&& old(self).in_bounds(p.0 as int, p.1 as int)
                            &&& near(x as int, y as int, p.0 as int, p.1 as int)
                            &&& (p.0 as int - x < di - 1 || (p.0 as int - x == di - 1
                                && p.1 as int - y < dj - 1))
                            &&& old(self).cell(p.0 as int, p.1 as int) is Free
                            &&& !(p.0 == x && p.1 == y)
                        }),
                decreases 3 - dj,
            {
                let cx = x as i64 + di as i64 - 1;
                let cy = y as i64 + dj as i64 - 1;
                if cx >= 0 && cx < self.width as i64 && cy >= 0 && cy < self.height as i64 {
                    let px = cx as usize;
                    let py = cy as usize;
                    let is_free = match self.data[px][py] {
                        Pixel::Free => true,
                        _ => false,
                    };
                    if is_free {
                        let ghost mid = *self;
                        self.open.push((px, py));
                        self.data[px][py] = Pixel::Marked;
                        proof {
                            let np = (px, py);
                            assert(self.open@ == mid.open@.push(np));
                            assert(self.cell(px as int, py as int) is Marked);
                            assert forall|i: int, j: int|
                                mid.in_bounds(i, j) && (i != px || j != py)
                                implies self.cell(i, j) == mid.cell(i, j) by {}
                            assert(!mid.open_contains(np)) by {
                                if mid.open_contains(np) {
                                    let m = choose|m: int|
                                        0 <= m < mid.open@.len() && mid.open@[m] == np;
                                    assert(mid.cell(np.0 as int, np.1 as int) is Marked);
                                }
                            }
                            assert forall|p: (usize, usize)|
                                self.open_contains(p) <==> (mid.open_contains(p) || p == np) by {
                                if self.open_contains(p) {
                                    let m = choose|m: int|
                                        0 <= m < self.open@.len() && self.open@[m] == p;
                                    if m < mid.open@.len() {
                                        assert(mid.open@[m] == p);
                                    } else {
                                        assert(p == np);
                                    }
                                }
                                if mid.open_contains(p) {
                                    let m = choose|m: int|
                                        0 <= m < mid.open@.len() && mid.open@[m] == p;
                                    assert(self.open@[m] == p);
                                }
                                if p == np {
                                    assert(self.open@[self.open@.len() - 1] == p);
                                }
                            }
                            assert(mid.cell(px as int, py as int) is Free);
                            assert(px != x || py != y);
                            assert(old(self).cell(px as int, py as int) is Free);
                        }
                    }
                }
                dj = dj + 1;
            }
            di = di + 1;
        }
    }

    /// Removes a coordinate drawn uniformly at random from the pending
    /// frontier and returns it; nothing when the frontier is empty. The cell
    /// itself stays marked until a later `place` fills it.
    pub fn get_open(&mut self) -> (r: Option<(usize, usize)>)
        requires
            old(self).wf(),
        ensures
            final(self).wf(),
            final(self).width == old(self).width,
            final(self).height == old(self).height,
            forall|i: int, j: int| old(self).in_bounds(i, j)
                ==> final(self).cell(i, j) == old(self).cell(i, j),
            r is None <==> old(self).open@.len() == 0,
            r is None ==> final(self).open@ == old(self).open@,
            r matches Some(p) ==> {
                &&& old(self).open_contains(p)
                &&& p.0 < old(self).width
                &&& p.1 < old(self).height
                &&& old(self).cell(p.0 as int, p.1 as int) is Marked
                &&& !final(self).open_contains(p)
                &&& forall|q: (usize, usize)| q != p
                    ==> final(self).open_contains(q) == old(self).open_contains(q)
                &&& final(self).open@.len() == old(self).open@.len() - 1
            },
    {
        if self.open.is_empty() {
            return None;
        }
        let n = self.open.len();
        let i = random_below(n);
        let ghost olds = self.open@;
        let p = self.open.swap_remove(i);
        proof {
            let news = self.open@;
            assert(news == olds.update(i as int, olds.last()).drop_last());
            assert(olds[i as int] == p);
            assert forall|q: (usize, usize)| q != p
                implies self.open_contains(q) == old(self).open_contains(q) by {
                if self.open_contains(q) {
                    let m = choose|m: int| 0 <= m < news.len() && news[m] == q;
                    if m == i {
                        assert(olds[olds.len() - 1] == q);
                    } else {
                        assert(olds[m] == q);
                    }
                }
                if old(self).open_contains(q) {
                    let m = choose|m: int| 0 <= m < olds.len() && olds[m] == q;
                    if m == i {
                        assert(false);
                    } else if m == olds.len() - 1 {
                        assert(i < olds.len() - 1);
                        assert(news[i as int] == q);
                    } else {
                        assert(news[m] == q);
                    }
                }
            }
            if self.open_contains(p) {
                let m = choose|m: int| 0 <= m < news.len() && news[m] == p;
                if m == i {
                    assert(olds[olds.len() - 1] == p);
                    assert(false);
                } else {
                    assert(olds[m] == p);
                    assert(false);
                }
            }
        }
        Some(p)
    }

    /// Whether the frontier is exhausted.
    pub fn done(&self) -> (r: bool)
        ensures
            r <==> self.open@.len() == 0,
    {
        self.open.is_empty()
    }

    /// Whether `(x, y)` is pending in the frontier.
    pub fn is_open(&self, x: usize, y: usize) -> (r: bool)
        ensures
            r == self.open_contains((x, y)),
    {
        let mut m: usize = 0;
        while m < self.open.len()
            invariant
                m <= self.open@.len(),
                forall|k: int| 0 <= k < m ==> self.open@[k] != (x, y),
            decreases self.open@.len() - m,
        {
            let p = self.open[m];
            if p.0 == x && p.1 == y {
                proof {
                    assert(self.open@[m as int] == (x, y));
                }
                return true;
            }
            m = m + 1;
        }
        false
    }

    /// How many coordinates are pending in the frontier.
    pub fn num_open(&self) -> (n: usize)
        ensures
            n == self.open@.len(),
    {
        self.open.len()
    }

    /// A full snapshot of the grid: placed cells show their color, all
    /// others `default`.
    pub fn to_image(&self, default: (u8, u8, u8)) -> (out: Vec<Vec<(u8, u8, u8)>>)
        requires
            self.wf(),
        ensures
            out@.len() == self.width,
            forall|i: int| 0 <= i < self.width ==> (#[trigger] out@[i])@.len() == self.height,
            forall|i: int, j: int| self.in_bounds(i, j)
                ==> out@[i]@[j] == (match self.cell(i, j) {
                    Pixel::Placed(r, g, b) => (r, g, b),
                    _ => default,
                }),
    {
        let mut out: Vec<Vec<(u8, u8, u8)>> = Vec::new();
        let mut i: usize = 0;
        while i < self.width
            invariant
                self.wf(),
                i <= self.width,
                out@.len() == i,
                forall|a: int| 0 <= a < i ==> (#[trigger] out@[a])@.len() == self.height,
                forall|a: int, j: int| 0 <= a < i && 0 <= j < self.height
                    ==> out@[a]@[j] == (match self.cell(a, j) {
                        Pixel::Placed(r, g, b) => (r, g, b),
                        _ => default,
                    }),
            decreases self.width - i,
        {
            let mut col: Vec<(u8, u8, u8)> = Vec::new();
            let mut j: usize = 0;
            while j < self.height
                invariant
                    self.wf(),
                    i < self.width,
                    j <= self.height,
                    col@.len() == j,
                    forall|a: int| 0 <= a < j ==> col@[a] == (match self.cell(i as int, a) {
                        Pixel::Placed(r, g, b) => (r, g, b),
                        _ => default,
                    }),
                decreases self.height - j,
            {
                let c = match self.data[i][j] {
                    Pixel::Placed(r, g, b) => (r, g, b),
                    _ => default,
                };
                col.push(c);
                j = j + 1;
            }
            out.push(col);
            i = i + 1;
        }
        out
    }
}

/// Relies on rand::thread_rng and rand::Rng::gen_range: an index drawn
/// uniformly at random from `[0, n)`.
#[verifier::external_body]
fn random_below(n: usize) -> (i: usize)
    requires
        n > 0,
    ensures
        i < n,
{
    rand::thread_rng().gen_range(0..n)
}

} // verus!
