//! Flat block grids used as crash targets: a brick wall of any size, stored
//! as one flag per brick in a single vector, and a windshield made of small
//! glass tiles.

use vstd::prelude::*;
use crate::wall::{cell_lt, cell_of, in_window, listed, Cell};

verus! {

/// How many flags of `s` are set.
pub open spec fn count_true(s: Seq<bool>) -> nat
    decreases s.len(),
{
    if s.len() == 0 {
        0
    } else {
        count_true(s.drop_last()) + if s.last() { 1nat } else { 0nat }
    }
}

/// When every flag is set, all of them count.
pub proof fn lemma_count_all_set(s: Seq<bool>)
    requires
        forall|i: int| 0 <= i < s.len() ==> #[trigger] s[i],
    ensures
        count_true(s) == s.len(),
    decreases s.len(),
{
    if s.len() > 0 {
        lemma_count_all_set(s.drop_last());
    }
}

/// Clearing flag `i` lowers the count of set flags by one when it was set,
/// and leaves it as it was otherwise: knocking out a standing brick (or
/// tile) lowers the standing count by exactly one.
pub proof fn lemma_count_after_clear(s: Seq<bool>, i: int)
    requires
        0 <= i < s.len(),
    ensures
        count_true(s.update(i, false)) == count_true(s) - if s[i] { 1int } else { 0int },
    decreases s.len(),
{
    let u = s.update(i, false);
    if i == s.len() - 1 {
        assert(u.drop_last() =~= s.drop_last());
    } else {
        lemma_count_after_clear(s.drop_last(), i);
        assert(u.drop_last() =~= s.drop_last().update(i, false));
    }
}

/// How many flags of `v` are set.
fn count_set(v: &Vec<bool>) -> (n: usize)
    ensures
        n == count_true(v@),
        n <= v@.len(),
{
    let mut n: usize = 0;
    let mut i: usize = 0;
    while i < v.len()
        invariant
            i <= v@.len(),
            n == count_true(v@.take(i as int)),
            n <= i,
        decreases v@.len() - i,
    {
        proof {
            assert(v@.take(i as int + 1).drop_last() =~= v@.take(i as int));
        }
        if v[i] {
            n += 1;
        }
        i += 1;
    }
    proof {
        assert(v@.take(v@.len() as int) =~= v@);
    }
    n
}

/// A vector of `n` set flags.
fn all_set(n: usize) -> (v: Vec<bool>)
    ensures
        v@.len() == n,
        forall|i: int| 0 <= i < n ==> #[trigger] v@[i],
{
    let mut v: Vec<bool> = Vec::new();
    let mut i: usize = 0;
    while i < n
        invariant
            i <= n,
            v@.len() == i,
            forall|j: int| 0 <= j < i ==> #[trigger] v@[j],
        decreases n - i,
    {
        v.push(true);
        i += 1;
    }
    v
}

/// Clear flag `i`, keeping the length.
fn clear_at(v: &mut Vec<bool>, i: usize)
    requires
        i < old(v)@.len(),
    ensures
        final(v)@ == old(v)@.update(i as int, false),
    no_unwind
{
    v[i] = false;
}

/// A brick wall of `cols × rows × layers` bricks; brick `(x, y, c)` is flag
/// `c·rows·cols + y·cols + x`.
pub struct BrickWallTarget {
    cols: usize,
    rows: usize,
    layers: usize,
    data: Vec<bool>,
}

impl View for BrickWallTarget {
    type V = Seq<bool>;

    /// One flag per brick, true while the brick stands.
    closed spec fn view(&self) -> Seq<bool> {
        self.data@
    }
}

impl BrickWallTarget {
    #[verifier::type_invariant]
    closed spec fn sized(self) -> bool {
        self.data@.len() == self.cols * self.rows * self.layers
    }

    /// Bricks along a course.
    pub closed spec fn spec_cols(&self) -> nat {
        self.cols as nat
    }

    /// Courses.
    pub closed spec fn spec_rows(&self) -> nat {
        self.rows as nat
    }

    /// Layers through the thickness.
    pub closed spec fn spec_layers(&self) -> nat {
        self.layers as nat
    }

    /// The flag that holds brick `(x, y, c)`.
    pub open spec fn index_of(&self, x: int, y: int, c: int) -> int {
        c * (self.spec_rows() * self.spec_cols()) + y * self.spec_cols() + x
    }

    /// The wall has one flag per brick.
    pub open spec fn well_sized(&self) -> bool {
        self@.len() == self.spec_cols() * self.spec_rows() * self.spec_layers()
    }

    /// An intact wall of `cols × rows × layers` bricks.
    pub fn new(cols: usize, rows: usize, layers: usize) -> (w: Self)
        requires
            cols * rows <= usize::MAX,
            cols * rows * layers <= usize::MAX,
        ensures
            w.spec_cols() == cols,
            w.spec_rows() == rows,
            w.spec_layers() == layers,
            w@.len() == cols * rows * layers,
            w.well_sized(),
            forall|i: int| 0 <= i < w@.len() ==> #[trigger] w@[i],
            count_true(w@) == cols * rows * layers,
    {
        let w = BrickWallTarget { cols, rows, layers, data: all_set(cols * rows * layers) };
        proof {
            lemma_count_all_set(w@);
        }
        w
    }

    /// Bricks along a course.
    pub fn cols(&self) -> (n: usize)
        ensures
            n == self.spec_cols(),
    {
        self.cols
    }

    /// Courses.
    pub fn rows(&self) -> (n: usize)
        ensures
            n == self.spec_rows(),
    {
        self.rows
    }

    /// Layers through the thickness.
    pub fn layers(&self) -> (n: usize)
        ensures
            n == self.spec_layers(),
    {
        self.layers
    }

    /// The flag index of brick `(x, y, c)`.
    pub fn idx(&self, x: usize, y: usize, c: usize) -> (i: usize)
        requires
            self.index_of(x as int, y as int, c as int) <= usize::MAX,
        ensures
            i == self.index_of(x as int, y as int, c as int),
    {
        let r = self.rows;
        let k = self.cols;
        proof {
            assert(c * r * k == c * (r * k)) by (nonlinear_arith);
            assert(0 <= c * r * k) by (nonlinear_arith);
            assert(0 <= y * k) by (nonlinear_arith);
            assert(0 <= c * r) by (nonlinear_arith);
            assert(c * r <= c * r * k || k == 0) by (nonlinear_arith);
            if k == 0 {
                assert(c * r * k == 0) by (nonlinear_arith) requires k == 0;
            }
        }
        if k == 0 {
            return x;
        }
        c * r * k + y * k + x
    }

    /// Whether brick `(x, y, c)` stands.
    pub fn alive(&self, x: usize, y: usize, c: usize) -> (b: bool)
        requires
            self.index_of(x as int, y as int, c as int) < self@.len(),
        ensures
            b == self@[self.index_of(x as int, y as int, c as int)],
    {
        proof {
            assert(self.data.len() == self@.len());
        }
        self.data[self.idx(x, y, c)]
    }

    /// Knock out brick `(x, y, c)`.
    pub fn destroy(&mut self, x: usize, y: usize, c: usize)
        requires
            old(self).index_of(x as int, y as int, c as int) < old(self)@.len(),
        ensures
            final(self).spec_cols() == old(self).spec_cols(),
            final(self).spec_rows() == old(self).spec_rows(),
            final(self).spec_layers() == old(self).spec_layers(),
            final(self).well_sized(),
            final(self)@ == old(self)@.update(old(self).index_of(x as int, y as int, c as int), false),
    {
        proof {
            use_type_invariant(&*self);
            assert(self.data.len() == self@.len());
        }
        let i = self.idx(x, y, c);
        clear_at(&mut self.data, i);
    }

    /// Brick key `(c, y, x)` lies inside the wall.
    pub open spec fn in_bounds(&self, k: Cell) -> bool {
        in_dims(k, (self.spec_layers() as int, self.spec_rows() as int, self.spec_cols() as int))
    }

    /// The standing bricks, keyed `(c, y, x)`.
    pub open spec fn standing_set(&self) -> Set<Cell> {
        Set::new(|k: Cell| self.in_bounds(k) && self@[self.index_of(k.2, k.1, k.0)])
    }

    /// Every standing brick as `(c, y, x)`, in walking order: layer by
    /// layer, course by course, column by column.
    pub fn standing_blocks(&self) -> (r: Vec<(usize, usize, usize)>)
        ensures
            listed(r@, self.standing_set(), 0, self.spec_cols() as int, 0, self.spec_rows() as int),
    {
        proof {
            use_type_invariant(self);
        }
        let ghost d = (self.spec_layers() as int, self.spec_rows() as int, self.spec_cols() as int);
        let ghost bricks = self.standing_set();
        let mut r: Vec<(usize, usize, usize)> = Vec::new();
        let mut c: usize = 0;
        while c < self.layers
            invariant
                self.well_sized(),
                c <= self.spec_layers(),
                d == (self.spec_layers() as int, self.spec_rows() as int, self.spec_cols() as int),
                bricks == self.standing_set(),
                walked(r@, bricks, (c as int, 0, 0)),
            decreases self.spec_layers() - c,
        {
            let mut y: usize = 0;
            while y < self.rows
                invariant
                    self.well_sized(),
                    c < self.spec_layers(),
                    y <= self.spec_rows(),
                    d == (self.spec_layers() as int, self.spec_rows() as int, self.spec_cols() as int),
                    bricks == self.standing_set(),
                    walked(r@, bricks, (c as int, y as int, 0)),
                decreases self.spec_rows() - y,
            {
                let mut x: usize = 0;
                while x < self.cols
                    invariant
                        self.well_sized(),
                        c < self.spec_layers(),
                        y < self.spec_rows(),
                        x <= self.spec_cols(),
                        d == (self.spec_layers() as int, self.spec_rows() as int, self.spec_cols() as int),
                        bricks == self.standing_set(),
                        walked(r@, bricks, (c as int, y as int, x as int)),
                    decreases self.spec_cols() - x,
                {
                    proof {
                        lemma_index_in_range(self, x as int, y as int, c as int);
                    }
                    let ghost before = r@;
                    let standing = self.alive(x, y, c);
                    if standing {
                        r.push((c, y, x));
                        proof {
                            assert(r@.drop_last() =~= before);
                        }
                    }
                    proof {
                        assert(bricks.contains((c as int, y as int, x as int)) == standing);
                        lemma_walk_step(before, r@, bricks, (c as int, y as int, x as int), standing);
                    }
                    x += 1;
                }
                proof {
                    lemma_walk_gap(r@, bricks, d, (c as int, y as int, x as int), (c as int, y + 1, 0));
                }
                y += 1;
            }
            proof {
                lemma_walk_gap(r@, bricks, d, (c as int, y as int, 0), (c + 1, 0, 0));
            }
            c += 1;
        }
        proof {
            lemma_walk_gap(r@, bricks, d, (c as int, 0, 0), (c as int, 0, 0));
        }
        r
    }

    /// How many bricks stand.
    pub fn alive_count(&self) -> (n: usize)
        ensures
            n == count_true(self@),
            n <= self@.len(),
    {
        count_set(&self.data)
    }

    /// How many bricks the wall was built with: `cols · rows · layers`.
    pub fn total(&self) -> (n: usize)
        ensures
            n == self.spec_cols() * self.spec_rows() * self.spec_layers(),
            n == self@.len(),
    {
        proof {
            use_type_invariant(self);
        }
        self.data.len()
    }

    /// The brick under a point near the wall, from the whole-brick floors of
    /// its coordinates: `fy` counts courses up from the ground, `fx_flush`
    /// and `fx_bond` count bricks from the wall's left edge along an even and
    /// along an odd (half-brick-over) course, `fc` counts layers from the
    /// wall's back face. Below the ground or above the top course there is
    /// no brick; past either end of a course or layer the nearest is taken.
    pub fn block_from_floors(&self, fy: i32, fx_flush: i32, fx_bond: i32, fc: i32) -> (r: Option<(usize, usize, usize)>)
        requires
            1 <= self.spec_cols() <= i32::MAX,
            1 <= self.spec_layers() <= i32::MAX,
        ensures
            (fy < 0 || fy >= self.spec_rows()) ==> r is None,
            (0 <= fy < self.spec_rows()) ==> r is Some && ({
                let t = r->0;
                let fx = if fy % 2 == 1 { fx_bond as int } else { fx_flush as int };
                &&& t.0 == (if fx < 0 { 0 } else if fx > self.spec_cols() - 1 { self.spec_cols() - 1 } else { fx })
                &&& t.1 == fy
                &&& t.2 == (if fc < 0 { 0 } else if fc > self.spec_layers() - 1 { self.spec_layers() - 1 } else { fc as int })
            }),
            r matches Some(t) ==> t.0 < self.spec_cols() && t.1 < self.spec_rows() && t.2 < self.spec_layers(),
    {
        if fy < 0 || fy as usize >= self.rows {
            return None;
        }
        let y = fy as usize;
        let fx = if y % 2 == 1 { fx_bond } else { fx_flush };
        let x_max = self.cols as i32 - 1;
        let x: i32 = if fx < 0 {
            0
        } else if fx > x_max {
            x_max
        } else {
            fx
        };
        let c_max = self.layers as i32 - 1;
        let c: i32 = if fc < 0 {
            0
        } else if fc > c_max {
            c_max
        } else {
            fc
        };
        Some((x as usize, y, c as usize))
    }
}

/// Key `t` lies in a grid of `d.0` layers, `d.1` courses and `d.2` columns.
pub open spec fn in_dims(t: Cell, d: (int, int, int)) -> bool {
    0 <= t.0 < d.0 && 0 <= t.1 < d.1 && 0 <= t.2 < d.2
}

/// `s` lists, in walking order, exactly the keys of `bricks` that come
/// before `pos` in walking order.
spec fn walked(s: Seq<(usize, usize, usize)>, bricks: Set<Cell>, pos: Cell) -> bool {
    &&& forall|i: int| 0 <= i < s.len() ==> bricks.contains(#[trigger] cell_of(s[i])) && cell_lt(cell_of(s[i]), pos)
    &&& forall|t: Cell| #![trigger bricks.contains(t)]
        bricks.contains(t) && cell_lt(t, pos) ==> exists|i: int| 0 <= i < s.len() && cell_of(s[i]) == t
    &&& forall|i: int, j: int| 0 <= i < j < s.len() ==> cell_lt(cell_of(#[trigger] s[i]), cell_of(#[trigger] s[j]))
}

/// Moving the walking position past keys outside the grid changes nothing;
/// past the last layer the walk lists every key.
proof fn lemma_walk_gap(s: Seq<(usize, usize, usize)>, bricks: Set<Cell>, d: (int, int, int), p: Cell, q: Cell)
    requires
        walked(s, bricks, p),
        forall|t: Cell| in_dims(t, d) ==> (cell_lt(t, p) <==> cell_lt(t, q)),
        forall|t: Cell| bricks.contains(t) ==> in_dims(t, d),
    ensures
        walked(s, bricks, q),
        q == (d.0, 0int, 0int) ==> listed(s, bricks, 0, d.2, 0, d.1),
{
    assert forall|t: Cell| #![trigger bricks.contains(t)]
        bricks.contains(t) && cell_lt(t, q) implies exists|i: int| 0 <= i < s.len() && cell_of(s[i]) == t by {
        assert(in_dims(t, d));
        assert(cell_lt(t, p));
    }
    assert forall|i: int| 0 <= i < s.len() implies cell_lt(#[trigger] cell_of(s[i]), q) by {
        assert(bricks.contains(cell_of(s[i])));
        assert(in_dims(cell_of(s[i]), d));
    }
    if q == (d.0, 0int, 0int) {
        assert forall|t: Cell| #![trigger bricks.contains(t)]
            bricks.contains(t) && in_window(t, (0, d.2, 0, d.1)) implies exists|i: int| 0 <= i < s.len() && cell_of(s[i]) == t by {
            assert(in_dims(t, d));
            assert(cell_lt(t, q));
        }
        assert forall|i: int| 0 <= i < s.len() implies in_window(#[trigger] cell_of(s[i]), (0, d.2, 0, d.1)) by {
            assert(bricks.contains(cell_of(s[i])));
            assert(in_dims(cell_of(s[i]), d));
        }
    }
}

/// One step of the walk: the key at `pos` is appended when it is in `bricks`.
proof fn lemma_walk_step(
    before: Seq<(usize, usize, usize)>,
    after: Seq<(usize, usize, usize)>,
    bricks: Set<Cell>,
    pos: Cell,
    standing: bool,
)
    requires
        walked(before, bricks, pos),
        bricks.contains(pos) == standing,
        standing ==> after.len() == before.len() + 1 && after.drop_last() == before && cell_of(after.last()) == pos,
        !standing ==> after == before,
    ensures
        walked(after, bricks, (pos.0, pos.1, pos.2 + 1)),
{
    let next = (pos.0, pos.1, pos.2 + 1);
    if standing {
        assert forall|i: int| 0 <= i < after.len() - 1 implies after[i] == before[i] by {
            assert(after.drop_last()[i] == after[i]);
        }
        assert forall|t: Cell| #![trigger bricks.contains(t)]
            bricks.contains(t) && cell_lt(t, next) implies exists|i: int| 0 <= i < after.len() && cell_of(after[i]) == t by {
            if t == pos {
                assert(cell_of(after[after.len() - 1]) == t);
            } else {
                assert(cell_lt(t, pos));
                let i = choose|i: int| 0 <= i < before.len() && cell_of(before[i]) == t;
                assert(cell_of(after[i]) == t);
            }
        }
        assert forall|i: int, j: int| 0 <= i < j < after.len() implies cell_lt(cell_of(#[trigger] after[i]), cell_of(#[trigger] after[j])) by {
            if j == after.len() - 1 {
                assert(cell_lt(cell_of(before[i]), pos));
            } else {
                assert(cell_lt(cell_of(before[i]), cell_of(before[j])));
            }
        }
        assert forall|i: int| 0 <= i < after.len() implies bricks.contains(#[trigger] cell_of(after[i])) && cell_lt(cell_of(after[i]), next) by {
            if i < after.len() - 1 {
                assert(cell_of(after[i]) == cell_of(before[i]));
            }
        }
    } else {
        assert forall|t: Cell| #![trigger bricks.contains(t)]
            bricks.contains(t) && cell_lt(t, next) implies exists|i: int| 0 <= i < after.len() && cell_of(after[i]) == t by {
            assert(cell_lt(t, pos));
        }
    }
}

/// Every in-bounds brick has its own flag, and that flag exists.
pub proof fn lemma_index_in_range(w: &BrickWallTarget, x: int, y: int, c: int)
    requires
        0 <= x < w.spec_cols(),
        0 <= y < w.spec_rows(),
        0 <= c < w.spec_layers(),
        w.well_sized(),
    ensures
        0 <= w.index_of(x, y, c) < w@.len(),
{
    let k = w.spec_cols() as int;
    let r = w.spec_rows() as int;
    let l = w.spec_layers() as int;
    assert(0 <= c * (r * k) + y * k + x < k * r * l) by (nonlinear_arith)
        requires 0 <= x < k, 0 <= y < r, 0 <= c < l;
}

/// Distinct in-bounds bricks have distinct flags, so knocking out one brick
/// leaves every other brick as it was.
pub proof fn lemma_destroy_keeps_others(w: &BrickWallTarget, x1: int, y1: int, c1: int, x2: int, y2: int, c2: int)
    requires
        0 <= x1 < w.spec_cols(),
        0 <= y1 < w.spec_rows(),
        0 <= c1 < w.spec_layers(),
        0 <= x2 < w.spec_cols(),
        0 <= y2 < w.spec_rows(),
        0 <= c2 < w.spec_layers(),
        (x1, y1, c1) != (x2, y2, c2),
        w.well_sized(),
    ensures
        w.index_of(x1, y1, c1) != w.index_of(x2, y2, c2),
        w@.update(w.index_of(x1, y1, c1), false)[w.index_of(x2, y2, c2)] == w@[w.index_of(x2, y2, c2)],
{
    lemma_index_in_range(w, x1, y1, c1);
    lemma_index_in_range(w, x2, y2, c2);
    let k = w.spec_cols() as int;
    let r = w.spec_rows() as int;
    assert(c1 * (r * k) + y1 * k + x1 != c2 * (r * k) + y2 * k + x2) by (nonlinear_arith)
        requires
            0 <= x1 < k, 0 <= y1 < r, 0 <= c1,
            0 <= x2 < k, 0 <= y2 < r, 0 <= c2,
            x1 != x2 || y1 != y2 || c1 != c2;
}

/// A windshield of `cols × rows` glass tiles; tile `(c, r)` is flag
/// `r·cols + c`.
pub struct WindshieldGrid {
    cols: usize,
    rows: usize,
    data: Vec<bool>,
}

impl View for WindshieldGrid {
    type V = Seq<bool>;

    /// One flag per tile, true while the tile is intact.
    closed spec fn view(&self) -> Seq<bool> {
        self.data@
    }
}

impl WindshieldGrid {
    #[verifier::type_invariant]
    closed spec fn sized(self) -> bool {
        self.data@.len() == self.cols * self.rows
    }

    /// Tiles across.
    pub closed spec fn spec_cols(&self) -> nat {
        self.cols as nat
    }

    /// Tiles up.
    pub closed spec fn spec_rows(&self) -> nat {
        self.rows as nat
    }

    /// The flag that holds tile `(c, r)`.
    pub open spec fn tile_index(&self, c: int, r: int) -> int {
        r * self.spec_cols() + c
    }

    /// The windshield has one flag per tile.
    pub open spec fn well_sized(&self) -> bool {
        self@.len() == self.spec_cols() * self.spec_rows()
    }

    /// An intact windshield of `cols × rows` tiles.
    pub fn new(cols: usize, rows: usize) -> (g: Self)
        requires
            cols * rows <= usize::MAX,
        ensures
            g.spec_cols() == cols,
            g.spec_rows() == rows,
            g@.len() == cols * rows,
            g.well_sized(),
            forall|i: int| 0 <= i < g@.len() ==> #[trigger] g@[i],
            count_true(g@) == cols * rows,
    {
        let g = WindshieldGrid { cols, rows, data: all_set(cols * rows) };
        proof {
            lemma_count_all_set(g@);
        }
        g
    }

    /// Tiles across.
    pub fn cols(&self) -> (n: usize)
        ensures
            n == self.spec_cols(),
    {
        self.cols
    }

    /// Tiles up.
    pub fn rows(&self) -> (n: usize)
        ensures
            n == self.spec_rows(),
    {
        self.rows
    }

    /// Whether tile `(c, r)` is intact.
    pub fn alive(&self, c: usize, r: usize) -> (b: bool)
        requires
            self.tile_index(c as int, r as int) < self@.len(),
        ensures
            b == self@[self.tile_index(c as int, r as int)],
    {
        proof {
            assert(0 <= r * self.cols) by (nonlinear_arith);
            assert(self.data.len() == self@.len());
        }
        self.data[r * self.cols + c]
    }

    /// Shatter tile `(c, r)`.
    pub fn destroy(&mut self, c: usize, r: usize)
        requires
            old(self).tile_index(c as int, r as int) < old(self)@.len(),
        ensures
            final(self).spec_cols() == old(self).spec_cols(),
            final(self).spec_rows() == old(self).spec_rows(),
            final(self).well_sized(),
            final(self)@ == old(self)@.update(old(self).tile_index(c as int, r as int), false),
    {
        proof {
            use_type_invariant(&*self);
            assert(0 <= r * self.cols) by (nonlinear_arith);
            assert(self.data.len() == self@.len());
        }
        let i = r * self.cols + c;
        clear_at(&mut self.data, i);
    }

    /// How many tiles are intact.
    pub fn count_alive(&self) -> (n: usize)
        ensures
            n == count_true(self@),
            n <= self@.len(),
    {
        count_set(&self.data)
    }
}

/// Every in-bounds tile has its own flag, and that flag exists.
pub proof fn lemma_tile_index_unique(g: &WindshieldGrid, c1: int, r1: int, c2: int, r2: int)
    requires
        0 <= c1 < g.spec_cols(),
        0 <= r1 < g.spec_rows(),
        0 <= c2 < g.spec_cols(),
        0 <= r2 < g.spec_rows(),
        g.well_sized(),
    ensures
        0 <= g.tile_index(c1, r1) < g@.len(),
        (c1, r1) != (c2, r2) ==> g.tile_index(c1, r1) != g.tile_index(c2, r2),
{
    let k = g.spec_cols() as int;
    let n = g.spec_rows() as int;
    assert(0 <= r1 * k + c1 < k * n) by (nonlinear_arith)
        requires 0 <= c1 < k, 0 <= r1 < n;
    assert((c1 != c2 || r1 != r2) ==> r1 * k + c1 != r2 * k + c2) by (nonlinear_arith)
        requires 0 <= c1 < k, 0 <= c2 < k, 0 <= r1, 0 <= r2;
}

} // verus!
