//! The destructible wall: a table of live/dead bricks indexed `(c, y, x)`
//! (thickness layer, course, column), and its split into chunks so that
//! knocking out one brick only touches the chunk that holds it.

use vstd::prelude::*;

verus! {

/// Bricks along one course (the wall's width, X).
pub const COLS: usize = 12;

/// Courses of bricks (the wall's height, Y).
pub const COURSES: usize = 10;

/// Brick layers through the wall's thickness (Z); a hole needs both.
pub const LAYERS: usize = 2;

/// Columns covered by one chunk.
pub const CHUNK_COLS: usize = 4;

/// Courses covered by one chunk.
pub const CHUNK_ROWS: usize = 5;

/// A brick address as mathematical integers: `(c, y, x)`.
pub type Cell = (int, int, int);

/// The integer view of an executable brick address.
pub open spec fn cell_of(t: (usize, usize, usize)) -> Cell {
    (t.0 as int, t.1 as int, t.2 as int)
}

/// `(c, y, x)` addresses a brick of the wall.
pub open spec fn in_wall(t: Cell) -> bool {
    &&& 0 <= t.0 < LAYERS as int
    &&& 0 <= t.1 < COURSES as int
    &&& 0 <= t.2 < COLS as int
}

/// Every brick of an intact wall.
pub open spec fn full_wall() -> Set<Cell> {
    Set::new(|t: Cell| in_wall(t))
}

/// Lexicographic order on `(c, y, x)`: the order in which the wall is walked.
pub open spec fn cell_lt(a: Cell, b: Cell) -> bool {
    ||| a.0 < b.0
    ||| (a.0 == b.0 && a.1 < b.1)
    ||| (a.0 == b.0 && a.1 == b.1 && a.2 < b.2)
}

/// `a / b` rounded up, for positive `b`.
pub open spec fn ceil_div(a: int, b: int) -> int {
    (a + b - 1) / b
}

/// The chunk column that holds column `x`.
pub open spec fn chunk_col(x: int) -> int {
    x / CHUNK_COLS as int
}

/// The chunk row that holds course `y`.
pub open spec fn chunk_row(y: int) -> int {
    y / CHUNK_ROWS as int
}

/// The brick `t` lies in chunk `(cx, cy)`.
pub open spec fn in_chunk(t: Cell, cx: int, cy: int) -> bool {
    chunk_col(t.2) == cx && chunk_row(t.1) == cy
}

/// The bricks of `bricks` that lie in chunk `(cx, cy)`.
pub open spec fn chunk_part(bricks: Set<Cell>, cx: int, cy: int) -> Set<Cell> {
    bricks.filter(|t: Cell| in_chunk(t, cx, cy))
}

/// Number of chunk columns: `COLS / CHUNK_COLS`, rounded up.
pub fn chunks_x() -> (n: usize)
    ensures
        n == ceil_div(COLS as int, CHUNK_COLS as int),
        n == 3,
{
    COLS / CHUNK_COLS + if COLS % CHUNK_COLS == 0 { 0 } else { 1 }
}

/// Number of chunk rows: `COURSES / CHUNK_ROWS`, rounded up.
pub fn chunks_y() -> (n: usize)
    ensures
        n == ceil_div(COURSES as int, CHUNK_ROWS as int),
        n == 2,
{
    COURSES / CHUNK_ROWS + if COURSES % CHUNK_ROWS == 0 { 0 } else { 1 }
}

/// The chunk `(cx, cy)` that holds the brick in column `x`, course `y`.
pub fn chunk_of(x: usize, y: usize) -> (r: (usize, usize))
    ensures
        r.0 == chunk_col(x as int),
        r.1 == chunk_row(y as int),
{
    (x / CHUNK_COLS, y / CHUNK_ROWS)
}

/// Clear one flag of a three-level table, keeping every row's length.
fn clear_flag(blocks: &mut Vec<Vec<Vec<bool>>>, c: usize, y: usize, x: usize)
    requires
        c < old(blocks)@.len(),
        y < old(blocks)@[c as int]@.len(),
        x < old(blocks)@[c as int]@[y as int]@.len(),
    ensures
        final(blocks)@.len() == old(blocks)@.len(),
        forall|i: int| 0 <= i < final(blocks)@.len() ==> #[trigger] final(blocks)@[i]@.len() == old(blocks)@[i]@.len(),
        forall|i: int, j: int| 0 <= i < final(blocks)@.len() && 0 <= j < final(blocks)@[i]@.len()
            ==> #[trigger] final(blocks)@[i]@[j]@.len() == old(blocks)@[i]@[j]@.len(),
        forall|i: int, j: int, k: int|
            0 <= i < final(blocks)@.len() && 0 <= j < final(blocks)@[i]@.len() && 0 <= k < final(blocks)@[i]@[j]@.len()
            ==> #[trigger] final(blocks)@[i]@[j]@[k] == if i == c && j == y && k == x { false } else { old(blocks)@[i]@[j]@[k] },
    no_unwind
{
    blocks[c][y][x] = false;
}

/// Odd courses are laid half a brick over (running bond).
pub fn is_bond_course(y: usize) -> (b: bool)
    ensures
        b == (y % 2 == 1),
{
    y % 2 == 1
}

/// `v` held to `lo..=hi`.
pub open spec fn clamp_to(v: int, lo: int, hi: int) -> int {
    if v < lo {
        lo
    } else if v > hi {
        hi
    } else {
        v
    }
}

/// The brick that the floors `(fy, fx_flush, fx_bond, fc)` of a point's
/// coordinates name (see `block_from_floors`).
pub open spec fn floors_to_block(fy: int, fx_flush: int, fx_bond: int, fc: int) -> Option<Cell> {
    if fy >= COURSES {
        None
    } else {
        Some((
            if fc < LAYERS { fc } else { LAYERS - 1 },
            fy,
            clamp_to(if fy % 2 == 1 { fx_bond } else { fx_flush }, 0, COLS - 1),
        ))
    }
}

/// The brick under a point inside the wall, from the whole-brick floors of
/// its coordinates: `fy` counts courses up from the ground, `fx_flush` and
/// `fx_bond` count bricks from the wall's left edge along an even and along
/// an odd (half-brick-over) course, and `fc` counts layers from the wall's
/// back face. A point above the top course hits no brick; a point just past
/// the last column or layer is held to it.
pub fn block_from_floors(fy: usize, fx_flush: i32, fx_bond: i32, fc: usize) -> (r: Option<(usize, usize, usize)>)
    ensures
        r is None <==> floors_to_block(fy as int, fx_flush as int, fx_bond as int, fc as int) is None,
        r matches Some(t) ==> Some(cell_of(t)) == floors_to_block(fy as int, fx_flush as int, fx_bond as int, fc as int),
{
    if fy >= COURSES {
        return None;
    }
    let fx = if is_bond_course(fy) { fx_bond } else { fx_flush };
    let x: i32 = if fx < 0 {
        0
    } else if fx > COLS as i32 - 1 {
        COLS as i32 - 1
    } else {
        fx
    };
    let c = if fc < LAYERS - 1 { fc } else { LAYERS - 1 };
    Some((c, fy, x as usize))
}

/// Point lookup undoes brick placement on the grid: the floors of a point
/// inside brick `(c, y, x)` name that brick, and any floors name a brick of
/// the wall or none.
pub proof fn lemma_floors_name_their_brick(t: Cell, other: int, fy: int, fx_flush: int, fx_bond: int, fc: int)
    requires
        in_wall(t),
        fy >= 0,
        fc >= 0,
    ensures
        floors_to_block(t.1, if t.1 % 2 == 1 { other } else { t.2 }, if t.1 % 2 == 1 { t.2 } else { other }, t.0) == Some(t),
        floors_to_block(fy, fx_flush, fx_bond, fc) matches Some(u) ==> in_wall(u),
{
}

/// The wall's data layer: one flag per brick, `blocks[c][y][x]`, true while
/// the brick stands. Knocking a hole is flipping a flag.
pub struct WallData {
    blocks: Vec<Vec<Vec<bool>>>,
}

impl View for WallData {
    type V = Set<Cell>;

    /// The set of bricks still standing.
    closed spec fn view(&self) -> Set<Cell> {
        Set::new(|t: Cell| in_wall(t) && self.blocks@[t.0]@[t.1]@[t.2])
    }
}

impl WallData {
    /// The table always has the wall's full shape.
    #[verifier::type_invariant]
    closed spec fn shaped(self) -> bool {
        &&& self.blocks@.len() == LAYERS
        &&& forall|c: int| 0 <= c < LAYERS ==> #[trigger] self.blocks@[c]@.len() == COURSES
        &&& forall|c: int, y: int|
            0 <= c < LAYERS && 0 <= y < COURSES ==> #[trigger] self.blocks@[c]@[y]@.len() == COLS
    }

    /// An intact wall: every brick stands.
    pub fn new() -> (w: Self)
        ensures
            w@ == full_wall(),
    {
        let mut blocks: Vec<Vec<Vec<bool>>> = Vec::new();
        let mut c: usize = 0;
        while c < LAYERS
            invariant
                c <= LAYERS,
                blocks@.len() == c,
                forall|i: int, j: int, k: int|
                    0 <= i < c && 0 <= j < COURSES && 0 <= k < COLS ==> #[trigger] blocks@[i]@[j]@[k],
                forall|i: int| 0 <= i < c ==> #[trigger] blocks@[i]@.len() == COURSES,
                forall|i: int, j: int|
                    0 <= i < c && 0 <= j < COURSES ==> #[trigger] blocks@[i]@[j]@.len() == COLS,
            decreases LAYERS - c,
        {
            let mut layer: Vec<Vec<bool>> = Vec::new();
            let mut y: usize = 0;
            while y < COURSES
                invariant
                    y <= COURSES,
                    layer@.len() == y,
                    forall|j: int| 0 <= j < y ==> #[trigger] layer@[j]@.len() == COLS,
                    forall|j: int, k: int| 0 <= j < y && 0 <= k < COLS ==> #[trigger] layer@[j]@[k],
                decreases COURSES - y,
            {
                let mut row: Vec<bool> = Vec::new();
                let mut x: usize = 0;
                while x < COLS
                    invariant
                        x <= COLS,
                        row@.len() == x,
                        forall|k: int| 0 <= k < x ==> #[trigger] row@[k],
                    decreases COLS - x,
                {
                    row.push(true);
                    x += 1;
                }
                layer.push(row);
                y += 1;
            }
            blocks.push(layer);
            c += 1;
        }
        let w = WallData { blocks };
        assert(w@ =~= full_wall());
        w
    }

    /// Whether the brick `(c, y, x)` stands; false for any address off the wall.
    pub fn alive(&self, c: usize, y: usize, x: usize) -> (b: bool)
        ensures
            b == self@.contains((c as int, y as int, x as int)),
    {
        proof {
            use_type_invariant(self);
        }
        if c < self.blocks.len() && y < self.blocks[c].len() && x < self.blocks[c][y].len() {
            self.blocks[c][y][x]
        } else {
            false
        }
    }

    /// Knock out the brick `(c, y, x)`; a hole or an address off the wall is
    /// left as it is.
    pub fn destroy(&mut self, c: usize, y: usize, x: usize)
        ensures
            final(self)@ == old(self)@.remove((c as int, y as int, x as int)),
    {
        proof {
            use_type_invariant(&*self);
        }
        if self.alive(c, y, x) {
            clear_flag(&mut self.blocks, c, y, x);
        }
        assert(self@ =~= old(self)@.remove((c as int, y as int, x as int)));
    }

    /// Every standing brick as `(c, y, x)`, in walking order (layer by
    /// layer, course by course, column by column).
    pub fn alive_blocks(&self) -> (r: Vec<(usize, usize, usize)>)
        ensures
            listed(r@, self@, 0, COLS as int, 0, COURSES as int),
    {
        self.blocks_in(0, COLS, 0, COURSES)
    }

    /// How many bricks still stand.
    pub fn alive_count(&self) -> (n: usize)
        ensures
            self@.finite(),
            n == self@.len(),
    {
        proof {
            lemma_standing_in_wall(self);
        }
        let all = self.blocks_in(0, COLS, 0, COURSES);
        proof {
            lemma_listed_len(all@, self@);
        }
        all.len()
    }

    /// The standing bricks of chunk `(cx, cy)`, in walking order: exactly
    /// the bricks whose mesh that chunk carries.
    pub fn chunk_blocks(&self, cx: usize, cy: usize) -> (r: Vec<(usize, usize, usize)>)
        requires
            cx * CHUNK_COLS + CHUNK_COLS <= usize::MAX,
            cy * CHUNK_ROWS + CHUNK_ROWS <= usize::MAX,
        ensures
            listed(r@, chunk_part(self@, cx as int, cy as int), 0, COLS as int, 0, COURSES as int),
    {
        proof {
            lemma_standing_in_wall(self);
        }
        let x0 = cx * CHUNK_COLS;
        let y0 = cy * CHUNK_ROWS;
        let x1 = if x0 + CHUNK_COLS < COLS { x0 + CHUNK_COLS } else { COLS };
        let y1 = if y0 + CHUNK_ROWS < COURSES { y0 + CHUNK_ROWS } else { COURSES };
        let r = self.blocks_in(x0, x1, y0, y1);
        proof {
            let part = chunk_part(self@, cx as int, cy as int);
            let w = (x0 as int, x1 as int, y0 as int, y1 as int);
            assert forall|t: Cell| in_wall(t) implies (in_window(t, w) <==> in_chunk(t, cx as int, cy as int)) by {
                lemma_chunk_bounds(t.2, t.1, cx as int, cy as int);
            }
            assert forall|i: int| 0 <= i < r@.len() implies #[trigger] part.contains(cell_of(r@[i])) && in_window(cell_of(r@[i]), (0, COLS as int, 0, COURSES as int)) by {
                assert(self@.contains(cell_of(r@[i])));
                assert(in_wall(cell_of(r@[i])));
            }
            assert forall|t: Cell| #[trigger] part.contains(t) && in_window(t, (0, COLS as int, 0, COURSES as int)) implies exists|i: int| 0 <= i < r@.len() && cell_of(r@[i]) == t by {
                assert(self@.contains(t));
                assert(in_wall(t));
                assert(in_window(t, w));
            }
        }
        r
    }

    /// Knock out brick `(c, y, x)` and name the chunk whose mesh must be
    /// rebuilt; `None` (and nothing changes) when that brick is already gone
    /// or off the wall.
    pub fn punch_block(&mut self, c: usize, y: usize, x: usize) -> (r: Option<(usize, usize)>)
        ensures
            old(self)@.contains((c as int, y as int, x as int)) ==> r == Some((x / CHUNK_COLS, y / CHUNK_ROWS)),
            !old(self)@.contains((c as int, y as int, x as int)) ==> r is None,
            final(self)@ == old(self)@.remove((c as int, y as int, x as int)),
    {
        if !self.alive(c, y, x) {
            proof {
                assert(old(self)@.remove((c as int, y as int, x as int)) =~= old(self)@);
            }
            return None;
        }
        self.destroy(c, y, x);
        Some(chunk_of(x, y))
    }

    /// The cross-section of layer `c` as text rows, top course first: `'\u{2593}'`
    /// for a standing brick, `'\u{b7}'` for a hole.
    pub fn section_rows(&self, c: usize) -> (rows: Vec<Vec<char>>)
        ensures
            rows@.len() == COURSES,
            forall|i: int| 0 <= i < COURSES ==> #[trigger] rows@[i]@.len() == COLS,
            forall|i: int, x: int| 0 <= i < COURSES && 0 <= x < COLS ==> #[trigger] rows@[i]@[x] == section_char(self@.contains((c as int, COURSES - 1 - i, x))),
    {
        let mut rows: Vec<Vec<char>> = Vec::new();
        let mut k: usize = 0;
        while k < COURSES
            invariant
                k <= COURSES,
                rows@.len() == k,
                forall|i: int| 0 <= i < k ==> #[trigger] rows@[i]@.len() == COLS,
                forall|i: int, x: int| 0 <= i < k && 0 <= x < COLS ==> #[trigger] rows@[i]@[x] == section_char(self@.contains((c as int, COURSES - 1 - i, x))),
            decreases COURSES - k,
        {
            let y = COURSES - 1 - k;
            let mut row: Vec<char> = Vec::new();
            let mut x: usize = 0;
            while x < COLS
                invariant
                    x <= COLS,
                    y == COURSES - 1 - k,
                    row@.len() == x,
                    forall|j: int| 0 <= j < x ==> #[trigger] row@[j] == section_char(self@.contains((c as int, y as int, j))),
                decreases COLS - x,
            {
                row.push(if self.alive(c, y, x) { '\u{2593}' } else { '\u{b7}' });
                x += 1;
            }
            rows.push(row);
            k += 1;
        }
        rows
    }

    /// The standing bricks of columns `x0..x1` and courses `y0..y1`, in
    /// walking order: layer by layer, course by course, column by column.
    fn blocks_in(&self, x0: usize, x1: usize, y0: usize, y1: usize) -> (r: Vec<(usize, usize, usize)>)
        requires
            x1 <= COLS,
            y1 <= COURSES,
        ensures
            listed(r@, self@, x0 as int, x1 as int, y0 as int, y1 as int),
    {
        proof {
            use_type_invariant(self);
        }
        let ghost win = (x0 as int, x1 as int, y0 as int, y1 as int);
        let mut r: Vec<(usize, usize, usize)> = Vec::new();
        let mut c: usize = 0;
        while c < LAYERS
            invariant
                self.shaped(),
                x1 <= COLS,
                y1 <= COURSES,
                c <= LAYERS,
                win == (x0 as int, x1 as int, y0 as int, y1 as int),
                listed_before(r@, self@, win, (c as int, 0, 0)),
            decreases LAYERS - c,
        {
            proof {
                lemma_listed_gap(r@, self@, win, (c as int, 0, 0), (c as int, y0 as int, x0 as int));
            }
            let mut y: usize = y0;
            while y < y1
                invariant
                    self.shaped(),
                    x1 <= COLS,
                    y1 <= COURSES,
                    c < LAYERS,
                    y0 <= y,
                    win == (x0 as int, x1 as int, y0 as int, y1 as int),
                    listed_before(r@, self@, win, (c as int, y as int, x0 as int)),
                decreases y1 - y,
            {
                let mut x: usize = x0;
                while x < x1
                    invariant
                        self.shaped(),
                        x1 <= COLS,
                        y1 <= COURSES,
                        c < LAYERS,
                        y0 <= y < y1,
                        x0 <= x,
                        win == (x0 as int, x1 as int, y0 as int, y1 as int),
                        listed_before(r@, self@, win, (c as int, y as int, x as int)),
                    decreases x1 - x,
                {
                    let ghost before = r@;
                    let standing = self.blocks[c][y][x];
                    if standing {
                        r.push((c, y, x));
                        proof {
                            assert(r@.drop_last() =~= before);
                        }
                    }
                    proof {
                        assert(self@.contains((c as int, y as int, x as int)) == standing);
                        lemma_listed_step(before, r@, self@, win, (c as int, y as int, x as int), standing);
                    }
                    x += 1;
                }
                proof {
                    lemma_listed_gap(r@, self@, win, (c as int, y as int, x as int), (c as int, y + 1, x0 as int));
                }
                y += 1;
            }
            proof {
                lemma_listed_gap(r@, self@, win, (c as int, y as int, x0 as int), (c + 1, 0, 0));
            }
            c += 1;
        }
        proof {
            lemma_listed_gap(r@, self@, win, (LAYERS as int, 0, 0), (LAYERS as int, 0, 0));
        }
        r
    }
}

/// The character drawn for one brick of a cross-section.
pub open spec fn section_char(standing: bool) -> char {
    if standing { '\u{2593}' } else { '\u{b7}' }
}

/// Column `x` and course `y` of the wall lie in the window of chunk
/// `(cx, cy)` exactly when the brick belongs to that chunk.
proof fn lemma_chunk_bounds(x: int, y: int, cx: int, cy: int)
    requires
        0 <= x < COLS,
        0 <= y < COURSES,
        0 <= cx,
        0 <= cy,
    ensures
        (cx * CHUNK_COLS <= x < cx * CHUNK_COLS + CHUNK_COLS) <==> chunk_col(x) == cx,
        (cy * CHUNK_ROWS <= y < cy * CHUNK_ROWS + CHUNK_ROWS) <==> chunk_row(y) == cy,
{
    assert((cx * 4 <= x < cx * 4 + 4) <==> x / 4 == cx) by (nonlinear_arith)
        requires 0 <= x, 0 <= cx;
    assert((cy * 5 <= y < cy * 5 + 5) <==> y / 5 == cy) by (nonlinear_arith)
        requires 0 <= y, 0 <= cy;
}

/// The standing bricks are bricks of the wall, and there are finitely many.
pub proof fn lemma_standing_in_wall(w: &WallData)
    ensures
        w@.subset_of(full_wall()),
        w@.finite(),
{
    assert(w@.subset_of(full_wall()));
    lemma_full_wall_size();
    vstd::set_lib::lemma_set_subset_finite(full_wall(), w@);
}

/// Every brick of the wall belongs to exactly one chunk, and that chunk lies
/// in the `chunks_x() × chunks_y()` grid.
pub proof fn lemma_chunks_cover_wall(bricks: Set<Cell>, t: Cell, cx: int, cy: int)
    requires
        bricks.subset_of(full_wall()),
        bricks.contains(t),
    ensures
        0 <= chunk_col(t.2) < ceil_div(COLS as int, CHUNK_COLS as int),
        0 <= chunk_row(t.1) < ceil_div(COURSES as int, CHUNK_ROWS as int),
        chunk_part(bricks, chunk_col(t.2), chunk_row(t.1)).contains(t),
        chunk_part(bricks, cx, cy).contains(t) <==> (cx == chunk_col(t.2) && cy == chunk_row(t.1)),
{
    assert(full_wall().contains(t));
}

/// Knocking out a brick leaves every other chunk's bricks as they were: only
/// the chunk that held it needs a new mesh.
pub proof fn lemma_destroy_keeps_other_chunks(bricks: Set<Cell>, t: Cell, cx: int, cy: int)
    requires
        cx != chunk_col(t.2) || cy != chunk_row(t.1),
    ensures
        chunk_part(bricks.remove(t), cx, cy) == chunk_part(bricks, cx, cy),
{
    assert(chunk_part(bricks.remove(t), cx, cy) =~= chunk_part(bricks, cx, cy));
}

/// In the chunk that held it, knocking out a brick removes just that brick.
pub proof fn lemma_destroy_in_own_chunk(bricks: Set<Cell>, t: Cell)
    ensures
        chunk_part(bricks.remove(t), chunk_col(t.2), chunk_row(t.1)) == chunk_part(bricks, chunk_col(t.2), chunk_row(t.1)).remove(t),
{
    assert(chunk_part(bricks.remove(t), chunk_col(t.2), chunk_row(t.1)) =~= chunk_part(bricks, chunk_col(t.2), chunk_row(t.1)).remove(t));
}

/// Knocking out a standing brick lowers the count by one; knocking at a hole
/// (or off the wall) changes nothing, so a second knock is a no-op.
pub proof fn lemma_destroy_count(bricks: Set<Cell>, t: Cell)
    requires
        bricks.finite(),
    ensures
        bricks.remove(t).len() == if bricks.contains(t) { bricks.len() - 1 } else { bricks.len() as int },
        bricks.remove(t).remove(t) == bricks.remove(t),
        !bricks.remove(t).contains(t),
{
    if !bricks.contains(t) {
        assert(bricks.remove(t) =~= bricks);
    }
    assert(bricks.remove(t).remove(t) =~= bricks.remove(t));
}

/// After knocking out brick `t`, a brick stands exactly when it is not `t`
/// and stood before.
pub proof fn lemma_destroy_then_alive(bricks: Set<Cell>, t: Cell, u: Cell)
    ensures
        bricks.remove(t).contains(u) == (u != t && bricks.contains(u)),
{
}

/// A walk-order listing of some of the wall's bricks has one entry per
/// brick: the listing of the standing bricks is as long as their count.
pub proof fn lemma_listed_len(s: Seq<(usize, usize, usize)>, bricks: Set<Cell>)
    requires
        listed(s, bricks, 0, COLS as int, 0, COURSES as int),
        bricks.subset_of(full_wall()),
    ensures
        bricks.finite(),
        s.len() == bricks.len(),
{
    let cells = s.map_values(|t: (usize, usize, usize)| cell_of(t));
    assert forall|i: int, j: int| 0 <= i < cells.len() && 0 <= j < cells.len() && i != j implies cells[i] != cells[j] by {
        if i < j {
            assert(cell_lt(cell_of(s[i]), cell_of(s[j])));
        } else {
            assert(cell_lt(cell_of(s[j]), cell_of(s[i])));
        }
    }
    assert(cells.no_duplicates());
    cells.unique_seq_to_set();
    assert forall|t: Cell| #[trigger] bricks.contains(t) implies cells.to_set().contains(t) by {
        assert(full_wall().contains(t));
        assert(in_window(t, (0, COLS as int, 0, COURSES as int)));
        let i = choose|i: int| 0 <= i < s.len() && cell_of(s[i]) == t;
        assert(cells[i] == t);
    }
    assert forall|t: Cell| cells.to_set().contains(t) implies #[trigger] bricks.contains(t) by {
        let i = choose|i: int| 0 <= i < cells.len() && cells[i] == t;
        assert(bricks.contains(cell_of(s[i])));
    }
    assert(cells.to_set() =~= bricks);
}

/// The first `k` entries of two walk-order listings of the same bricks agree.
proof fn lemma_listing_prefix(
    s1: Seq<(usize, usize, usize)>,
    s2: Seq<(usize, usize, usize)>,
    bricks: Set<Cell>,
    x0: int,
    x1: int,
    y0: int,
    y1: int,
    k: int,
)
    requires
        listed(s1, bricks, x0, x1, y0, y1),
        listed(s2, bricks, x0, x1, y0, y1),
        0 <= k <= s1.len(),
        k <= s2.len(),
    ensures
        forall|i: int| 0 <= i < k ==> #[trigger] s1[i] == s2[i],
    decreases k,
{
    if k > 0 {
        lemma_listing_prefix(s1, s2, bricks, x0, x1, y0, y1, k - 1);
        let i = k - 1;
        let a = cell_of(s1[i]);
        let b = cell_of(s2[i]);
        if a != b {
            if cell_lt(a, b) {
                assert(bricks.contains(a));
                let j = choose|j: int| 0 <= j < s2.len() && cell_of(s2[j]) == a;
                if j < i {
                    assert(s1[j] == s2[j]);
                    assert(cell_lt(cell_of(s1[j]), cell_of(s1[i])));
                } else if j > i {
                    assert(cell_lt(cell_of(s2[i]), cell_of(s2[j])));
                }
            } else {
                assert(bricks.contains(b));
                let j = choose|j: int| 0 <= j < s1.len() && cell_of(s1[j]) == b;
                if j < i {
                    assert(s1[j] == s2[j]);
                    assert(cell_lt(cell_of(s2[j]), cell_of(s2[i])));
                } else if j > i {
                    assert(cell_lt(cell_of(s1[i]), cell_of(s1[j])));
                }
            }
        }
    }
}

/// A set of bricks has only one walk-order listing.
pub proof fn lemma_listing_unique(
    s1: Seq<(usize, usize, usize)>,
    s2: Seq<(usize, usize, usize)>,
    bricks: Set<Cell>,
    x0: int,
    x1: int,
    y0: int,
    y1: int,
)
    requires
        listed(s1, bricks, x0, x1, y0, y1),
        listed(s2, bricks, x0, x1, y0, y1),
    ensures
        s1 == s2,
{
    let k = if s1.len() < s2.len() { s1.len() as int } else { s2.len() as int };
    lemma_listing_prefix(s1, s2, bricks, x0, x1, y0, y1, k);
    if s1.len() < s2.len() {
        let b = cell_of(s2[k]);
        assert(bricks.contains(b));
        let j = choose|j: int| 0 <= j < s1.len() && cell_of(s1[j]) == b;
        assert(s1[j] == s2[j]);
        assert(cell_lt(cell_of(s2[j]), cell_of(s2[k])));
    } else if s2.len() < s1.len() {
        let b = cell_of(s1[k]);
        assert(bricks.contains(b));
        let j = choose|j: int| 0 <= j < s2.len() && cell_of(s2[j]) == b;
        assert(s1[j] == s2[j]);
        assert(cell_lt(cell_of(s1[j]), cell_of(s1[k])));
    }
    assert(s1 =~= s2);
}

/// Knocking out a brick leaves the brick listing of every other chunk as it
/// was: the listing `chunk_blocks` gives for such a chunk after the knock
/// equals the one it gave before, so only the struck chunk needs a new mesh.
pub proof fn lemma_punch_keeps_other_chunk_listings(
    before: Set<Cell>,
    t: Cell,
    cx: int,
    cy: int,
    listing_before: Seq<(usize, usize, usize)>,
    listing_after: Seq<(usize, usize, usize)>,
)
    requires
        cx != chunk_col(t.2) || cy != chunk_row(t.1),
        listed(listing_before, chunk_part(before, cx, cy), 0, COLS as int, 0, COURSES as int),
        listed(listing_after, chunk_part(before.remove(t), cx, cy), 0, COLS as int, 0, COURSES as int),
    ensures
        listing_after == listing_before,
{
    lemma_destroy_keeps_other_chunks(before, t, cx, cy);
    lemma_listing_unique(listing_after, listing_before, chunk_part(before, cx, cy), 0, COLS as int, 0, COURSES as int);
}

/// The `i`-th brick of the wall in walking order.
spec fn nth_cell(i: int) -> Cell {
    (i / 120, (i / 12) % 10, i % 12)
}

proof fn lemma_nth_cell(i: int)
    requires
        0 <= i < 240,
    ensures
        in_wall(nth_cell(i)),
        i == nth_cell(i).0 * 120 + nth_cell(i).1 * 12 + nth_cell(i).2,
{
    assert(0 <= i / 120 < 2 && 0 <= (i / 12) % 10 < 10 && 0 <= i % 12 < 12
        && i == (i / 120) * 120 + ((i / 12) % 10) * 12 + i % 12) by (nonlinear_arith)
        requires 0 <= i < 240;
}

proof fn lemma_cell_index(t: Cell)
    requires
        in_wall(t),
    ensures
        0 <= t.0 * 120 + t.1 * 12 + t.2 < 240,
        nth_cell(t.0 * 120 + t.1 * 12 + t.2) == t,
{
    let i = t.0 * 120 + t.1 * 12 + t.2;
    assert(i / 120 == t.0 && (i / 12) % 10 == t.1 && i % 12 == t.2) by (nonlinear_arith)
        requires 0 <= t.0 < 2, 0 <= t.1 < 10, 0 <= t.2 < 12, i == t.0 * 120 + t.1 * 12 + t.2;
}

/// An intact wall has `LAYERS * COURSES * COLS` bricks.
pub proof fn lemma_full_wall_size()
    ensures
        full_wall().finite(),
        full_wall().len() == LAYERS * COURSES * COLS,
{
    let s = Seq::new(240, |i: int| nth_cell(i));
    assert forall|i: int, j: int| 0 <= i < s.len() && 0 <= j < s.len() && i != j implies s[i] != s[j] by {
        lemma_nth_cell(i);
        lemma_nth_cell(j);
    }
    assert(s.no_duplicates());
    s.unique_seq_to_set();
    assert forall|t: Cell| #[trigger] full_wall().contains(t) implies s.to_set().contains(t) by {
        lemma_cell_index(t);
        assert(s[t.0 * 120 + t.1 * 12 + t.2] == t);
    }
    assert forall|t: Cell| s.to_set().contains(t) implies #[trigger] full_wall().contains(t) by {
        let i = choose|i: int| 0 <= i < s.len() && s[i] == t;
        lemma_nth_cell(i);
    }
    assert(s.to_set() =~= full_wall());
}

/// `t` lies in the window of columns `w.0..w.1` and courses `w.2..w.3`.
pub open spec fn in_window(t: Cell, w: (int, int, int, int)) -> bool {
    w.2 <= t.1 < w.3 && w.0 <= t.2 < w.1
}

/// `s` lists, in walking order, exactly the bricks of `bricks` in window `w`
/// that come before `pos` in walking order.
spec fn listed_before(s: Seq<(usize, usize, usize)>, bricks: Set<Cell>, w: (int, int, int, int), pos: Cell) -> bool {
    &&& forall|i: int| 0 <= i < s.len() ==> {
        &&& bricks.contains(#[trigger] cell_of(s[i]))
        &&& in_window(cell_of(s[i]), w)
        &&& cell_lt(cell_of(s[i]), pos)
    }
    &&& forall|t: Cell| #![trigger bricks.contains(t)]
        bricks.contains(t) && in_window(t, w) && cell_lt(t, pos) ==> exists|i: int| 0 <= i < s.len() && cell_of(s[i]) == t
    &&& forall|i: int, j: int| 0 <= i < j < s.len() ==> cell_lt(cell_of(#[trigger] s[i]), cell_of(#[trigger] s[j]))
}

/// `s` lists, in walking order, exactly the bricks of `bricks` (a set of
/// wall bricks) in columns `x0..x1` and courses `y0..y1`.
pub open spec fn listed(s: Seq<(usize, usize, usize)>, bricks: Set<Cell>, x0: int, x1: int, y0: int, y1: int) -> bool {
    &&& forall|i: int| 0 <= i < s.len() ==> {
        &&& bricks.contains(#[trigger] cell_of(s[i]))
        &&& in_window(cell_of(s[i]), (x0, x1, y0, y1))
    }
    &&& forall|t: Cell| #![trigger bricks.contains(t)]
        bricks.contains(t) && in_window(t, (x0, x1, y0, y1)) ==> exists|i: int| 0 <= i < s.len() && cell_of(s[i]) == t
    &&& forall|i: int, j: int| 0 <= i < j < s.len() ==> cell_lt(cell_of(#[trigger] s[i]), cell_of(#[trigger] s[j]))
}

/// Moving the walking position past cells outside the window changes nothing.
proof fn lemma_listed_gap(s: Seq<(usize, usize, usize)>, bricks: Set<Cell>, w: (int, int, int, int), p: Cell, q: Cell)
    requires
        listed_before(s, bricks, w, p),
        forall|t: Cell| in_window(t, w) && in_wall(t) ==> (cell_lt(t, p) <==> cell_lt(t, q)),
        forall|t: Cell| bricks.contains(t) ==> in_wall(t),
        q.0 == LAYERS ==> q.1 == 0 && q.2 == 0,
    ensures
        listed_before(s, bricks, w, q),
        q.0 == LAYERS ==> listed(s, bricks, w.0, w.1, w.2, w.3),
{
    assert forall|t: Cell| #![trigger bricks.contains(t)]
        bricks.contains(t) && in_window(t, w) && cell_lt(t, q) implies exists|i: int| 0 <= i < s.len() && cell_of(s[i]) == t by {
        assert(in_wall(t));
        assert(cell_lt(t, p));
    }
    assert forall|i: int| 0 <= i < s.len() implies cell_lt(#[trigger] cell_of(s[i]), q) by {
        let t = cell_of(s[i]);
        assert(bricks.contains(t));
        assert(in_wall(t));
    }
    if q.0 == LAYERS {
        assert forall|t: Cell| #![trigger bricks.contains(t)]
            bricks.contains(t) && in_window(t, w) implies exists|i: int| 0 <= i < s.len() && cell_of(s[i]) == t by {
            assert(in_wall(t));
            assert(cell_lt(t, q));
        }
    }
}

/// One step of the walk: the brick at `pos` is appended when it stands.
proof fn lemma_listed_step(
    before: Seq<(usize, usize, usize)>,
    after: Seq<(usize, usize, usize)>,
    bricks: Set<Cell>,
    w: (int, int, int, int),
    pos: Cell,
    standing: bool,
)
    requires
        listed_before(before, bricks, w, pos),
        in_window(pos, w),
        bricks.contains(pos) == standing,
        standing ==> after.len() == before.len() + 1 && after.drop_last() == before && cell_of(after.last()) == pos,
        !standing ==> after == before,
    ensures
        listed_before(after, bricks, w, (pos.0, pos.1, pos.2 + 1)),
{
    let next = (pos.0, pos.1, pos.2 + 1);
    if standing {
        assert forall|i: int| 0 <= i < after.len() - 1 implies after[i] == before[i] by {
            assert(after.drop_last()[i] == after[i]);
        }
        assert forall|t: Cell| #![trigger bricks.contains(t)]
            bricks.contains(t) && in_window(t, w) && cell_lt(t, next) implies exists|i: int| 0 <= i < after.len() && cell_of(after[i]) == t by {
            if t == pos {
                assert(cell_of(after[after.len() - 1]) == t);
            } else {
                assert(cell_lt(t, pos));
                let i = choose|i: int| 0 <= i < before.len() && cell_of(before[i]) == t;
                assert(cell_of(after[i]) == t);
            }
        }
        assert forall|i: int, j: int| 0 <= i < j < after.len() implies cell_lt(cell_of(#[trigger] after[i]), cell_of(#[trigger] after[j])) by {
            if j == after.len() - 1 {
                assert(cell_lt(cell_of(before[i]), pos));
            } else {
                assert(cell_lt(cell_of(before[i]), cell_of(before[j])));
            }
        }
        assert forall|i: int| 0 <= i < after.len() implies {
            &&& bricks.contains(#[trigger] cell_of(after[i]))
            &&& in_window(cell_of(after[i]), w)
            &&& cell_lt(cell_of(after[i]), next)
        } by {
            if i < after.len() - 1 {
                assert(cell_of(after[i]) == cell_of(before[i]));
            }
        }
    } else {
        assert forall|t: Cell| #![trigger bricks.contains(t)]
            bricks.contains(t) && in_window(t, w) && cell_lt(t, next) implies exists|i: int| 0 <= i < after.len() && cell_of(after[i]) == t by {
            assert(cell_lt(t, pos));
        }
    }
}

} // verus!
