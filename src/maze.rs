use crate::num::{floor_sqrt, isqrt};
use vstd::arithmetic::mul::lemma_mul_upper_bound;
use vstd::prelude::*;
use vstd::set_lib::{lemma_len_subset, lemma_subset_equality};

verus! {

/// One square of the maze; walls are stored on the lower-index side only.
#[derive(Clone, Copy, Debug, PartialEq, Eq, Structural)]
pub struct MazeCell {
    pub bottom_wall: bool,
    pub right_wall: bool,
}

impl MazeCell {
    pub fn new() -> (r: MazeCell)
        ensures
            r.bottom_wall,
            r.right_wall,
    {
        MazeCell { bottom_wall: true, right_wall: true }
    }
}

/// A grid of cells, row-major (`cells[y][x]`), carved into a perfect maze.
#[derive(Debug)]
pub struct Maze {
    cells: Vec<Vec<MazeCell>>,
    seed: u32,
}

pub type Pos = (usize, usize);

/// The rows of a cell grid as plain sequences.
pub open spec fn rows_of(cells: Seq<Vec<MazeCell>>) -> Seq<Seq<MazeCell>> {
    Seq::new(cells.len(), |y: int| cells[y]@)
}

/// Every row has `w` cells and there are `h` rows.
pub open spec fn is_rect(g: Seq<Seq<MazeCell>>, w: nat, h: nat) -> bool {
    g.len() == h && forall|y: int| 0 <= y < h ==> #[trigger] g[y].len() == w
}

pub open spec fn in_grid(w: nat, h: nat, p: Pos) -> bool {
    p.0 < w && p.1 < h
}

/// `a` and `b` are side by side and the wall between them is gone.
pub open spec fn passage(g: Seq<Seq<MazeCell>>, a: Pos, b: Pos) -> bool {
    (a.1 == b.1 && b.0 == a.0 + 1 && !g[a.1 as int][a.0 as int].right_wall)
    || (a.1 == b.1 && a.0 == b.0 + 1 && !g[b.1 as int][b.0 as int].right_wall)
    || (a.0 == b.0 && b.1 == a.1 + 1 && !g[a.1 as int][a.0 as int].bottom_wall)
    || (a.0 == b.0 && a.1 == b.1 + 1 && !g[b.1 as int][b.0 as int].bottom_wall)
}

/// A walk from the origin through open passages, staying on the grid.
pub open spec fn is_route(g: Seq<Seq<MazeCell>>, w: nat, h: nat, r: Seq<Pos>) -> bool {
    &&& r.len() >= 1
    &&& r[0] == (0usize, 0usize)
    &&& forall|i: int| 0 <= i < r.len() ==> in_grid(w, h, #[trigger] r[i])
    &&& forall|i: int| 0 <= i < r.len() - 1 ==> passage(g, #[trigger] r[i], r[i + 1])
}

pub open spec fn reachable(g: Seq<Seq<MazeCell>>, w: nat, h: nat, p: Pos) -> bool {
    exists|r: Seq<Pos>| is_route(g, w, h, r) && r.last() == p
}

/// Both cells are on the grid of flags' dimensions.
pub open spec fn flags_rect(f: Seq<Vec<bool>>, w: nat, h: nat) -> bool {
    f.len() == h && forall|y: int| 0 <= y < h ==> (#[trigger] f[y])@.len() == w
}

/// The positions whose flag is set.
pub open spec fn marked(f: Seq<Vec<bool>>) -> Set<Pos> {
    Set::new(|p: Pos| p.1 < f.len() && p.0 < f[p.1 as int]@.len() && f[p.1 as int]@[p.0 as int])
}

pub open spec fn rect(w: nat, h: nat) -> Set<Pos> {
    Set::new(|p: Pos| in_grid(w, h, p))
}

pub open spec fn adjacent(a: Pos, b: Pos) -> bool {
    (a.1 == b.1 && (b.0 == a.0 + 1 || a.0 == b.0 + 1)) || (a.0 == b.0 && (b.1 == a.1 + 1 || a.1
        == b.1 + 1))
}

/// Every on-grid neighbour of `p` is in `v`.
pub open spec fn settled(v: Set<Pos>, w: nat, h: nat, p: Pos) -> bool {
    &&& (p.0 > 0 ==> v.contains(((p.0 - 1) as usize, p.1)))
    &&& (p.0 + 1 < w ==> v.contains(((p.0 + 1) as usize, p.1)))
    &&& (p.1 > 0 ==> v.contains((p.0, (p.1 - 1) as usize)))
    &&& (p.1 + 1 < h ==> v.contains((p.0, (p.1 + 1) as usize)))
}

/// The unvisited neighbours of `(x, y)`, in the order left, right, up, down.
pub open spec fn candidates(w: nat, h: nat, v: Set<Pos>, x: usize, y: usize) -> Seq<Pos> {
    (if x != 0 && !v.contains(((x - 1) as usize, y)) {
        seq![((x - 1) as usize, y)]
    } else {
        seq![]
    }) + (if x + 1 < w && !v.contains(((x + 1) as usize, y)) {
        seq![((x + 1) as usize, y)]
    } else {
        seq![]
    }) + (if y != 0 && !v.contains((x, (y - 1) as usize)) {
        seq![(x, (y - 1) as usize)]
    } else {
        seq![]
    }) + (if y + 1 < h && !v.contains((x, (y + 1) as usize)) {
        seq![(x, (y + 1) as usize)]
    } else {
        seq![]
    })
}

/// The step rule: among the candidates, the one at
/// `floor(sqrt(seed * visited)) mod count`, if there is any.
pub open spec fn pick(c: Seq<Pos>, seed: u32, visited: nat) -> Option<Pos> {
    if c.len() == 0 {
        None
    } else {
        Some(c[(floor_sqrt((seed * visited) as nat) % c.len()) as int])
    }
}

proof fn lemma_rect_len(w: nat, h: nat)
    requires
        w <= usize::MAX,
        h <= usize::MAX,
    ensures
        rect(w, h).finite(),
        rect(w, h).len() == w * h,
    decreases h,
{
    if h == 0 {
        assert(rect(w, h) =~= Set::empty());
    } else {
        lemma_rect_len(w, (h - 1) as nat);
        lemma_row_len(w, (h - 1) as nat, w);
        let row = Set::new(|p: Pos| p.0 < w && p.1 == h - 1);
        assert(rect(w, h) =~= rect(w, (h - 1) as nat).union(row));
        assert(rect(w, (h - 1) as nat).disjoint(row));
        vstd::set_lib::lemma_set_disjoint_lens(rect(w, (h - 1) as nat), row);
        assert(w * (h - 1) + w == w * h) by (nonlinear_arith);
    }
}

proof fn lemma_row_len(w: nat, y: nat, k: nat)
    requires
        k <= w <= usize::MAX,
        y < usize::MAX,
    ensures
        Set::new(|p: Pos| p.0 < k && p.1 == y).finite(),
        Set::new(|p: Pos| p.0 < k && p.1 == y).len() == k,
    decreases k,
{
    let s = Set::new(|p: Pos| p.0 < k && p.1 == y);
    if k == 0 {
        assert(s =~= Set::empty());
    } else {
        lemma_row_len(w, y, (k - 1) as nat);
        let t = Set::new(|p: Pos| p.0 < k - 1 && p.1 == y);
        assert(s =~= t.insert(((k - 1) as usize, y as usize)));
    }
}

pub proof fn lemma_marked_bounded(f: Seq<Vec<bool>>, w: nat, h: nat)
    requires
        flags_rect(f, w, h),
        w <= usize::MAX,
        h <= usize::MAX,
    ensures
        marked(f).subset_of(rect(w, h)),
        marked(f).finite(),
        marked(f).len() <= w * h,
{
    lemma_rect_len(w, h);
    assert(marked(f).subset_of(rect(w, h)));
    lemma_len_subset(marked(f), rect(w, h));
}

/// A set that holds the origin and every neighbour of each of its cells covers the grid.
proof fn lemma_closed_covers(v: Set<Pos>, w: nat, h: nat, p: Pos)
    requires
        v.contains((0usize, 0usize)),
        forall|q: Pos| #[trigger] v.contains(q) && in_grid(w, h, q) ==> settled(v, w, h, q),
        in_grid(w, h, p),
    ensures
        v.contains(p),
    decreases p.0 + p.1,
{
    if p.1 > 0 {
        let q = (p.0, (p.1 - 1) as usize);
        lemma_closed_covers(v, w, h, q);
    } else if p.0 > 0 {
        let q = ((p.0 - 1) as usize, p.1);
        lemma_closed_covers(v, w, h, q);
    }
}

/// Walls are only ever taken away between `g` and `g2`.
pub open spec fn opens_more(g: Seq<Seq<MazeCell>>, g2: Seq<Seq<MazeCell>>, w: nat, h: nat) -> bool {
    forall|x: int, y: int|
        0 <= x < w && 0 <= y < h ==> (!(#[trigger] g[y][x]).right_wall ==> !g2[y][x].right_wall)
            && (!g[y][x].bottom_wall ==> !g2[y][x].bottom_wall)
}

proof fn lemma_route_kept(g: Seq<Seq<MazeCell>>, g2: Seq<Seq<MazeCell>>, w: nat, h: nat, r: Seq<Pos>)
    requires
        opens_more(g, g2, w, h),
        is_route(g, w, h, r),
    ensures
        is_route(g2, w, h, r),
{
    assert forall|i: int| 0 <= i < r.len() - 1 implies passage(g2, #[trigger] r[i], r[i + 1]) by {
        assert(passage(g, r[i], r[i + 1]));
        assert(in_grid(w, h, r[i]));
        assert(in_grid(w, h, r[i + 1]));
    }
}

proof fn lemma_route_extend(g: Seq<Seq<MazeCell>>, w: nat, h: nat, r: Seq<Pos>, n: Pos)
    requires
        is_route(g, w, h, r),
        in_grid(w, h, n),
        passage(g, r.last(), n),
    ensures
        is_route(g, w, h, r.push(n)),
        r.push(n).last() == n,
{
    let r2 = r.push(n);
    assert forall|i: int| 0 <= i < r2.len() - 1 implies passage(g, #[trigger] r2[i], r2[i + 1]) by {
        if i < r.len() - 1 {
            assert(r2[i] == r[i] && r2[i + 1] == r[i + 1]);
        }
    }
    assert forall|i: int| 0 <= i < r2.len() implies in_grid(w, h, #[trigger] r2[i]) by {
        if i < r.len() {
            assert(r2[i] == r[i]);
        }
    }
}

/// The state of the carving walk: walls, visited cells and their number, the
/// backtrack stack, the current cell, and whether the walk ran out of cells to
/// return to.
pub struct Carving {
    pub walls: Seq<Seq<MazeCell>>,
    pub visited: Set<Pos>,
    pub count: nat,
    pub stack: Seq<Pos>,
    pub cur: Pos,
    pub stopped: bool,
}

pub open spec fn clear_bottom(g: Seq<Seq<MazeCell>>, p: Pos) -> Seq<Seq<MazeCell>> {
    g.update(
        p.1 as int,
        g[p.1 as int].update(
            p.0 as int,
            MazeCell { bottom_wall: false, right_wall: g[p.1 as int][p.0 as int].right_wall },
        ),
    )
}

pub open spec fn clear_right(g: Seq<Seq<MazeCell>>, p: Pos) -> Seq<Seq<MazeCell>> {
    g.update(
        p.1 as int,
        g[p.1 as int].update(
            p.0 as int,
            MazeCell { bottom_wall: g[p.1 as int][p.0 as int].bottom_wall, right_wall: false },
        ),
    )
}

/// Opens the wall between neighbours `a` and `b`; it is stored on the lower one.
pub open spec fn carve(g: Seq<Seq<MazeCell>>, a: Pos, b: Pos) -> Seq<Seq<MazeCell>> {
    if a.0 == b.0 {
        if a.1 < b.1 {
            clear_bottom(g, a)
        } else {
            clear_bottom(g, b)
        }
    } else if a.0 < b.0 {
        clear_right(g, a)
    } else {
        clear_right(g, b)
    }
}

pub open spec fn finished(s: Carving, w: nat, h: nat) -> bool {
    s.stopped || s.count >= w * h
}

/// One round of the walk: visit the current cell, then step to the picked
/// neighbour, or back up the stack, or stop when the stack is empty.
#[verifier::opaque]
pub open spec fn walk_step(s: Carving, w: nat, h: nat, seed: u32) -> Carving {
    if finished(s, w, h) {
        s
    } else {
        let v = s.visited.insert(s.cur);
        let n = if s.visited.contains(s.cur) { s.count } else { s.count + 1 };
        match pick(candidates(w, h, v, s.cur.0, s.cur.1), seed, n) {
            Some(next) => Carving {
                walls: carve(s.walls, s.cur, next),
                visited: v,
                count: n,
                stack: s.stack.push(s.cur),
                cur: next,
                stopped: false,
            },
            None => if s.stack.len() == 0 {
                Carving { walls: s.walls, visited: v, count: n, stack: s.stack, cur: s.cur, stopped: true }
            } else {
                Carving {
                    walls: s.walls,
                    visited: v,
                    count: n,
                    stack: s.stack.drop_last(),
                    cur: s.stack.last(),
                    stopped: false,
                }
            },
        }
    }
}

pub open spec fn walk_n(s: Carving, k: nat, w: nat, h: nat, seed: u32) -> Carving
    decreases k,
{
    if k == 0 {
        s
    } else {
        walk_n(walk_step(s, w, h, seed), (k - 1) as nat, w, h, seed)
    }
}

/// A fresh grid with every wall standing.
pub open spec fn all_walls(w: nat, h: nat) -> Seq<Seq<MazeCell>> {
    Seq::new(h, |y: int| Seq::new(w, |x: int| MazeCell { bottom_wall: true, right_wall: true }))
}

/// The walls that the walk leaves on a `w` by `h` grid for `seed`; `2 * w * h + 1`
/// rounds are as many as the walk ever takes.
pub open spec fn carved(w: nat, h: nat, seed: u32) -> Seq<Seq<MazeCell>> {
    walk_n(walk_start(w, h), walk_rounds(w, h), w, h, seed).walls
}

/// More rounds than the walk on a `w` by `h` grid can take.
pub open spec fn walk_rounds(w: nat, h: nat) -> nat {
    2 * (w * h) + 1
}

/// The walk before its first round: every wall up, nothing visited, at the origin.
pub open spec fn walk_start(w: nat, h: nat) -> Carving {
    Carving {
        walls: all_walls(w, h),
        visited: Set::empty(),
        count: 0,
        stack: Seq::empty(),
        cur: (0usize, 0usize),
        stopped: false,
    }
}

/// The walk's state as the loop of `walk` holds it.
pub open spec fn walk_state(g: Seq<Seq<MazeCell>>, f: Seq<Vec<bool>>, n: nat, st: Seq<Pos>, cur: Pos) -> Carving {
    Carving { walls: g, visited: marked(f), count: n, stack: st, cur, stopped: false }
}

pub open spec fn walk_measure(area: int, f: Seq<Vec<bool>>, cur: Pos, st: Seq<Pos>) -> int {
    2 * (area - marked(f).insert(cur).len()) + st.len()
}

proof fn lemma_walk_finished(s: Carving, k: nat, w: nat, h: nat, seed: u32)
    requires
        finished(s, w, h),
    ensures
        walk_n(s, k, w, h, seed) == s,
    decreases k,
{
    reveal(walk_step);
    if k > 0 {
        lemma_walk_finished(s, (k - 1) as nat, w, h, seed);
    }
}

proof fn lemma_walk_split(s: Carving, a: nat, b: nat, w: nat, h: nat, seed: u32)
    ensures
        walk_n(s, a + b, w, h, seed) == walk_n(walk_n(s, a, w, h, seed), b, w, h, seed),
    decreases a,
{
    if a > 0 {
        lemma_walk_split(walk_step(s, w, h, seed), (a - 1) as nat, b, w, h, seed);
        assert((a + b - 1) as nat == (a - 1) as nat + b);
    }
}

proof fn lemma_walk_last(s: Carving, k: nat, w: nat, h: nat, seed: u32)
    ensures
        walk_n(s, k + 1, w, h, seed) == walk_step(walk_n(s, k, w, h, seed), w, h, seed),
{
    lemma_walk_split(s, k, 1, w, h, seed);
    assert(walk_n(walk_n(s, k, w, h, seed), 1, w, h, seed) == walk_step(walk_n(s, k, w, h, seed), w, h, seed)) by {
        let t = walk_n(s, k, w, h, seed);
        assert(walk_n(walk_step(t, w, h, seed), 0, w, h, seed) == walk_step(t, w, h, seed));
    }
}

impl Maze {
    /// The wall layout, row by row.
    pub closed spec fn walls(self) -> Seq<Seq<MazeCell>> {
        rows_of(self.cells@)
    }

    pub closed spec fn seed_value(self) -> u32 {
        self.seed
    }

    pub open spec fn spec_height(self) -> nat {
        self.walls().len()
    }

    pub open spec fn spec_width(self) -> nat {
        if self.walls().len() == 0 { 0 } else { self.walls()[0].len() }
    }

    /// At least one row and one column, all rows of equal length.
    pub open spec fn wf(self) -> bool {
        &&& self.spec_height() >= 1
        &&& self.spec_width() >= 1
        &&& is_rect(self.walls(), self.spec_width(), self.spec_height())
    }

    /// Every cell can be reached from the origin through open passages.
    pub open spec fn all_reachable(self) -> bool {
        forall|p: Pos|
            in_grid(self.spec_width(), self.spec_height(), p) ==> reachable(
                self.walls(),
                self.spec_width(),
                self.spec_height(),
                p,
            )
    }

    pub fn width(&self) -> (r: usize)
        requires
            self.wf(),
        ensures
            r == self.spec_width(),
    {
        let mut greatest_row_len: usize = 0;
        let mut i: usize = 0;
        while i < self.cells.len()
            invariant
                self.wf(),
                i <= self.cells.len(),
                greatest_row_len == (if i == 0 { 0 } else { self.spec_width() }),
            decreases self.cells.len() - i,
        {
            let row_len = self.cells[i].len();
            assert(row_len == self.walls()[i as int].len());
            if row_len > greatest_row_len {
                greatest_row_len = row_len;
            }
            i += 1;
        }
        greatest_row_len
    }

    pub fn height(&self) -> (r: usize)
        ensures
            r == self.spec_height(),
    {
        self.cells.len()
    }

    pub fn max_x_index(&self) -> (r: usize)
        requires
            self.wf(),
        ensures
            r == self.spec_width() - 1,
    {
        self.width() - 1
    }

    pub fn max_y_index(&self) -> (r: usize)
        requires
            self.wf(),
        ensures
            r == self.spec_height() - 1,
    {
        self.height() - 1
    }
}


impl Maze {
    /// The grid after one wall of cell `(x, y)` is set to the given value.
    pub open spec fn with_cell(self, x: usize, y: usize, c: MazeCell) -> Seq<Seq<MazeCell>> {
        self.walls().update(y as int, self.walls()[y as int].update(x as int, c))
    }

    fn set_bottom_wall(&mut self, x_index: usize, y_index: usize, bottom_wall: bool)
        requires
            old(self).wf(),
            x_index < old(self).spec_width(),
            y_index < old(self).spec_height(),
        ensures
            final(self).walls() == old(self).with_cell(
                x_index,
                y_index,
                MazeCell {
                    bottom_wall,
                    right_wall: old(self).walls()[y_index as int][x_index as int].right_wall,
                },
            ),
            final(self).seed_value() == old(self).seed_value(),
    {
        assert(self.cells@[y_index as int]@.len() == self.walls()[y_index as int].len());
        self.cells[y_index][x_index].bottom_wall = bottom_wall;
        assert(self.walls() =~= old(self).with_cell(
            x_index,
            y_index,
            MazeCell {
                bottom_wall,
                right_wall: old(self).walls()[y_index as int][x_index as int].right_wall,
            },
        ));
    }

    fn set_right_wall(&mut self, x_index: usize, y_index: usize, right_wall: bool)
        requires
            old(self).wf(),
            x_index < old(self).spec_width(),
            y_index < old(self).spec_height(),
        ensures
            final(self).walls() == old(self).with_cell(
                x_index,
                y_index,
                MazeCell {
                    bottom_wall: old(self).walls()[y_index as int][x_index as int].bottom_wall,
                    right_wall,
                },
            ),
            final(self).seed_value() == old(self).seed_value(),
    {
        assert(self.cells@[y_index as int]@.len() == self.walls()[y_index as int].len());
        self.cells[y_index][x_index].right_wall = right_wall;
        assert(self.walls() =~= old(self).with_cell(
            x_index,
            y_index,
            MazeCell {
                bottom_wall: old(self).walls()[y_index as int][x_index as int].bottom_wall,
                right_wall,
            },
        ));
    }

    /// The next cell of the walk from `(x, y)`, or `None` when every neighbour is visited.
    #[verifier::rlimit(40)]
    fn get_next_pos(&self, x: usize, y: usize, walked: &Vec<Vec<bool>>, walked_len: usize) -> (r:
        Option<Pos>)
        requires
            self.wf(),
            x < self.spec_width(),
            y < self.spec_height(),
            flags_rect(walked@, self.spec_width(), self.spec_height()),
        ensures
            r == pick(
                candidates(self.spec_width(), self.spec_height(), marked(walked@), x, y),
                self.seed_value(),
                walked_len as nat,
            ),
            r is None <==> settled(marked(walked@), self.spec_width(), self.spec_height(), (x, y)),
            r matches Some(q) ==> adjacent((x, y), q) && in_grid(
                self.spec_width(),
                self.spec_height(),
                q,
            ) && !marked(walked@).contains(q),
    {
        let w = self.width();
        let h = self.height();
        let ghost v = marked(walked@);
        let mut posib_next_pos_list: Vec<Pos> = Vec::new();
        if x != 0 && !walked[y][x - 1] {
            posib_next_pos_list.push((x - 1, y));
        }
        if x + 1 < w && !walked[y][x + 1] {
            posib_next_pos_list.push((x + 1, y));
        }
        if y != 0 && !walked[y - 1][x] {
            posib_next_pos_list.push((x, y - 1));
        }
        if y + 1 < h && !walked[y + 1][x] {
            posib_next_pos_list.push((x, y + 1));
        }
        assert(posib_next_pos_list@ =~= candidates(w as nat, h as nat, v, x, y));
        let n = posib_next_pos_list.len();
        if n == 0 {
            return None;
        }
        proof {
            lemma_mul_upper_bound(self.seed as int, u32::MAX as int, walked_len as int, usize::MAX as int);
        }
        let root = isqrt(self.seed as u128 * walked_len as u128);
        let index = (root % (n as u64)) as usize;
        let r = Some(posib_next_pos_list[index]);
        r
    }
}


impl Maze {
    /// Builds a `width` by `height` maze and carves it from the origin with the seeded walk.
    pub fn new(width: usize, height: usize, seed: u32) -> (m: Maze)
        requires
            width >= 1,
            height >= 1,
            width * height <= usize::MAX,
        ensures
            m.wf(),
            m.spec_width() == width,
            m.spec_height() == height,
            m.seed_value() == seed,
            m.all_reachable(),
            m.walls() == carved(width as nat, height as nat, seed),
    {
        let mut cells: Vec<Vec<MazeCell>> = Vec::new();
        let mut j: usize = 0;
        while j < height
            invariant
                j <= height,
                cells@.len() == j,
                forall|y: int| 0 <= y < j ==> (#[trigger] cells@[y])@.len() == width,
                forall|y: int, x: int|
                    0 <= y < j && 0 <= x < width ==> cells@[y]@[x] == (MazeCell {
                        bottom_wall: true,
                        right_wall: true,
                    }),
            decreases height - j,
        {
            let mut row: Vec<MazeCell> = Vec::new();
            let mut i: usize = 0;
            while i < width
                invariant
                    i <= width,
                    row@.len() == i,
                    forall|x: int|
                        0 <= x < i ==> row@[x] == (MazeCell { bottom_wall: true, right_wall: true }),
                decreases width - i,
            {
                row.push(MazeCell::new());
                i += 1;
            }
            cells.push(row);
            j += 1;
        }
        let mut maze = Maze { cells, seed };
        assert(maze.walls()[0].len() == width);
        assert forall|y: int| 0 <= y < height implies #[trigger] maze.walls()[y] == all_walls(
            width as nat,
            height as nat,
        )[y] by {
            assert(maze.walls()[y] =~= all_walls(width as nat, height as nat)[y]);
        }
        assert(maze.walls() =~= all_walls(width as nat, height as nat));
        maze.walk();
        maze
    }

    /// The walk's loop state is sound: the visited flags fit the grid and are
    /// counted, everything visited (and the current cell) is reachable, stacked
    /// cells are visited, and a visited cell off the stack has no unvisited neighbour.
    #[verifier::opaque]
    pub open spec fn walk_inv(self, f: Seq<Vec<bool>>, n: nat, st: Seq<Pos>, cur: Pos) -> bool {
        let (w, h) = (self.spec_width(), self.spec_height());
        &&& self.wf()
        &&& w * h <= usize::MAX
        &&& flags_rect(f, w, h)
        &&& n == marked(f).len()
        &&& in_grid(w, h, cur)
        &&& marked(f).insert(cur).contains((0usize, 0usize))
        &&& forall|p: Pos| #[trigger]
            marked(f).insert(cur).contains(p) ==> reachable(self.walls(), w, h, p)
        &&& forall|i: int| 0 <= i < st.len() ==> marked(f).contains(#[trigger] st[i])
        &&& forall|p: Pos| #[trigger]
            marked(f).contains(p) ==> p == cur || st.contains(p) || settled(marked(f), w, h, p)
    }

    /// One round of the walk; returns true when it stopped with nowhere to return to.
    #[verifier::rlimit(100)]
    fn walk_round(
        &mut self,
        walked: &mut Vec<Vec<bool>>,
        walked_len: &mut usize,
        stack: &mut Vec<Pos>,
        curr_x: &mut usize,
        curr_y: &mut usize,
    ) -> (stop: bool)
        requires
            old(self).walk_inv(
                old(walked)@,
                *old(walked_len) as nat,
                old(stack)@,
                (*old(curr_x), *old(curr_y)),
            ),
            *old(walked_len) < old(self).spec_width() * old(self).spec_height(),
        ensures
            final(self).seed_value() == old(self).seed_value(),
            final(self).spec_width() == old(self).spec_width(),
            final(self).spec_height() == old(self).spec_height(),
            !stop ==> final(self).walk_inv(
                final(walked)@,
                *final(walked_len) as nat,
                final(stack)@,
                (*final(curr_x), *final(curr_y)),
            ),
            !stop ==> walk_state(
                final(self).walls(),
                final(walked)@,
                *final(walked_len) as nat,
                final(stack)@,
                (*final(curr_x), *final(curr_y)),
            ) == walk_step(
                walk_state(
                    old(self).walls(),
                    old(walked)@,
                    *old(walked_len) as nat,
                    old(stack)@,
                    (*old(curr_x), *old(curr_y)),
                ),
                old(self).spec_width(),
                old(self).spec_height(),
                old(self).seed_value(),
            ),
            !stop ==> walk_measure(
                (old(self).spec_width() * old(self).spec_height()) as int,
                final(walked)@,
                (*final(curr_x), *final(curr_y)),
                final(stack)@,
            ) < walk_measure(
                (old(self).spec_width() * old(self).spec_height()) as int,
                old(walked)@,
                (*old(curr_x), *old(curr_y)),
                old(stack)@,
            ),
            stop ==> final(self).wf() && final(self).all_reachable(),
            stop ==> ({
                let fin = walk_step(
                    walk_state(
                        old(self).walls(),
                        old(walked)@,
                        *old(walked_len) as nat,
                        old(stack)@,
                        (*old(curr_x), *old(curr_y)),
                    ),
                    old(self).spec_width(),
                    old(self).spec_height(),
                    old(self).seed_value(),
                );
                fin.stopped && fin.walls == final(self).walls()
            }),
            opens_more(old(self).walls(), final(self).walls(), old(self).spec_width(), old(self).spec_height()),
    {
        proof {
            reveal(Maze::walk_inv);
            reveal(walk_step);
        }
        let wu = self.width();
        let hu = self.height();
        let ghost w = wu as nat;
        let ghost h = hu as nat;
        let ghost v0 = marked(walked@);
        let ghost cur = (*curr_x, *curr_y);
        let ghost s0 = stack@;
        let ghost st0 = walk_state(self.walls(), walked@, *walked_len as nat, stack@, cur);
        proof {
            lemma_marked_bounded(walked@, w, h);
        }
        if !walked[*curr_y][*curr_x] {
            walked[*curr_y][*curr_x] = true;
            assert(marked(walked@) =~= v0.insert(cur));
            *walked_len = *walked_len + 1;
        } else {
            assert(v0.insert(cur) =~= v0);
        }
        let ghost v1 = marked(walked@);
        proof {
            lemma_marked_bounded(walked@, w, h);
            assert(v1 == st0.visited.insert(cur));
        }
        match self.get_next_pos(*curr_x, *curr_y, walked, *walked_len) {
            Some(next) => {
                let ghost g1 = self.walls();
                self.carve_between((*curr_x, *curr_y), next);
                proof {
                    lemma_reach_forward(g1, self.walls(), w, h, v1, cur, next);
                    assert(v1.insert(next).len() == v1.len() + 1);
                }
                stack.push((*curr_x, *curr_y));
                *curr_x = next.0;
                *curr_y = next.1;
                proof {
                    lemma_settled_forward(v0, v1, s0, stack@, cur, next, w, h);
                }
                false
            },
            None => {
                proof {
                    lemma_settled_visit(v0, v1, s0, cur, w, h);
                }
                if stack.len() == 0 {
                    proof {
                        assert forall|p: Pos| #[trigger] rect(w, h).contains(p) implies v1.contains(
                            p,
                        ) by {
                            lemma_closed_covers(v1, w, h, p);
                        }
                        assert forall|p: Pos| in_grid(w, h, p) implies reachable(
                            self.walls(),
                            w,
                            h,
                            p,
                        ) by {
                            assert(rect(w, h).contains(p));
                        }
                    }
                    return true;
                }
                let top = stack.pop().unwrap();
                *curr_x = top.0;
                *curr_y = top.1;
                proof {
                    assert(s0 =~= stack@.push(top));
                    lemma_settled_back(v1, s0, stack@, top, cur, w, h);
                    assert(v1.insert(top) =~= v1);
                }
                false
            },
        }
    }

    /// Opens the wall between the neighbouring cells `a` and `b`.
    fn carve_between(&mut self, a: Pos, b: Pos)
        requires
            old(self).wf(),
            in_grid(old(self).spec_width(), old(self).spec_height(), a),
            in_grid(old(self).spec_width(), old(self).spec_height(), b),
            adjacent(a, b),
        ensures
            final(self).walls() == carve(old(self).walls(), a, b),
            final(self).wf(),
            final(self).spec_width() == old(self).spec_width(),
            final(self).spec_height() == old(self).spec_height(),
            final(self).seed_value() == old(self).seed_value(),
            opens_more(old(self).walls(), final(self).walls(), old(self).spec_width(), old(self).spec_height()),
            passage(final(self).walls(), a, b),
    {
        if a.0 == b.0 {
            if a.1 < b.1 {
                self.set_bottom_wall(a.0, a.1, false);
            } else {
                self.set_bottom_wall(b.0, b.1, false);
            }
        } else {
            if a.0 < b.0 {
                self.set_right_wall(a.0, a.1, false);
            } else {
                self.set_right_wall(b.0, b.1, false);
            }
        }
        assert(self.walls()[0].len() == old(self).walls()[0].len());
    }

    /// Randomised depth-first carving: visits every cell, clearing the wall
    /// between each cell and the one it steps to.
    fn walk(&mut self)
        requires
            old(self).wf(),
            old(self).spec_width() * old(self).spec_height() <= usize::MAX,
        ensures
            old(self).walls() == all_walls(old(self).spec_width(), old(self).spec_height())
                ==> final(self).walls() == carved(
                old(self).spec_width(),
                old(self).spec_height(),
                old(self).seed_value(),
            ),
            opens_more(old(self).walls(), final(self).walls(), old(self).spec_width(), old(self).spec_height()),
            final(self).wf(),
            final(self).spec_width() == old(self).spec_width(),
            final(self).spec_height() == old(self).spec_height(),
            final(self).seed_value() == old(self).seed_value(),
            final(self).all_reachable(),
    {
        let w = self.width();
        let h = self.height();
        let ghost seed = self.seed_value();
        let ghost w0 = self.walls();
        let mut walked: Vec<Vec<bool>> = Vec::new();
        let mut j: usize = 0;
        while j < h
            invariant
                j <= h,
                walked@.len() == j,
                forall|y: int| 0 <= y < j ==> (#[trigger] walked@[y])@.len() == w,
                forall|y: int, x: int| 0 <= y < j && 0 <= x < w ==> !walked@[y]@[x],
            decreases h - j,
        {
            let mut row: Vec<bool> = Vec::new();
            let mut i: usize = 0;
            while i < w
                invariant
                    i <= w,
                    row@.len() == i,
                    forall|x: int| 0 <= x < i ==> !row@[x],
                decreases w - i,
            {
                row.push(false);
                i += 1;
            }
            walked.push(row);
            j += 1;
        }
        assert(marked(walked@) =~= Set::empty());
        let mut walked_len: usize = 0;
        let mut stack: Vec<Pos> = Vec::new();
        let mut curr_x: usize = 0;
        let mut curr_y: usize = 0;
        let area = w * h;
        proof {
            assert forall|p: Pos| #[trigger] marked(walked@).insert((0usize, 0usize)).contains(p)
                implies reachable(self.walls(), w as nat, h as nat, p) by {
                assert(p == (0usize, 0usize));
                let r = seq![(0usize, 0usize)];
                assert(is_route(self.walls(), w as nat, h as nat, r) && r.last() == p);
            }
        }
        let ghost start = walk_start(w as nat, h as nat);
        let ghost mut k: nat = 0;
        assert(stack@ =~= Seq::<Pos>::empty());
        assert(w0 == all_walls(w as nat, h as nat) ==> walk_state(self.walls(), walked@, 0, stack@, (0usize, 0usize)) == start);
        assert(marked(walked@).insert((0usize, 0usize)) =~= Set::<Pos>::empty().insert(
            (0usize, 0usize),
        ));
        assert(Set::<Pos>::empty().insert((0usize, 0usize)).len() == 1);
        assert(w * h >= 1) by (nonlinear_arith)
            requires
                w >= 1,
                h >= 1,
        ;
        assert(self.walk_inv(walked@, 0, stack@, (0usize, 0usize))) by {
            reveal(Maze::walk_inv);
        }
        while walked_len < area
            invariant_except_break
                w0 == all_walls(w as nat, h as nat) ==> walk_state(self.walls(), walked@, walked_len as nat, stack@, (curr_x, curr_y))
                    == walk_n(start, k, w as nat, h as nat, seed),
                k + walk_measure(area as int, walked@, (curr_x, curr_y), stack@) <= 2 * area,
                self.walk_inv(walked@, walked_len as nat, stack@, (curr_x, curr_y)),
            invariant
                start == walk_start(w as nat, h as nat),
                self.spec_width() == w,
                self.spec_height() == h,
                self.seed_value() == seed,
                area == w * h,
                w0 == all_walls(w as nat, h as nat) && walked_len >= area ==> self.walls() == carved(w as nat, h as nat, seed),
                walked_len >= area ==> self.wf() && self.all_reachable(),
                opens_more(w0, self.walls(), w as nat, h as nat),
            ensures
                w0 == all_walls(w as nat, h as nat) ==> self.walls() == carved(w as nat, h as nat, seed),
                opens_more(w0, self.walls(), w as nat, h as nat),
                self.wf(),
                self.all_reachable(),
            decreases walk_measure(area as int, walked@, (curr_x, curr_y), stack@),
        {
            let ghost st0 = walk_state(self.walls(), walked@, walked_len as nat, stack@, (curr_x, curr_y));
            proof {
                reveal(Maze::walk_inv);
                lemma_visit_bounded(walked@, w as nat, h as nat, (curr_x, curr_y));
            }
            let ghost wb = self.walls();
            let stop = self.walk_round(&mut walked, &mut walked_len, &mut stack, &mut curr_x, &mut curr_y);
            proof {
                lemma_opens_trans(w0, wb, self.walls(), w as nat, h as nat);
            }
            if stop {
                proof {
                    let fin = walk_step(st0, w as nat, h as nat, seed);
                    lemma_walk_last(start, k, w as nat, h as nat, seed);
                    assert(walk_rounds(w as nat, h as nat) == 2 * area + 1);
                    let rest = (2 * area + 1 - (k + 1)) as nat;
                    lemma_walk_finished(fin, rest, w as nat, h as nat, seed);
                    lemma_walk_split(start, k + 1, rest, w as nat, h as nat, seed);
                    assert(k + 1 + rest == walk_rounds(w as nat, h as nat));
                    if w0 == all_walls(w as nat, h as nat) {
                        assert(walk_n(start, k + 1, w as nat, h as nat, seed) == fin);
                    }
                }
                break;
            }
            proof {
                lemma_walk_last(start, k, w as nat, h as nat, seed);
                k = k + 1;
                reveal(Maze::walk_inv);
                lemma_visit_bounded(walked@, w as nat, h as nat, (curr_x, curr_y));
                if walked_len >= area {
                    let now = walk_state(self.walls(), walked@, walked_len as nat, stack@, (curr_x, curr_y));
                    assert(walk_rounds(w as nat, h as nat) == 2 * area + 1);
                    let rest = (2 * area + 1 - k) as nat;
                    lemma_walk_finished(now, rest, w as nat, h as nat, seed);
                    lemma_walk_split(start, k, rest, w as nat, h as nat, seed);
                    assert(k + rest == walk_rounds(w as nat, h as nat));
                    lemma_rect_len(w as nat, h as nat);
                    lemma_marked_bounded(walked@, w as nat, h as nat);
                    lemma_subset_equality(marked(walked@), rect(w as nat, h as nat));
                    assert forall|p: Pos| in_grid(w as nat, h as nat, p) implies reachable(
                        self.walls(),
                        w as nat,
                        h as nat,
                        p,
                    ) by {
                        assert(rect(w as nat, h as nat).contains(p));
                        assert(marked(walked@).insert((curr_x, curr_y)).contains(p));
                    }
                }
            }
        }
    }
}

proof fn lemma_opens_trans(
    a: Seq<Seq<MazeCell>>,
    b: Seq<Seq<MazeCell>>,
    c: Seq<Seq<MazeCell>>,
    w: nat,
    h: nat,
)
    requires
        opens_more(a, b, w, h),
        opens_more(b, c, w, h),
    ensures
        opens_more(a, c, w, h),
{
    assert forall|x: int, y: int| 0 <= x < w && 0 <= y < h implies (!(#[trigger] a[y][x]).right_wall
        ==> !c[y][x].right_wall) && (!a[y][x].bottom_wall ==> !c[y][x].bottom_wall) by {
        assert(b[y][x] == b[y][x]);
    }
}

proof fn lemma_reach_forward(
    g1: Seq<Seq<MazeCell>>,
    g2: Seq<Seq<MazeCell>>,
    w: nat,
    h: nat,
    v1: Set<Pos>,
    cur: Pos,
    next: Pos,
)
    requires
        v1.contains(cur),
        forall|p: Pos| #[trigger] v1.contains(p) ==> reachable(g1, w, h, p),
        opens_more(g1, g2, w, h),
        passage(g2, cur, next),
        in_grid(w, h, next),
    ensures
        forall|p: Pos| #[trigger] v1.insert(next).contains(p) ==> reachable(g2, w, h, p),
{
    assert forall|p: Pos| #[trigger] v1.insert(next).contains(p) implies reachable(g2, w, h, p) by {
        if p == next {
            let r = choose|r: Seq<Pos>| is_route(g1, w, h, r) && r.last() == cur;
            lemma_route_kept(g1, g2, w, h, r);
            lemma_route_extend(g2, w, h, r, next);
        } else {
            let r = choose|r: Seq<Pos>| is_route(g1, w, h, r) && r.last() == p;
            lemma_route_kept(g1, g2, w, h, r);
        }
    }
}

proof fn lemma_settled_forward(
    v0: Set<Pos>,
    v1: Set<Pos>,
    s0: Seq<Pos>,
    s1: Seq<Pos>,
    cur: Pos,
    next: Pos,
    w: nat,
    h: nat,
)
    requires
        v1 == v0.insert(cur),
        s1 == s0.push(cur),
        forall|p: Pos| #[trigger] v0.contains(p) ==> p == cur || s0.contains(p) || settled(v0, w, h, p),
    ensures
        forall|p: Pos| #[trigger] v1.contains(p) ==> p == next || s1.contains(p) || settled(v1, w, h, p),
{
    assert forall|p: Pos| #[trigger] v1.contains(p) implies p == next || s1.contains(p) || settled(
        v1,
        w,
        h,
        p,
    ) by {
        if p == cur {
            assert(s1[s1.len() - 1] == p);
        } else {
            assert(v0.contains(p));
            if s0.contains(p) {
                let k = choose|k: int| 0 <= k < s0.len() && s0[k] == p;
                assert(s1[k] == p);
            }
        }
    }
}

proof fn lemma_settled_visit(v0: Set<Pos>, v1: Set<Pos>, s0: Seq<Pos>, cur: Pos, w: nat, h: nat)
    requires
        v1 == v0.insert(cur),
        settled(v1, w, h, cur),
        forall|p: Pos| #[trigger] v0.contains(p) ==> p == cur || s0.contains(p) || settled(v0, w, h, p),
    ensures
        forall|p: Pos| #[trigger] v1.contains(p) ==> p == cur || s0.contains(p) || settled(v1, w, h, p),
        forall|p: Pos| #[trigger] v1.contains(p) ==> s0.contains(p) || settled(v1, w, h, p),
{
    assert forall|p: Pos| #[trigger] v1.contains(p) implies s0.contains(p) || settled(v1, w, h, p) by {
        if p != cur {
            assert(v0.contains(p));
        }
    }
}

proof fn lemma_settled_back(v1: Set<Pos>, s0: Seq<Pos>, s1: Seq<Pos>, top: Pos, cur: Pos, w: nat, h: nat)
    requires
        s0 == s1.push(top),
        forall|p: Pos| #[trigger] v1.contains(p) ==> s0.contains(p) || settled(v1, w, h, p),
    ensures
        forall|p: Pos| #[trigger] v1.contains(p) ==> p == top || s1.contains(p) || settled(v1, w, h, p),
{
    assert forall|p: Pos| #[trigger] v1.contains(p) implies p == top || s1.contains(p) || settled(
        v1,
        w,
        h,
        p,
    ) by {
        if p != top && s0.contains(p) {
            let k = choose|k: int| 0 <= k < s0.len() && s0[k] == p;
            assert(k < s0.len() - 1);
            assert(s1[k] == p);
        }
    }
}

proof fn lemma_visit_bounded(f: Seq<Vec<bool>>, w: nat, h: nat, cur: Pos)
    requires
        flags_rect(f, w, h),
        in_grid(w, h, cur),
        w <= usize::MAX,
        h <= usize::MAX,
    ensures
        marked(f).insert(cur).finite(),
        marked(f).insert(cur).len() <= w * h,
{
    lemma_rect_len(w, h);
    assert(marked(f).insert(cur).subset_of(rect(w, h)));
    lemma_len_subset(marked(f).insert(cur), rect(w, h));
}

impl Maze {
    /// Whether the wall below cell `(x, y)` stands.
    pub fn bottom_wall(&self, x: usize, y: usize) -> (r: bool)
        requires
            self.wf(),
            x < self.spec_width(),
            y < self.spec_height(),
        ensures
            r == self.walls()[y as int][x as int].bottom_wall,
    {
        assert(self.cells@[y as int]@ == self.walls()[y as int]);
        self.cells[y][x].bottom_wall
    }

    /// Whether the wall to the right of cell `(x, y)` stands.
    pub fn right_wall(&self, x: usize, y: usize) -> (r: bool)
        requires
            self.wf(),
            x < self.spec_width(),
            y < self.spec_height(),
        ensures
            r == self.walls()[y as int][x as int].right_wall,
    {
        assert(self.cells@[y as int]@ == self.walls()[y as int]);
        self.cells[y][x].right_wall
    }
}

/// Building a maze is deterministic: two mazes built from the same width, height
/// and seed have the same walls.
pub proof fn lemma_maze_deterministic(a: Maze, b: Maze, width: nat, height: nat, seed: u32)
    requires
        a.walls() == carved(width, height, seed),
        b.walls() == carved(width, height, seed),
    ensures
        a.walls() == b.walls(),
{
}

} // verus!
