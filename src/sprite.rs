use crate::occupancy::{
    cellular_automata_do_steps, fits_i32, grid_of, is_grid, is_mirrored, lemma_steps_keep_grid,
    make_rand_map, on_border, steps_spec, N_STEPS,
};
use crate::region::{
    built_from, built_with_seed, components, fill_colors, filled, groups_ok, lemma_blocks_on_board,
    negated, on_edge, scan_built, NoiseField, Shading, N_COLORS,
};
use vstd::prelude::*;

verus! {

/// Board size that `draw_all` paints.
pub const SPRITE_HEIGHT: usize = 45;

pub const SPRITE_WIDTH: usize = 45;

/// A colour with 8-bit channels; 255 stands for full intensity (1.0).
#[derive(Clone, Copy, Debug, PartialEq, Eq, Structural)]
pub struct Rgba {
    pub r: u8,
    pub g: u8,
    pub b: u8,
    pub a: u8,
}

pub open spec fn black() -> Rgba {
    Rgba { r: 0, g: 0, b: 0, a: 255 }
}

pub open spec fn white() -> Rgba {
    Rgba { r: 255, g: 255, b: 255, a: 255 }
}

/// The coarse label of a sprite's average colour, one per octant of RGB space.
#[derive(Clone, Copy, Debug, PartialEq, Eq, Structural)]
pub enum Faction {
    ChaosWarriors,
    WaterBoys,
    ForestBoys,
    TechBoys,
    HellSpawn,
    SpaceAliens,
    GoldenBoys,
    JusticeSoldiers,
}

/// The dominant channel of a sprite.
#[derive(Clone, Copy, Debug, PartialEq, Eq, Structural)]
pub enum PrimaryColor {
    Red,
    Green,
    Blue,
}

/// One painted square: board column and row, and its colour.
#[derive(Clone, Copy, Debug)]
pub struct Cell {
    pub position: (i32, i32),
    pub color: Rgba,
}

/// A connected region; `valid` is false for an empty region that touches the edge.
#[derive(Clone, Debug)]
pub struct Group {
    pub arr: Vec<Cell>,
    pub valid: bool,
}

/// One drawable layer.
#[derive(Clone, Debug)]
pub struct CellDrawer {
    pub cells: Vec<Cell>,
}

/// The regions of a sprite and, once `ready` has run, its drawable layers.
#[derive(Clone, Debug)]
pub struct GroupDrawer {
    pub groups: Vec<Group>,
    pub negative_groups: Vec<Group>,
    pub children: Vec<CellDrawer>,
}


/// Largest number of cells among the groups.
pub open spec fn largest(gs: Seq<Group>) -> nat
    decreases gs.len(),
{
    if gs.len() == 0 {
        0
    } else {
        let rest = largest(gs.drop_last());
        if gs.last().arr@.len() > rest {
            gs.last().arr@.len()
        } else {
            rest
        }
    }
}

/// A group survives when it has at least a quarter of the largest group's cells.
pub open spec fn keeps(g: Group, big: nat) -> bool {
    4 * g.arr@.len() >= big
}

/// The groups that survive, in the order they came in.
pub open spec fn survivors(gs: Seq<Group>, big: nat) -> Seq<Group>
    decreases gs.len(),
{
    if gs.len() == 0 {
        gs
    } else {
        let rest = survivors(gs.subrange(1, gs.len() as int), big);
        if keeps(gs[0], big) {
            seq![gs[0]] + rest
        } else {
            rest
        }
    }
}

pub open spec fn positions_meet(a: Seq<Cell>, b: Seq<Cell>) -> bool {
    exists|i: int, j: int| 0 <= i < a.len() && 0 <= j < b.len() && a[i].position == b[j].position
}

pub fn max(n1: usize, n2: usize) -> (r: usize)
    ensures
        r == if n1 < n2 { n2 } else { n1 },
{
    if n1 < n2 {
        return n2;
    }
    n1
}

/// Whether the two groups have a cell position in common.
pub fn group_is_touching_group(g1: &Group, g2: &Group) -> (r: bool)
    ensures
        r == positions_meet(g1.arr@, g2.arr@),
{
    let mut i: usize = 0;
    while i < g1.arr.len()
        invariant
            i <= g1.arr@.len(),
            forall|a: int, b: int|
                0 <= a < i && 0 <= b < g2.arr@.len() ==> (#[trigger] g1.arr@[a]).position
                    != (#[trigger] g2.arr@[b]).position,
        decreases g1.arr@.len() - i,
    {
        let p = g1.arr[i].position;
        let mut j: usize = 0;
        while j < g2.arr.len()
            invariant
                i < g1.arr@.len(),
                p == g1.arr@[i as int].position,
                j <= g2.arr@.len(),
                forall|b: int| 0 <= b < j ==> p != #[trigger] g2.arr@[b].position,
            decreases g2.arr@.len() - j,
        {
            let q = g2.arr[j].position;
            if p.0 == q.0 && p.1 == q.1 {
                return true;
            }
            j += 1;
        }
        i += 1;
    }
    false
}

impl CellDrawer {
    pub fn new(cells: Vec<Cell>) -> (r: CellDrawer)
        ensures
            r.cells@ == cells@,
    {
        CellDrawer { cells }
    }
}

impl GroupDrawer {
    pub fn new(groups: Vec<Group>, negative_groups: Vec<Group>) -> (r: GroupDrawer)
        ensures
            r.groups@ == groups@,
            r.negative_groups@ == negative_groups@,
            r.children@.len() == 0,
    {
        GroupDrawer { groups, negative_groups, children: Vec::new() }
    }

    pub fn add_child(&mut self, cell_drawer: CellDrawer)
        ensures
            final(self).children@ == old(self).children@.push(cell_drawer),
            final(self).groups@ == old(self).groups@,
            final(self).negative_groups@ == old(self).negative_groups@,
    {
        self.children.push(cell_drawer);
    }
}


/// A negative group is laid over a region when it is valid and shares a position with it.
pub open spec fn overlays(ng: Group, cells: Seq<Cell>) -> bool {
    ng.valid && positions_meet(ng.arr@, cells)
}

/// The cells of every overlaying negative group, in order.
pub open spec fn overlay(ngs: Seq<Group>, cells: Seq<Cell>) -> Seq<Cell>
    decreases ngs.len(),
{
    if ngs.len() == 0 {
        Seq::empty()
    } else {
        overlay(ngs.drop_last(), cells) + if overlays(ngs.last(), cells) {
            ngs.last().arr@
        } else {
            Seq::empty()
        }
    }
}

/// The negative groups as their cells and validity.
pub open spec fn negs_view(ngs: Seq<Group>) -> Seq<(Seq<Cell>, bool)> {
    Seq::new(ngs.len(), |j: int| (ngs[j].arr@, ngs[j].valid))
}

pub open spec fn overlay_v(nv: Seq<(Seq<Cell>, bool)>, cells: Seq<Cell>) -> Seq<Cell>
    decreases nv.len(),
{
    if nv.len() == 0 {
        Seq::empty()
    } else {
        overlay_v(nv.drop_last(), cells) + if nv.last().1 && positions_meet(nv.last().0, cells) {
            nv.last().0
        } else {
            Seq::empty()
        }
    }
}

/// Every negative group laid over `cells` is emptied; the others stay as they are.
pub open spec fn consume(nv: Seq<(Seq<Cell>, bool)>, cells: Seq<Cell>) -> Seq<(Seq<Cell>, bool)> {
    Seq::new(
        nv.len(),
        |j: int|
            if nv[j].1 && positions_meet(nv[j].0, cells) {
                (Seq::<Cell>::empty(), nv[j].1)
            } else {
                nv[j]
            },
    )
}

/// The layers that `ready` adds for `gs`, last group first, and the negative groups
/// left afterwards: each surviving group's cells followed by those of the negative
/// groups laid over it, which are then emptied, so each is merged at most once.
pub open spec fn layering(gs: Seq<Group>, nv: Seq<(Seq<Cell>, bool)>, big: nat) -> (Seq<Seq<Cell>>, Seq<(Seq<Cell>, bool)>)
    decreases gs.len(),
{
    if gs.len() == 0 {
        (Seq::empty(), nv)
    } else {
        let gl = gs.last();
        if keeps(gl, big) {
            let rest = layering(gs.drop_last(), consume(nv, gl.arr@), big);
            (seq![gl.arr@ + overlay_v(nv, gl.arr@)] + rest.0, rest.1)
        } else {
            layering(gs.drop_last(), nv, big)
        }
    }
}

pub open spec fn layers_view(cs: Seq<CellDrawer>) -> Seq<Seq<Cell>> {
    Seq::new(cs.len(), |k: int| cs[k].cells@)
}

proof fn lemma_overlay_view(ngs: Seq<Group>, cells: Seq<Cell>)
    ensures
        overlay(ngs, cells) == overlay_v(negs_view(ngs), cells),
    decreases ngs.len(),
{
    if ngs.len() > 0 {
        assert(negs_view(ngs).drop_last() =~= negs_view(ngs.drop_last()));
        lemma_overlay_view(ngs.drop_last(), cells);
    }
}

/// `a` begins with `b`.
pub open spec fn starts_with(a: Seq<Cell>, b: Seq<Cell>) -> bool {
    b.len() <= a.len() && a.subrange(0, b.len() as int) == b
}

/// Each negative group is either as before or has been emptied; invalid ones are untouched.
pub open spec fn consumed_from(before: Seq<Group>, after: Seq<Group>) -> bool {
    &&& after.len() == before.len()
    &&& forall|j: int|
        0 <= j < before.len() ==> (#[trigger] after[j]).valid == before[j].valid && (after[j].arr@
            == before[j].arr@ || after[j].arr@.len() == 0)
    &&& forall|j: int|
        0 <= j < before.len() && !before[j].valid ==> (#[trigger] after[j]).arr@ == before[j].arr@
}

/// Moves the cells of every overlaying negative group onto the end of `dupe_arr`.
fn overlay_negatives(negative_groups: &mut Vec<Group>, group: &Group, dupe_arr: &mut Vec<Cell>)
    ensures
        final(dupe_arr)@ == old(dupe_arr)@ + overlay(old(negative_groups)@, group.arr@),
        final(negative_groups)@.len() == old(negative_groups)@.len(),
        forall|j: int|
            0 <= j < old(negative_groups)@.len() ==> (#[trigger] final(negative_groups)@[j]).valid
                == old(negative_groups)@[j].valid && final(negative_groups)@[j].arr@ == if overlays(
                old(negative_groups)@[j],
                group.arr@,
            ) {
                Seq::empty()
            } else {
                old(negative_groups)@[j].arr@
            },
{
    let ghost ng0 = negative_groups@;
    let ghost d0 = dupe_arr@;
    let mut j: usize = 0;
    while j < negative_groups.len()
        invariant
            j <= negative_groups@.len(),
            negative_groups@.len() == ng0.len(),
            dupe_arr@ == d0 + overlay(ng0.subrange(0, j as int), group.arr@),
            forall|k: int|
                j <= k < ng0.len() ==> #[trigger] negative_groups@[k] == ng0[k],
            forall|k: int|
                0 <= k < j ==> (#[trigger] negative_groups@[k]).valid == ng0[k].valid
                    && negative_groups@[k].arr@ == if overlays(ng0[k], group.arr@) {
                    Seq::empty()
                } else {
                    ng0[k].arr@
                },
        decreases ng0.len() - j,
    {
        assert(ng0.subrange(0, j + 1).drop_last() =~= ng0.subrange(0, j as int));
        assert(ng0.subrange(0, j + 1).last() == ng0[j as int]);
        if negative_groups[j].valid && group_is_touching_group(&negative_groups[j], group) {
            dupe_arr.append(&mut negative_groups[j].arr);
        }
        assert(dupe_arr@ =~= d0 + overlay(ng0.subrange(0, j + 1), group.arr@));
        j += 1;
    }
    assert(ng0.subrange(0, ng0.len() as int) =~= ng0);
}

impl GroupDrawer {
    /// Drops every group with fewer than a quarter of the largest group's cells and,
    /// from the last group to the first, adds a layer of each survivor's cells with
    /// the overlaying negative groups moved on top.
    pub fn ready(&mut self)
        requires
            old(self).children@.len() == 0,
        ensures
            layers_view(final(self).children@) == layering(
                old(self).groups@,
                negs_view(old(self).negative_groups@),
                largest(old(self).groups@),
            ).0,
            negs_view(final(self).negative_groups@) == layering(
                old(self).groups@,
                negs_view(old(self).negative_groups@),
                largest(old(self).groups@),
            ).1,
            final(self).groups@ == survivors(old(self).groups@, largest(old(self).groups@)),
            final(self).children@.len() == old(self).children@.len() + final(self).groups@.len(),
            forall|k: int|
                0 <= k < final(self).groups@.len() ==> starts_with(
                    #[trigger] final(self).children@[old(self).children@.len() + k].cells@,
                    final(self).groups@[final(self).groups@.len() - 1 - k].arr@,
                ),
            forall|k: int|
                0 <= k < old(self).children@.len() ==> #[trigger] final(self).children@[k]
                    == old(self).children@[k],
            consumed_from(old(self).negative_groups@, final(self).negative_groups@),
    {
        let ghost s = self.groups@;
        let ghost c0 = self.children@;
        let n = self.groups.len();
        let mut big: usize = 0;
        let mut i: usize = 0;
        while i < n
            invariant
                i <= n,
                n == s.len(),
                self.groups@ == s,
                big == largest(s.subrange(0, i as int)),
            decreases n - i,
        {
            assert(s.subrange(0, i + 1).drop_last() =~= s.subrange(0, i as int));
            big = max(big, self.groups[i].arr.len());
            i += 1;
        }
        assert(s.subrange(0, n as int) =~= s);
        let ghost ng_start = self.negative_groups@;
        let ghost total = layering(s, negs_view(ng_start), big as nat);
        let mut i: usize = n;
        assert(s.subrange(0, n as int) =~= s);
        assert(layers_view(self.children@) + total.0 =~= total.0);
        while i > 0
            invariant
                total == layering(s, negs_view(ng_start), big as nat),
                layers_view(self.children@) + layering(s.subrange(0, i as int), negs_view(self.negative_groups@), big as nat).0 == total.0,
                layering(s.subrange(0, i as int), negs_view(self.negative_groups@), big as nat).1 == total.1,
                i <= n,
                n == s.len(),
                big == largest(s),
                self.groups@ == s.subrange(0, i as int) + survivors(s.subrange(i as int, n as int), big as nat),
                self.children@.len() == c0.len() + survivors(s.subrange(i as int, n as int), big as nat).len(),
                forall|k: int|
                    0 <= k < c0.len() ==> #[trigger] self.children@[k] == c0[k],
                forall|k: int|
                    0 <= k < survivors(s.subrange(i as int, n as int), big as nat).len() ==> starts_with(
                        #[trigger] self.children@[c0.len() + k].cells@,
                        survivors(s.subrange(i as int, n as int), big as nat)[survivors(
                            s.subrange(i as int, n as int),
                            big as nat,
                        ).len() - 1 - k].arr@,
                    ),
                consumed_from(ng_start, self.negative_groups@),
            decreases i,
        {
            i -= 1;
            let ghost nv_now = negs_view(self.negative_groups@);
            let ghost lv_now = layers_view(self.children@);
            let ghost sub = s.subrange(0, i + 1);
            assert(sub.drop_last() =~= s.subrange(0, i as int));
            assert(sub.last() == s[i as int]);
            let ghost rest = survivors(s.subrange(i + 1, n as int), big as nat);
            let ghost t = s.subrange(i as int, n as int);
            assert(t.subrange(1, t.len() as int) =~= s.subrange(i + 1, n as int));
            assert(t[0] == s[i as int]);
            assert(self.groups@[i as int] == s[i as int]);
            let len = self.groups[i].arr.len();
            if (len as u128) * 4 >= big as u128 {
                let mut dupe_arr = self.groups[i].arr.clone();
                assert(dupe_arr@ =~= s[i as int].arr@);
                let ghost ng_before = self.negative_groups@;
                overlay_negatives(&mut self.negative_groups, &self.groups[i], &mut dupe_arr);
                assert(dupe_arr@.subrange(0, s[i as int].arr@.len() as int) =~= s[i as int].arr@);
                proof {
                    lemma_overlay_view(ng_before, s[i as int].arr@);
                    assert(negs_view(self.negative_groups@) =~= consume(nv_now, s[i as int].arr@));
                }
                let ghost layer = dupe_arr@;
                self.add_child(CellDrawer::new(dupe_arr));
                proof {
                    assert(layers_view(self.children@) =~= lv_now.push(layer));
                    let r2 = layering(s.subrange(0, i as int), negs_view(self.negative_groups@), big as nat);
                    assert(layering(sub, nv_now, big as nat).0 == seq![layer] + r2.0);
                    assert(lv_now.push(layer) + r2.0 =~= lv_now + (seq![layer] + r2.0));
                }
                assert(self.groups@ =~= s.subrange(0, i as int) + survivors(t, big as nat));
                let ghost now = survivors(t, big as nat);
                assert(now =~= seq![s[i as int]] + rest);
                assert forall|k: int| 0 <= k < now.len() implies starts_with(
                    #[trigger] self.children@[c0.len() + k].cells@,
                    now[now.len() - 1 - k].arr@,
                ) by {
                    if k < rest.len() {
                        assert(now[now.len() - 1 - k] == rest[rest.len() - 1 - k]);
                    }
                }
                assert(consumed_from(ng_start, self.negative_groups@)) by {
                    assert forall|j: int| 0 <= j < ng_start.len() implies (#[trigger] self.negative_groups@[j]).valid == ng_start[j].valid && (self.negative_groups@[j].arr@ == ng_start[j].arr@ || self.negative_groups@[j].arr@.len() == 0) by {
                        assert(ng_before[j].valid == ng_start[j].valid);
                    }
                    assert forall|j: int| 0 <= j < ng_start.len() && !ng_start[j].valid implies (#[trigger] self.negative_groups@[j]).arr@ == ng_start[j].arr@ by {
                        assert(ng_before[j].arr@ == ng_start[j].arr@);
                    }
                }
            } else {
                self.groups.remove(i);
                assert(layering(sub, nv_now, big as nat) == layering(s.subrange(0, i as int), nv_now, big as nat));
                assert(self.groups@ =~= s.subrange(0, i as int) + survivors(t, big as nat));
            }
        }
        assert(s.subrange(0, n as int) =~= s);
        assert(s.subrange(0, 0) + survivors(s, big as nat) =~= survivors(s, big as nat));
        assert(s.subrange(0, 0) =~= Seq::<Group>::empty());
        assert(layers_view(self.children@) + Seq::<Seq<Cell>>::empty() =~= layers_view(self.children@));
    }
}

/// No surviving group is below a quarter of the largest, and every group that
/// reaches it survives.
pub proof fn lemma_survivors_threshold(gs: Seq<Group>, big: nat)
    ensures
        forall|k: int|
            0 <= k < survivors(gs, big).len() ==> 4 * (#[trigger] survivors(gs, big)[k]).arr@.len()
                >= big,
        forall|k: int|
            0 <= k < gs.len() && keeps(gs[k], big) ==> survivors(gs, big).contains(#[trigger] gs[k]),
    decreases gs.len(),
{
    if gs.len() > 0 {
        let tail = gs.subrange(1, gs.len() as int);
        lemma_survivors_threshold(tail, big);
        let rest = survivors(tail, big);
        if keeps(gs[0], big) {
            assert forall|k: int| 0 <= k < survivors(gs, big).len() implies 4 * (
            #[trigger] survivors(gs, big)[k]).arr@.len() >= big by {
                if k > 0 {
                    assert(survivors(gs, big)[k] == rest[k - 1]);
                }
            }
        }
        assert forall|k: int| 0 <= k < gs.len() && keeps(gs[k], big) implies survivors(
            gs,
            big,
        ).contains(#[trigger] gs[k]) by {
            if k > 0 {
                assert(gs[k] == tail[k - 1]);
                let m = choose|m: int| 0 <= m < rest.len() && rest[m] == tail[k - 1];
                if keeps(gs[0], big) {
                    assert(survivors(gs, big)[m + 1] == rest[m]);
                }
            } else {
                assert(survivors(gs, big)[0] == gs[0]);
            }
        }
    }
}

/// After `ready`, every remaining group has at least a quarter of the cells of the
/// largest group it started with, and no group that had that many was dropped.
pub proof fn lemma_ready_threshold(before: GroupDrawer, after: GroupDrawer)
    requires
        after.groups@ == survivors(before.groups@, largest(before.groups@)),
    ensures
        forall|k: int|
            0 <= k < after.groups@.len() ==> 4 * (#[trigger] after.groups@[k]).arr@.len()
                >= largest(before.groups@),
        forall|k: int|
            0 <= k < before.groups@.len() && 4 * before.groups@[k].arr@.len() >= largest(
                before.groups@,
            ) ==> after.groups@.contains(#[trigger] before.groups@[k]),
{
    lemma_survivors_threshold(before.groups@, largest(before.groups@));
}


/// Every layer's cells, layer after layer.
pub open spec fn all_cells(children: Seq<CellDrawer>) -> Seq<Cell>
    decreases children.len(),
{
    if children.len() == 0 {
        Seq::empty()
    } else {
        all_cells(children.drop_last()) + children.last().cells@
    }
}

/// The colour at `(x, y)` after painting `cells` in order over `base`: the last
/// cell at that position wins.
pub open spec fn paint(base: Rgba, cells: Seq<Cell>, x: int, y: int) -> Rgba
    decreases cells.len(),
{
    if cells.len() == 0 {
        base
    } else if cells.last().position.0 == x && cells.last().position.1 == y {
        cells.last().color
    } else {
        paint(base, cells.drop_last(), x, y)
    }
}

pub proof fn lemma_paint_append(base: Rgba, a: Seq<Cell>, b: Seq<Cell>, x: int, y: int)
    ensures
        paint(paint(base, a, x, y), b, x, y) == paint(base, a + b, x, y),
    decreases b.len(),
{
    if b.len() == 0 {
        assert(a + b =~= a);
    } else {
        assert((a + b).drop_last() =~= a + b.drop_last());
        lemma_paint_append(base, a, b.drop_last(), x, y);
    }
}

/// Rows of `width` pixels, `height` of them.
pub open spec fn board_shape(b: Seq<Vec<Rgba>>, height: nat, width: nat) -> bool {
    b.len() == height && forall|y: int| 0 <= y < height ==> (#[trigger] b[y])@.len() == width
}

impl CellDrawer {
    /// Paints the cells in order; a cell whose position is off the board is skipped.
    pub fn _draw(&self, board: &mut Vec<Vec<Rgba>>)
        ensures
            final(board)@.len() == old(board)@.len(),
            forall|y: int|
                0 <= y < old(board)@.len() ==> (#[trigger] final(board)@[y])@.len() == old(
                    board,
                )@[y]@.len(),
            forall|y: int, x: int|
                0 <= y < old(board)@.len() && 0 <= x < old(board)@[y]@.len() ==> final(board)@[y]@[x] == paint(
                    old(board)@[y]@[x],
                    self.cells@,
                    x,
                    y,
                ),
    {
        let ghost b0 = board@;
        let mut i: usize = 0;
        while i < self.cells.len()
            invariant
                i <= self.cells@.len(),
                board@.len() == b0.len(),
                forall|y: int| 0 <= y < b0.len() ==> (#[trigger] board@[y])@.len() == b0[y]@.len(),
                forall|y: int, x: int|
                    0 <= y < b0.len() && 0 <= x < b0[y]@.len() ==> #[trigger] board@[y]@[x]
                        == paint(b0[y]@[x], self.cells@.subrange(0, i as int), x, y),
            decreases self.cells@.len() - i,
        {
            let c = self.cells[i];
            let ghost b1 = board@;
            if c.position.1 >= 0 && (c.position.1 as usize) < board.len() && c.position.0 >= 0 {
                let row = c.position.1 as usize;
                let col = c.position.0 as usize;
                if col < board[row].len() {
                    board[row][col] = c.color;
                }
            }
            assert forall|y: int, x: int|
                0 <= y < b0.len() && 0 <= x < b0[y]@.len() implies #[trigger] board@[y]@[x]
                    == paint(b0[y]@[x], self.cells@.subrange(0, i + 1), x, y) by {
                assert(self.cells@.subrange(0, i + 1).drop_last() =~= self.cells@.subrange(
                    0,
                    i as int,
                ));
                assert(b1[y]@[x] == paint(b0[y]@[x], self.cells@.subrange(0, i as int), x, y));
            }
            i += 1;
        }
        assert(self.cells@.subrange(0, self.cells@.len() as int) =~= self.cells@);
    }
}

impl GroupDrawer {
    /// A `SPRITE_HEIGHT` by `SPRITE_WIDTH` board, white where no layer paints and
    /// elsewhere the colour of the last cell painted there.
    pub fn draw_all(&self) -> (board: Vec<Vec<Rgba>>)
        ensures
            board_shape(board@, SPRITE_HEIGHT as nat, SPRITE_WIDTH as nat),
            forall|y: int, x: int|
                0 <= y < SPRITE_HEIGHT && 0 <= x < SPRITE_WIDTH ==> #[trigger] board@[y]@[x]
                    == paint(white(), all_cells(self.children@), x, y),
    {
        let mut board: Vec<Vec<Rgba>> = Vec::new();
        let mut j: usize = 0;
        while j < SPRITE_HEIGHT
            invariant
                j <= SPRITE_HEIGHT,
                board@.len() == j,
                forall|y: int| 0 <= y < j ==> (#[trigger] board@[y])@.len() == SPRITE_WIDTH,
                forall|y: int, x: int|
                    0 <= y < j && 0 <= x < SPRITE_WIDTH ==> #[trigger] board@[y]@[x] == white(),
            decreases SPRITE_HEIGHT - j,
        {
            let mut row: Vec<Rgba> = Vec::new();
            let mut i: usize = 0;
            while i < SPRITE_WIDTH
                invariant
                    i <= SPRITE_WIDTH,
                    row@.len() == i,
                    forall|x: int| 0 <= x < i ==> #[trigger] row@[x] == white(),
                decreases SPRITE_WIDTH - i,
            {
                row.push(Rgba { r: 255, g: 255, b: 255, a: 255 });
                i += 1;
            }
            board.push(row);
            j += 1;
        }
        let mut k: usize = 0;
        while k < self.children.len()
            invariant
                k <= self.children@.len(),
                board_shape(board@, SPRITE_HEIGHT as nat, SPRITE_WIDTH as nat),
                forall|y: int, x: int|
                    0 <= y < SPRITE_HEIGHT && 0 <= x < SPRITE_WIDTH ==> #[trigger] board@[y]@[x]
                        == paint(white(), all_cells(self.children@.subrange(0, k as int)), x, y),
            decreases self.children@.len() - k,
        {
            let ghost b1 = board@;
            self.children[k]._draw(&mut board);
            assert forall|y: int, x: int|
                0 <= y < SPRITE_HEIGHT && 0 <= x < SPRITE_WIDTH implies #[trigger] board@[y]@[x]
                    == paint(white(), all_cells(self.children@.subrange(0, k + 1)), x, y) by {
                let pre = self.children@.subrange(0, k as int);
                assert(self.children@.subrange(0, k + 1).drop_last() =~= pre);
                assert(b1[y]@[x] == paint(white(), all_cells(pre), x, y));
                lemma_paint_append(white(), all_cells(pre), self.children@[k as int].cells@, x, y);
            }
            k += 1;
        }
        assert(self.children@.subrange(0, self.children@.len() as int) =~= self.children@);
        board
    }
}


pub open spec fn colors(cells: Seq<Cell>) -> Seq<Rgba> {
    cells.map_values(|c: Cell| c.color)
}

/// Channel totals over a sequence of colours: `ch` 0 is red, 1 green, 2 blue.
pub open spec fn channel(c: Rgba, ch: int) -> nat {
    if ch == 0 {
        c.r as nat
    } else if ch == 1 {
        c.g as nat
    } else {
        c.b as nat
    }
}

pub open spec fn channel_total(cs: Seq<Rgba>, ch: int) -> nat
    decreases cs.len(),
{
    if cs.len() == 0 {
        0
    } else {
        channel_total(cs.drop_last(), ch) + channel(cs.last(), ch)
    }
}

/// The channel with the largest total; ties go to red, then green.
pub open spec fn primary_of(cs: Seq<Rgba>) -> PrimaryColor {
    let (r, g, b) = (channel_total(cs, 0), channel_total(cs, 1), channel_total(cs, 2));
    if r >= g && r >= b {
        PrimaryColor::Red
    } else if g >= b {
        PrimaryColor::Green
    } else {
        PrimaryColor::Blue
    }
}

/// Pure black and pure white are left out of the faction average.
pub open spec fn counted(c: Rgba) -> bool {
    !(c.r == 0 && c.g == 0 && c.b == 0) && !(c.r == 255 && c.g == 255 && c.b == 255)
}

pub open spec fn counted_total(cs: Seq<Rgba>, ch: int) -> nat
    decreases cs.len(),
{
    if cs.len() == 0 {
        0
    } else {
        counted_total(cs.drop_last(), ch) + if counted(cs.last()) {
            channel(cs.last(), ch)
        } else {
            0
        }
    }
}

pub open spec fn counted_len(cs: Seq<Rgba>) -> nat
    decreases cs.len(),
{
    if cs.len() == 0 {
        0
    } else {
        counted_len(cs.drop_last()) + if counted(cs.last()) {
            1nat
        } else {
            0
        }
    }
}

/// An average above 127.5: `sum / count > 255 / 2`.
pub open spec fn is_high(sum: nat, count: nat) -> bool {
    2 * sum > 255 * count
}

pub open spec fn octant_faction(r: bool, g: bool, b: bool) -> Faction {
    if !b {
        if !g {
            if !r {
                Faction::ChaosWarriors
            } else {
                Faction::WaterBoys
            }
        } else if !r {
            Faction::ForestBoys
        } else {
            Faction::TechBoys
        }
    } else if !g {
        if !r {
            Faction::HellSpawn
        } else {
            Faction::SpaceAliens
        }
    } else if !r {
        Faction::GoldenBoys
    } else {
        Faction::JusticeSoldiers
    }
}

pub open spec fn faction_of(cs: Seq<Rgba>) -> Faction {
    let n = counted_len(cs);
    octant_faction(
        is_high(counted_total(cs, 0), n),
        is_high(counted_total(cs, 1), n),
        is_high(counted_total(cs, 2), n),
    )
}

pub proof fn lemma_all_cells_prefix(children: Seq<CellDrawer>, k: int)
    requires
        0 <= k < children.len(),
    ensures
        all_cells(children.subrange(0, k)).len() + children[k].cells@.len() <= all_cells(
            children,
        ).len(),
    decreases children.len(),
{
    if k < children.len() - 1 {
        lemma_all_cells_prefix(children.drop_last(), k);
        assert(children.drop_last().subrange(0, k) =~= children.subrange(0, k));
    } else {
        assert(children.drop_last() =~= children.subrange(0, k));
    }
}

proof fn lemma_totals_bounded(cs: Seq<Rgba>, ch: int)
    ensures
        channel_total(cs, ch) <= 255 * cs.len(),
        counted_total(cs, ch) <= 255 * cs.len(),
        counted_len(cs) <= cs.len(),
    decreases cs.len(),
{
    if cs.len() > 0 {
        lemma_totals_bounded(cs.drop_last(), ch);
    }
}

proof fn lemma_totals_push(cs: Seq<Rgba>, c: Rgba)
    ensures
        forall|ch: int|
            #[trigger] channel_total(cs.push(c), ch) == channel_total(cs, ch) + channel(c, ch),
        forall|ch: int|
            #[trigger] counted_total(cs.push(c), ch) == counted_total(cs, ch) + if counted(c) {
                channel(c, ch)
            } else {
                0
            },
        counted_len(cs.push(c)) == counted_len(cs) + if counted(c) {
            1nat
        } else {
            0
        },
{
    assert(cs.push(c).drop_last() =~= cs);
}

/// Running totals over the layers `0..k` and the first `j` cells of layer `k`.
pub open spec fn scanned(children: Seq<CellDrawer>, k: int, j: int) -> Seq<Rgba> {
    colors(all_cells(children.subrange(0, k)) + children[k].cells@.subrange(0, j))
}

proof fn lemma_scan_step(children: Seq<CellDrawer>, k: int, j: int)
    requires
        0 <= k < children.len(),
        0 <= j < children[k].cells@.len(),
    ensures
        scanned(children, k, j + 1) == scanned(children, k, j).push(children[k].cells@[j].color),
        scanned(children, k, j + 1).len() <= all_cells(children).len(),
{
    let pre = all_cells(children.subrange(0, k));
    assert(pre + children[k].cells@.subrange(0, j + 1) =~= (pre + children[k].cells@.subrange(
        0,
        j,
    )).push(children[k].cells@[j]));
    assert(scanned(children, k, j + 1) =~= scanned(children, k, j).push(
        children[k].cells@[j].color,
    ));
    lemma_all_cells_prefix(children, k);
}

proof fn lemma_scan_next(children: Seq<CellDrawer>, k: int)
    requires
        0 <= k < children.len(),
    ensures
        k + 1 < children.len() ==> scanned(children, k + 1, 0) == scanned(
            children,
            k,
            children[k].cells@.len() as int,
        ),
        colors(all_cells(children.subrange(0, k + 1))) == scanned(
            children,
            k,
            children[k].cells@.len() as int,
        ),
{
    assert(children.subrange(0, k + 1).drop_last() =~= children.subrange(0, k));
    assert(children[k].cells@.subrange(0, children[k].cells@.len() as int) =~= children[k].cells@);
    if k + 1 < children.len() {
        assert(children[k + 1].cells@.subrange(0, 0) =~= Seq::<Cell>::empty());
        assert(all_cells(children.subrange(0, k + 1)) + Seq::<Cell>::empty() =~= all_cells(
            children.subrange(0, k + 1),
        ));
    }
}

impl GroupDrawer {
    pub open spec fn cell_colors(self) -> Seq<Rgba> {
        colors(all_cells(self.children@))
    }

    /// The channel with the largest total over every layer's cells.
    pub fn get_primary_color(&self) -> (r: PrimaryColor)
        requires
            all_cells(self.children@).len() <= usize::MAX,
        ensures
            r == primary_of(self.cell_colors()),
    {
        let (sum_r, sum_g, sum_b, _, _, _, _) = self.totals();
        if sum_r >= sum_g && sum_r >= sum_b {
            return PrimaryColor::Red;
        }
        if sum_g >= sum_b {
            return PrimaryColor::Green;
        }
        PrimaryColor::Blue
    }

    /// The octant of the average colour of every layer's cells, black and white ones
    /// left out; with no such cell, every channel counts as low.
    pub fn get_faction(&self) -> (r: Faction)
        requires
            all_cells(self.children@).len() <= usize::MAX,
        ensures
            r == faction_of(self.cell_colors()),
    {
        let (_, _, _, cr, cg, cb, count) = self.totals();
        let high_r = 2 * cr > 255 * count;
        let high_g = 2 * cg > 255 * count;
        let high_b = 2 * cb > 255 * count;
        if !high_b {
            if !high_g {
                if !high_r {
                    Faction::ChaosWarriors
                } else {
                    Faction::WaterBoys
                }
            } else if !high_r {
                Faction::ForestBoys
            } else {
                Faction::TechBoys
            }
        } else if !high_g {
            if !high_r {
                Faction::HellSpawn
            } else {
                Faction::SpaceAliens
            }
        } else if !high_r {
            Faction::GoldenBoys
        } else {
            Faction::JusticeSoldiers
        }
    }

    /// Channel totals over all cells, then the same over the counted cells and their number.
    fn totals(&self) -> (t: (u128, u128, u128, u128, u128, u128, u128))
        requires
            all_cells(self.children@).len() <= usize::MAX,
        ensures
            t.0 == channel_total(self.cell_colors(), 0),
            t.1 == channel_total(self.cell_colors(), 1),
            t.2 == channel_total(self.cell_colors(), 2),
            t.3 == counted_total(self.cell_colors(), 0),
            t.4 == counted_total(self.cell_colors(), 1),
            t.5 == counted_total(self.cell_colors(), 2),
            t.6 == counted_len(self.cell_colors()),
            t.3 <= 255 * usize::MAX,
            t.4 <= 255 * usize::MAX,
            t.5 <= 255 * usize::MAX,
            t.6 <= usize::MAX,
    {
        let ghost ch = self.children@;
        let mut t: (u128, u128, u128, u128, u128, u128, u128) = (0, 0, 0, 0, 0, 0, 0);
        let mut k: usize = 0;
        assert(colors(all_cells(ch.subrange(0, 0))) =~= Seq::<Rgba>::empty());
        while k < self.children.len()
            invariant
                k <= ch.len(),
                ch == self.children@,
                all_cells(ch).len() <= usize::MAX,
                ({
                    let cs = colors(all_cells(ch.subrange(0, k as int)));
                    &&& t.0 == channel_total(cs, 0)
                    &&& t.1 == channel_total(cs, 1)
                    &&& t.2 == channel_total(cs, 2)
                    &&& t.3 == counted_total(cs, 0)
                    &&& t.4 == counted_total(cs, 1)
                    &&& t.5 == counted_total(cs, 2)
                    &&& t.6 == counted_len(cs)
                }),
            decreases ch.len() - k,
        {
            let cells = &self.children[k].cells;
            let mut j: usize = 0;
            proof {
                if k > 0 {
                    lemma_scan_next(ch, k - 1);
                }
                assert(ch[k as int].cells@.subrange(0, 0) =~= Seq::<Cell>::empty());
                assert(all_cells(ch.subrange(0, k as int)) + Seq::<Cell>::empty() =~= all_cells(
                    ch.subrange(0, k as int),
                ));
            }
            while j < cells.len()
                invariant
                    k < ch.len(),
                    ch == self.children@,
                    cells@ == ch[k as int].cells@,
                    j <= cells@.len(),
                    all_cells(ch).len() <= usize::MAX,
                    ({
                        let cs = scanned(ch, k as int, j as int);
                        &&& t.0 == channel_total(cs, 0)
                        &&& t.1 == channel_total(cs, 1)
                        &&& t.2 == channel_total(cs, 2)
                        &&& t.3 == counted_total(cs, 0)
                        &&& t.4 == counted_total(cs, 1)
                        &&& t.5 == counted_total(cs, 2)
                        &&& t.6 == counted_len(cs)
                    }),
                decreases cells@.len() - j,
            {
                let c = cells[j].color;
                proof {
                    lemma_scan_step(ch, k as int, j as int);
                    lemma_totals_push(scanned(ch, k as int, j as int), c);
                    lemma_totals_bounded(scanned(ch, k as int, j + 1), 0);
                    lemma_totals_bounded(scanned(ch, k as int, j + 1), 1);
                    lemma_totals_bounded(scanned(ch, k as int, j + 1), 2);
                }
                t.0 = t.0 + c.r as u128;
                t.1 = t.1 + c.g as u128;
                t.2 = t.2 + c.b as u128;
                let skip = (c.r == 0 && c.g == 0 && c.b == 0) || (c.r == 255 && c.g == 255 && c.b
                    == 255);
                if !skip {
                    t.3 = t.3 + c.r as u128;
                    t.4 = t.4 + c.g as u128;
                    t.5 = t.5 + c.b as u128;
                    t.6 = t.6 + 1;
                }
                j += 1;
            }
            proof {
                lemma_scan_next(ch, k as int);
            }
            k += 1;
        }
        proof {
            assert(ch.subrange(0, ch.len() as int) =~= ch);
            lemma_totals_bounded(self.cell_colors(), 0);
            lemma_totals_bounded(self.cell_colors(), 1);
            lemma_totals_bounded(self.cell_colors(), 2);
        }
        t
    }
}

/// The faction depends on the cells' colours alone: two drawers whose layers hold
/// the same colours in the same order get the same faction.
pub proof fn lemma_faction_by_colors(a: GroupDrawer, b: GroupDrawer)
    requires
        a.cell_colors() == b.cell_colors(),
    ensures
        faction_of(a.cell_colors()) == faction_of(b.cell_colors()),
{
}

/// The faction depends only on the average colour: equal averages of the counted
/// cells give equal factions.
pub proof fn lemma_faction_by_average(a: Seq<Rgba>, b: Seq<Rgba>)
    requires
        counted_len(a) > 0,
        counted_len(b) > 0,
        forall|ch: int|
            0 <= ch < 3 ==> #[trigger] counted_total(a, ch) * counted_len(b) == counted_total(b, ch)
                * counted_len(a),
    ensures
        faction_of(a) == faction_of(b),
{
    assert forall|ch: int| 0 <= ch < 3 implies #[trigger] is_high(counted_total(a, ch), counted_len(a))
        == is_high(counted_total(b, ch), counted_len(b)) by {
        let (sa, na, sb, nb) = (counted_total(a, ch), counted_len(a), counted_total(b, ch), counted_len(b));
        assert((2 * sa > 255 * na) == (2 * sb > 255 * nb)) by (nonlinear_arith)
            requires
                sa * nb == sb * na,
                na > 0,
                nb > 0,
        ;
    }
    assert(is_high(counted_total(a, 0), counted_len(a)) == is_high(counted_total(b, 0), counted_len(b)));
    assert(is_high(counted_total(a, 1), counted_len(a)) == is_high(counted_total(b, 1), counted_len(b)));
    assert(is_high(counted_total(a, 2), counted_len(a)) == is_high(counted_total(b, 2), counted_len(b)));
}


/// Filled groups of a map whose outer ring is empty have all their cells on the map.
pub proof fn lemma_groups_on_board(g: Seq<Seq<bool>>, sh: Shading, gs: Seq<Group>, width: nat, height: nat)
    requires
        is_grid(g, width, height),
        width < i32::MAX,
        height < i32::MAX,
        forall|x: int, y: int|
            0 <= x < width && 0 <= y < height && on_border(g, x, y) ==> !#[trigger] g[x][y],
        exists|seeds: Seq<(i32, i32)>| scan_built(g, sh, gs, seeds),
    ensures
        forall|i: int, j: int|
            0 <= i < gs.len() && 0 <= j < gs[i].arr@.len() ==> 0 <= (#[trigger] gs[i].arr@[j]).position.0
                < width && 0 <= gs[i].arr@[j].position.1 < height,
{
    let seeds = choose|seeds: Seq<(i32, i32)>| scan_built(g, sh, gs, seeds);
    assert forall|i: int, j: int| 0 <= i < gs.len() && 0 <= j < gs[i].arr@.len() implies 0 <= (
    #[trigger] gs[i].arr@[j]).position.0 < width && 0 <= gs[i].arr@[j].position.1 < height by {
        assert(built_with_seed(g, sh, gs[i], seeds[i]));
        let vs = choose|vs: Seq<(i32, i32)>| vs.len() >= 1 && vs[0] == seeds[i] && built_from(g, sh, gs[i], vs);
        assert forall|k: int| 0 <= k < vs.len() implies filled(g, (#[trigger] vs[k]).0 as int, vs[k].1 as int)
            && !on_edge(g, vs[k].0 as int, vs[k].1 as int) by {
            let (x, y) = (vs[k].0 as int, vs[k].1 as int);
            assert(filled(g, x, y));
            if on_edge(g, x, y) {
                assert(on_border(g, x, y));
            }
        }
        lemma_blocks_on_board(g, sh, vs, width, height);
    }
}

/// A fresh sprite: a random mirrored map, smoothed, then segmented and coloured with
/// the given palettes and noise. The seed is not read: the map's draws are fresh.
#[verifier::rlimit(100)]
#[verifier::spinoff_prover]
pub fn get_sprite(
    seed: u32,
    height: usize,
    width: usize,
    colorscheme: &Vec<Rgba>,
    eye_colorscheme: &Vec<Rgba>,
    noise1: &NoiseField,
    noise2: &NoiseField,
) -> (r: GroupDrawer)
    requires
        width < i32::MAX,
        height < i32::MAX,
        noise1.wf_for(width as nat, height as nat),
        noise2.wf_for(width as nat, height as nat),
        colorscheme@.len() == N_COLORS,
        eye_colorscheme@.len() == N_COLORS,
    ensures
        r.children@.len() == 0,
        forall|i: int, j: int|
            0 <= i < r.groups@.len() && 0 <= j < r.groups@[i].arr@.len() ==> 0
                <= (#[trigger] r.groups@[i].arr@[j]).position.0 < width && 0
                <= r.groups@[i].arr@[j].position.1 < height,
        exists|g: Seq<Seq<bool>>|
            {
                &&& is_grid(g, width as nat, height as nat)
                &&& exists|g0: Seq<Seq<bool>>|
                    is_grid(g0, width as nat, height as nat) && is_mirrored(g0) && g == steps_spec(
                        g0,
                        N_STEPS as nat,
                    )
                &&& forall|x: int, y: int|
                    0 <= x < width && 0 <= y < height && on_border(g, x, y) ==> !#[trigger] g[x][y]
                &&& groups_ok(g, r.groups@, false)
                &&& groups_ok(negated(g), r.negative_groups@, true)
                &&& components(g, r.groups@)
                &&& components(negated(g), r.negative_groups@)
                &&& exists|seeds: Seq<(i32, i32)>|
                    scan_built(g, (Shading {
                        neg: false,
                        pal: colorscheme@,
                        eye: eye_colorscheme@,
                        f1: *noise1,
                        f2: *noise2,
                    }), r.groups@, seeds)
                &&& exists|seeds: Seq<(i32, i32)>|
                    scan_built(negated(g), (Shading {
                        neg: true,
                        pal: colorscheme@,
                        eye: eye_colorscheme@,
                        f1: *noise1,
                        f2: *noise2,
                    }), r.negative_groups@, seeds)
            },
{
    let mut map = make_rand_map(height, width);
    let ghost g0 = grid_of(map@);
    assert(fits_i32(g0)) by {
        assert forall|x: int| 0 <= x < g0.len() implies (#[trigger] g0[x]).len() < i32::MAX by {}
    }
    cellular_automata_do_steps(&mut map);
    let ghost g = grid_of(map@);
    proof {
        lemma_steps_keep_grid(g0, N_STEPS as nat, width as nat, height as nat);
        if width > 0 {
            assert(g[0].len() == height);
        }
    }
    let (groups, negative_groups) = fill_colors(&map, colorscheme, eye_colorscheme, noise1, noise2);
    let r = GroupDrawer::new(groups, negative_groups);
    proof {
        lemma_groups_on_board(g, (Shading {
            neg: false,
            pal: colorscheme@,
            eye: eye_colorscheme@,
            f1: *noise1,
            f2: *noise2,
        }), r.groups@, width as nat, height as nat);
    }
    assert(is_grid(g0, width as nat, height as nat) && is_mirrored(g0) && g == steps_spec(g0, N_STEPS as nat));
    assert forall|x: int, y: int|
        0 <= x < width && 0 <= y < height && on_border(g, x, y) implies !#[trigger] g[x][y] by {
        assert(g[x] == map@[x]@);
    }
    r
}

} // verus!
