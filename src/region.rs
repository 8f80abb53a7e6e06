use crate::maze::{flags_rect, lemma_marked_bounded, marked};
use crate::num::{floor_sqrt, isqrt};
use crate::occupancy::{at_pos, fits_i32, get_at_pos, grid_of, is_grid};
use crate::sprite::{black, Cell, Group, Rgba};
use vstd::arithmetic::mul::lemma_mul_upper_bound;
use vstd::prelude::*;

verus! {

/// Stops in a palette.
pub const N_COLORS: usize = 12;

/// Noise samples and shades are in millionths: this stands for 1.0.
pub const NOISE_ONE: i64 = 1_000_000;

/// Summed channel difference (on the 0..=255 scale) above which a cell is boosted.
pub const CONTRAST_LIMIT: i64 = 510;

/// Perlin noise sampled on the integer lattice that shading reads:
/// `samples[c + 1][y + 1]` is the value at column distance `c` and row `y`,
/// for `c` in `-1..=width / 2 + 1` and `y` in `-1..=height`.
#[derive(Clone, Debug)]
pub struct NoiseField {
    pub samples: Vec<Vec<i32>>,
}

impl NoiseField {
    pub open spec fn at(self, c: int, y: int) -> int {
        self.samples@[c + 1]@[y + 1] as int
    }

    /// Covers at least the lattice of a `width` by `height` map, every value in `[-1, 1]`.
    pub open spec fn wf_for(self, width: nat, height: nat) -> bool {
        &&& self.samples@.len() >= width / 2 + 3
        &&& forall|c: int|
            0 <= c < self.samples@.len() ==> (#[trigger] self.samples@[c])@.len() >= height + 2
        &&& forall|c: int, y: int|
            0 <= c < self.samples@.len() && 0 <= y < self.samples@[c]@.len() ==> -NOISE_ONE <= (
            #[trigger] self.samples@[c]@[y]) <= NOISE_ONE
    }

    fn get(&self, c: i64, y: i64, Ghost(width): Ghost<nat>, Ghost(height): Ghost<nat>) -> (r: i64)
        requires
            self.wf_for(width, height),
            width < i32::MAX,
            height < i32::MAX,
            -1 <= c <= width / 2 + 1,
            -1 <= y <= height,
        ensures
            r == self.at(c as int, y as int),
            -NOISE_ONE <= r <= NOISE_ONE,
    {
        let cu = (c + 1) as usize;
        let yu = (y + 1) as usize;
        self.samples[cu][yu] as i64
    }
}

pub open spec fn iabs(v: int) -> int {
    if v < 0 { -v } else { v }
}

/// `ceil(|x - (width - 1) / 2|)`: distance from the vertical centre line.
pub open spec fn col_distance(width: int, x: int) -> int {
    (iabs(2 * x - (width - 1)) + 1) / 2
}

/// `3 * |v| ^ 1.5`, in millionths.
pub open spec fn base_shade(v: int) -> int {
    3 * iabs(v) * (floor_sqrt((iabs(v) * NOISE_ONE) as nat) as int) / (NOISE_ONE as int)
}

/// `n * p / q`, rounded toward zero.
pub open spec fn scaled(n: int, p: int, q: int) -> int {
    if n >= 0 {
        n * p / q
    } else {
        -((-n) * p / q)
    }
}

/// A side without a filled neighbour: off the map or empty.
pub open spec fn missing(o: Option<bool>) -> bool {
    o != Some(true)
}

/// Sides are numbered 0 down, 1 right, 2 up, 3 left.
pub open spec fn body_offset(k: int) -> int {
    if k == 0 {
        -450_000
    } else if k == 2 {
        450_000
    } else {
        200_000
    }
}

pub open spec fn hole_offset(k: int) -> int {
    if k == 0 {
        -100_000
    } else if k == 2 {
        150_000
    } else {
        100_000
    }
}

/// The factor, in tenths, applied to the first shade at an open side.
pub open spec fn edge_factor(k: int) -> int {
    if k == 0 {
        8
    } else if k == 2 {
        12
    } else {
        11
    }
}

pub open spec fn shade_edge(n: (int, int), neg: bool, k: int) -> (int, int) {
    if neg {
        (scaled(n.0, edge_factor(k), 10), n.1 + hole_offset(k))
    } else {
        (scaled(n.0 + body_offset(k), edge_factor(k), 10), n.1)
    }
}

pub open spec fn shade_edges(
    n: (int, int),
    neg: bool,
    down: Option<bool>,
    right: Option<bool>,
    up: Option<bool>,
    left: Option<bool>,
) -> (int, int) {
    let a = if missing(down) { shade_edge(n, neg, 0) } else { n };
    let b = if missing(right) { shade_edge(a, neg, 1) } else { a };
    let c = if missing(up) { shade_edge(b, neg, 2) } else { b };
    if missing(left) { shade_edge(c, neg, 3) } else { c }
}

/// The palette stop that an unclamped sample selects: the last one only at 1.0.
pub open spec fn raw_index(v: int) -> int {
    if v >= NOISE_ONE { (N_COLORS - 1) as int } else { 0 }
}

pub open spec fn channel_diff(a: Rgba, b: Rgba) -> int {
    iabs(a.r - b.r) + iabs(a.g - b.g) + iabs(a.b - b.b)
}

/// Summed colour difference between the stop at `(c, y)` and its four lattice neighbours.
pub open spec fn contrast(pal: Seq<Rgba>, f: NoiseField, c: int, y: int) -> int {
    let c0 = pal[raw_index(f.at(c, y))];
    channel_diff(c0, pal[raw_index(f.at(c, y - 1))]) + channel_diff(
        c0,
        pal[raw_index(f.at(c, y + 1))],
    ) + channel_diff(c0, pal[raw_index(f.at(c - 1, y))]) + channel_diff(
        c0,
        pal[raw_index(f.at(c + 1, y))],
    )
}

pub open spec fn boost(n: int) -> int {
    scaled(n + 300_000, 15, 10)
}

/// A shade clamped to `[0, 1]` and scaled to a stop: `floor(clamp(n) * (N_COLORS - 1))`.
pub open spec fn palette_index(n: int) -> int {
    if n <= 0 {
        0
    } else if n >= NOISE_ONE {
        (N_COLORS - 1) as int
    } else {
        n * ((N_COLORS - 1) as int) / (NOISE_ONE as int)
    }
}

/// The colour of the cell at `pos` of a `width`-column map.
pub open spec fn shade(
    width: int,
    pos: (i32, i32),
    neg: bool,
    right: Option<bool>,
    left: Option<bool>,
    down: Option<bool>,
    up: Option<bool>,
    pal: Seq<Rgba>,
    eye_pal: Seq<Rgba>,
    f1: NoiseField,
    f2: NoiseField,
) -> Rgba {
    let c = col_distance(width, pos.0 as int);
    let n0 = (base_shade(f1.at(c, pos.1 as int)), base_shade(f2.at(c, pos.1 as int)));
    let n = shade_edges(n0, neg, down, right, up, left);
    let m = if contrast(pal, f1, c, pos.1 as int) > CONTRAST_LIMIT {
        (boost(n.0), boost(n.1))
    } else {
        n
    };
    if neg {
        eye_pal[palette_index(m.1)]
    } else {
        pal[palette_index(m.0)]
    }
}

pub open spec fn outline_cell(x: int, y: int) -> Cell {
    Cell { position: (x as i32, y as i32), color: black() }
}

/// Black outline cells on the open sides, in the order down, right, up, left.
pub open spec fn outline(
    pos: (i32, i32),
    right: Option<bool>,
    left: Option<bool>,
    down: Option<bool>,
    up: Option<bool>,
) -> Seq<Cell> {
    let (x, y) = (pos.0 as int, pos.1 as int);
    (if missing(down) { seq![outline_cell(x, y + 1)] } else { seq![] }) + (if missing(right) {
        seq![outline_cell(x + 1, y)]
    } else {
        seq![]
    }) + (if missing(up) { seq![outline_cell(x, y - 1)] } else { seq![] }) + (if missing(left) {
        seq![outline_cell(x - 1, y)]
    } else {
        seq![]
    })
}


fn column_distance(width: usize, x: i32) -> (r: i64)
    requires
        width < i32::MAX,
        0 <= x < width,
    ensures
        r == col_distance(width as int, x as int),
        0 <= r <= width / 2,
{
    let t: i64 = 2 * (x as i64) - (width as i64 - 1);
    let a: i64 = if t < 0 {
        -t
    } else {
        t
    };
    (a + 1) / 2
}

fn shade_from_noise(v: i64) -> (r: i64)
    requires
        -NOISE_ONE <= v <= NOISE_ONE,
    ensures
        r == base_shade(v as int),
        0 <= r <= 3 * NOISE_ONE,
{
    let a: i64 = if v < 0 {
        -v
    } else {
        v
    };
    let s = isqrt((a as u128) * 1_000_000);
    assert(s <= 1_000_000) by (nonlinear_arith)
        requires
            s * s <= 1_000_000_000_000,
    ;
    let s = s as i64;
    proof {
        lemma_mul_upper_bound(3 * a as int, 3_000_000, s as int, 1_000_000);
    }
    3 * a * s / NOISE_ONE
}

fn scale_tenths(n: i64, f: i64) -> (r: i64)
    requires
        -1_000_000_000_000_000 <= n <= 1_000_000_000_000_000,
        1 <= f <= 15,
    ensures
        r == scaled(n as int, f as int, 10),
        iabs(r as int) <= 2 * iabs(n as int),
{
    if n >= 0 {
        assert(n * f <= n * 15) by (nonlinear_arith)
            requires
                n >= 0,
                f <= 15,
        ;
        assert(n * f >= 0) by (nonlinear_arith)
            requires
                n >= 0,
                f >= 1,
        ;
        n * f / 10
    } else {
        let m = -n;
        assert(m * f <= m * 15) by (nonlinear_arith)
            requires
                m >= 0,
                f <= 15,
        ;
        assert(m * f >= 0) by (nonlinear_arith)
            requires
                m >= 0,
                f >= 1,
        ;
        -(m * f / 10)
    }
}

fn palette_idx(n: i64) -> (r: usize)
    ensures
        r == palette_index(n as int),
        r < N_COLORS,
{
    if n <= 0 {
        0
    } else if n >= NOISE_ONE {
        N_COLORS - 1
    } else {
        (n * 11 / NOISE_ONE) as usize
    }
}

fn raw_idx(v: i64) -> (r: usize)
    ensures
        r == raw_index(v as int),
        r < N_COLORS,
{
    if v >= NOISE_ONE {
        N_COLORS - 1
    } else {
        0
    }
}

fn channel_gap(a: Rgba, b: Rgba) -> (r: i64)
    ensures
        r == channel_diff(a, b),
        0 <= r <= 765,
{
    let dr: i64 = if a.r >= b.r {
        (a.r - b.r) as i64
    } else {
        (b.r - a.r) as i64
    };
    let dg: i64 = if a.g >= b.g {
        (a.g - b.g) as i64
    } else {
        (b.g - a.g) as i64
    };
    let db: i64 = if a.b >= b.b {
        (a.b - b.b) as i64
    } else {
        (b.b - a.b) as i64
    };
    dr + dg + db
}

fn is_missing(o: Option<bool>) -> (r: bool)
    ensures
        r == missing(o),
{
    match o {
        Some(true) => false,
        _ => true,
    }
}

/// One open side applied to the pair of shades.
fn shade_side(n1: i64, n2: i64, neg: bool, k: u8) -> (r: (i64, i64))
    requires
        -100_000_000 <= n1 <= 100_000_000,
        -100_000_000 <= n2 <= 100_000_000,
        k < 4,
    ensures
        (r.0 as int, r.1 as int) == shade_edge((n1 as int, n2 as int), neg, k as int),
        -2 * iabs(n1 as int) - 1_000_000 <= r.0 <= 2 * iabs(n1 as int) + 1_000_000,
        -(iabs(n2 as int) + 200_000) <= r.1 <= iabs(n2 as int) + 200_000,
{
    let factor: i64 = if k == 0 {
        8
    } else if k == 2 {
        12
    } else {
        11
    };
    if neg {
        let off: i64 = if k == 0 {
            -100_000
        } else if k == 2 {
            150_000
        } else {
            100_000
        };
        (scale_tenths(n1, factor), n2 + off)
    } else {
        let off: i64 = if k == 0 {
            -450_000
        } else if k == 2 {
            450_000
        } else {
            200_000
        };
        (scale_tenths(n1 + off, factor), n2)
    }
}

/// The shades after every open side has been applied, in the order down, right, up, left.
fn shade_sides(
    n1: i64,
    n2: i64,
    neg: bool,
    down: Option<bool>,
    right: Option<bool>,
    up: Option<bool>,
    left: Option<bool>,
) -> (r: (i64, i64))
    requires
        0 <= n1 <= 3 * NOISE_ONE,
        0 <= n2 <= 3 * NOISE_ONE,
    ensures
        (r.0 as int, r.1 as int) == shade_edges(
            (n1 as int, n2 as int),
            neg,
            down,
            right,
            up,
            left,
        ),
        -100_000_000 <= r.0 <= 100_000_000,
        -100_000_000 <= r.1 <= 100_000_000,
{
    let mut n = (n1, n2);
    if is_missing(down) {
        n = shade_side(n.0, n.1, neg, 0);
    }
    if is_missing(right) {
        n = shade_side(n.0, n.1, neg, 1);
    }
    if is_missing(up) {
        n = shade_side(n.0, n.1, neg, 2);
    }
    if is_missing(left) {
        n = shade_side(n.0, n.1, neg, 3);
    }
    n
}

/// Pushes a black outline cell onto `group` at each open side of `pos`.
fn push_outline(
    group: &mut Group,
    pos: (i32, i32),
    right: Option<bool>,
    left: Option<bool>,
    down: Option<bool>,
    up: Option<bool>,
)
    requires
        -1 < pos.0 < i32::MAX,
        -1 < pos.1 < i32::MAX,
    ensures
        final(group).arr@ == old(group).arr@ + outline(pos, right, left, down, up),
        final(group).valid == old(group).valid,
{
    let ghost arr0 = group.arr@;
    let ghost x = pos.0 as int;
    let ghost y = pos.1 as int;
    let ghost o1 = if missing(down) { seq![outline_cell(x, y + 1)] } else { seq![] };
    let ghost o2 = if missing(right) { seq![outline_cell(x + 1, y)] } else { seq![] };
    let ghost o3 = if missing(up) { seq![outline_cell(x, y - 1)] } else { seq![] };
    let ghost o4 = if missing(left) { seq![outline_cell(x - 1, y)] } else { seq![] };
    let black_cell = Rgba { r: 0, g: 0, b: 0, a: 255 };
    if is_missing(down) {
        group.arr.push(Cell { position: (pos.0, pos.1 + 1), color: black_cell });
    }
    assert(group.arr@ =~= arr0 + o1);
    if is_missing(right) {
        group.arr.push(Cell { position: (pos.0 + 1, pos.1), color: black_cell });
    }
    assert(group.arr@ =~= arr0 + o1 + o2);
    if is_missing(up) {
        group.arr.push(Cell { position: (pos.0, pos.1 - 1), color: black_cell });
    }
    assert(group.arr@ =~= arr0 + o1 + o2 + o3);
    if is_missing(left) {
        group.arr.push(Cell { position: (pos.0 - 1, pos.1), color: black_cell });
    }
    assert(group.arr@ =~= arr0 + o1 + o2 + o3 + o4);
    assert(o1 + o2 + o3 + o4 =~= outline(pos, right, left, down, up));
    assert(group.arr@ =~= arr0 + outline(pos, right, left, down, up));
}

/// The summed difference between the stop under `(c, y)` and those of its lattice neighbours.
fn contrast_at(
    colorscheme: &Vec<Rgba>,
    noise1: &NoiseField,
    c: i64,
    y: i64,
    Ghost(width): Ghost<nat>,
    Ghost(height): Ghost<nat>,
) -> (r: i64)
    requires
        noise1.wf_for(width, height),
        width < i32::MAX,
        height < i32::MAX,
        0 <= c <= width / 2,
        0 <= y < height,
        colorscheme@.len() == N_COLORS,
    ensures
        r == contrast(colorscheme@, *noise1, c as int, y as int),
{
    let k0 = raw_idx(noise1.get(c, y, Ghost(width), Ghost(height)));
    let k1 = raw_idx(noise1.get(c, y - 1, Ghost(width), Ghost(height)));
    let k2 = raw_idx(noise1.get(c, y + 1, Ghost(width), Ghost(height)));
    let k3 = raw_idx(noise1.get(c - 1, y, Ghost(width), Ghost(height)));
    let k4 = raw_idx(noise1.get(c + 1, y, Ghost(width), Ghost(height)));
    let c0 = colorscheme[k0];
    channel_gap(c0, colorscheme[k1]) + channel_gap(c0, colorscheme[k2]) + channel_gap(
        c0,
        colorscheme[k3],
    ) + channel_gap(c0, colorscheme[k4])
}

/// Picks the colour of the cell at `pos` and pushes a black outline cell onto
/// `group` at each open side.
fn choose_color(
    map: &Vec<Vec<bool>>,
    pos: (i32, i32),
    is_negative_group: bool,
    right: Option<bool>,
    left: Option<bool>,
    down: Option<bool>,
    up: Option<bool>,
    colorscheme: &Vec<Rgba>,
    eye_colorscheme: &Vec<Rgba>,
    group: &mut Group,
    noise1: &NoiseField,
    noise2: &NoiseField,
    Ghost(height): Ghost<nat>,
) -> (col: Rgba)
    requires
        map@.len() < i32::MAX,
        height < i32::MAX,
        0 <= pos.0 < map@.len(),
        0 <= pos.1 < height,
        noise1.wf_for(map@.len(), height),
        noise2.wf_for(map@.len(), height),
        colorscheme@.len() == N_COLORS,
        eye_colorscheme@.len() == N_COLORS,
    ensures
        col == shade(
            map@.len() as int,
            pos,
            is_negative_group,
            right,
            left,
            down,
            up,
            colorscheme@,
            eye_colorscheme@,
            *noise1,
            *noise2,
        ),
        final(group).arr@ == old(group).arr@ + outline(pos, right, left, down, up),
        final(group).valid == old(group).valid,
{
    let w = map.len();
    let c = column_distance(w, pos.0);
    let y = pos.1 as i64;
    let ghost wn = w as nat;
    let b1 = shade_from_noise(noise1.get(c, y, Ghost(wn), Ghost(height)));
    let b2 = shade_from_noise(noise2.get(c, y, Ghost(wn), Ghost(height)));
    let n = shade_sides(b1, b2, is_negative_group, down, right, up, left);
    push_outline(group, pos, right, left, down, up);
    let mut n1 = n.0;
    let mut n2 = n.1;
    if contrast_at(colorscheme, noise1, c, y, Ghost(wn), Ghost(height)) > CONTRAST_LIMIT {
        n1 = scale_tenths(n1 + 300_000, 15);
        n2 = scale_tenths(n2 + 300_000, 15);
    }
    let i1 = palette_idx(n1);
    let i2 = palette_idx(n2);
    let mut col = colorscheme[i1];
    if is_negative_group {
        col = eye_colorscheme[i2];
    }
    col
}


/// A cell of a group over `g`: an occupied cell of the map, or a black outline cell.
pub open spec fn cell_ok(g: Seq<Seq<bool>>, c: Cell) -> bool {
    (0 <= c.position.0 < g.len() && 0 <= c.position.1 < g[c.position.0 as int].len()
        && g[c.position.0 as int][c.position.1 as int]) || c.color == black()
}

pub open spec fn groups_ok(g: Seq<Seq<bool>>, gs: Seq<Group>, neg: bool) -> bool {
    &&& forall|i: int, j: int|
        0 <= i < gs.len() && 0 <= j < gs[i].arr@.len() ==> cell_ok(g, #[trigger] gs[i].arr@[j])
    &&& forall|i: int| 0 <= i < gs.len() ==> (#[trigger] gs[i]).arr@.len() > 0
    &&& !neg ==> forall|i: int| 0 <= i < gs.len() ==> (#[trigger] gs[i]).valid
}

/// The map with every cell flipped.
pub open spec fn negated(g: Seq<Seq<bool>>) -> Seq<Seq<bool>> {
    Seq::new(g.len(), |x: int| Seq::new(g[x].len(), |y: int| !g[x][y]))
}

/// Marks `(x, y)` in a grid of flags.
fn mark(checked: &mut Vec<Vec<bool>>, x: usize, y: usize)
    requires
        x < old(checked)@.len(),
        y < old(checked)@[x as int]@.len(),
    ensures
        final(checked)@.len() == old(checked)@.len(),
        forall|i: int|
            0 <= i < final(checked)@.len() ==> (#[trigger] final(checked)@[i])@.len() == old(
                checked,
            )@[i]@.len(),
        marked(final(checked)@) == marked(old(checked)@).insert((y, x)),
        forall|i: int, j: int|
            0 <= i < old(checked)@.len() && 0 <= j < old(checked)@[i]@.len() ==> final(checked)@[i]@[j] == if i == x
                && j == y {
                true
            } else {
                old(checked)@[i]@[j]
            },
{
    checked[x][y] = true;
    assert(marked(checked@) =~= marked(old(checked)@).insert((y, x)));
}

/// An occupied cell of the map.
pub open spec fn filled(g: Seq<Seq<bool>>, x: int, y: int) -> bool {
    0 <= x < g.len() && 0 <= y < g[x].len() && g[x][y]
}

/// Some cell of `arr` sits at `(x, y)`.
pub open spec fn has_at(arr: Seq<Cell>, x: int, y: int) -> bool {
    exists|j: int|
        0 <= j < arr.len() && (#[trigger] arr[j]).position.0 as int == x && arr[j].position.1 as int
            == y
}

/// Some group has a cell at `(x, y)`.
pub open spec fn in_groups(gs: Seq<Group>, x: int, y: int) -> bool {
    exists|i: int| 0 <= i < gs.len() && has_at(#[trigger] gs[i].arr@, x, y)
}

/// No occupied cell of the map is in two groups.
pub open spec fn disjoint(g: Seq<Seq<bool>>, gs: Seq<Group>) -> bool {
    forall|i1: int, i2: int, x: int, y: int|
        #![trigger has_at(gs[i1].arr@, x, y), has_at(gs[i2].arr@, x, y)]
        0 <= i1 < gs.len() && 0 <= i2 < gs.len() && i1 != i2 && filled(g, x, y) && has_at(
            gs[i1].arr@,
            x,
            y,
        ) ==> !has_at(gs[i2].arr@, x, y)
}

pub open spec fn queued(b: Seq<(i32, i32)>, x: int, y: int) -> bool {
    exists|k: int| 0 <= k < b.len() && (#[trigger] b[k]).0 as int == x && b[k].1 as int == y
}

/// During the scan, an occupied cell is marked exactly when it is in a finished
/// group, in the group being built, or queued; and a cell of the group being built
/// or of the queue is in no finished group.
pub open spec fn accounted(
    g: Seq<Seq<bool>>,
    c: Seq<Vec<bool>>,
    done: Seq<Group>,
    arr: Seq<Cell>,
    b: Seq<(i32, i32)>,
) -> bool {
    forall|x: int, y: int|
        #[trigger] filled(g, x, y) ==> (c[x]@[y] <==> (in_groups(done, x, y) || has_at(arr, x, y)
            || queued(b, x, y))) && (queued(b, x, y) ==> !in_groups(done, x, y)) && (has_at(
            arr,
            x,
            y,
        ) ==> !in_groups(done, x, y))
}

proof fn lemma_accounted_push(
    g: Seq<Seq<bool>>,
    c: Seq<Vec<bool>>,
    c2: Seq<Vec<bool>>,
    done: Seq<Group>,
    arr: Seq<Cell>,
    b: Seq<(i32, i32)>,
    q: (i32, i32),
)
    requires
        accounted(g, c, done, arr, b),
        filled(g, q.0 as int, q.1 as int),
        !c[q.0 as int]@[q.1 as int],
        forall|x: int, y: int|
            #[trigger] filled(g, x, y) ==> c2[x]@[y] == if x == q.0 && y == q.1 {
                true
            } else {
                c[x]@[y]
            },
    ensures
        accounted(g, c2, done, arr, b.push(q)),
{
    let b2 = b.push(q);
    assert(filled(g, q.0 as int, q.1 as int));
    assert forall|x: int, y: int| #[trigger] filled(g, x, y) implies (c2[x]@[y] <==> (in_groups(
        done,
        x,
        y,
    ) || has_at(arr, x, y) || queued(b2, x, y))) && (queued(b2, x, y) ==> !in_groups(done, x, y))
        && (has_at(arr, x, y) ==> !in_groups(done, x, y)) by {
        if queued(b, x, y) {
            let k = choose|k: int| 0 <= k < b.len() && (#[trigger] b[k]).0 as int == x && b[k].1 as int == y;
            assert(b2[k] == b[k]);
        }
        if x == q.0 && y == q.1 {
            assert(b2[b.len() as int] == q);
        }
        if queued(b2, x, y) && !(x == q.0 && y == q.1) {
            let k = choose|k: int| 0 <= k < b2.len() && (#[trigger] b2[k]).0 as int == x && b2[k].1 as int == y;
            assert(k < b.len());
            assert(b[k] == b2[k]);
        }
    }
}

proof fn lemma_accounted_pop(
    g: Seq<Seq<bool>>,
    c: Seq<Vec<bool>>,
    done: Seq<Group>,
    arr: Seq<Cell>,
    b: Seq<(i32, i32)>,
    extra: Seq<Cell>,
)
    requires
        accounted(g, c, done, arr, b),
        b.len() > 0,
        forall|j: int|
            0 <= j < extra.len() ==> #[trigger] extra[j].position == b.last() || !filled(
                g,
                extra[j].position.0 as int,
                extra[j].position.1 as int,
            ),
        extra.len() > 0,
        extra.last().position == b.last(),
    ensures
        accounted(g, c, done, arr + extra, b.drop_last()),
{
    let p = b.last();
    let b2 = b.drop_last();
    let a2 = arr + extra;
    assert(queued(b, p.0 as int, p.1 as int)) by {
        assert(b[b.len() - 1] == p);
    }
    assert forall|x: int, y: int| #[trigger] filled(g, x, y) implies (c[x]@[y] <==> (in_groups(
        done,
        x,
        y,
    ) || has_at(a2, x, y) || queued(b2, x, y))) && (queued(b2, x, y) ==> !in_groups(done, x, y))
        && (has_at(a2, x, y) ==> !in_groups(done, x, y)) by {
        if queued(b2, x, y) {
            let k = choose|k: int| 0 <= k < b2.len() && (#[trigger] b2[k]).0 as int == x && b2[k].1 as int == y;
            assert(b[k] == b2[k]);
        }
        if has_at(arr, x, y) {
            let j = choose|j: int| 0 <= j < arr.len() && (#[trigger] arr[j]).position.0 as int == x && arr[j].position.1 as int == y;
            assert(a2[j] == arr[j]);
        }
        if has_at(a2, x, y) && !has_at(arr, x, y) {
            let j = choose|j: int| 0 <= j < a2.len() && (#[trigger] a2[j]).position.0 as int == x && a2[j].position.1 as int == y;
            if j < arr.len() {
                assert(a2[j] == arr[j]);
            } else {
                assert(a2[j] == extra[j - arr.len()]);
            }
        }
        if queued(b, x, y) && !queued(b2, x, y) {
            let k = choose|k: int| 0 <= k < b.len() && (#[trigger] b[k]).0 as int == x && b[k].1 as int == y;
            if k < b.len() - 1 {
                assert(b2[k] == b[k]);
            }
            assert(a2[a2.len() - 1] == extra.last());
        }
    }
}

proof fn lemma_accounted_close(
    g: Seq<Seq<bool>>,
    c: Seq<Vec<bool>>,
    done: Seq<Group>,
    grp: Group,
)
    requires
        accounted(g, c, done, grp.arr@, Seq::empty()),
        disjoint(g, done),
    ensures
        accounted(g, c, done.push(grp), Seq::empty(), Seq::empty()),
        disjoint(g, done.push(grp)),
{
    let d2 = done.push(grp);
    assert forall|x: int, y: int| #[trigger] filled(g, x, y) implies (c[x]@[y] <==> (in_groups(
        d2,
        x,
        y,
    ) || has_at(Seq::<Cell>::empty(), x, y) || queued(Seq::<(i32, i32)>::empty(), x, y))) by {
        if in_groups(done, x, y) {
            let i = choose|i: int| 0 <= i < done.len() && has_at(#[trigger] done[i].arr@, x, y);
            assert(d2[i] == done[i]);
        }
        if has_at(grp.arr@, x, y) {
            assert(d2[done.len() as int] == grp);
        }
        if in_groups(d2, x, y) && !has_at(grp.arr@, x, y) {
            let i = choose|i: int| 0 <= i < d2.len() && has_at(#[trigger] d2[i].arr@, x, y);
            assert(i < done.len());
            assert(d2[i] == done[i]);
        }
    }
    assert forall|i1: int, i2: int, x: int, y: int|
        #![trigger has_at(d2[i1].arr@, x, y), has_at(d2[i2].arr@, x, y)]
        0 <= i1 < d2.len() && 0 <= i2 < d2.len() && i1 != i2 && filled(g, x, y) && has_at(
            d2[i1].arr@,
            x,
            y,
        ) implies !has_at(d2[i2].arr@, x, y) by {
        if i1 < done.len() && i2 < done.len() {
            assert(d2[i1] == done[i1] && d2[i2] == done[i2]);
        } else if i1 < done.len() {
            assert(d2[i1] == done[i1]);
            assert(in_groups(done, x, y));
        } else {
            assert(d2[i2] == done[i2]);
            if has_at(d2[i2].arr@, x, y) {
                assert(in_groups(done, x, y));
            }
        }
    }
}

pub open spec fn next_to(x: int, y: int, x2: int, y2: int) -> bool {
    (x == x2 && (y2 == y + 1 || y == y2 + 1)) || (y == y2 && (x2 == x + 1 || x == x2 + 1))
}

/// Every occupied neighbour of an occupied cell of `arr` is in `arr` or queued.
pub open spec fn frontier(g: Seq<Seq<bool>>, arr: Seq<Cell>, b: Seq<(i32, i32)>) -> bool {
    forall|x: int, y: int, x2: int, y2: int|
        #![trigger has_at(arr, x, y), filled(g, x2, y2)]
        filled(g, x, y) && filled(g, x2, y2) && next_to(x, y, x2, y2) && has_at(arr, x, y)
            ==> has_at(arr, x2, y2) || queued(b, x2, y2)
}

/// Each group holds every occupied neighbour of its occupied cells: no group stops
/// short of the edge of its region.
pub open spec fn closed(g: Seq<Seq<bool>>, gs: Seq<Group>) -> bool {
    forall|i: int, x: int, y: int, x2: int, y2: int|
        #![trigger has_at(gs[i].arr@, x, y), filled(g, x2, y2)]
        0 <= i < gs.len() && filled(g, x, y) && filled(g, x2, y2) && next_to(x, y, x2, y2)
            && has_at(gs[i].arr@, x, y) ==> has_at(gs[i].arr@, x2, y2)
}

proof fn lemma_closed_push(g: Seq<Seq<bool>>, gs: Seq<Group>, grp: Group)
    requires
        closed(g, gs),
        frontier(g, grp.arr@, Seq::empty()),
    ensures
        closed(g, gs.push(grp)),
{
    let g2 = gs.push(grp);
    assert forall|i: int, x: int, y: int, x2: int, y2: int|
        #![trigger has_at(g2[i].arr@, x, y), filled(g, x2, y2)]
        0 <= i < g2.len() && filled(g, x, y) && filled(g, x2, y2) && next_to(x, y, x2, y2)
            && has_at(g2[i].arr@, x, y) implies has_at(g2[i].arr@, x2, y2) by {
        if i < gs.len() {
            assert(g2[i] == gs[i]);
        } else {
            assert(g2[i] == grp);
            assert(!queued(Seq::<(i32, i32)>::empty(), x2, y2));
        }
    }
}

proof fn lemma_frontier_pop(g: Seq<Seq<bool>>, arr0: Seq<Cell>, b0: Seq<(i32, i32)>, extra: Seq<Cell>)
    requires
        frontier(g, arr0, b0),
        b0.len() > 0,
        extra.len() > 0,
        extra.last().position == b0.last(),
    ensures
        forall|x: int, y: int, x2: int, y2: int|
            #![trigger has_at(arr0, x, y), filled(g, x2, y2)]
            filled(g, x, y) && filled(g, x2, y2) && next_to(x, y, x2, y2) && has_at(arr0, x, y)
                ==> has_at(arr0 + extra, x2, y2) || queued(b0.drop_last(), x2, y2),
{
    let a2 = arr0 + extra;
    let b1 = b0.drop_last();
    assert forall|x: int, y: int, x2: int, y2: int|
        #![trigger has_at(arr0, x, y), filled(g, x2, y2)]
        filled(g, x, y) && filled(g, x2, y2) && next_to(x, y, x2, y2) && has_at(arr0, x, y)
            implies has_at(a2, x2, y2) || queued(b1, x2, y2) by {
        if has_at(arr0, x2, y2) {
            let j = choose|j: int| 0 <= j < arr0.len() && (#[trigger] arr0[j]).position.0 as int == x2 && arr0[j].position.1 as int == y2;
            assert(a2[j] == arr0[j]);
        } else {
            assert(queued(b0, x2, y2));
            let k = choose|k: int| 0 <= k < b0.len() && (#[trigger] b0[k]).0 as int == x2 && b0[k].1 as int == y2;
            if k < b0.len() - 1 {
                assert(b1[k] == b0[k]);
            } else {
                assert(a2[a2.len() - 1] == extra.last());
            }
        }
    }
}

/// Puts together the frontier after a cell `p` was taken from the queue, its cells
/// appended, and its four sides queued in turn (right, left, down, up).
proof fn lemma_frontier_assemble(
    g: Seq<Seq<bool>>,
    arr0: Seq<Cell>,
    extra: Seq<Cell>,
    b1: Seq<(i32, i32)>,
    b2: Seq<(i32, i32)>,
    b3: Seq<(i32, i32)>,
    b4: Seq<(i32, i32)>,
    b5: Seq<(i32, i32)>,
    p: (int, int),
)
    requires
        forall|x: int, y: int, x2: int, y2: int|
            #![trigger has_at(arr0, x, y), filled(g, x2, y2)]
            filled(g, x, y) && filled(g, x2, y2) && next_to(x, y, x2, y2) && has_at(arr0, x, y)
                ==> has_at(arr0 + extra, x2, y2) || queued(b1, x2, y2),
        forall|j: int|
            0 <= j < extra.len() ==> (#[trigger] extra[j]).position.0 as int == p.0
                && extra[j].position.1 as int == p.1 || !filled(
                g,
                extra[j].position.0 as int,
                extra[j].position.1 as int,
            ),
        forall|x: int, y: int| #[trigger] queued(b1, x, y) ==> queued(b2, x, y),
        forall|x: int, y: int| #[trigger] queued(b2, x, y) ==> queued(b3, x, y),
        forall|x: int, y: int| #[trigger] queued(b3, x, y) ==> queued(b4, x, y),
        forall|x: int, y: int| #[trigger] queued(b4, x, y) ==> queued(b5, x, y),
        filled(g, p.0 + 1, p.1) ==> has_at(arr0 + extra, p.0 + 1, p.1) || queued(b2, p.0 + 1, p.1),
        filled(g, p.0 - 1, p.1) ==> has_at(arr0 + extra, p.0 - 1, p.1) || queued(b3, p.0 - 1, p.1),
        filled(g, p.0, p.1 + 1) ==> has_at(arr0 + extra, p.0, p.1 + 1) || queued(b4, p.0, p.1 + 1),
        filled(g, p.0, p.1 - 1) ==> has_at(arr0 + extra, p.0, p.1 - 1) || queued(b5, p.0, p.1 - 1),
    ensures
        frontier(g, arr0 + extra, b5),
{
    let arr2 = arr0 + extra;
    assert forall|x: int, y: int, x2: int, y2: int|
        #![trigger has_at(arr2, x, y), filled(g, x2, y2)]
        filled(g, x, y) && filled(g, x2, y2) && next_to(x, y, x2, y2) && has_at(arr2, x, y)
            implies has_at(arr2, x2, y2) || queued(b5, x2, y2) by {
        if queued(b1, x2, y2) {
            assert(queued(b2, x2, y2));
        }
        if queued(b2, x2, y2) {
            assert(queued(b3, x2, y2));
        }
        if queued(b3, x2, y2) {
            assert(queued(b4, x2, y2));
        }
        if queued(b4, x2, y2) {
            assert(queued(b5, x2, y2));
        }
        if !has_at(arr0, x, y) {
            let j = choose|j: int|
                0 <= j < arr2.len() && (#[trigger] arr2[j]).position.0 as int == x
                    && arr2[j].position.1 as int == y;
            if j < arr0.len() {
                assert(arr2[j] == arr0[j]);
            } else {
                assert(arr2[j] == extra[j - arr0.len()]);
            }
            assert(x == p.0 && y == p.1);
        }
    }
}

pub open spec fn member(arr: Seq<Cell>, b: Seq<(i32, i32)>, x: int, y: int) -> bool {
    has_at(arr, x, y) || queued(b, x, y)
}

/// A walk through side-by-side occupied cells, each in `arr` or queued.
pub open spec fn is_trail(
    g: Seq<Seq<bool>>,
    arr: Seq<Cell>,
    b: Seq<(i32, i32)>,
    t: Seq<(int, int)>,
) -> bool {
    &&& t.len() >= 1
    &&& forall|i: int|
        0 <= i < t.len() ==> filled(g, (#[trigger] t[i]).0, t[i].1) && member(arr, b, t[i].0, t[i].1)
    &&& forall|i: int|
        0 <= i < t.len() - 1 ==> next_to((#[trigger] t[i]).0, t[i].1, t[i + 1].0, t[i + 1].1)
}

/// Every occupied cell in `arr` or queued is reached from `s` by a trail.
pub open spec fn spans(g: Seq<Seq<bool>>, arr: Seq<Cell>, b: Seq<(i32, i32)>, s: (int, int)) -> bool {
    forall|x: int, y: int|
        #[trigger] filled(g, x, y) && member(arr, b, x, y) ==> exists|t: Seq<(int, int)>|
            is_trail(g, arr, b, t) && t[0] == s && t.last() == (x, y)
}

/// The occupied cells of `arr` are connected through one another.
pub open spec fn connected(g: Seq<Seq<bool>>, arr: Seq<Cell>) -> bool {
    exists|s: (int, int)| spans(g, arr, Seq::empty(), s)
}

proof fn lemma_trail_kept(
    g: Seq<Seq<bool>>,
    arr: Seq<Cell>,
    b: Seq<(i32, i32)>,
    arr2: Seq<Cell>,
    b2: Seq<(i32, i32)>,
    t: Seq<(int, int)>,
)
    requires
        is_trail(g, arr, b, t),
        forall|x: int, y: int| #[trigger] filled(g, x, y) && member(arr, b, x, y) ==> member(arr2, b2, x, y),
    ensures
        is_trail(g, arr2, b2, t),
{
    assert forall|i: int| 0 <= i < t.len() implies filled(g, (#[trigger] t[i]).0, t[i].1) && member(
        arr2,
        b2,
        t[i].0,
        t[i].1,
    ) by {
        assert(filled(g, t[i].0, t[i].1));
    }
}

proof fn lemma_spans_same(
    g: Seq<Seq<bool>>,
    arr: Seq<Cell>,
    b: Seq<(i32, i32)>,
    arr2: Seq<Cell>,
    b2: Seq<(i32, i32)>,
    s: (int, int),
)
    requires
        spans(g, arr, b, s),
        forall|x: int, y: int| #[trigger] filled(g, x, y) ==> (member(arr, b, x, y) <==> member(arr2, b2, x, y)),
    ensures
        spans(g, arr2, b2, s),
{
    assert forall|x: int, y: int| #[trigger] filled(g, x, y) && member(arr2, b2, x, y) implies exists|
        t: Seq<(int, int)>,
    | is_trail(g, arr2, b2, t) && t[0] == s && t.last() == (x, y) by {
        let t = choose|t: Seq<(int, int)>| is_trail(g, arr, b, t) && t[0] == s && t.last() == (x, y);
        lemma_trail_kept(g, arr, b, arr2, b2, t);
    }
}

proof fn lemma_spans_push(
    g: Seq<Seq<bool>>,
    arr: Seq<Cell>,
    b: Seq<(i32, i32)>,
    s: (int, int),
    p: (int, int),
    q: (i32, i32),
)
    requires
        spans(g, arr, b, s),
        filled(g, p.0, p.1),
        member(arr, b, p.0, p.1),
        filled(g, q.0 as int, q.1 as int),
        next_to(p.0, p.1, q.0 as int, q.1 as int),
    ensures
        spans(g, arr, b.push(q), s),
{
    let b2 = b.push(q);
    assert(queued(b2, q.0 as int, q.1 as int)) by {
        assert(b2[b.len() as int] == q);
    }
    assert forall|x: int, y: int| #[trigger] filled(g, x, y) && member(arr, b, x, y) implies member(
        arr,
        b2,
        x,
        y,
    ) by {
        if queued(b, x, y) {
            let k = choose|k: int| 0 <= k < b.len() && (#[trigger] b[k]).0 as int == x && b[k].1 as int == y;
            assert(b2[k] == b[k]);
        }
    }
    assert forall|x: int, y: int| #[trigger] filled(g, x, y) && member(arr, b2, x, y) implies exists|
        t: Seq<(int, int)>,
    | is_trail(g, arr, b2, t) && t[0] == s && t.last() == (x, y) by {
        if member(arr, b, x, y) {
            let t = choose|t: Seq<(int, int)>| is_trail(g, arr, b, t) && t[0] == s && t.last() == (x, y);
            lemma_trail_kept(g, arr, b, arr, b2, t);
        } else {
            if queued(b2, x, y) {
                let k = choose|k: int| 0 <= k < b2.len() && (#[trigger] b2[k]).0 as int == x && b2[k].1 as int == y;
                if k < b.len() {
                    assert(b[k] == b2[k]);
                }
            }
            assert(x == q.0 && y == q.1);
            let t = choose|t: Seq<(int, int)>| is_trail(g, arr, b, t) && t[0] == s && t.last() == p;
            lemma_trail_kept(g, arr, b, arr, b2, t);
            let t2 = t.push((x, y));
            assert forall|i: int| 0 <= i < t2.len() implies filled(g, (#[trigger] t2[i]).0, t2[i].1)
                && member(arr, b2, t2[i].0, t2[i].1) by {
                if i < t.len() {
                    assert(t2[i] == t[i]);
                }
            }
            assert forall|i: int| 0 <= i < t2.len() - 1 implies next_to(
                (#[trigger] t2[i]).0,
                t2[i].1,
                t2[i + 1].0,
                t2[i + 1].1,
            ) by {
                if i < t.len() - 1 {
                    assert(t2[i] == t[i] && t2[i + 1] == t[i + 1]);
                } else {
                    assert(t2[i] == p);
                }
            }
            assert(is_trail(g, arr, b2, t2) && t2[0] == s && t2.last() == (x, y));
        }
    }
}

proof fn lemma_member_pop(g: Seq<Seq<bool>>, arr0: Seq<Cell>, b0: Seq<(i32, i32)>, extra: Seq<Cell>)
    requires
        b0.len() > 0,
        extra.len() > 0,
        extra.last().position == b0.last(),
        forall|j: int|
            0 <= j < extra.len() ==> #[trigger] extra[j].position == b0.last() || !filled(
                g,
                extra[j].position.0 as int,
                extra[j].position.1 as int,
            ),
    ensures
        forall|x: int, y: int|
            #[trigger] filled(g, x, y) ==> (member(arr0, b0, x, y) <==> member(
                arr0 + extra,
                b0.drop_last(),
                x,
                y,
            )),
{
    let a2 = arr0 + extra;
    let b1 = b0.drop_last();
    let p = b0.last();
    assert forall|x: int, y: int| #[trigger] filled(g, x, y) implies (member(arr0, b0, x, y) <==> member(
        a2,
        b1,
        x,
        y,
    )) by {
        if has_at(arr0, x, y) {
            let j = choose|j: int| 0 <= j < arr0.len() && (#[trigger] arr0[j]).position.0 as int == x && arr0[j].position.1 as int == y;
            assert(a2[j] == arr0[j]);
        }
        if queued(b0, x, y) {
            let k = choose|k: int| 0 <= k < b0.len() && (#[trigger] b0[k]).0 as int == x && b0[k].1 as int == y;
            if k < b0.len() - 1 {
                assert(b1[k] == b0[k]);
            } else {
                assert(a2[a2.len() - 1] == extra.last());
            }
        }
        if queued(b1, x, y) {
            let k = choose|k: int| 0 <= k < b1.len() && (#[trigger] b1[k]).0 as int == x && b1[k].1 as int == y;
            assert(b0[k] == b1[k]);
        }
        if has_at(a2, x, y) && !has_at(arr0, x, y) {
            let j = choose|j: int| 0 <= j < a2.len() && (#[trigger] a2[j]).position.0 as int == x && a2[j].position.1 as int == y;
            if j < arr0.len() {
                assert(a2[j] == arr0[j]);
            } else {
                assert(a2[j] == extra[j - arr0.len()]);
            }
            assert(b0[b0.len() - 1] == p);
        }
    }
}

/// The groups are the 4-connected components of the occupied cells: every occupied
/// cell is in one group and none is in two, each group is connected, and each
/// holds every occupied neighbour of its occupied cells.
pub open spec fn components(g: Seq<Seq<bool>>, gs: Seq<Group>) -> bool {
    &&& forall|x: int, y: int| #[trigger] filled(g, x, y) ==> in_groups(gs, x, y)
    &&& disjoint(g, gs)
    &&& closed(g, gs)
    &&& forall|i: int| 0 <= i < gs.len() ==> connected(g, #[trigger] gs[i].arr@)
}

/// What colouring reads besides the map: which kind of region, the palettes, the noise.
pub struct Shading {
    pub neg: bool,
    pub pal: Seq<Rgba>,
    pub eye: Seq<Rgba>,
    pub f1: NoiseField,
    pub f2: NoiseField,
}

/// The cells that visiting `p` adds to its group: its outline on the open sides
/// (down, right, up, left), then `p` itself in its shade.
pub open spec fn visit_block(g: Seq<Seq<bool>>, sh: Shading, p: (i32, i32)) -> Seq<Cell> {
    let (x, y) = (p.0 as int, p.1 as int);
    let r = at_pos(g, x + 1, y);
    let l = at_pos(g, x - 1, y);
    let d = at_pos(g, x, y + 1);
    let u = at_pos(g, x, y - 1);
    outline(p, r, l, d, u).push(
        Cell {
            position: p,
            color: shade(g.len() as int, p, sh.neg, r, l, d, u, sh.pal, sh.eye, sh.f1, sh.f2),
        },
    )
}

/// The cells of a group whose occupied cells were visited in the order `vs`.
pub open spec fn blocks(g: Seq<Seq<bool>>, sh: Shading, vs: Seq<(i32, i32)>) -> Seq<Cell>
    decreases vs.len(),
{
    if vs.len() == 0 {
        Seq::empty()
    } else {
        blocks(g, sh, vs.drop_last()) + visit_block(g, sh, vs.last())
    }
}

/// A cell on the outermost ring of the map.
pub open spec fn on_edge(g: Seq<Seq<bool>>, x: int, y: int) -> bool {
    x == 0 || y == 0 || x == g.len() - 1 || y == g[x].len() - 1
}

/// `grp` holds exactly the blocks of the distinct occupied cells `vs`, in that
/// order; an empty region is valid exactly when none of them is on the edge.
pub open spec fn built_from(g: Seq<Seq<bool>>, sh: Shading, grp: Group, vs: Seq<(i32, i32)>) -> bool {
    &&& vs.no_duplicates()
    &&& forall|i: int| 0 <= i < vs.len() ==> filled(g, (#[trigger] vs[i]).0 as int, vs[i].1 as int)
    &&& grp.arr@ == blocks(g, sh, vs)
    &&& grp.valid == (!sh.neg || forall|i: int|
        0 <= i < vs.len() ==> !on_edge(g, (#[trigger] vs[i]).0 as int, vs[i].1 as int))
}

/// `grp` is built from visits that start at `seed`.
pub open spec fn built_with_seed(g: Seq<Seq<bool>>, sh: Shading, grp: Group, seed: (i32, i32)) -> bool {
    exists|vs: Seq<(i32, i32)>| vs.len() >= 1 && vs[0] == seed && built_from(g, sh, grp, vs)
}

pub open spec fn lex_lt(a: (i32, i32), b: (i32, i32)) -> bool {
    a.0 < b.0 || (a.0 == b.0 && a.1 < b.1)
}

/// Each group is built from its visits, the first visit being the scan cell that
/// started it; groups come in scan order (column by column) of those cells.
pub open spec fn scan_built(g: Seq<Seq<bool>>, sh: Shading, gs: Seq<Group>, seeds: Seq<(i32, i32)>) -> bool {
    &&& seeds.len() == gs.len()
    &&& forall|i: int| 0 <= i < gs.len() ==> built_with_seed(g, sh, #[trigger] gs[i], seeds[i])
    &&& forall|i: int, j: int| 0 <= i < j < gs.len() ==> lex_lt(#[trigger] seeds[i], #[trigger] seeds[j])
}

/// Queued positions are distinct and not yet in the group being built.
pub open spec fn fresh(arr: Seq<Cell>, b: Seq<(i32, i32)>) -> bool {
    &&& b.no_duplicates()
    &&& forall|k: int| 0 <= k < b.len() ==> !has_at(arr, (#[trigger] b[k]).0 as int, b[k].1 as int)
}

pub open spec fn fits_i32_grid(g: Seq<Seq<bool>>) -> bool {
    g.len() < i32::MAX && forall|x: int| 0 <= x < g.len() ==> (#[trigger] g[x]).len() < i32::MAX
}

proof fn lemma_block_positions(g: Seq<Seq<bool>>, sh: Shading, p: (i32, i32))
    requires
        fits_i32_grid(g),
        filled(g, p.0 as int, p.1 as int),
    ensures
        forall|j: int|
            0 <= j < visit_block(g, sh, p).len() ==> (#[trigger] visit_block(g, sh, p)[j]).position
                == p || !filled(
                g,
                visit_block(g, sh, p)[j].position.0 as int,
                visit_block(g, sh, p)[j].position.1 as int,
            ),
        visit_block(g, sh, p).last().position == p,
        forall|x: int, y: int|
            #[trigger] filled(g, x, y) ==> (has_at(visit_block(g, sh, p), x, y) <==> (x == p.0 && y
                == p.1)),
{
    let b = visit_block(g, sh, p);
    let (x, y) = (p.0 as int, p.1 as int);
    let o = outline(p, at_pos(g, x + 1, y), at_pos(g, x - 1, y), at_pos(g, x, y + 1), at_pos(g, x, y - 1));
    assert(g[x].len() < i32::MAX);
    assert forall|j: int| 0 <= j < b.len() implies (#[trigger] b[j]).position == p || !filled(
        g,
        b[j].position.0 as int,
        b[j].position.1 as int,
    ) by {
        if j < o.len() {
            assert(b[j] == o[j]);
        }
    }
    assert forall|x2: int, y2: int| #[trigger] filled(g, x2, y2) implies (has_at(b, x2, y2) <==> (x2
        == p.0 && y2 == p.1)) by {
        if x2 == p.0 && y2 == p.1 {
            assert(b[b.len() - 1].position == p);
        }
        if has_at(b, x2, y2) {
            let j = choose|j: int| 0 <= j < b.len() && (#[trigger] b[j]).position.0 as int == x2 && b[j].position.1 as int == y2;
            assert(b[j].position == p || !filled(g, b[j].position.0 as int, b[j].position.1 as int));
        }
    }
}

proof fn lemma_has_at_concat(a: Seq<Cell>, b: Seq<Cell>, x: int, y: int)
    ensures
        has_at(a + b, x, y) <==> (has_at(a, x, y) || has_at(b, x, y)),
{
    let c = a + b;
    if has_at(a, x, y) {
        let j = choose|j: int| 0 <= j < a.len() && (#[trigger] a[j]).position.0 as int == x && a[j].position.1 as int == y;
        assert(c[j] == a[j]);
    }
    if has_at(b, x, y) {
        let j = choose|j: int| 0 <= j < b.len() && (#[trigger] b[j]).position.0 as int == x && b[j].position.1 as int == y;
        assert(c[a.len() + j] == b[j]);
    }
    if has_at(c, x, y) {
        let j = choose|j: int| 0 <= j < c.len() && (#[trigger] c[j]).position.0 as int == x && c[j].position.1 as int == y;
        if j < a.len() {
            assert(c[j] == a[j]);
        } else {
            assert(c[j] == b[j - a.len()]);
        }
    }
}

/// The occupied positions of a group's cells are exactly its visits.
proof fn lemma_blocks_body(g: Seq<Seq<bool>>, sh: Shading, vs: Seq<(i32, i32)>)
    requires
        fits_i32_grid(g),
        forall|i: int| 0 <= i < vs.len() ==> filled(g, (#[trigger] vs[i]).0 as int, vs[i].1 as int),
    ensures
        forall|x: int, y: int|
            #[trigger] filled(g, x, y) ==> (has_at(blocks(g, sh, vs), x, y) <==> vs.contains(
                (x as i32, y as i32),
            )),
    decreases vs.len(),
{
    if vs.len() > 0 {
        let v2 = vs.drop_last();
        let p = vs.last();
        assert(filled(g, vs[vs.len() - 1].0 as int, vs[vs.len() - 1].1 as int));
        lemma_blocks_body(g, sh, v2);
        lemma_block_positions(g, sh, p);
        assert forall|x: int, y: int| #[trigger] filled(g, x, y) implies (has_at(
            blocks(g, sh, vs),
            x,
            y,
        ) <==> vs.contains((x as i32, y as i32))) by {
            lemma_has_at_concat(blocks(g, sh, v2), visit_block(g, sh, p), x, y);
            assert(g[x].len() < i32::MAX);
            if v2.contains((x as i32, y as i32)) {
                let k = choose|k: int| 0 <= k < v2.len() && v2[k] == (x as i32, y as i32);
                assert(vs[k] == v2[k]);
            }
            if vs.contains((x as i32, y as i32)) {
                let k = choose|k: int| 0 <= k < vs.len() && vs[k] == (x as i32, y as i32);
                if k < v2.len() {
                    assert(v2[k] == vs[k]);
                }
            }
        }
    }
}

/// After the last queued cell is visited, the group is built from one more visit and
/// the rest of the queue is still fresh.
proof fn lemma_visit_built(
    g: Seq<Seq<bool>>,
    sh: Shading,
    vs: Seq<(i32, i32)>,
    arr0: Seq<Cell>,
    b0: Seq<(i32, i32)>,
)
    requires
        fits_i32_grid(g),
        b0.len() > 0,
        bucket_ok(g, b0),
        fresh(arr0, b0),
        arr0 == blocks(g, sh, vs),
        vs.no_duplicates(),
        forall|i: int| 0 <= i < vs.len() ==> filled(g, (#[trigger] vs[i]).0 as int, vs[i].1 as int),
    ensures
        vs.push(b0.last()).no_duplicates(),
        forall|i: int|
            0 <= i < vs.push(b0.last()).len() ==> filled(
                g,
                (#[trigger] vs.push(b0.last())[i]).0 as int,
                vs.push(b0.last())[i].1 as int,
            ),
        blocks(g, sh, vs.push(b0.last())) == arr0 + visit_block(g, sh, b0.last()),
        fresh(arr0 + visit_block(g, sh, b0.last()), b0.drop_last()),
{
    let p = b0.last();
    let v2 = vs.push(p);
    let b1 = b0.drop_last();
    let arr2 = arr0 + visit_block(g, sh, p);
    assert(bucket_ok(g, b0));
    assert(b0[b0.len() - 1] == p);
    assert(filled(g, p.0 as int, p.1 as int));
    lemma_blocks_body(g, sh, vs);
    lemma_block_positions(g, sh, p);
    assert(!vs.contains(p)) by {
        assert(!has_at(arr0, p.0 as int, p.1 as int));
    }
    assert forall|i: int, j: int| 0 <= i < v2.len() && 0 <= j < v2.len() && i != j implies v2[i] != v2[j] by {
        if i < vs.len() && j < vs.len() {
        } else if i < vs.len() {
            assert(v2[i] == vs[i]);
        } else {
            assert(v2[j] == vs[j]);
        }
    }
    assert forall|i: int| 0 <= i < v2.len() implies filled(g, (#[trigger] v2[i]).0 as int, v2[i].1 as int) by {
        if i < vs.len() {
            assert(v2[i] == vs[i]);
        }
    }
    assert(v2.drop_last() =~= vs);
    assert forall|k: int| 0 <= k < b1.len() implies !has_at(arr2, (#[trigger] b1[k]).0 as int, b1[k].1 as int) by {
        let q = b1[k];
        assert(b0[k] == q);
        assert(filled(g, q.0 as int, q.1 as int));
        assert(q != p);
        lemma_has_at_concat(arr0, visit_block(g, sh, p), q.0 as int, q.1 as int);
    }
}

proof fn lemma_valid_step(
    g: Seq<Seq<bool>>,
    vs: Seq<(i32, i32)>,
    pos: (i32, i32),
    neg: bool,
    valid0: bool,
    valid1: bool,
)
    requires
        valid0 == (!neg || forall|i: int|
            0 <= i < vs.len() ==> !on_edge(g, (#[trigger] vs[i]).0 as int, vs[i].1 as int)),
        valid1 == (valid0 && !(neg && on_edge(g, pos.0 as int, pos.1 as int))),
    ensures
        valid1 == (!neg || forall|i: int|
            0 <= i < vs.push(pos).len() ==> !on_edge(
                g,
                (#[trigger] vs.push(pos)[i]).0 as int,
                vs.push(pos)[i].1 as int,
            )),
{
    let v2 = vs.push(pos);
    assert(v2[vs.len() as int] == pos);
    assert forall|i: int| 0 <= i < vs.len() implies #[trigger] v2[i] == vs[i] by {}
    if neg && valid0 && !on_edge(g, pos.0 as int, pos.1 as int) {
        assert forall|i: int| 0 <= i < v2.len() implies !on_edge(g, (#[trigger] v2[i]).0 as int, v2[i].1 as int) by {
            if i < vs.len() {
                assert(v2[i] == vs[i]);
            }
        }
    }
    if neg && !valid0 {
        let i = choose|i: int| 0 <= i < vs.len() && on_edge(g, (#[trigger] vs[i]).0 as int, vs[i].1 as int);
        assert(v2[i] == vs[i]);
    }
}

/// What visiting the last queued cell keeps: the bookkeeping of marks, the trails
/// from the group's first cell, the build of the group and the outline facts.
#[verifier::rlimit(100)]
#[verifier::spinoff_prover]
proof fn lemma_after_visit(
    g: Seq<Seq<bool>>,
    sh: Shading,
    c: Seq<Vec<bool>>,
    done: Seq<Group>,
    arr0: Seq<Cell>,
    b0: Seq<(i32, i32)>,
    vs: Seq<(i32, i32)>,
    root: (int, int),
    valid0: bool,
    valid1: bool,
)
    requires
        fits_i32_grid(g),
        b0.len() > 0,
        bucket_ok(g, b0),
        fresh(arr0, b0),
        accounted(g, c, done, arr0, b0),
        frontier(g, arr0, b0),
        spans(g, arr0, b0, root),
        arr0 == blocks(g, sh, vs),
        vs.no_duplicates(),
        forall|i: int| 0 <= i < vs.len() ==> filled(g, (#[trigger] vs[i]).0 as int, vs[i].1 as int),
        valid0 == (!sh.neg || forall|i: int|
            0 <= i < vs.len() ==> !on_edge(g, (#[trigger] vs[i]).0 as int, vs[i].1 as int)),
        valid1 == (valid0 && !(sh.neg && on_edge(g, b0.last().0 as int, b0.last().1 as int))),
        forall|j: int| 0 <= j < arr0.len() ==> cell_ok(g, #[trigger] arr0[j]),
    ensures
        ({
            let p = b0.last();
            let extra = visit_block(g, sh, p);
            let arr2 = arr0 + extra;
            let b1 = b0.drop_last();
            let v2 = vs.push(p);
            &&& bucket_ok(g, b1)
            &&& accounted(g, c, done, arr2, b1)
            &&& spans(g, arr2, b1, root)
            &&& fresh(arr2, b1)
            &&& v2.no_duplicates()
            &&& (forall|i: int| 0 <= i < v2.len() ==> filled(g, (#[trigger] v2[i]).0 as int, v2[i].1 as int))
            &&& blocks(g, sh, v2) == arr2
            &&& valid1 == (!sh.neg || forall|i: int|
                0 <= i < v2.len() ==> !on_edge(g, (#[trigger] v2[i]).0 as int, v2[i].1 as int))
            &&& (forall|j: int| 0 <= j < arr2.len() ==> cell_ok(g, #[trigger] arr2[j]))
            &&& has_at(arr2, p.0 as int, p.1 as int)
            &&& filled(g, p.0 as int, p.1 as int)
            &&& (forall|x: int, y: int, x2: int, y2: int|
                #![trigger has_at(arr0, x, y), filled(g, x2, y2)]
                filled(g, x, y) && filled(g, x2, y2) && next_to(x, y, x2, y2) && has_at(arr0, x, y)
                    ==> has_at(arr2, x2, y2) || queued(b1, x2, y2))
            &&& (forall|j: int|
                0 <= j < extra.len() ==> (#[trigger] extra[j]).position.0 as int == p.0 as int
                    && extra[j].position.1 as int == p.1 as int || !filled(
                    g,
                    extra[j].position.0 as int,
                    extra[j].position.1 as int,
                ))
        }),
{
    let p = b0.last();
    let extra = visit_block(g, sh, p);
    let arr2 = arr0 + extra;
    let b1 = b0.drop_last();
    assert(b0[b0.len() - 1] == p);
    assert forall|k: int| 0 <= k < b1.len() implies #[trigger] b1[k] == b0[k] by {}
    lemma_block_positions(g, sh, p);
    lemma_accounted_pop(g, c, done, arr0, b0, extra);
    lemma_frontier_pop(g, arr0, b0, extra);
    lemma_member_pop(g, arr0, b0, extra);
    lemma_spans_same(g, arr0, b0, arr2, b1, root);
    lemma_visit_built(g, sh, vs, arr0, b0);
    lemma_valid_step(g, vs, p, sh.neg, valid0, valid1);
    assert forall|j: int| 0 <= j < arr2.len() implies cell_ok(g, #[trigger] arr2[j]) by {
        if j < arr0.len() {
            assert(arr2[j] == arr0[j]);
        } else {
            let e = extra[j - arr0.len()];
            assert(arr2[j] == e);
            let (x, y) = (p.0 as int, p.1 as int);
            let o = outline(p, at_pos(g, x + 1, y), at_pos(g, x - 1, y), at_pos(g, x, y + 1), at_pos(g, x, y - 1));
            if j - arr0.len() < o.len() {
                assert(e == o[j - arr0.len()]);
            }
        }
    }
    lemma_has_at_concat(arr0, extra, p.0 as int, p.1 as int);
}

proof fn lemma_seed_spans(g: Seq<Seq<bool>>, seed: (i32, i32))
    requires
        filled(g, seed.0 as int, seed.1 as int),
    ensures
        spans(g, Seq::empty(), seq![seed], (seed.0 as int, seed.1 as int)),
{
    let b = seq![seed];
    let root = (seed.0 as int, seed.1 as int);
    assert forall|i: int, j: int| #[trigger] filled(g, i, j) && member(Seq::<Cell>::empty(), b, i, j)
        implies exists|t: Seq<(int, int)>| is_trail(g, Seq::<Cell>::empty(), b, t) && t[0] == root && t.last() == (i, j) by {
        assert(!has_at(Seq::<Cell>::empty(), i, j));
        let k = choose|k: int| 0 <= k < b.len() && (#[trigger] b[k]).0 as int == i && b[k].1 as int == j;
        assert(b[0] == seed);
        let t = seq![root];
        assert(queued(b, root.0, root.1));
        assert(t[0] == root);
        assert(is_trail(g, Seq::<Cell>::empty(), b, t));
        assert(t.last() == (i, j));
    }
}

/// Closing a finished group keeps every fact of the scan about the finished groups.
proof fn lemma_close_group(
    g: Seq<Seq<bool>>,
    sh: Shading,
    c: Seq<Vec<bool>>,
    gs: Seq<Group>,
    grp: Group,
    vs: Seq<(i32, i32)>,
    root: (int, int),
    seeds: Seq<(i32, i32)>,
    seed: (i32, i32),
)
    requires
        accounted(g, c, gs, grp.arr@, Seq::empty()),
        disjoint(g, gs),
        closed(g, gs),
        forall|i: int| 0 <= i < gs.len() ==> connected(g, #[trigger] gs[i].arr@),
        frontier(g, grp.arr@, Seq::empty()),
        spans(g, grp.arr@, Seq::empty(), root),
        built_from(g, sh, grp, vs),
        vs.len() > 0,
        vs[0] == seed,
        scan_built(g, sh, gs, seeds),
        forall|i: int| 0 <= i < seeds.len() ==> lex_lt(#[trigger] seeds[i], seed),
    ensures
        accounted(g, c, gs.push(grp), Seq::empty(), Seq::empty()),
        disjoint(g, gs.push(grp)),
        closed(g, gs.push(grp)),
        forall|i: int| 0 <= i < gs.push(grp).len() ==> connected(g, #[trigger] gs.push(grp)[i].arr@),
        scan_built(g, sh, gs.push(grp), seeds.push(seed)),
{
    lemma_accounted_close(g, c, gs, grp);
    lemma_closed_push(g, gs, grp);
    let g2 = gs.push(grp);
    let s2 = seeds.push(seed);
    assert(connected(g, grp.arr@));
    assert forall|i: int| 0 <= i < g2.len() implies connected(g, #[trigger] g2[i].arr@) by {
        if i < gs.len() {
            assert(g2[i] == gs[i]);
        }
    }
    assert forall|i: int| 0 <= i < g2.len() implies built_with_seed(g, sh, #[trigger] g2[i], s2[i]) by {
        if i < gs.len() {
            assert(g2[i] == gs[i]);
            assert(s2[i] == seeds[i]);
            assert(built_with_seed(g, sh, gs[i], seeds[i]));
        } else {
            assert(g2[i] == grp);
            assert(s2[i] == seed);
            assert(vs.len() >= 1 && vs[0] == s2[i] && built_from(g, sh, g2[i], vs));
        }
    }
    assert forall|i: int, j: int| 0 <= i < j < g2.len() implies lex_lt(#[trigger] s2[i], #[trigger] s2[j]) by {
        if j < gs.len() {
            assert(s2[i] == seeds[i] && s2[j] == seeds[j]);
        } else {
            assert(s2[i] == seeds[i]);
            assert(s2[j] == seed);
        }
    }
    assert(s2.len() == g2.len());
}

/// A group built from cells off the edge of a `w` by `h` map has every cell,
/// outline included, on the map.
pub proof fn lemma_blocks_on_board(g: Seq<Seq<bool>>, sh: Shading, vs: Seq<(i32, i32)>, w: nat, h: nat)
    requires
        is_grid(g, w, h),
        w < i32::MAX,
        h < i32::MAX,
        forall|i: int|
            0 <= i < vs.len() ==> filled(g, (#[trigger] vs[i]).0 as int, vs[i].1 as int) && !on_edge(
                g,
                vs[i].0 as int,
                vs[i].1 as int,
            ),
    ensures
        forall|j: int|
            0 <= j < blocks(g, sh, vs).len() ==> 0 <= (#[trigger] blocks(g, sh, vs)[j]).position.0 < w
                && 0 <= blocks(g, sh, vs)[j].position.1 < h,
    decreases vs.len(),
{
    if vs.len() > 0 {
        let v2 = vs.drop_last();
        let p = vs.last();
        assert(filled(g, vs[vs.len() - 1].0 as int, vs[vs.len() - 1].1 as int));
        assert(!on_edge(g, vs[vs.len() - 1].0 as int, vs[vs.len() - 1].1 as int));
        assert forall|i: int| 0 <= i < v2.len() implies filled(g, (#[trigger] v2[i]).0 as int, v2[i].1 as int)
            && !on_edge(g, v2[i].0 as int, v2[i].1 as int) by {
            assert(v2[i] == vs[i]);
        }
        lemma_blocks_on_board(g, sh, v2, w, h);
        let a = blocks(g, sh, v2);
        let b = visit_block(g, sh, p);
        let (x, y) = (p.0 as int, p.1 as int);
        let o = outline(p, at_pos(g, x + 1, y), at_pos(g, x - 1, y), at_pos(g, x, y + 1), at_pos(g, x, y - 1));
        assert(g[x].len() == h);
        assert forall|j: int| 0 <= j < (a + b).len() implies 0 <= (#[trigger] (a + b)[j]).position.0 < w
            && 0 <= (a + b)[j].position.1 < h by {
            if j < a.len() {
                assert((a + b)[j] == a[j]);
            } else {
                assert((a + b)[j] == b[j - a.len()]);
                if j - a.len() < o.len() {
                    assert(b[j - a.len()] == o[j - a.len()]);
                }
            }
        }
    }
}

/// Every queued position is an occupied cell of the map.
pub open spec fn bucket_ok(g: Seq<Seq<bool>>, b: Seq<(i32, i32)>) -> bool {
    forall|k: int|
        0 <= k < b.len() ==> {
            let p = #[trigger] b[k];
            0 <= p.0 < g.len() && 0 <= p.1 < g[p.0 as int].len() && g[p.0 as int][p.1 as int]
        }
}

/// Unmarked cells count twice, queued ones once: every step of the scan lowers it.
pub open spec fn scan_measure(c: Seq<Vec<bool>>, b: Seq<(i32, i32)>, w: nat, h: nat) -> int {
    2 * (h * w - marked(c).len()) + b.len()
}

/// Queues `(nx, ny)` when that side holds an occupied cell not yet marked.
fn push_if_open(
    map: &Vec<Vec<bool>>,
    bucket: &mut Vec<(i32, i32)>,
    checked_map: &mut Vec<Vec<bool>>,
    side: Option<bool>,
    nx: i32,
    ny: i32,
    Ghost(height): Ghost<nat>,
    Ghost(done): Ghost<Seq<Group>>,
    Ghost(arr): Ghost<Seq<Cell>>,
    Ghost(from): Ghost<(int, int)>,
    Ghost(root): Ghost<(int, int)>,
)
    requires
        fresh(arr, old(bucket)@),
        spans(grid_of(map@), arr, old(bucket)@, root),
        closed(grid_of(map@), done),
        has_at(arr, from.0, from.1),
        filled(grid_of(map@), from.0, from.1),
        next_to(from.0, from.1, nx as int, ny as int),
        is_grid(grid_of(map@), map@.len(), height),
        flags_rect(old(checked_map)@, height, map@.len()),
        bucket_ok(grid_of(map@), old(bucket)@),
        side == at_pos(grid_of(map@), nx as int, ny as int),
        map@.len() < i32::MAX,
        height < i32::MAX,
        accounted(grid_of(map@), old(checked_map)@, done, arr, old(bucket)@),
    ensures
        flags_rect(final(checked_map)@, height, map@.len()),
        bucket_ok(grid_of(map@), final(bucket)@),
        accounted(grid_of(map@), final(checked_map)@, done, arr, final(bucket)@),
        forall|i: int, j: int|
            0 <= i < map@.len() && 0 <= j < height && old(checked_map)@[i]@[j] ==> final(checked_map)@[i]@[j],
        forall|x: int, y: int| #[trigger] queued(old(bucket)@, x, y) ==> queued(final(bucket)@, x, y),
        spans(grid_of(map@), arr, final(bucket)@, root),
        fresh(arr, final(bucket)@),
        side == Some(true) ==> has_at(arr, nx as int, ny as int) || queued(
            final(bucket)@,
            nx as int,
            ny as int,
        ),
        scan_measure(final(checked_map)@, final(bucket)@, map@.len(), height) <= scan_measure(
            old(checked_map)@,
            old(bucket)@,
            map@.len(),
            height,
        ),
{
    let ghost g = grid_of(map@);
    let ghost b_in = bucket@;
    if side == Some(true) {
        let px = nx as usize;
        let py = ny as usize;
        assert(g[px as int] == map@[px as int]@);
        if checked_map[px][py] {
            proof {
                assert(filled(g, nx as int, ny as int));
                if in_groups(done, nx as int, ny as int) {
                    let i = choose|i: int|
                        0 <= i < done.len() && has_at(#[trigger] done[i].arr@, nx as int, ny as int);
                    assert(filled(g, from.0, from.1));
                    assert(has_at(done[i].arr@, from.0, from.1));
                    assert(in_groups(done, from.0, from.1));
                }
            }
        }
        if !checked_map[px][py] {
            proof {
                lemma_marked_bounded(checked_map@, height, map@.len());
                assert(!marked(checked_map@).contains((py, px)));
            }
            let ghost b0 = bucket@;
            let ghost c0 = checked_map@;
            bucket.push((nx, ny));
            mark(checked_map, px, py);
            proof {
                lemma_accounted_push(g, c0, checked_map@, done, arr, b0, (nx, ny));
                lemma_spans_push(g, arr, b0, root, from, (nx, ny));
                assert(filled(g, nx as int, ny as int));
                assert(!c0[nx as int]@[ny as int]);
                assert(!has_at(arr, nx as int, ny as int));
                assert(!queued(b0, nx as int, ny as int));
                assert forall|i: int, j: int| 0 <= i < bucket@.len() && 0 <= j < bucket@.len() && i != j implies bucket@[i] != bucket@[j] by {
                    if i < b0.len() && j < b0.len() {
                        assert(bucket@[i] == b0[i] && bucket@[j] == b0[j]);
                    } else if i < b0.len() {
                        assert(bucket@[i] == b0[i]);
                    } else {
                        assert(bucket@[j] == b0[j]);
                    }
                }
                assert forall|k: int| 0 <= k < bucket@.len() implies !has_at(arr, (#[trigger] bucket@[k]).0 as int, bucket@[k].1 as int) by {
                    if k < b0.len() {
                        assert(bucket@[k] == b0[k]);
                    }
                }
                assert(bucket@[b0.len() as int] == (nx, ny));
                assert forall|x: int, y: int| #[trigger] queued(b0, x, y) implies queued(
                    bucket@,
                    x,
                    y,
                ) by {
                    let k = choose|k: int| 0 <= k < b0.len() && (#[trigger] b0[k]).0 as int == x && b0[k].1 as int == y;
                    assert(bucket@[k] == b0[k]);
                }
            }
            assert forall|k: int| 0 <= k < bucket@.len() implies {
                let p = #[trigger] bucket@[k];
                0 <= p.0 < g.len() && 0 <= p.1 < g[p.0 as int].len() && g[p.0 as int][p.1 as int]
            } by {
                if k < b0.len() {
                    assert(bucket@[k] == b0[k]);
                }
            }
        }
    }
}

/// Pops one queued cell, colours it into `group` with its outline, and queues its
/// occupied, unmarked neighbours.
#[verifier::rlimit(100)]
#[verifier::spinoff_prover]
fn visit_next(
    map: &Vec<Vec<bool>>,
    bucket: &mut Vec<(i32, i32)>,
    checked_map: &mut Vec<Vec<bool>>,
    group: &mut Group,
    colorscheme: &Vec<Rgba>,
    eye_colorscheme: &Vec<Rgba>,
    is_negative_group: bool,
    noise1: &NoiseField,
    noise2: &NoiseField,
    Ghost(height): Ghost<nat>,
    Ghost(done): Ghost<Seq<Group>>,
    Ghost(root): Ghost<(int, int)>,
    Ghost(sh): Ghost<Shading>,
    Ghost(vs): Ghost<Seq<(i32, i32)>>,
)
    requires
        sh.neg == is_negative_group,
        sh.pal == colorscheme@,
        sh.eye == eye_colorscheme@,
        sh.f1 == *noise1,
        sh.f2 == *noise2,
        built_from(grid_of(map@), sh, *old(group), vs),
        fresh(old(group).arr@, old(bucket)@),
        spans(grid_of(map@), old(group).arr@, old(bucket)@, root),
        is_grid(grid_of(map@), map@.len(), height),
        map@.len() < i32::MAX,
        height < i32::MAX,
        noise1.wf_for(map@.len(), height),
        noise2.wf_for(map@.len(), height),
        colorscheme@.len() == N_COLORS,
        eye_colorscheme@.len() == N_COLORS,
        accounted(grid_of(map@), old(checked_map)@, done, old(group).arr@, old(bucket)@),
        frontier(grid_of(map@), old(group).arr@, old(bucket)@),
        closed(grid_of(map@), done),
        flags_rect(old(checked_map)@, height, map@.len()),
        bucket_ok(grid_of(map@), old(bucket)@),
        old(bucket)@.len() > 0,
        forall|j: int|
            0 <= j < old(group).arr@.len() ==> cell_ok(grid_of(map@), #[trigger] old(group).arr@[j]),
        !is_negative_group ==> old(group).valid,
    ensures
        flags_rect(final(checked_map)@, height, map@.len()),
        bucket_ok(grid_of(map@), final(bucket)@),
        accounted(grid_of(map@), final(checked_map)@, done, final(group).arr@, final(bucket)@),
        frontier(grid_of(map@), final(group).arr@, final(bucket)@),
        spans(grid_of(map@), final(group).arr@, final(bucket)@, root),
        built_from(grid_of(map@), sh, *final(group), vs.push(old(bucket)@.last())),
        fresh(final(group).arr@, final(bucket)@),
        forall|i: int, j: int|
            0 <= i < map@.len() && 0 <= j < height && old(checked_map)@[i]@[j] ==> final(checked_map)@[i]@[j],
        forall|j: int|
            0 <= j < final(group).arr@.len() ==> cell_ok(
                grid_of(map@),
                #[trigger] final(group).arr@[j],
            ),
        final(group).arr@.len() > 0,
        !is_negative_group ==> final(group).valid,
        scan_measure(final(checked_map)@, final(bucket)@, map@.len(), height) < scan_measure(
            old(checked_map)@,
            old(bucket)@,
            map@.len(),
            height,
        ),
{
    let ghost g = grid_of(map@);
    let ghost b0 = bucket@;
    let pos = bucket.pop().unwrap();
    assert(pos == b0[b0.len() - 1]);
    assert(bucket@ =~= b0.drop_last());
    let right = get_at_pos(map, (pos.0 + 1, pos.1));
    let left = get_at_pos(map, (pos.0 - 1, pos.1));
    let down = get_at_pos(map, (pos.0, pos.1 + 1));
    let up = get_at_pos(map, (pos.0, pos.1 - 1));
    let px = pos.0 as usize;
    assert(map@[px as int]@ == g[px as int]);
    let ghost valid0 = group.valid;
    if is_negative_group {
        if px == 0 || pos.1 == 0 || px == map.len() - 1 || pos.1 as usize == map[px].len() - 1 {
            group.valid = false;
        }
    }
    assert(group.valid == (valid0 && !(is_negative_group && on_edge(g, pos.0 as int, pos.1 as int))));
    let ghost arr0 = group.arr@;
    let col = choose_color(
        map,
        pos,
        is_negative_group,
        right,
        left,
        down,
        up,
        colorscheme,
        eye_colorscheme,
        group,
        noise1,
        noise2,
        Ghost(height),
    );
    group.arr.push(Cell { position: pos, color: col });
    let ghost p = (pos.0 as int, pos.1 as int);
    proof {
        assert(group.arr@ =~= arr0 + visit_block(g, sh, pos));
        assert(fits_i32_grid(g)) by {
            assert forall|x: int| 0 <= x < g.len() implies (#[trigger] g[x]).len() < i32::MAX by {}
        }
        lemma_after_visit(g, sh, old(checked_map)@, done, arr0, b0, vs, root, valid0, group.valid);
    }
    let ghost arr2 = group.arr@;
    let ghost b1 = bucket@;
    push_if_open(map, bucket, checked_map, right, pos.0 + 1, pos.1, Ghost(height), Ghost(done), Ghost(arr2), Ghost(p), Ghost(root));
    let ghost b2 = bucket@;
    push_if_open(map, bucket, checked_map, left, pos.0 - 1, pos.1, Ghost(height), Ghost(done), Ghost(arr2), Ghost(p), Ghost(root));
    let ghost b3 = bucket@;
    push_if_open(map, bucket, checked_map, down, pos.0, pos.1 + 1, Ghost(height), Ghost(done), Ghost(arr2), Ghost(p), Ghost(root));
    let ghost b4 = bucket@;
    push_if_open(map, bucket, checked_map, up, pos.0, pos.1 - 1, Ghost(height), Ghost(done), Ghost(arr2), Ghost(p), Ghost(root));
    proof {
        lemma_frontier_assemble(g, arr0, visit_block(g, sh, pos), b1, b2, b3, b4, bucket@, p);
    }
}

/// Connected regions of occupied cells, by a depth-first scan with a stack.
/// Each occupied cell is marked when pushed, so it is visited once; its colour is
/// chosen as it is popped. With `is_negative_group`, a region that reaches past the
/// map's low edges is marked not valid.
#[verifier::rlimit(100)]
#[verifier::spinoff_prover]
fn flood_fill(
    map: &Vec<Vec<bool>>,
    colorscheme: &Vec<Rgba>,
    eye_colorscheme: &Vec<Rgba>,
    is_negative_group: bool,
    noise1: &NoiseField,
    noise2: &NoiseField,
    Ghost(height): Ghost<nat>,
) -> (groups: Vec<Group>)
    requires
        is_grid(grid_of(map@), map@.len(), height),
        map@.len() < i32::MAX,
        height < i32::MAX,
        noise1.wf_for(map@.len(), height),
        noise2.wf_for(map@.len(), height),
        colorscheme@.len() == N_COLORS,
        eye_colorscheme@.len() == N_COLORS,
    ensures
        groups_ok(grid_of(map@), groups@, is_negative_group),
        components(grid_of(map@), groups@),
        exists|seeds: Seq<(i32, i32)>|
            scan_built(
                grid_of(map@),
                (Shading {
                    neg: is_negative_group,
                    pal: colorscheme@,
                    eye: eye_colorscheme@,
                    f1: *noise1,
                    f2: *noise2,
                }),
                groups@,
                seeds,
            ),
{
    let ghost g = grid_of(map@);
    let ghost sh = Shading {
        neg: is_negative_group,
        pal: colorscheme@,
        eye: eye_colorscheme@,
        f1: *noise1,
        f2: *noise2,
    };
    let ghost mut seeds: Seq<(i32, i32)> = Seq::empty();
    let w = map.len();
    let mut groups: Vec<Group> = Vec::new();
    let mut checked_map: Vec<Vec<bool>> = Vec::new();
    let mut i: usize = 0;
    while i < w
        invariant
            i <= w,
            w == map@.len(),
            g == grid_of(map@),
            is_grid(g, w as nat, height),
            checked_map@.len() == i,
            forall|k: int| 0 <= k < i ==> (#[trigger] checked_map@[k])@.len() == height,
            forall|k: int, j: int| 0 <= k < i && 0 <= j < height ==> !checked_map@[k]@[j],
        decreases w - i,
    {
        assert(map@[i as int]@ == g[i as int]);
        let mut col: Vec<bool> = Vec::new();
        let mut j: usize = 0;
        while j < map[i].len()
            invariant
                i < w,
                w == map@.len(),
                j <= map@[i as int]@.len(),
                col@.len() == j,
                forall|k: int| 0 <= k < j ==> !col@[k],
            decreases map@[i as int]@.len() - j,
        {
            col.push(false);
            j += 1;
        }
        checked_map.push(col);
        i += 1;
    }
    let mut bucket: Vec<(i32, i32)> = Vec::new();
    assert(accounted(g, checked_map@, groups@, Seq::empty(), Seq::empty()));
    let mut x: usize = 0;
    while x < w
        invariant
            x <= w,
            w == map@.len(),
            g == grid_of(map@),
            is_grid(g, w as nat, height),
            w < i32::MAX,
            height < i32::MAX,
            noise1.wf_for(w as nat, height),
            noise2.wf_for(w as nat, height),
            colorscheme@.len() == N_COLORS,
            eye_colorscheme@.len() == N_COLORS,
            flags_rect(checked_map@, height, w as nat),
            bucket@.len() == 0,
            groups_ok(g, groups@, is_negative_group),
            accounted(g, checked_map@, groups@, Seq::empty(), Seq::empty()),
            disjoint(g, groups@),
            closed(g, groups@),
            forall|i: int| 0 <= i < groups@.len() ==> connected(g, #[trigger] groups@[i].arr@),
            forall|i: int, j: int| 0 <= i < x && 0 <= j < height ==> #[trigger] checked_map@[i]@[j],
            sh == (Shading {
                neg: is_negative_group,
                pal: colorscheme@,
                eye: eye_colorscheme@,
                f1: *noise1,
                f2: *noise2,
            }),
            scan_built(g, sh, groups@, seeds),
            forall|i: int| 0 <= i < seeds.len() ==> (#[trigger] seeds[i]).0 < x,
        decreases w - x,
    {
        assert(map@[x as int]@ == g[x as int]);
        let mut y: usize = 0;
        while y < map[x].len()
            invariant
                x < w,
                y <= height,
                map@[x as int]@.len() == height,
                w == map@.len(),
                g == grid_of(map@),
                is_grid(g, w as nat, height),
                w < i32::MAX,
                height < i32::MAX,
                noise1.wf_for(w as nat, height),
                noise2.wf_for(w as nat, height),
                colorscheme@.len() == N_COLORS,
                eye_colorscheme@.len() == N_COLORS,
                flags_rect(checked_map@, height, w as nat),
                bucket@.len() == 0,
                groups_ok(g, groups@, is_negative_group),
                accounted(g, checked_map@, groups@, Seq::empty(), Seq::empty()),
                disjoint(g, groups@),
                closed(g, groups@),
                forall|i: int| 0 <= i < groups@.len() ==> connected(g, #[trigger] groups@[i].arr@),
                forall|i: int, j: int| 0 <= i < x && 0 <= j < height ==> #[trigger] checked_map@[i]@[j],
                forall|j: int| 0 <= j < y ==> #[trigger] checked_map@[x as int]@[j],
                sh == (Shading {
                    neg: is_negative_group,
                    pal: colorscheme@,
                    eye: eye_colorscheme@,
                    f1: *noise1,
                    f2: *noise2,
                }),
                scan_built(g, sh, groups@, seeds),
                forall|i: int| 0 <= i < seeds.len() ==> lex_lt(#[trigger] seeds[i], (x as i32, y as i32)),
            decreases height - y,
        {
            if !checked_map[x][y] {
                let ghost c0 = checked_map@;
                mark(&mut checked_map, x, y);
                if !map[x][y] {
                    assert forall|i: int, j: int| #[trigger] filled(g, i, j) implies checked_map@[i]@[j]
                        == c0[i]@[j] by {}
                }
                if map[x][y] {
                    proof {
                        assert(bucket@ =~= Seq::<(i32, i32)>::empty());
                        lemma_accounted_push(
                            g,
                            c0,
                            checked_map@,
                            groups@,
                            Seq::empty(),
                            Seq::empty(),
                            (x as i32, y as i32),
                        );
                    }
                    bucket.push((x as i32, y as i32));
                    assert(bucket_ok(g, bucket@));
                    let mut group = Group { arr: Vec::new(), valid: true };
                    assert(frontier(g, group.arr@, bucket@));
                    let ghost root = (x as int, y as int);
                    proof {
                        assert(bucket@ =~= seq![(x as i32, y as i32)]);
                        lemma_seed_spans(g, (x as i32, y as i32));
                    }
                    let ghost mut vs: Seq<(i32, i32)> = Seq::empty();
                    assert(built_from(g, sh, group, vs));
                    assert(fresh(group.arr@, bucket@));
                    while bucket.len() > 0
                        invariant
                            w == map@.len(),
                            g == grid_of(map@),
                            is_grid(g, w as nat, height),
                            w < i32::MAX,
                            height < i32::MAX,
                            noise1.wf_for(w as nat, height),
                            noise2.wf_for(w as nat, height),
                            colorscheme@.len() == N_COLORS,
                            eye_colorscheme@.len() == N_COLORS,
                            flags_rect(checked_map@, height, w as nat),
                            bucket_ok(g, bucket@),
                            forall|j: int|
                                0 <= j < group.arr@.len() ==> cell_ok(g, #[trigger] group.arr@[j]),
                            bucket@.len() > 0 || group.arr@.len() > 0,
                            !is_negative_group ==> group.valid,
                            accounted(g, checked_map@, groups@, group.arr@, bucket@),
                            disjoint(g, groups@),
                            closed(g, groups@),
                            forall|i: int| 0 <= i < groups@.len() ==> connected(g, #[trigger] groups@[i].arr@),
                            frontier(g, group.arr@, bucket@),
                            spans(g, group.arr@, bucket@, root),
                            sh == (Shading {
                                neg: is_negative_group,
                                pal: colorscheme@,
                                eye: eye_colorscheme@,
                                f1: *noise1,
                                f2: *noise2,
                            }),
                            scan_built(g, sh, groups@, seeds),
                            forall|i: int| 0 <= i < seeds.len() ==> lex_lt(#[trigger] seeds[i], (x as i32, y as i32)),
                            built_from(g, sh, group, vs),
                            fresh(group.arr@, bucket@),
                            vs.len() == 0 ==> bucket@ == seq![(x as i32, y as i32)],
                            vs.len() > 0 ==> vs[0] == (x as i32, y as i32),
                            x < w,
                            y < height,
                            forall|i: int, j: int|
                                0 <= i < x && 0 <= j < height ==> #[trigger] checked_map@[i]@[j],
                            forall|j: int| 0 <= j <= y ==> #[trigger] checked_map@[x as int]@[j],
                        decreases scan_measure(checked_map@, bucket@, w as nat, height),
                    {
                        let ghost bb = bucket@;
                        visit_next(
                            map,
                            &mut bucket,
                            &mut checked_map,
                            &mut group,
                            colorscheme,
                            eye_colorscheme,
                            is_negative_group,
                            noise1,
                            noise2,
                            Ghost(height),
                            Ghost(groups@),
                            Ghost(root),
                            Ghost(sh),
                            Ghost(vs),
                        );
                        proof {
                            lemma_marked_bounded(checked_map@, height, w as nat);
                            let v0 = vs;
                            vs = vs.push(bb.last());
                            if v0.len() == 0 {
                                assert(bb.last() == (x as i32, y as i32));
                            } else {
                                assert(vs[0] == v0[0]);
                            }
                        }
                    }
                    proof {
                        assert(bucket@ =~= Seq::<(i32, i32)>::empty());
                        lemma_close_group(g, sh, checked_map@, groups@, group, vs, root, seeds, (x as i32, y as i32));
                    }
                    groups.push(group);
                    proof {
                        seeds = seeds.push((x as i32, y as i32));
                    }
                }
            }
            y += 1;
            assert forall|i: int| 0 <= i < seeds.len() implies lex_lt(#[trigger] seeds[i], (x as i32, y as i32)) by {
                assert(lex_lt(seeds[i], (x as i32, (y - 1) as i32)) || seeds[i] == (x as i32, (y - 1) as i32));
            }
        }
        x += 1;
    }
    assert(scan_built(g, sh, groups@, seeds));
    assert forall|i: int, j: int| #[trigger] filled(g, i, j) implies in_groups(groups@, i, j) by {
        assert(checked_map@[i]@[j]);
        assert(!has_at(Seq::<Cell>::empty(), i, j));
        assert(!queued(Seq::<(i32, i32)>::empty(), i, j));
    }
    groups
}


/// Empty regions: the same scan over the negated map.
fn flood_fill_negative(
    map: &Vec<Vec<bool>>,
    colorscheme: &Vec<Rgba>,
    eye_colorscheme: &Vec<Rgba>,
    noise1: &NoiseField,
    noise2: &NoiseField,
    Ghost(height): Ghost<nat>,
) -> (groups: Vec<Group>)
    requires
        is_grid(grid_of(map@), map@.len(), height),
        map@.len() < i32::MAX,
        height < i32::MAX,
        noise1.wf_for(map@.len(), height),
        noise2.wf_for(map@.len(), height),
        colorscheme@.len() == N_COLORS,
        eye_colorscheme@.len() == N_COLORS,
    ensures
        groups_ok(negated(grid_of(map@)), groups@, true),
        components(negated(grid_of(map@)), groups@),
        exists|seeds: Seq<(i32, i32)>|
            scan_built(
                negated(grid_of(map@)),
                (Shading {
                    neg: true,
                    pal: colorscheme@,
                    eye: eye_colorscheme@,
                    f1: *noise1,
                    f2: *noise2,
                }),
                groups@,
                seeds,
            ),
{
    let ghost g = grid_of(map@);
    let mut negative_map: Vec<Vec<bool>> = Vec::new();
    let mut x: usize = 0;
    while x < map.len()
        invariant
            x <= map@.len(),
            g == grid_of(map@),
            is_grid(g, map@.len(), height),
            map@.len() < i32::MAX,
            height < i32::MAX,
            negative_map@.len() == x,
            forall|k: int| 0 <= k < x ==> (#[trigger] negative_map@[k])@ == negated(g)[k],
        decreases map@.len() - x,
    {
        assert(map@[x as int]@ == g[x as int]);
        let mut arr: Vec<bool> = Vec::new();
        let mut y: usize = 0;
        while y < map[x].len()
            invariant
                x < map@.len(),
                y <= map@[x as int]@.len(),
                g == grid_of(map@),
                is_grid(g, map@.len(), height),
                map@.len() < i32::MAX,
                height < i32::MAX,
                arr@.len() == y,
                forall|k: int| 0 <= k < y ==> #[trigger] arr@[k] == !g[x as int][k],
            decreases map@[x as int]@.len() - y,
        {
            if let Some(val) = get_at_pos(map, (x as i32, y as i32)) {
                arr.push(!val);
            }
            y += 1;
        }
        assert(arr@ =~= negated(g)[x as int]);
        negative_map.push(arr);
        x += 1;
    }
    assert(grid_of(negative_map@) =~= negated(g));
    flood_fill(
        &negative_map,
        colorscheme,
        eye_colorscheme,
        true,
        noise1,
        noise2,
        Ghost(height),
    )
}

/// The number of cells in the first column, taken as every column's.
pub open spec fn map_height(g: Seq<Seq<bool>>) -> nat {
    if g.len() == 0 {
        0
    } else {
        g[0].len()
    }
}

/// Palettes and noise in the shape that `fill_colors` reads for this map.
pub open spec fn coloring_ok(
    g: Seq<Seq<bool>>,
    colorscheme: Seq<Rgba>,
    eye_colorscheme: Seq<Rgba>,
    noise1: NoiseField,
    noise2: NoiseField,
) -> bool {
    &&& is_grid(g, g.len(), map_height(g))
    &&& g.len() < i32::MAX
    &&& map_height(g) < i32::MAX
    &&& noise1.wf_for(g.len(), map_height(g))
    &&& noise2.wf_for(g.len(), map_height(g))
    &&& colorscheme.len() == N_COLORS
    &&& eye_colorscheme.len() == N_COLORS
}

/// Segments the map into filled regions and empty regions, colouring every cell
/// on the way: filled ones from `colorscheme`, empty ones from `eye_colorscheme`.
/// The filled regions are the connected components of the filled cells, the empty
/// regions those of the empty cells. Each region is built from its visits in order:
/// per visited cell, its black outline on the open sides, then the cell in its
/// shade. Regions come in scan order of their first cell, and an empty region is
/// valid exactly when none of its cells lies on the edge of the map.
pub fn fill_colors(
    map: &Vec<Vec<bool>>,
    colorscheme: &Vec<Rgba>,
    eye_colorscheme: &Vec<Rgba>,
    noise1: &NoiseField,
    noise2: &NoiseField,
) -> (r: (Vec<Group>, Vec<Group>))
    requires
        coloring_ok(grid_of(map@), colorscheme@, eye_colorscheme@, *noise1, *noise2),
    ensures
        groups_ok(grid_of(map@), r.0@, false),
        groups_ok(negated(grid_of(map@)), r.1@, true),
        components(grid_of(map@), r.0@),
        components(negated(grid_of(map@)), r.1@),
        exists|seeds: Seq<(i32, i32)>|
            scan_built(
                grid_of(map@),
                (Shading {
                    neg: false,
                    pal: colorscheme@,
                    eye: eye_colorscheme@,
                    f1: *noise1,
                    f2: *noise2,
                }),
                r.0@,
                seeds,
            ),
        exists|seeds: Seq<(i32, i32)>|
            scan_built(
                negated(grid_of(map@)),
                (Shading {
                    neg: true,
                    pal: colorscheme@,
                    eye: eye_colorscheme@,
                    f1: *noise1,
                    f2: *noise2,
                }),
                r.1@,
                seeds,
            ),
{
    let ghost height = map_height(grid_of(map@));
    let groups = flood_fill(
        map,
        colorscheme,
        eye_colorscheme,
        false,
        noise1,
        noise2,
        Ghost(height),
    );
    let negative_groups = flood_fill_negative(
        map,
        colorscheme,
        eye_colorscheme,
        noise1,
        noise2,
        Ghost(height),
    );
    (groups, negative_groups)
}

} // verus!
