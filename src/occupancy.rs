use rand::Rng;
use vstd::prelude::*;

verus! {

/// An empty cell with more filled neighbours than this is born.
pub const BIRTH_LIMIT: u32 = 5;

/// A filled cell with fewer filled neighbours than this dies.
pub const DEATH_LIMIT: u32 = 4;

/// Smoothing passes made by `cellular_automata_do_steps`.
pub const N_STEPS: u32 = 4;

/// Draws are in millionths of the unit interval.
pub const DRAW_SCALE: u32 = 1_000_000;

/// A cell is filled when its draw exceeds this share of `DRAW_SCALE`.
pub const FILL_THRESHOLD: u32 = 480_000;

/// Spine draws are taken from `0..SPINE_SPAN`.
pub const SPINE_SPAN: u32 = 400_000;

/// The grid, column by column: `g[x][y]`.
pub open spec fn grid_of(m: Seq<Vec<bool>>) -> Seq<Seq<bool>> {
    Seq::new(m.len(), |x: int| m[x]@)
}

/// `width` columns of `height` cells each.
pub open spec fn is_grid(g: Seq<Seq<bool>>, width: nat, height: nat) -> bool {
    g.len() == width && forall|x: int| 0 <= x < width ==> (#[trigger] g[x]).len() == height
}

/// Left-right mirror symmetry: column `x` equals column `width - 1 - x`.
pub open spec fn is_mirrored(g: Seq<Seq<bool>>) -> bool {
    forall|x: int| 0 <= x < g.len() ==> #[trigger] g[x] == g[g.len() - 1 - x]
}

/// The two centre columns (one when the width is odd) that get the spine bias.
pub open spec fn is_spine_column(width: nat, x: nat) -> bool {
    x + 1 == width / 2 || (width % 2 == 0 && x + 2 == width / 2)
}

/// Whether a cell of the left half is filled, given its two draws: the fill draw
/// beats the threshold, or on a spine column the spine draw beats the distance to
/// the vertical centre (`|2y - height| / height`).
pub open spec fn column_cell(height: nat, width: nat, x: nat, y: nat, fill: nat, spine: nat) -> bool {
    fill > FILL_THRESHOLD || (is_spine_column(width, x) && spine * height > abs_diff(2 * y, height)
        * DRAW_SCALE)
}

pub open spec fn abs_diff(a: nat, b: nat) -> nat {
    if a >= b { (a - b) as nat } else { (b - a) as nat }
}

/// Relies on rand's `Rng::gen_range` on `thread_rng()`: a value in `0..bound`.
#[verifier::external_body]
fn random_below(bound: u32) -> (r: u32)
    requires
        bound > 0,
    ensures
        r < bound,
{
    rand::thread_rng().gen_range(0..bound)
}

/// Column `x` of the left half, from one fill draw and one spine draw per row.
pub fn map_column(height: usize, width: usize, x: usize, fills: &Vec<u32>, spines: &Vec<u32>) -> (r:
    Vec<bool>)
    requires
        fills@.len() == height,
        spines@.len() == height,
    ensures
        r@.len() == height,
        forall|y: int|
            0 <= y < height ==> #[trigger] r@[y] == column_cell(
                height as nat,
                width as nat,
                x as nat,
                y as nat,
                fills@[y] as nat,
                spines@[y] as nat,
            ),
{
    let spine = (width / 2 >= 1 && x == width / 2 - 1) || (width % 2 == 0 && width / 2 >= 2 && x
        == width / 2 - 2);
    let mut arr: Vec<bool> = Vec::new();
    let mut y: usize = 0;
    while y < height
        invariant
            y <= height,
            fills@.len() == height,
            spines@.len() == height,
            spine == is_spine_column(width as nat, x as nat),
            arr@.len() == y,
            forall|k: int|
                0 <= k < y ==> #[trigger] arr@[k] == column_cell(
                    height as nat,
                    width as nat,
                    x as nat,
                    k as nat,
                    fills@[k] as nat,
                    spines@[k] as nat,
                ),
        decreases height - y,
    {
        let mut cell = fills[y] > FILL_THRESHOLD;
        if spine {
            let twice: u128 = 2 * (y as u128);
            let dist: u128 = if twice >= height as u128 {
                twice - height as u128
            } else {
                height as u128 - twice
            };
            assert(dist <= 0x4_0000_0000_0000_0000);
            assert(dist * 1_000_000 <= 0x4_0000_0000_0000_0000 * 1_000_000) by (nonlinear_arith)
                requires
                    dist <= 0x4_0000_0000_0000_0000,
            ;
            proof {
                vstd::arithmetic::mul::lemma_mul_upper_bound(
                    spines@[y as int] as int,
                    u32::MAX as int,
                    height as int,
                    usize::MAX as int,
                );
            }
            if (spines[y] as u128) * (height as u128) > dist * (DRAW_SCALE as u128) {
                cell = true;
            }
        }
        arr.push(cell);
        y += 1;
    }
    arr
}

/// A random `width` by `height` occupancy grid, mirrored left to right.
pub fn make_rand_map(height: usize, width: usize) -> (map: Vec<Vec<bool>>)
    ensures
        is_grid(grid_of(map@), width as nat, height as nat),
        is_mirrored(grid_of(map@)),
{
    let mut map: Vec<Vec<bool>> = Vec::new();
    let mut i: usize = 0;
    while i < width
        invariant
            i <= width,
            map@.len() == i,
        decreases width - i,
    {
        map.push(Vec::new());
        i += 1;
    }
    let half = width - width / 2;
    let mut x: usize = 0;
    while x < half
        invariant
            half == width - width / 2,
            x <= half,
            map@.len() == width,
            forall|k: int|
                (0 <= k < x || width - x <= k < width) ==> (#[trigger] map@[k])@.len() == height,
            forall|k: int| 0 <= k < x ==> (#[trigger] map@[k])@ == map@[width - 1 - k]@,
        decreases half - x,
    {
        let mut fills: Vec<u32> = Vec::new();
        let mut spines: Vec<u32> = Vec::new();
        let mut y: usize = 0;
        while y < height
            invariant
                y <= height,
                fills@.len() == y,
                spines@.len() == y,
            decreases height - y,
        {
            fills.push(random_below(DRAW_SCALE));
            spines.push(random_below(SPINE_SPAN));
            y += 1;
        }
        let arr = map_column(height, width, x, &fills, &spines);
        let copy = arr.clone();
        assert(copy@ =~= arr@);
        map.set(x, copy);
        map.set(width - x - 1, arr);
        x += 1;
    }
    assert(grid_of(map@).len() == width);
    map
}


/// A lookup: `None` for a negative coordinate, `Some(false)` past the far edges.
pub open spec fn at_pos(g: Seq<Seq<bool>>, x: int, y: int) -> Option<bool> {
    if x < 0 || y < 0 {
        None
    } else if x >= g.len() || y >= g[x].len() {
        Some(false)
    } else {
        Some(g[x][y])
    }
}

pub open spec fn filled_at(g: Seq<Seq<bool>>, x: int, y: int) -> bool {
    at_pos(g, x, y) == Some(true)
}

/// Grid sizes that the `i32` coordinates can address.
pub open spec fn fits_i32(g: Seq<Seq<bool>>) -> bool {
    g.len() < i32::MAX && forall|x: int| 0 <= x < g.len() ==> (#[trigger] g[x]).len() < i32::MAX
}

pub fn get_at_pos(map: &Vec<Vec<bool>>, pos: (i32, i32)) -> (r: Option<bool>)
    requires
        fits_i32(grid_of(map@)),
    ensures
        r == at_pos(grid_of(map@), pos.0 as int, pos.1 as int),
{
    if pos.0 < 0 || pos.1 < 0 {
        return None;
    }
    let x = pos.0 as usize;
    let y = pos.1 as usize;
    if x >= map.len() {
        return Some(false);
    }
    assert(map@[x as int]@ == grid_of(map@)[x as int]);
    if y >= map[x].len() {
        return Some(false);
    }
    Some(map[x][y])
}

/// The `k`-th of the nine offsets around a cell, `k = 3 * (dx + 1) + (dy + 1)`;
/// the centre, `k == 4`, never counts.
pub open spec fn neighbour_term(g: Seq<Seq<bool>>, x: int, y: int, k: int) -> nat {
    if k != 4 && filled_at(g, x + k / 3 - 1, y + k % 3 - 1) {
        1
    } else {
        0
    }
}

pub open spec fn neighbours_upto(g: Seq<Seq<bool>>, x: int, y: int, k: int) -> nat
    decreases k,
{
    if k <= 0 {
        0
    } else {
        neighbours_upto(g, x, y, k - 1) + neighbour_term(g, x, y, k - 1)
    }
}

/// Filled cells among the eight around `(x, y)`.
pub open spec fn neighbour_count(g: Seq<Seq<bool>>, x: int, y: int) -> nat {
    neighbours_upto(g, x, y, 9)
}

fn get_neighbours(map: &Vec<Vec<bool>>, pos: (usize, usize)) -> (r: u32)
    requires
        fits_i32(grid_of(map@)),
        pos.0 < map@.len(),
        pos.1 < map@[pos.0 as int]@.len(),
    ensures
        r == neighbour_count(grid_of(map@), pos.0 as int, pos.1 as int),
{
    let ghost g = grid_of(map@);
    assert(g[pos.0 as int] == map@[pos.0 as int]@);
    let mut count: u32 = 0;
    let mut k: i32 = 0;
    while k < 9
        invariant
            0 <= k <= 9,
            fits_i32(g),
            g == grid_of(map@),
            pos.0 < g.len(),
            pos.1 < g[pos.0 as int].len(),
            count == neighbours_upto(g, pos.0 as int, pos.1 as int, k as int),
            count <= k,
        decreases 9 - k,
    {
        let i = k / 3 - 1;
        let j = k % 3 - 1;
        if k != 4 {
            match get_at_pos(map, (pos.0 as i32 + i, pos.1 as i32 + j)) {
                None => {},
                Some(val) => {
                    if val {
                        count += 1;
                    }
                },
            }
        }
        k += 1;
    }
    count
}

pub open spec fn on_border(g: Seq<Seq<bool>>, x: int, y: int) -> bool {
    x == 0 || x == g.len() - 1 || y == 0 || y == g[x].len() - 1
}

/// One smoothing pass at a cell: the outer ring is cleared, sparse filled cells
/// die, crowded empty cells are born.
pub open spec fn step_cell(g: Seq<Seq<bool>>, x: int, y: int) -> bool {
    if on_border(g, x, y) {
        false
    } else if g[x][y] && neighbour_count(g, x, y) < DEATH_LIMIT {
        false
    } else if !g[x][y] && neighbour_count(g, x, y) > BIRTH_LIMIT {
        true
    } else {
        g[x][y]
    }
}

pub open spec fn step_spec(g: Seq<Seq<bool>>) -> Seq<Seq<bool>> {
    Seq::new(g.len(), |x: int| Seq::new(g[x].len(), |y: int| step_cell(g, x, y)))
}

pub open spec fn steps_spec(g: Seq<Seq<bool>>, n: nat) -> Seq<Seq<bool>>
    decreases n,
{
    if n == 0 {
        g
    } else {
        step_spec(steps_spec(g, (n - 1) as nat))
    }
}

fn step(map: &Vec<Vec<bool>>) -> (r: Vec<Vec<bool>>)
    requires
        fits_i32(grid_of(map@)),
    ensures
        grid_of(r@) == step_spec(grid_of(map@)),
{
    let ghost g = grid_of(map@);
    let mut dup: Vec<Vec<bool>> = Vec::new();
    let mut x: usize = 0;
    while x < map.len()
        invariant
            x <= map@.len(),
            g == grid_of(map@),
            fits_i32(g),
            dup@.len() == x,
            forall|i: int| 0 <= i < x ==> (#[trigger] dup@[i])@ == step_spec(g)[i],
        decreases map@.len() - x,
    {
        assert(map@[x as int]@ == g[x as int]);
        let n_rows = map[x].len();
        let mut col: Vec<bool> = Vec::new();
        let mut y: usize = 0;
        while y < n_rows
            invariant
                x < map@.len(),
                y <= n_rows,
                n_rows == g[x as int].len(),
                g == grid_of(map@),
                fits_i32(g),
                col@.len() == y,
                forall|j: int| 0 <= j < y ==> #[trigger] col@[j] == step_cell(g, x as int, j),
            decreases n_rows - y,
        {
            let cell = map[x][y];
            if x == 0 || x == map.len() - 1 || y == 0 || y == n_rows - 1 {
                col.push(false);
            } else {
                let n = get_neighbours(map, (x, y));
                if cell && n < DEATH_LIMIT {
                    col.push(false);
                } else if !cell && n > BIRTH_LIMIT {
                    col.push(true);
                } else {
                    col.push(cell);
                }
            }
            y += 1;
        }
        assert(col@ =~= step_spec(g)[x as int]);
        dup.push(col);
        x += 1;
    }
    assert(grid_of(dup@) =~= step_spec(g));
    dup
}

pub proof fn lemma_step_keeps_shape(g: Seq<Seq<bool>>)
    ensures
        step_spec(g).len() == g.len(),
        forall|x: int| 0 <= x < g.len() ==> (#[trigger] step_spec(g)[x]).len() == g[x].len(),
{
}

/// Runs `N_STEPS` smoothing passes in place.
pub fn cellular_automata_do_steps(map: &mut Vec<Vec<bool>>)
    requires
        fits_i32(grid_of(old(map)@)),
    ensures
        grid_of(final(map)@) == steps_spec(grid_of(old(map)@), N_STEPS as nat),
        forall|x: int, y: int|
            0 <= x < final(map)@.len() && 0 <= y < final(map)@[x]@.len() && on_border(
                grid_of(final(map)@),
                x,
                y,
            ) ==> !#[trigger] final(map)@[x]@[y],
{
    let mut dupe = step(map);
    let mut i: u32 = 1;
    proof {
        lemma_step_keeps_shape(grid_of(map@));
        assert(steps_spec(grid_of(map@), 0) == grid_of(map@));
        assert(steps_spec(grid_of(map@), 1) == step_spec(steps_spec(grid_of(map@), 0)));
        assert(grid_of(dupe@).len() == grid_of(map@).len());
        assert forall|x: int| 0 <= x < grid_of(dupe@).len() implies (#[trigger] grid_of(
            dupe@,
        )[x]).len() < i32::MAX by {
            assert(grid_of(map@)[x].len() < i32::MAX);
        }
    }
    while i < N_STEPS
        invariant
            1 <= i <= N_STEPS,
            grid_of(dupe@) == steps_spec(grid_of(map@), i as nat),
            grid_of(dupe@) == step_spec(steps_spec(grid_of(map@), (i - 1) as nat)),
            fits_i32(grid_of(dupe@)),
        decreases N_STEPS - i,
    {
        let ghost before = grid_of(dupe@);
        proof {
            lemma_step_keeps_shape(before);
        }
        dupe = step(&dupe);
        i += 1;
        proof {
            assert(steps_spec(grid_of(map@), i as nat) == step_spec(steps_spec(grid_of(map@), (i - 1) as nat)));
            assert forall|x: int| 0 <= x < grid_of(dupe@).len() implies (#[trigger] grid_of(
                dupe@,
            )[x]).len() < i32::MAX by {
                assert(before[x].len() < i32::MAX);
            }
        }
    }
    proof {
        let prev = steps_spec(grid_of(old(map)@), (N_STEPS - 1) as nat);
        assert forall|x: int, y: int|
            0 <= x < dupe@.len() && 0 <= y < dupe@[x]@.len() && on_border(grid_of(dupe@), x, y)
                implies !#[trigger] dupe@[x]@[y] by {
            assert(grid_of(dupe@) == step_spec(prev));
            assert(grid_of(dupe@)[x] == dupe@[x]@);
            lemma_step_keeps_shape(prev);
            lemma_border_cleared(prev, x, y);
        }
    }
    *map = dupe;
}

/// After any smoothing pass, every cell of the outermost ring is empty.
pub proof fn lemma_border_cleared(g: Seq<Seq<bool>>, x: int, y: int)
    requires
        0 <= x < g.len(),
        0 <= y < g[x].len(),
        on_border(step_spec(g), x, y),
    ensures
        !step_spec(g)[x][y],
{
}


pub proof fn lemma_steps_keep_grid(g: Seq<Seq<bool>>, n: nat, width: nat, height: nat)
    requires
        is_grid(g, width, height),
    ensures
        is_grid(steps_spec(g, n), width, height),
    decreases n,
{
    if n > 0 {
        lemma_steps_keep_grid(g, (n - 1) as nat, width, height);
        lemma_step_keeps_shape(steps_spec(g, (n - 1) as nat));
    }
}

} // verus!
