use island_procgen::region::{fill_colors, NoiseField, N_COLORS};
use island_procgen::sprite::Rgba;

fn ramp() -> Vec<Rgba> {
    (0..N_COLORS).map(|i| Rgba { r: (i * 20 + 10) as u8, g: 0, b: 0, a: 255 }).collect()
}

fn eye_ramp() -> Vec<Rgba> {
    (0..N_COLORS).map(|i| Rgba { r: 0, g: (i * 20 + 10) as u8, b: 0, a: 255 }).collect()
}

fn flat_noise(width: usize, height: usize, value: i32) -> NoiseField {
    NoiseField { samples: vec![vec![value; height + 2]; width / 2 + 3] }
}

fn is_black(c: &Rgba) -> bool {
    c.r == 0 && c.g == 0 && c.b == 0 && c.a == 255
}

#[test]
fn single_cell_colour_and_outline() {
    let map = vec![vec![false; 3], vec![false, true, false], vec![false; 3]];
    let n = flat_noise(3, 3, 0);
    let (groups, negative) = fill_colors(&map, &ramp(), &eye_ramp(), &n, &n);
    assert_eq!(groups.len(), 1);
    let arr = &groups[0].arr;
    assert_eq!(arr.len(), 5);
    let outline: Vec<(i32, i32)> = arr[..4].iter().map(|c| c.position).collect();
    assert_eq!(outline, vec![(1, 2), (2, 1), (1, 0), (0, 1)]);
    assert!(arr[..4].iter().all(|c| is_black(&c.color)));
    // shade 0 -> down -0.36 -> right -0.176 -> up 0.3288 -> left 0.58168 -> stop 6
    assert_eq!(arr[4].position, (1, 1));
    assert_eq!(arr[4].color, Rgba { r: 130, g: 0, b: 0, a: 255 });
    assert!(groups[0].valid);
    assert_eq!(negative.len(), 1);
    assert!(!negative[0].valid);
}

#[test]
fn high_noise_picks_last_stop() {
    let map = vec![vec![false; 3], vec![false, true, false], vec![false; 3]];
    let mut n1 = flat_noise(3, 3, 0);
    n1.samples[1][2] = 1_000_000;
    let n2 = flat_noise(3, 3, 0);
    let (groups, _) = fill_colors(&map, &ramp(), &eye_ramp(), &n1, &n2);
    assert_eq!(groups[0].arr[4].color, Rgba { r: 230, g: 0, b: 0, a: 255 });
}

#[test]
fn enclosed_hole_is_a_valid_negative_group() {
    // a 5 by 5 map whose centre 3 by 3 ring is filled around an empty middle
    let mut map = vec![vec![false; 5]; 5];
    for x in 1..4 {
        for y in 1..4 {
            map[x][y] = !(x == 2 && y == 2);
        }
    }
    let n = flat_noise(5, 5, 0);
    let (groups, negative) = fill_colors(&map, &ramp(), &eye_ramp(), &n, &n);
    assert_eq!(groups.len(), 1);
    let body: Vec<(i32, i32)> =
        groups[0].arr.iter().filter(|c| !is_black(&c.color)).map(|c| c.position).collect();
    assert_eq!(body.len(), 8);
    assert_eq!(negative.len(), 2);
    assert!(!negative[0].valid);
    assert!(negative[1].valid);
    let hole: Vec<(i32, i32)> =
        negative[1].arr.iter().filter(|c| !is_black(&c.color)).map(|c| c.position).collect();
    assert_eq!(hole, vec![(2, 2)]);
    // eye shade: 0 - 0.1 + 0.1 + 0.15 + 0.1 = 0.25 -> stop 2 of the eye palette
    let hole_cell = negative[1].arr.last().unwrap();
    assert_eq!(hole_cell.color, Rgba { r: 0, g: 50, b: 0, a: 255 });
}

#[test]
fn filled_cells_each_in_one_group() {
    let mut map = vec![vec![false; 7]; 7];
    for &(x, y) in &[(1, 1), (1, 2), (2, 2), (4, 4), (5, 4), (5, 5), (1, 5)] {
        map[x][y] = true;
    }
    let n = flat_noise(7, 7, 250_000);
    let (groups, _) = fill_colors(&map, &ramp(), &eye_ramp(), &n, &n);
    assert_eq!(groups.len(), 3);
    let mut seen = Vec::new();
    for g in &groups {
        assert!(g.valid);
        for c in &g.arr {
            let (x, y) = c.position;
            let on_map = x >= 0 && y >= 0 && (x as usize) < 7 && (y as usize) < 7;
            if on_map && map[x as usize][y as usize] {
                seen.push(c.position);
            } else {
                assert!(is_black(&c.color));
            }
        }
    }
    seen.sort();
    seen.dedup();
    assert_eq!(seen.len(), 7);
    let total: usize = groups
        .iter()
        .map(|g| {
            g.arr
                .iter()
                .filter(|c| {
                    let (x, y) = c.position;
                    x >= 0 && y >= 0 && x < 7 && y < 7 && map[x as usize][y as usize]
                })
                .count()
        })
        .sum();
    assert_eq!(total, 7);
}

#[test]
fn empty_map_has_no_groups() {
    let map: Vec<Vec<bool>> = Vec::new();
    let n = flat_noise(0, 0, 0);
    let (groups, negative) = fill_colors(&map, &ramp(), &eye_ramp(), &n, &n);
    assert!(groups.is_empty());
    assert!(negative.is_empty());
}

#[test]
fn diagonal_cells_are_separate_groups() {
    let mut map = vec![vec![false; 5]; 5];
    map[1][1] = true;
    map[2][2] = true;
    map[3][2] = true;
    let n = flat_noise(5, 5, 0);
    let (groups, _) = fill_colors(&map, &ramp(), &eye_ramp(), &n, &n);
    assert_eq!(groups.len(), 2);
    let body = |g: &island_procgen::sprite::Group| -> Vec<(i32, i32)> {
        let mut v: Vec<(i32, i32)> = g
            .arr
            .iter()
            .map(|c| c.position)
            .filter(|&(x, y)| x >= 0 && y >= 0 && x < 5 && y < 5 && map[x as usize][y as usize])
            .collect();
        v.sort();
        v
    };
    assert_eq!(body(&groups[0]), vec![(1, 1)]);
    assert_eq!(body(&groups[1]), vec![(2, 2), (3, 2)]);
}

#[test]
fn empty_region_on_far_edge_is_not_valid() {
    // the only empty cell sits on the last column: it touches the edge of the map
    let mut map = vec![vec![true; 5]; 5];
    map[4][2] = false;
    let n = flat_noise(5, 5, 0);
    let (_, negative) = fill_colors(&map, &ramp(), &eye_ramp(), &n, &n);
    assert_eq!(negative.len(), 1);
    assert!(!negative[0].valid);
}
