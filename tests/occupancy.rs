use island_procgen::occupancy::{cellular_automata_do_steps, get_at_pos, make_rand_map, map_column};

fn is_mirrored(map: &Vec<Vec<bool>>) -> bool {
    let w = map.len();
    (0..w).all(|x| map[x] == map[w - 1 - x])
}

#[test]
fn rand_map_shape_and_mirror() {
    for &(h, w) in &[(45, 45), (5, 7), (8, 6), (1, 1), (3, 2)] {
        let map = make_rand_map(h, w);
        assert_eq!(map.len(), w);
        assert!(map.iter().all(|col| col.len() == h));
        assert!(is_mirrored(&map));
    }
}

#[test]
fn rand_map_is_not_uniform() {
    let map = make_rand_map(45, 45);
    let filled = map.iter().flatten().filter(|&&b| b).count();
    assert!(filled > 0);
    assert!(filled < 45 * 45);
}

#[test]
fn map_column_spine_bias() {
    // width 6: columns 1 and 2 are the spine columns
    let fills = vec![500_000, 100_000, 480_000, 0];
    let spines = vec![0, 399_999, 300_000, 0];
    assert_eq!(map_column(4, 6, 2, &fills, &spines), vec![true, false, true, false]);
    assert_eq!(map_column(4, 6, 1, &fills, &spines), vec![true, false, true, false]);
    assert_eq!(map_column(4, 6, 0, &fills, &spines), vec![true, false, false, false]);
}

#[test]
fn map_column_odd_width_has_one_spine_column() {
    // width 5: only column 1 (= floor(5 / 2) - 1) is a spine column;
    // row 0 of 3 is at distance 1.0 from the centre, beyond any spine draw
    let fills = vec![0, 0, 0];
    let spines = vec![399_999, 399_999, 399_999];
    assert_eq!(map_column(3, 5, 1, &fills, &spines), vec![false, true, true]);
    assert_eq!(map_column(3, 5, 0, &fills, &spines), vec![false, false, false]);
}

#[test]
fn lookups_off_the_map() {
    let map = vec![vec![true, false], vec![false, true]];
    assert_eq!(get_at_pos(&map, (-1, 0)), None);
    assert_eq!(get_at_pos(&map, (0, -1)), None);
    assert_eq!(get_at_pos(&map, (2, 0)), Some(false));
    assert_eq!(get_at_pos(&map, (0, 2)), Some(false));
    assert_eq!(get_at_pos(&map, (0, 0)), Some(true));
    assert_eq!(get_at_pos(&map, (1, 0)), Some(false));
    assert_eq!(get_at_pos(&map, (1, 1)), Some(true));
}

#[test]
fn smoothing_clears_the_border() {
    for _ in 0..5 {
        let mut map = make_rand_map(45, 45);
        cellular_automata_do_steps(&mut map);
        for x in 0..45 {
            for y in 0..45 {
                if x == 0 || y == 0 || x == 44 || y == 44 {
                    assert!(!map[x][y]);
                }
            }
        }
    }
}

#[test]
fn smoothing_full_block_erodes_away() {
    let mut map = vec![vec![true; 5]; 5];
    cellular_automata_do_steps(&mut map);
    assert_eq!(map, vec![vec![false; 5]; 5]);
}

#[test]
fn smoothing_fills_crowded_hole() {
    // a hole with eight filled neighbours is born; the 7 by 7 block keeps its core
    let mut map = vec![vec![true; 9]; 9];
    map[4][4] = false;
    cellular_automata_do_steps(&mut map);
    assert!(map[4][4]);
    assert!(!map[0][4]);
}

#[test]
fn smoothing_empty_map_stays_empty() {
    let mut map = vec![vec![false; 6]; 4];
    cellular_automata_do_steps(&mut map);
    assert_eq!(map, vec![vec![false; 6]; 4]);
}
