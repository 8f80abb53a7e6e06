use island_procgen::region::{NoiseField, N_COLORS};
use island_procgen::sprite::{
    get_sprite, group_is_touching_group, max, Cell, CellDrawer, Faction, Group, GroupDrawer,
    PrimaryColor, Rgba, SPRITE_HEIGHT, SPRITE_WIDTH,
};

fn rgb(r: u8, g: u8, b: u8) -> Rgba {
    Rgba { r, g, b, a: 255 }
}

fn group_of(n: usize, x0: i32) -> Group {
    let arr = (0..n).map(|i| Cell { position: (x0, i as i32), color: rgb(10, 10, 10) }).collect();
    Group { arr, valid: true }
}

fn drawer_with_colors(cs: &[Rgba]) -> GroupDrawer {
    let cells = cs.iter().enumerate().map(|(i, c)| Cell { position: (i as i32, 0), color: *c }).collect();
    let mut d = GroupDrawer::new(Vec::new(), Vec::new());
    d.add_child(CellDrawer::new(cells));
    d
}

#[test]
fn ready_drops_small_groups() {
    let groups = vec![group_of(100, 0), group_of(20, 1), group_of(30, 2), group_of(5, 3)];
    let mut d = GroupDrawer::new(groups, Vec::new());
    d.ready();
    let sizes: Vec<usize> = d.groups.iter().map(|g| g.arr.len()).collect();
    assert_eq!(sizes, vec![100, 30]);
    let layers: Vec<usize> = d.children.iter().map(|c| c.cells.len()).collect();
    assert_eq!(layers, vec![30, 100]);
}

#[test]
fn ready_keeps_exact_quarter() {
    let mut d = GroupDrawer::new(vec![group_of(8, 0), group_of(2, 1), group_of(1, 2)], Vec::new());
    d.ready();
    let sizes: Vec<usize> = d.groups.iter().map(|g| g.arr.len()).collect();
    assert_eq!(sizes, vec![8, 2]);
}

#[test]
fn ready_with_no_groups() {
    let mut d = GroupDrawer::new(Vec::new(), Vec::new());
    d.ready();
    assert!(d.groups.is_empty());
    assert!(d.children.is_empty());
}

#[test]
fn ready_merges_touching_negative_group_once() {
    let body = Group {
        arr: vec![Cell { position: (2, 2), color: rgb(200, 0, 0) }, Cell { position: (2, 3), color: rgb(0, 0, 0) }],
        valid: true,
    };
    let other = Group { arr: vec![Cell { position: (2, 3), color: rgb(1, 1, 1) }], valid: true };
    let eye = Group { arr: vec![Cell { position: (2, 3), color: rgb(0, 0, 250) }], valid: true };
    let background = Group { arr: vec![Cell { position: (2, 2), color: rgb(9, 9, 9) }], valid: false };
    let far = Group { arr: vec![Cell { position: (9, 9), color: rgb(5, 5, 5) }], valid: true };
    let mut d = GroupDrawer::new(vec![body, other], vec![eye, background, far]);
    d.ready();
    assert_eq!(d.children.len(), 2);
    // the last group comes first and takes the eye
    assert_eq!(d.children[0].cells.len(), 2);
    assert_eq!(d.children[0].cells[1].color, rgb(0, 0, 250));
    assert_eq!(d.children[1].cells.len(), 2);
    assert!(d.negative_groups[0].arr.is_empty());
    assert_eq!(d.negative_groups[1].arr.len(), 1);
    assert_eq!(d.negative_groups[2].arr.len(), 1);
}

#[test]
fn touching_means_shared_position() {
    let a = Group { arr: vec![Cell { position: (1, 1), color: rgb(1, 2, 3) }], valid: true };
    let b = Group { arr: vec![Cell { position: (1, 2), color: rgb(1, 2, 3) }], valid: true };
    let c = Group { arr: vec![Cell { position: (0, 0), color: rgb(0, 0, 0) }, Cell { position: (1, 1), color: rgb(0, 0, 0) }], valid: false };
    assert!(!group_is_touching_group(&a, &b));
    assert!(group_is_touching_group(&a, &c));
    assert!(group_is_touching_group(&c, &a));
    assert!(!group_is_touching_group(&a, &Group { arr: Vec::new(), valid: true }));
}

#[test]
fn draw_all_white_board() {
    let d = GroupDrawer::new(Vec::new(), Vec::new());
    let board = d.draw_all();
    assert_eq!(board.len(), SPRITE_HEIGHT);
    assert!(board.iter().all(|row| row.len() == SPRITE_WIDTH));
    assert!(board.iter().flatten().all(|p| *p == rgb(255, 255, 255)));
}

#[test]
fn draw_all_paints_and_skips_off_board() {
    let cells = vec![
        Cell { position: (2, 3), color: rgb(1, 2, 3) },
        Cell { position: (-1, 3), color: rgb(4, 5, 6) },
        Cell { position: (3, -1), color: rgb(4, 5, 6) },
        Cell { position: (45, 0), color: rgb(4, 5, 6) },
        Cell { position: (0, 45), color: rgb(4, 5, 6) },
        Cell { position: (44, 44), color: rgb(7, 8, 9) },
    ];
    let mut d = GroupDrawer::new(Vec::new(), Vec::new());
    d.add_child(CellDrawer::new(cells));
    d.add_child(CellDrawer::new(vec![Cell { position: (2, 3), color: rgb(10, 11, 12) }]));
    let board = d.draw_all();
    assert_eq!(board[3][2], rgb(10, 11, 12));
    assert_eq!(board[44][44], rgb(7, 8, 9));
    let painted = board.iter().flatten().filter(|p| **p != rgb(255, 255, 255)).count();
    assert_eq!(painted, 2);
}

#[test]
fn primary_color_by_largest_total() {
    assert_eq!(drawer_with_colors(&[rgb(200, 10, 10)]).get_primary_color(), PrimaryColor::Red);
    assert_eq!(drawer_with_colors(&[rgb(10, 200, 10)]).get_primary_color(), PrimaryColor::Green);
    assert_eq!(drawer_with_colors(&[rgb(10, 10, 200), rgb(50, 0, 0)]).get_primary_color(), PrimaryColor::Blue);
    assert_eq!(drawer_with_colors(&[rgb(100, 100, 100)]).get_primary_color(), PrimaryColor::Red);
    assert_eq!(drawer_with_colors(&[rgb(10, 100, 100)]).get_primary_color(), PrimaryColor::Green);
    assert_eq!(drawer_with_colors(&[]).get_primary_color(), PrimaryColor::Red);
}

#[test]
fn faction_octants() {
    let cases = [
        (rgb(10, 10, 10), Faction::ChaosWarriors),
        (rgb(200, 10, 10), Faction::WaterBoys),
        (rgb(10, 200, 10), Faction::ForestBoys),
        (rgb(200, 200, 10), Faction::TechBoys),
        (rgb(10, 10, 200), Faction::HellSpawn),
        (rgb(200, 10, 200), Faction::SpaceAliens),
        (rgb(10, 200, 200), Faction::GoldenBoys),
        (rgb(200, 200, 200), Faction::JusticeSoldiers),
    ];
    for (c, f) in cases {
        assert_eq!(drawer_with_colors(&[c]).get_faction(), f);
    }
}

#[test]
fn faction_ignores_black_and_white() {
    let d = drawer_with_colors(&[rgb(0, 0, 0), rgb(255, 255, 255), rgb(200, 10, 10), rgb(0, 0, 0)]);
    assert_eq!(d.get_faction(), Faction::WaterBoys);
    assert_eq!(drawer_with_colors(&[rgb(0, 0, 0)]).get_faction(), Faction::ChaosWarriors);
    assert_eq!(drawer_with_colors(&[]).get_faction(), Faction::ChaosWarriors);
}

#[test]
fn faction_splits_at_half() {
    // average 127.5 is low, 128 is high
    assert_eq!(drawer_with_colors(&[rgb(127, 10, 10), rgb(128, 10, 10)]).get_faction(), Faction::ChaosWarriors);
    assert_eq!(drawer_with_colors(&[rgb(128, 10, 10)]).get_faction(), Faction::WaterBoys);
}

#[test]
fn faction_same_colors_same_faction() {
    let cs = [rgb(30, 140, 200), rgb(90, 220, 10), rgb(0, 0, 0)];
    let a = drawer_with_colors(&cs);
    let mut b = GroupDrawer::new(Vec::new(), Vec::new());
    b.add_child(CellDrawer::new(vec![Cell { position: (5, 5), color: cs[0] }]));
    b.add_child(CellDrawer::new(vec![Cell { position: (1, 9), color: cs[1] }, Cell { position: (3, 3), color: cs[2] }]));
    assert_eq!(a.get_faction(), b.get_faction());
}

#[test]
fn max_picks_larger() {
    assert_eq!(max(3, 9), 9);
    assert_eq!(max(9, 3), 9);
    assert_eq!(max(4, 4), 4);
}

#[test]
fn sprite_pipeline_end_to_end() {
    let palette: Vec<Rgba> = (0..N_COLORS).map(|i| rgb(20 * i as u8 + 1, 5, 5)).collect();
    let eyes: Vec<Rgba> = (0..N_COLORS).map(|i| rgb(5, 20 * i as u8 + 1, 5)).collect();
    let noise = NoiseField { samples: vec![vec![300_000; SPRITE_HEIGHT + 2]; SPRITE_WIDTH / 2 + 3] };
    let mut d = get_sprite(7, SPRITE_HEIGHT, SPRITE_WIDTH, &palette, &eyes, &noise, &noise);
    assert!(d.children.is_empty());
    assert!(d.groups.iter().all(|g| g.valid && !g.arr.is_empty()));
    d.ready();
    assert_eq!(d.children.len(), d.groups.len());
    let board = d.draw_all();
    assert_eq!(board.len(), SPRITE_HEIGHT);
    for p in board.iter().flatten() {
        let known = *p == rgb(255, 255, 255)
            || *p == rgb(0, 0, 0)
            || palette.contains(p)
            || eyes.contains(p);
        assert!(known);
    }
    let _ = d.get_faction();
    let _ = d.get_primary_color();
}
