use mazegen::{Cell, Cells};

fn paint(ch: char) -> Cell {
    match ch {
        '.' => Cell::Null,
        'O' => Cell::Open,
        'A' => Cell::Accessible,
        'C' => Cell::Closed,
        'F' => Cell::ForceClosed,
        _ => panic!("unknown paint {}", ch),
    }
}

fn letter(c: Cell) -> char {
    match c {
        Cell::Null => '.',
        Cell::Open => 'O',
        Cell::Accessible => 'A',
        Cell::Closed => 'C',
        Cell::ForceClosed => 'F',
    }
}

fn grid(rows: &[&str]) -> Cells {
    let h = rows.len() as u32;
    let w = rows[0].chars().count() as u32;
    let mut cells = Cells::new(w, h);
    for (y, row) in rows.iter().enumerate() {
        for (x, ch) in row.chars().enumerate() {
            cells.set(x as u32, y as u32, paint(ch));
        }
    }
    cells
}

fn dump(cells: &Cells) -> Vec<String> {
    let mut rows = Vec::new();
    for y in 0..cells.height() {
        let mut row = String::new();
        for x in 0..cells.width() {
            row.push(letter(cells.get(x, y)));
        }
        rows.push(row);
    }
    rows
}

use mazegen::generate::{exit_accepted, room_of_draw};
use mazegen::{cell_dist, generate_map, MapConfig};

#[test]
fn standard_settings() {
    let c = MapConfig::standard();
    assert_eq!((c.w, c.h), (16, 16));
    assert_eq!(c.loop_density, 20);
    assert_eq!(c.loop_deletion_chance, 75);
    assert_eq!(c.max_island_cull, 35);
    assert_eq!(c.chance_preclosed, 20);
    assert_eq!((c.completion_amount_min, c.completion_amount_max), (80, 100));
    assert_eq!(c.tiny_dead_end_deletion_rate, 80);
    assert_eq!(c.blockage_radius, 4);
    assert_eq!((c.expander_w, c.expander_h), (1, 1));
}

#[test]
fn manhattan_distance() {
    assert_eq!(cell_dist((0, 0), (3, 4)), 7);
    assert_eq!(cell_dist((5, 1), (2, 9)), 11);
    assert_eq!(cell_dist((6, 6), (6, 6)), 0);
}

#[test]
fn grow_until_done() {
    let mut cells = grid(&["O.."]);
    cells.repaint_walls();
    assert_eq!(dump(&cells), vec!["OA."]);
    let (ran_out, steps) = cells.grow(100);
    assert_eq!(dump(&cells), vec!["OOO"]);
    assert!(ran_out);
    assert_eq!(steps, 1);
}

#[test]
fn grow_stops_at_the_completion_asked() {
    let mut cells = grid(&["O....", ".....", "....."]);
    cells.repaint_walls();
    let (ran_out, steps) = cells.grow(0);
    assert_eq!(dump(&cells), vec!["OA...", "A....", "....."]);
    assert!(!ran_out);
    assert_eq!(steps, 0);
}

#[test]
fn random_open_room_finds_the_only_one() {
    let cells = grid(&["...", "...", "..O"]);
    for _ in 0..20 {
        assert_eq!(cells.random_open_room((2, 2)), (2, 2));
    }
    assert_eq!(cells.pick_ends(2, 2, (2, 2)), ((2, 2), (2, 2)));
}

fn check_map(config: &MapConfig, seed: u64) {
    let map = generate_map(config, seed);
    let cells = &map.cells;
    assert_eq!(cells.width(), 2 * config.w - 1);
    assert_eq!(cells.height(), 2 * config.h - 1);
    for end in [map.entrance, map.exit] {
        assert_eq!(end.0 % 2, 0);
        assert_eq!(end.1 % 2, 0);
        assert_eq!(cells.get(end.0, end.1), Cell::Open);
    }
    assert_eq!(map.ends_coincide, map.entrance == map.exit);
    assert_eq!(map.start.0 % 2, 0);
    assert_eq!(map.start.1 % 2, 0);
    for &(x, y) in map.preclosed.iter() {
        assert_eq!(x % 2, 0);
        assert_eq!(y % 2, 0);
    }
    assert!(config.completion_amount_min <= map.completion_amount);
    if config.completion_amount_min < config.completion_amount_max {
        assert!(map.completion_amount < config.completion_amount_max);
    } else {
        assert_eq!(map.completion_amount, config.completion_amount_min);
    }
    assert!(map.growth_steps < config.w * config.h);
}

#[test]
fn standard_maps_have_open_ends() {
    let config = MapConfig::standard();
    for seed in 0..8 {
        check_map(&config, seed);
    }
}

#[test]
fn small_maps_have_open_ends() {
    let mut config = MapConfig::standard();
    for (w, h) in [(1, 1), (1, 4), (5, 2), (3, 3)] {
        config.w = w;
        config.h = h;
        for seed in 0..5 {
            check_map(&config, seed);
        }
    }
}

#[test]
fn same_seed_same_map() {
    let config = MapConfig::standard();
    let a = generate_map(&config, 42);
    let b = generate_map(&config, 42);
    assert_eq!(a.entrance, b.entrance);
    assert_eq!(a.exit, b.exit);
    assert_eq!(a.preclosed, b.preclosed);
    assert_eq!(dump(&a.cells), dump(&b.cells));
    assert_eq!(
        a.cells.render(a.entrance, a.exit, 1, 1),
        b.cells.render(b.entrance, b.exit, 1, 1)
    );
}

#[test]
fn standard_map_drawing_size() {
    let config = MapConfig::standard();
    let map = generate_map(&config, 7);
    let text = map.cells.render(map.entrance, map.exit, config.expander_w, config.expander_h);
    let lines: Vec<&str> = text.split('\n').collect();
    assert_eq!(lines.len(), 31 + 2);
    for line in &lines[..31] {
        assert_eq!(line.chars().count(), 4 + 2 * 31);
    }
    assert!(text.contains("EE") || text.contains("EX"));
}

#[test]
fn sure_preclosing_draws_below_the_bound() {
    let mut config = MapConfig::standard();
    config.w = 4;
    config.h = 3;
    config.chance_preclosed = 100;
    let map = generate_map(&config, 3);
    assert_eq!(map.preclosed.len(), 12);
}

#[test]
fn a_draw_lands_on_the_room_rounded_down_to_even() {
    assert_eq!(room_of_draw(0, 0), (0, 0));
    assert_eq!(room_of_draw(5, 8), (4, 8));
    assert_eq!(room_of_draw(7, 3), (6, 2));
}

#[test]
fn exits_closer_than_the_least_distance_are_refused() {
    // 16 by 16 rooms: the least distance starts at 8 and drops by one per redraw.
    assert!(!exit_accepted((0, 0), (4, 2), 0, 16, 16));
    assert!(exit_accepted((0, 0), (4, 4), 0, 16, 16));
    assert!(exit_accepted((0, 0), (4, 2), 2, 16, 16));
    assert!(!exit_accepted((0, 0), (2, 2), 3, 16, 16));
    assert!(exit_accepted((6, 6), (6, 6), 8, 16, 16));
    assert!(exit_accepted((6, 6), (6, 6), 20, 16, 16));
}

#[test]
fn pick_ends_keeps_an_exit_far_enough() {
    let cells = grid(&["O.O.O", ".....", "O.O.O", ".....", "O.O.O"]);
    for _ in 0..20 {
        let (entrance, exit) = cells.pick_ends(3, 3, (0, 0));
        assert_eq!(cells.get(entrance.0, entrance.1), Cell::Open);
        assert_eq!(cells.get(exit.0, exit.1), Cell::Open);
        assert_eq!(entrance.0 % 2 + entrance.1 % 2 + exit.0 % 2 + exit.1 % 2, 0);
    }
}

#[test]
fn done_for_a_completion_is_done_for_less() {
    let mut cells = grid(&["O....", ".....", "....."]);
    cells.repaint_walls();
    assert!(cells.is_done(0));
    assert!(!cells.is_done(50));
    let mut full = grid(&["OOOOO", "O.O.O", "OOOOO"]);
    full.repaint_walls();
    assert!(full.is_done(100));
    assert!(full.is_done(40));
}

#[test]
fn pillars_do_not_count_toward_done() {
    let mut a = grid(&["OA...", "A....", "....."]);
    let mut b = grid(&["OA...", "AO.O.", "....."]);
    for amount in [0, 10, 20, 50, 100] {
        assert_eq!(a.is_done(amount), b.is_done(amount));
    }
    a.set(1, 1, Cell::Closed);
    b.set(3, 1, Cell::ForceClosed);
    for amount in [0, 10, 20, 50, 100] {
        assert_eq!(a.is_done(amount), b.is_done(amount));
    }
}
