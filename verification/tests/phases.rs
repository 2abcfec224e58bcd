use mazegen::{Cell, Cells};

fn paint(ch: char) -> Cell {
    match ch {
        '.' => Cell::Null,
        'O' => Cell::Open,
        'A' => Cell::Accessible,
        'C' => Cell::Closed,
        'F' => Cell::ForceClosed,
        _ => panic!("unknown paint {}", ch),
    }
}

fn letter(c: Cell) -> char {
    match c {
        Cell::Null => '.',
        Cell::Open => 'O',
        Cell::Accessible => 'A',
        Cell::Closed => 'C',
        Cell::ForceClosed => 'F',
    }
}

fn grid(rows: &[&str]) -> Cells {
    let h = rows.len() as u32;
    let w = rows[0].chars().count() as u32;
    let mut cells = Cells::new(w, h);
    for (y, row) in rows.iter().enumerate() {
        for (x, ch) in row.chars().enumerate() {
            cells.set(x as u32, y as u32, paint(ch));
        }
    }
    cells
}

fn dump(cells: &Cells) -> Vec<String> {
    let mut rows = Vec::new();
    for y in 0..cells.height() {
        let mut row = String::new();
        for x in 0..cells.width() {
            row.push(letter(cells.get(x, y)));
        }
        rows.push(row);
    }
    rows
}

#[test]
fn preclose_room_blocks_room_and_its_walls() {
    let mut cells = Cells::new(5, 5);
    cells.preclose_room(1, 1);
    assert_eq!(dump(&cells), vec![".....", "..F..", ".FFF.", "..F..", "....."]);
}

#[test]
fn preclose_room_in_a_corner_stays_inside() {
    let mut cells = Cells::new(5, 5);
    cells.preclose_room(0, 0);
    cells.preclose_room(2, 2);
    assert_eq!(dump(&cells), vec!["FF...", "F....", ".....", "....F", "...FF"]);
}

#[test]
fn preclose_rooms_with_sure_chance_blocks_every_room() {
    let mut cells = Cells::new(5, 5);
    let rooms = cells.preclose_rooms(3, 3, 100);
    assert_eq!(
        rooms,
        vec![(0, 0), (2, 0), (4, 0), (0, 2), (2, 2), (4, 2), (0, 4), (2, 4), (4, 4)]
    );
    assert_eq!(dump(&cells), vec!["FFFFF", "F.F.F", "FFFFF", "F.F.F", "FFFFF"]);
}

#[test]
fn preclose_rooms_with_no_chance_blocks_nothing() {
    let mut cells = Cells::new(5, 5);
    let rooms = cells.preclose_rooms(3, 3, 0);
    assert!(rooms.is_empty());
    assert_eq!(dump(&cells), vec!["....."; 5]);
}

#[test]
fn clear_around_clips_to_the_grid() {
    let mut cells = grid(&["FFFFF", "FFFFF", "FFFFF", "FFFFF", "FFFFF"]);
    cells.clear_around(2, 2, 1);
    assert_eq!(dump(&cells), vec!["FFFFF", "F...F", "F...F", "F...F", "FFFFF"]);
    let mut corner = grid(&["FFFFF", "FFFFF", "FFFFF", "FFFFF", "FFFFF"]);
    corner.clear_around(0, 0, 1);
    assert_eq!(dump(&corner), vec!["..FFF", "..FFF", "FFFFF", "FFFFF", "FFFFF"]);
    let mut wide = grid(&["FFF", "FFF"]);
    wide.clear_around(2, 1, 4);
    assert_eq!(dump(&wide), vec!["...", "..."]);
    let mut only = grid(&["FFF", "FFF"]);
    only.clear_around(1, 0, 0);
    assert_eq!(dump(&only), vec!["F.F", "FFF"]);
}

#[test]
fn add_loops_with_sure_chance_opens_closed_walls() {
    let mut cells = grid(&["OCO", "C.A", "O.O"]);
    cells.add_loops(100);
    assert_eq!(dump(&cells), vec!["OOO", "O.A", "O.O"]);
}

#[test]
fn add_loops_with_no_chance_changes_nothing() {
    let mut cells = grid(&["OCO", "C.A", "O.O"]);
    cells.add_loops(0);
    assert_eq!(dump(&cells), vec!["OCO", "C.A", "O.O"]);
}

#[test]
fn add_loops_leaves_closed_rooms() {
    let mut cells = grid(&["C.C"]);
    cells.add_loops(100);
    assert_eq!(dump(&cells), vec!["C.C"]);
}

#[test]
fn count_open_sides_counts_the_four_neighbours() {
    let cells = grid(&["OOOOO", "..O..", "..O..", ".....", "....."]);
    assert_eq!(cells.count_open_sides(0, 0), 1);
    assert_eq!(cells.count_open_sides(2, 0), 3);
    assert_eq!(cells.count_open_sides(2, 2), 1);
    assert_eq!(cells.count_open_sides(4, 4), 0);
}

#[test]
fn prune_dead_end_closes_it_when_the_way_on_branches() {
    let mut cells = grid(&["OOOOO", "..O..", "..O..", ".....", "....."]);
    cells.prune_dead_end(0, 0);
    assert_eq!(dump(&cells)[0], "CCOOO");
}

#[test]
fn prune_dead_end_keeps_it_when_the_way_on_does_not_branch() {
    let mut cells = grid(&["OOOOO", ".....", ".....", ".....", "....."]);
    cells.prune_dead_end(0, 0);
    assert_eq!(dump(&cells)[0], "OOOOO");
}

#[test]
fn prune_dead_end_looks_left_right_up_and_down() {
    let mut left = grid(&["OOOOO", "..O..", "....."]);
    left.prune_dead_end(4, 0);
    assert_eq!(dump(&left), vec!["OOOCC", "..O..", "....."]);
    let mut up = grid(&["OOO", "..O", "OOO", "..O", "..O"]);
    up.prune_dead_end(2, 4);
    assert_eq!(dump(&up), vec!["OOO", "..O", "OOO", "..C", "..C"]);
    let mut down = grid(&["O.O", "O.O", "OOO", "O..", "O.."]);
    down.prune_dead_end(0, 0);
    assert_eq!(dump(&down), vec!["C.O", "C.O", "OOO", "O..", "O.."]);
}

#[test]
fn prune_dead_ends_with_sure_rate() {
    let mut cells = grid(&["OOOOO", "..O..", "..O..", ".....", "....."]);
    cells.prune_dead_ends(3, 3, (9, 9), (9, 9), 100);
    assert_eq!(dump(&cells), vec!["CCOOO", "..O..", "..O..", ".....", "....."]);
}

#[test]
fn prune_dead_ends_spares_the_entrance() {
    let mut cells = grid(&["OOOOO", "..O..", "..O..", ".....", "....."]);
    cells.prune_dead_ends(3, 3, (0, 0), (9, 9), 100);
    assert_eq!(dump(&cells), vec!["OOOCC", "..O..", "..O..", ".....", "....."]);
}

#[test]
fn prune_dead_ends_with_no_chance() {
    let mut cells = grid(&["OOOOO", "..O..", "..O..", ".....", "....."]);
    cells.prune_dead_ends(3, 3, (9, 9), (9, 9), 0);
    assert_eq!(dump(&cells), vec!["OOOOO", "..O..", "..O..", ".....", "....."]);
}

#[test]
fn preclose_rooms_with_blocks_the_rooms_whose_draw_is_low() {
    let mut cells = grid(&[".....", ".....", ".....", ".....", "....."]);
    let draws = vec![0, 99, 50, 10, 20, 30, 99, 0, 5];
    let rooms = cells.preclose_rooms_with(3, 3, &draws, 25);
    assert_eq!(rooms, vec![(0, 0), (0, 2), (2, 2), (2, 4), (4, 4)]);
    assert_eq!(cells.get(2, 2), Cell::ForceClosed);
    assert_eq!(cells.get(4, 0), Cell::Null);
}

#[test]
fn add_loops_with_opens_the_closed_walls_whose_draw_is_low() {
    let mut cells = grid(&["OCO", "C.C", "OCO"]);
    cells.add_loops_with(&vec![0, 99, 99, 0], 50);
    assert_eq!(dump(&cells), vec!["OOO", "C.C", "OOO"]);
    let mut other = grid(&["OCO", "C.C", "OCO"]);
    other.add_loops_with(&vec![99, 0, 60, 99], 50);
    assert_eq!(dump(&other), vec!["OCO", "O.C", "OCO"]);
}

#[test]
fn prune_dead_ends_with_follows_the_draws_in_order() {
    let mut first = grid(&["OOOOO", "..O..", "..O..", ".....", "....."]);
    first.prune_dead_ends_with(3, 3, (9, 9), (9, 9), &vec![0, 99, 99, 99, 99, 99, 99, 99, 99], 50);
    assert_eq!(dump(&first), vec!["CCOOO", "..O..", "..O..", ".....", "....."]);
    let mut second = grid(&["OOOOO", "..O..", "..O..", ".....", "....."]);
    second.prune_dead_ends_with(3, 3, (9, 9), (9, 9), &vec![99, 0, 99, 99, 99, 99, 99, 99, 99], 50);
    assert_eq!(dump(&second), vec!["OOOCC", "..O..", "..O..", ".....", "....."]);
}
