use mazegen::{Cell, Cells};

fn paint(ch: char) -> Cell {
    match ch {
        '.' => Cell::Null,
        'O' => Cell::Open,
        'A' => Cell::Accessible,
        'C' => Cell::Closed,
        'F' => Cell::ForceClosed,
        _ => panic!("unknown paint {}", ch),
    }
}

fn letter(c: Cell) -> char {
    match c {
        Cell::Null => '.',
        Cell::Open => 'O',
        Cell::Accessible => 'A',
        Cell::Closed => 'C',
        Cell::ForceClosed => 'F',
    }
}

fn grid(rows: &[&str]) -> Cells {
    let h = rows.len() as u32;
    let w = rows[0].chars().count() as u32;
    let mut cells = Cells::new(w, h);
    for (y, row) in rows.iter().enumerate() {
        for (x, ch) in row.chars().enumerate() {
            cells.set(x as u32, y as u32, paint(ch));
        }
    }
    cells
}

fn dump(cells: &Cells) -> Vec<String> {
    let mut rows = Vec::new();
    for y in 0..cells.height() {
        let mut row = String::new();
        for x in 0..cells.width() {
            row.push(letter(cells.get(x, y)));
        }
        rows.push(row);
    }
    rows
}

#[test]
fn new_grid_is_all_null() {
    let cells = Cells::new(3, 2);
    assert_eq!(cells.width(), 3);
    assert_eq!(cells.height(), 2);
    for x in 0..3 {
        for y in 0..2 {
            assert_eq!(cells.get(x, y), Cell::Null);
        }
    }
}

#[test]
fn contains_is_the_grid() {
    let cells = Cells::new(3, 2);
    assert!(cells.contains(0, 0));
    assert!(cells.contains(2, 1));
    assert!(!cells.contains(3, 0));
    assert!(!cells.contains(0, 2));
    assert!(!cells.contains(u32::MAX, 0));
    assert!(!cells.contains(0, u32::MAX));
    let empty = Cells::new(0, 0);
    assert!(!empty.contains(0, 0));
}

#[test]
fn read_after_write() {
    let mut cells = Cells::new(4, 4);
    cells.set(1, 2, Cell::Closed);
    assert_eq!(cells.get(1, 2), Cell::Closed);
    assert_eq!(cells.get(2, 1), Cell::Null);
    cells.set(1, 2, Cell::Open);
    assert_eq!(cells.get(1, 2), Cell::Open);
    assert_eq!(dump(&cells), vec!["....", "....", ".O..", "...."]);
}

#[test]
fn repaint_walls_closes_and_offers_walls() {
    let mut cells = grid(&["O.O..", ".....", "O...."]);
    cells.repaint_walls();
    assert_eq!(dump(&cells), vec!["OCOA.", "C.A..", "OA..."]);
}

#[test]
fn repaint_walls_keeps_open_and_blocked_neighbours() {
    let mut cells = grid(&["O.F", "...", "OOO"]);
    cells.repaint_walls();
    assert_eq!(dump(&cells), vec!["O.F", "C..", "OOO"]);
}

#[test]
fn repaint_walls_twice_is_once() {
    let mut cells = grid(&["O.O..", ".....", "O...."]);
    cells.repaint_walls();
    let once = dump(&cells);
    cells.repaint_walls();
    assert_eq!(dump(&cells), once);
}

#[test]
fn accessible_walls_in_column_order() {
    let cells = grid(&["OCOA.", "C.A..", "OA..."]);
    assert_eq!(cells.accessible_walls(), vec![(1, 2), (2, 1), (3, 0)]);
}

#[test]
fn open_wall_opens_the_only_accessible_wall() {
    let mut cells = grid(&["OA."]);
    cells.open_wall();
    assert_eq!(dump(&cells), vec!["OOO"]);
}

#[test]
fn open_wall_without_accessible_walls_does_nothing() {
    let mut cells = grid(&["O.C"]);
    cells.open_wall();
    assert_eq!(dump(&cells), vec!["O.C"]);
}

#[test]
fn open_wall_at_opens_wall_and_both_sides() {
    let mut cells = grid(&["...", "...", "..."]);
    cells.open_wall_at(0, 1);
    assert_eq!(dump(&cells), vec!["O..", "O..", "O.."]);
    cells.open_wall_at(1, 2);
    assert_eq!(dump(&cells), vec!["O..", "O..", "OOO"]);
}

#[test]
fn completion_counts() {
    let cells = grid(&["OAO", "...", "O.F"]);
    let c = cells.completion();
    assert_eq!(c.filled, 3);
    assert_eq!(c.fillable, 7);
    assert_eq!(c.accessible, 1);
    assert!(cells.is_done(42));
    assert!(!cells.is_done(43));
}

#[test]
fn done_when_nothing_is_accessible() {
    let cells = grid(&["O.O", "...", "O.F"]);
    assert_eq!(cells.completion().accessible, 0);
    assert!(cells.is_done(100));
}

#[test]
fn pillars_are_not_counted() {
    let cells = grid(&["...", ".O.", "..."]);
    let c = cells.completion();
    assert_eq!(c.filled, 0);
    assert_eq!(c.fillable, 8);
}

#[test]
fn open_wall_with_opens_the_wall_at_the_index_drawn() {
    let mut cells = grid(&["OA.", "A..", "..."]);
    assert_eq!(cells.accessible_count(), 2);
    let mut second = grid(&["OA.", "A..", "..."]);
    cells.open_wall_with(0);
    assert_eq!(dump(&cells), vec!["OA.", "O..", "O.."]);
    second.open_wall_with(1);
    assert_eq!(dump(&second), vec!["OOO", "A..", "..."]);
}
