use mazegen::{Cell, Cells};

fn paint(ch: char) -> Cell {
    match ch {
        '.' => Cell::Null,
        'O' => Cell::Open,
        'A' => Cell::Accessible,
        'C' => Cell::Closed,
        'F' => Cell::ForceClosed,
        _ => panic!("unknown paint {}", ch),
    }
}

fn letter(c: Cell) -> char {
    match c {
        Cell::Null => '.',
        Cell::Open => 'O',
        Cell::Accessible => 'A',
        Cell::Closed => 'C',
        Cell::ForceClosed => 'F',
    }
}

fn grid(rows: &[&str]) -> Cells {
    let h = rows.len() as u32;
    let w = rows[0].chars().count() as u32;
    let mut cells = Cells::new(w, h);
    for (y, row) in rows.iter().enumerate() {
        for (x, ch) in row.chars().enumerate() {
            cells.set(x as u32, y as u32, paint(ch));
        }
    }
    cells
}

fn dump(cells: &Cells) -> Vec<String> {
    let mut rows = Vec::new();
    for y in 0..cells.height() {
        let mut row = String::new();
        for x in 0..cells.width() {
            row.push(letter(cells.get(x, y)));
        }
        rows.push(row);
    }
    rows
}

fn sorted(mut v: Vec<(u32, u32)>) -> Vec<(u32, u32)> {
    v.sort();
    v
}

#[test]
fn flood_fill_stops_at_open_cells() {
    let cells = grid(&["..O", ".O.", "O.."]);
    assert_eq!(sorted(cells.flood_fill(0, 0)), vec![(0, 0), (0, 1), (1, 0)]);
    assert_eq!(sorted(cells.flood_fill(2, 1)), vec![(1, 2), (2, 1), (2, 2)]);
}

#[test]
fn flood_fill_from_an_open_cell_includes_it() {
    let cells = grid(&["..O", ".O.", "O.."]);
    assert_eq!(
        sorted(cells.flood_fill(1, 1)),
        vec![(0, 0), (0, 1), (1, 0), (1, 1), (1, 2), (2, 1), (2, 2)]
    );
}

#[test]
fn flood_fill_lists_each_cell_once() {
    let cells = grid(&["....", "....", "...."]);
    let region = cells.flood_fill(1, 1);
    assert_eq!(region.len(), 12);
    assert_eq!(sorted(region.clone()).len(), 12);
    let mut dedup = sorted(region);
    dedup.dedup();
    assert_eq!(dedup.len(), 12);
}

#[test]
fn regions_of_one_component_are_equal() {
    let cells = grid(&["..O.", "O.O.", "..O."]);
    assert_eq!(sorted(cells.flood_fill(0, 0)), sorted(cells.flood_fill(0, 2)));
    assert_eq!(sorted(cells.flood_fill(3, 0)), sorted(cells.flood_fill(3, 2)));
    let a = sorted(cells.flood_fill(0, 0));
    let b = sorted(cells.flood_fill(3, 1));
    assert!(a.iter().all(|p| !b.contains(p)));
}

#[test]
fn find_islands_in_scan_order() {
    let cells = grid(&["OOOOO", "O.OCO", "OOOOO", "OAO.O", "OOOOO"]);
    let islands = cells.find_islands();
    assert_eq!(islands, vec![vec![(1, 1)], vec![(3, 1)], vec![(1, 3)], vec![(3, 3)]]);
}

#[test]
fn cells_joined_to_the_border_are_no_island() {
    let cells = grid(&["OOOOO", "O.OCO", "OOOOO", "OAO.O", "OOO.O"]);
    let islands = cells.find_islands();
    assert_eq!(islands, vec![vec![(1, 1)], vec![(3, 1)], vec![(1, 3)]]);
}

#[test]
fn a_larger_island_is_one_island() {
    let cells = grid(&["OOOOO", "O..OO", "O.OOO", "OOOOO"]);
    let islands = cells.find_islands();
    assert_eq!(islands.len(), 1);
    assert_eq!(sorted(islands[0].clone()), vec![(1, 1), (1, 2), (2, 1)]);
}

#[test]
fn no_islands_without_an_open_ring() {
    let cells = grid(&["...", "...", "..."]);
    assert!(cells.find_islands().is_empty());
}

#[test]
fn open_all_opens_listed_cells() {
    let mut cells = grid(&["...", "...", "..."]);
    cells.open_all(&vec![(0, 0), (2, 1), (0, 0)]);
    assert_eq!(dump(&cells), vec!["O..", "..O", "..."]);
}

#[test]
fn delete_islands_opens_small_islands_for_sure_chance() {
    let mut cells = grid(&["OOOOO", "O..OO", "O.OCO", "OOOOO"]);
    let islands = cells.find_islands();
    assert_eq!(islands.len(), 2);
    cells.delete_islands(&islands, 35, 100);
    assert_eq!(dump(&cells), vec!["OOOOO", "OOOOO", "OOOOO", "OOOOO"]);
}

#[test]
fn delete_islands_keeps_islands_too_large_or_unlucky() {
    let mut cells = grid(&["OOOOO", "O..OO", "O.OCO", "OOOOO"]);
    let islands = cells.find_islands();
    cells.delete_islands(&islands, 2, 100);
    assert_eq!(dump(&cells), vec!["OOOOO", "O..OO", "O.OOO", "OOOOO"]);
    let mut again = grid(&["OOOOO", "O..OO", "O.OCO", "OOOOO"]);
    again.delete_islands(&islands, 35, 0);
    assert_eq!(dump(&again), vec!["OOOOO", "O..OO", "O.OCO", "OOOOO"]);
}

#[test]
fn delete_islands_with_opens_the_islands_whose_draw_is_low() {
    let base = grid(&["OOOOO", "O..OO", "O.OCO", "OOOOO"]);
    let islands = base.find_islands();
    assert_eq!(islands.len(), 2);
    for (which, draws) in [(0usize, vec![0, 99]), (1usize, vec![99, 0])] {
        let mut cells = grid(&["OOOOO", "O..OO", "O.OCO", "OOOOO"]);
        cells.delete_islands_with(&islands, 35, &draws, 50);
        for (i, island) in islands.iter().enumerate() {
            for &(x, y) in island.iter() {
                if i == which {
                    assert_eq!(cells.get(x, y), Cell::Open);
                } else {
                    assert_eq!(cells.get(x, y), base.get(x, y));
                }
            }
        }
    }
}
