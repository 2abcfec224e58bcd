use mazegen::{Cell, Cells};

#[test]
fn render_one_row() {
    let mut cells = Cells::new(3, 1);
    cells.set(0, 0, Cell::Open);
    cells.set(1, 0, Cell::Accessible);
    let s = cells.render((u32::MAX, u32::MAX), (u32::MAX, u32::MAX), 1, 1);
    assert_eq!(s, "    ██░░..\n\n");
}

#[test]
fn render_closed_and_blocked_are_blank() {
    let mut cells = Cells::new(3, 1);
    cells.set(0, 0, Cell::ForceClosed);
    cells.set(1, 0, Cell::Closed);
    let s = cells.render((u32::MAX, u32::MAX), (u32::MAX, u32::MAX), 1, 1);
    assert_eq!(s, "        ..\n\n");
}

#[test]
fn render_entrance_and_exit_stretched() {
    let mut cells = Cells::new(3, 1);
    for x in 0..3 {
        cells.set(x, 0, Cell::Open);
    }
    let s = cells.render((0, 0), (2, 0), 3, 3);
    let edge = "    ██████  ██████\n";
    let middle = "    ██EE██████XX██\n";
    assert_eq!(s, format!("{}{}{}\n", edge, middle, edge));
}

#[test]
fn render_entrance_that_is_the_exit() {
    let mut cells = Cells::new(1, 1);
    cells.set(0, 0, Cell::Open);
    assert_eq!(cells.render((0, 0), (0, 0), 1, 1), "    EX\n\n");
}

#[test]
fn render_stretched_wall_between_open_rooms() {
    let mut cells = Cells::new(1, 3);
    for y in 0..3 {
        cells.set(0, y, Cell::Open);
    }
    let s = cells.render((9, 9), (9, 9), 3, 1);
    assert_eq!(s, "    ██████\n    ██████\n    ██████\n\n");
}

#[test]
fn every_glyph_is_two_wide() {
    let mut cells = Cells::new(5, 5);
    cells.set(0, 0, Cell::Open);
    cells.set(1, 0, Cell::Accessible);
    cells.set(2, 2, Cell::ForceClosed);
    cells.set(3, 2, Cell::Closed);
    let s = cells.render((0, 0), (4, 4), 2, 3);
    for line in s.lines().filter(|l| !l.is_empty()) {
        assert_eq!(line.chars().count(), 4 + 2 * (2 + 1 + 2 + 1 + 2));
    }
    assert_eq!(s.lines().count(), 3 + 1 + 3 + 1 + 3 + 1);
}
