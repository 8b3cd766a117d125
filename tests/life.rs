use fractal_life::{Cell, Universe};

fn empty(width: u32, height: u32) -> Universe {
    let mut u = Universe::new(&Vec::new());
    u.resize(width, height);
    u
}

fn alive_cells(u: &Universe) -> Vec<(u32, u32)> {
    let mut out = Vec::new();
    for row in 0..u.height() {
        for col in 0..u.width() {
            if u.cell_at(row, col) == Cell::Alive {
                out.push((row, col));
            }
        }
    }
    out
}

#[test]
fn new_universe_is_seeded_from_draws() {
    let mut draws = vec![false; 64 * 64];
    draws[0] = true;
    draws[65] = true;
    let u = Universe::new(&draws);
    assert_eq!(u.width(), 64);
    assert_eq!(u.height(), 64);
    assert_eq!(alive_cells(&u), vec![(0, 0), (1, 1)]);
}

#[test]
fn new_universe_without_draws_is_dead() {
    let u = Universe::new(&vec![true, true]);
    assert_eq!(alive_cells(&u), vec![(0, 0), (0, 1)]);
}

#[test]
fn toggle_cell_flips_one_cell() {
    let mut u = empty(4, 3);
    u.toggle_cell(2, 3);
    assert_eq!(u.cell_at(2, 3), Cell::Alive);
    assert_eq!(alive_cells(&u), vec![(2, 3)]);
    u.toggle_cell(2, 3);
    assert_eq!(u.cell_at(2, 3), Cell::Dead);
}

#[test]
fn resize_discards_state() {
    let mut u = empty(4, 4);
    u.set_cells(&[(1, 1), (2, 2)]);
    u.resize(5, 2);
    assert_eq!(u.width(), 5);
    assert_eq!(u.height(), 2);
    assert!(alive_cells(&u).is_empty());
    u.set_width(7);
    assert_eq!((u.width(), u.height()), (7, 2));
    u.set_height(9);
    assert_eq!((u.width(), u.height()), (7, 9));
}

#[test]
fn corner_neighbours_wrap_around() {
    let mut u = empty(3, 3);
    u.set_cells(&[(2, 2), (2, 0), (0, 2)]);
    assert_eq!(u.live_neighbour_count(0, 0), 3);
    let mut v = empty(5, 5);
    v.set_cells(&[(4, 4), (4, 0), (0, 4), (2, 2)]);
    assert_eq!(v.live_neighbour_count(0, 0), 3);
    assert_eq!(v.live_neighbour_count(2, 2), 0);
}

#[test]
fn isolated_cell_dies() {
    let mut u = empty(5, 5);
    u.set_cells(&[(2, 2)]);
    u.tick();
    assert!(alive_cells(&u).is_empty());
}

#[test]
fn dead_cell_with_three_neighbours_is_born() {
    let mut u = empty(6, 6);
    u.set_cells(&[(1, 1), (1, 2), (2, 1)]);
    u.tick();
    assert_eq!(u.cell_at(2, 2), Cell::Alive);
    assert_eq!(alive_cells(&u), vec![(1, 1), (1, 2), (2, 1), (2, 2)]);
}

#[test]
fn blinker_has_period_two() {
    let mut u = empty(5, 5);
    u.set_cells(&[(2, 1), (2, 2), (2, 3)]);
    u.tick();
    assert_eq!(alive_cells(&u), vec![(1, 2), (2, 2), (3, 2)]);
    u.tick();
    assert_eq!(alive_cells(&u), vec![(2, 1), (2, 2), (2, 3)]);
}

#[test]
fn tick_covers_wide_grids() {
    let mut u = empty(8, 3);
    u.set_cells(&[(1, 5), (1, 6), (1, 7)]);
    u.tick();
    assert_eq!(alive_cells(&u), vec![(0, 6), (1, 6), (2, 6)]);
}

#[test]
fn cells_are_packed_one_bit_each() {
    let mut u = empty(10, 4);
    u.set_cells(&[(0, 0), (0, 5), (3, 1), (3, 2)]);
    let words = u.cells_ptr();
    assert_eq!(words, vec![1 | (1 << 5) | (1 << 31), 1]);
}

#[test]
fn get_cells_reports_each_word() {
    let mut u = empty(10, 4);
    u.set_cells(&[(3, 2)]);
    assert_eq!(u.get_cells(), vec![Cell::Dead, Cell::Alive]);
    let v = empty(0, 0);
    assert!(v.get_cells().is_empty());
}

#[test]
fn generation_counts_ticks_until_resize() {
    let mut u = empty(4, 4);
    assert_eq!(u.generation(), 0);
    u.tick();
    u.tick();
    u.toggle_cell(0, 0);
    u.set_cells(&[(1, 1)]);
    assert_eq!(u.generation(), 2);
    u.resize(3, 3);
    assert_eq!(u.generation(), 0);
    u.tick();
    u.set_width(5);
    assert_eq!(u.generation(), 0);
}

#[test]
fn cells_outside_the_grid_read_dead() {
    let mut u = empty(3, 2);
    u.set_cells(&[(1, 2), (0, 0)]);
    assert_eq!(u.cell_at(1, 2), Cell::Alive);
    assert_eq!(u.cell_at(0, 3), Cell::Dead);
    assert_eq!(u.cell_at(2, 0), Cell::Dead);
    assert_eq!(u.cell_at(u32::MAX, u32::MAX), Cell::Dead);
}
