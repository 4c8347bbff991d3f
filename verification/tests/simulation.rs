use toroidal_life::universe::Universe;

#[test]
fn seeding_matches_parity_pattern() {
    // Cells live exactly when index % 2 == 0 or index % 7 == 0: for one row
    // of eight cells that is indices 0, 2, 4, 6 (even) and 7, so the packed
    // byte reads 1,0,1,0,1,0,1,1 from bit 0 up.
    let u = Universe::new(8, 1);
    assert_eq!(u.cells()[0], 0b1101_0101);
    assert_eq!(u.render(), "10101011\n");
}

#[test]
fn seeding_is_shape_independent() {
    // The seed depends on the flat index alone, so a 3x3 grid packs the
    // same first byte and carries index 8 (even, live) into the second.
    let u = Universe::new(3, 3);
    assert_eq!(u.bytes(), 2);
    assert_eq!(u.cells()[0], 0b1101_0101);
    assert_eq!(u.cells()[1], 0b0000_0001);
    assert_eq!(u.render(), "101\n010\n111\n");
}

#[test]
fn toroidal_neighbors_wrap() {
    // On a 3x3 torus, (0,0) is adjacent to (2,2) diagonally, (2,0)
    // vertically and (0,2) horizontally. With exactly those three cells
    // live, (0,0) sees three neighbors and is born; every live cell sees
    // the other two and survives; every other dead cell also sees all
    // three and is born, so one tick fills the grid.
    let mut u = Universe::new(3, 3);
    u.clear();
    u.toggle_cell(2, 2);
    u.toggle_cell(2, 0);
    u.toggle_cell(0, 2);
    u.tick();
    assert_eq!(u.render(), "111\n111\n111\n");
}

#[test]
fn block_is_still_life() {
    let mut u = Universe::new(4, 4);
    u.clear();
    u.toggle_cell(1, 1);
    u.toggle_cell(1, 2);
    u.toggle_cell(2, 1);
    u.toggle_cell(2, 2);
    let before = u.render();
    assert_eq!(before, "0000\n0110\n0110\n0000\n");
    for _ in 0..5 {
        u.tick();
        assert_eq!(u.render(), before);
    }
}

#[test]
fn blinker_oscillates_with_period_two() {
    let mut u = Universe::new(5, 5);
    u.clear();
    u.toggle_cell(2, 1);
    u.toggle_cell(2, 2);
    u.toggle_cell(2, 3);
    let horizontal = u.render();
    assert_eq!(horizontal, "00000\n00000\n01110\n00000\n00000\n");
    u.tick();
    assert_eq!(u.render(), "00000\n00100\n00100\n00100\n00000\n");
    u.tick();
    assert_eq!(u.render(), horizontal);
}

#[test]
fn lone_cell_dies_of_underpopulation() {
    let mut u = Universe::new(5, 5);
    u.clear();
    u.toggle_cell(2, 2);
    u.tick();
    assert_eq!(u.render(), "00000\n00000\n00000\n00000\n00000\n");
}

#[test]
fn one_by_one_torus_counts_itself() {
    // On a 1x1 torus every wrapped neighbor coordinate is the cell itself,
    // so the seeded live cell sees eight live neighbors and dies of
    // overpopulation, after which the dead cell sees zero and stays dead.
    let mut u = Universe::new(1, 1);
    assert_eq!(u.render(), "1\n");
    u.tick();
    assert_eq!(u.render(), "0\n");
    u.tick();
    assert_eq!(u.render(), "0\n");
}

#[test]
fn render_is_idempotent() {
    let mut u = Universe::new(6, 4);
    assert_eq!(u.render(), u.render());
    u.tick();
    assert_eq!(u.render(), u.render());
}

#[test]
fn clear_renders_all_dead() {
    let mut u = Universe::new(5, 3);
    u.tick();
    u.clear();
    assert_eq!(u.render(), "00000\n00000\n00000\n");
}

#[test]
fn toggle_twice_restores_cell() {
    let mut u = Universe::new(4, 4);
    let before = u.render();
    u.toggle_cell(1, 2);
    assert_ne!(u.render(), before);
    u.toggle_cell(1, 2);
    assert_eq!(u.render(), before);
}

#[test]
fn bytes_is_bit_count_rounded_up() {
    // bytes() == ceil(width * height / 8) across exact and ragged sizes.
    assert_eq!(Universe::new(1, 1).bytes(), 1);
    assert_eq!(Universe::new(8, 1).bytes(), 1);
    assert_eq!(Universe::new(9, 1).bytes(), 2);
    assert_eq!(Universe::new(4, 4).bytes(), 2);
    assert_eq!(Universe::new(5, 5).bytes(), 4);
    assert_eq!(Universe::new(7, 7).bytes(), 7);
    assert_eq!(Universe::new(16, 16).bytes(), 32);
}

#[test]
fn dimensions_are_stored() {
    let mut u = Universe::new(7, 3);
    assert_eq!(u.width(), 7);
    assert_eq!(u.height(), 3);
    u.tick();
    assert_eq!(u.width(), 7);
    assert_eq!(u.height(), 3);
}

#[test]
fn set_cell_writes_one_bit() {
    let mut u = Universe::new(3, 1);
    u.clear();
    u.set_cell(1, true);
    assert_eq!(u.render(), "010\n");
    u.set_cell(1, true);
    assert_eq!(u.render(), "010\n");
    u.set_cell(1, false);
    assert_eq!(u.render(), "000\n");
}

#[test]
fn tick_writes_back_into_cells_buffer() {
    // The packed buffer the host reads reflects the new generation after a
    // tick: a blinker's row turns into a column in the raw bytes too.
    let mut u = Universe::new(5, 5);
    u.clear();
    u.toggle_cell(2, 1);
    u.toggle_cell(2, 2);
    u.toggle_cell(2, 3);
    u.tick();
    let bytes = u.cells();
    // Live cells are now flat indices 7, 12 and 17.
    assert_eq!(bytes[0], 0b1000_0000);
    assert_eq!(bytes[1], 0b0001_0000);
    assert_eq!(bytes[2], 0b0000_0010);
    assert_eq!(bytes[3], 0);
}
