use spinner::grid::{Arrow, Grid, Spinner};

fn arrow(dr: i8, da: i8) -> Grid {
    Grid::Arrow(Arrow { direction: (dr, da) })
}

#[test]
fn new_board_is_all_empty() {
    let s = Spinner::new(3, 5);
    assert_eq!(s.radial_size(), 3);
    assert_eq!(s.angular_size(), 5);
    for r in 0..3 {
        for a in 0..5 {
            assert_eq!(s.get_grid(r, a), Grid::Empty);
        }
    }
}

#[test]
fn set_grid_overwrites_one_cell() {
    let mut s = Spinner::new(2, 4);
    s.set_grid(1, 3, Grid::Ice);
    assert_eq!(s.get_grid(1, 3), Grid::Ice);
    s.set_grid(1, 3, Grid::Punch);
    assert_eq!(s.get_grid(1, 3), Grid::Punch);
    assert_eq!(s.get_grid(0, 3), Grid::Empty);
}

#[test]
fn set_grids_applies_in_order() {
    let mut s = Spinner::new(2, 4);
    s.set_grids(vec![
        (0, 1, Grid::Ice),
        (1, 2, Grid::On),
        (0, 1, Grid::Hand),
    ]);
    assert_eq!(s.get_grid(0, 1), Grid::Hand);
    assert_eq!(s.get_grid(1, 2), Grid::On);
}

#[test]
fn rotate_moves_cells_by_offset() {
    let mut s = Spinner::new(2, 4);
    s.set_grid(0, 1, Grid::Ice);
    s.set_grid(1, 1, Grid::On);
    s.mutate_angular(0, 1);
    // The cell that ends at angular position i was at (i + 1) mod 4.
    assert_eq!(s.get_grid(0, 0), Grid::Ice);
    assert_eq!(s.get_grid(0, 1), Grid::Empty);
    // The other ring is untouched.
    assert_eq!(s.get_grid(1, 1), Grid::On);
}

#[test]
fn rotate_round_trip_restores_ring() {
    let mut s = Spinner::new(3, 6);
    s.set_grids(vec![
        (2, 0, Grid::Ice),
        (2, 1, arrow(0, -1)),
        (2, 4, Grid::Hand),
        (1, 3, Grid::Punch),
    ]);
    for n in 0..=6 {
        s.mutate_angular(2, n);
        s.mutate_angular(2, 6 - n);
        assert_eq!(s.get_grid(2, 0), Grid::Ice);
        assert_eq!(s.get_grid(2, 1), arrow(0, -1));
        assert_eq!(s.get_grid(2, 2), Grid::Empty);
        assert_eq!(s.get_grid(2, 3), Grid::Empty);
        assert_eq!(s.get_grid(2, 4), Grid::Hand);
        assert_eq!(s.get_grid(2, 5), Grid::Empty);
        assert_eq!(s.get_grid(1, 3), Grid::Punch);
    }
}

#[test]
fn slide_moves_cells_along_folded_track() {
    // r_size = 2, so the track of axis 0 is
    // [(0,0), (1,0), (1,2), (0,2)], circular of length 4.
    let mut s = Spinner::new(2, 4);
    s.set_grid(0, 0, arrow(0, 1));
    s.set_grid(1, 0, Grid::Ice);
    s.set_grid(1, 2, arrow(1, -1));
    s.set_grid(0, 2, Grid::Punch);
    s.mutate_radial(0, 1);
    // Track position 0 takes old position 1, same half: unchanged.
    assert_eq!(s.get_grid(0, 0), Grid::Ice);
    // Track position 1 takes old position 2, crossing the center:
    // the arrow is flipped in both components.
    assert_eq!(s.get_grid(1, 0), arrow(-1, 1));
    // Track position 2 takes old position 3, same half: unchanged.
    assert_eq!(s.get_grid(1, 2), Grid::Punch);
    // Track position 3 takes old position 0, crossing the center.
    assert_eq!(s.get_grid(0, 2), arrow(0, -1));
    // The other diametrical pair is untouched.
    for r in 0..2 {
        assert_eq!(s.get_grid(r, 1), Grid::Empty);
        assert_eq!(s.get_grid(r, 3), Grid::Empty);
    }
}

#[test]
fn slide_round_trip_restores_both_columns() {
    let mut s = Spinner::new(3, 4);
    s.set_grids(vec![
        (0, 0, arrow(1, 1)),
        (1, 0, Grid::Ice),
        (2, 0, arrow(-1, 0)),
        (0, 2, Grid::On),
        (1, 2, arrow(0, -1)),
        (2, 2, Grid::Hand),
    ]);
    for n in 0..=6 {
        s.mutate_radial(0, n);
        s.mutate_radial(0, 6 - n);
        assert_eq!(s.get_grid(0, 0), arrow(1, 1));
        assert_eq!(s.get_grid(1, 0), Grid::Ice);
        assert_eq!(s.get_grid(2, 0), arrow(-1, 0));
        assert_eq!(s.get_grid(0, 2), Grid::On);
        assert_eq!(s.get_grid(1, 2), arrow(0, -1));
        assert_eq!(s.get_grid(2, 2), Grid::Hand);
    }
}

#[test]
fn slide_by_full_track_length_is_identity() {
    let mut s = Spinner::new(2, 4);
    s.set_grid(0, 1, arrow(1, 0));
    s.set_grid(1, 3, Grid::Ice);
    s.mutate_radial(1, 4);
    assert_eq!(s.get_grid(0, 1), arrow(1, 0));
    assert_eq!(s.get_grid(1, 3), Grid::Ice);
    for r in 0..2 {
        for a in 0..4 {
            if (r, a) != (0, 1) && (r, a) != (1, 3) {
                assert_eq!(s.get_grid(r, a), Grid::Empty);
            }
        }
    }
}
