use spinner::grid::{Arrow, Grid, Spinner};
use spinner::simulate::{exercise, exercise_trace};

fn arrow(dr: i8, da: i8) -> Grid {
    Grid::Arrow(Arrow { direction: (dr, da) })
}

#[test]
fn run_on_all_empty_board_scores_nothing() {
    let s = Spinner::new(3, 6);
    let score = exercise(&s);
    assert!(!score.punch);
    assert!(!score.enable_hand);
    assert!(!score.hand);
    assert!(!score.ice);
    // The marker sits at the entry cell, is marked visited, and the revisit
    // ends the run: the trajectory is exactly the entry cell.
    let (_, trace) = exercise_trace(&s);
    assert_eq!(trace, vec![(2, 0)]);
}

#[test]
fn hand_without_enabler_does_not_stop_the_run() {
    let mut s = Spinner::new(3, 3);
    s.set_grids(vec![
        (2, 0, arrow(-1, 0)),
        (1, 0, Grid::Hand),
        (0, 0, Grid::Ice),
    ]);
    let score = exercise(&s);
    // The run went past the goal cell and stopped on the ice beyond it.
    assert!(!score.hand);
    assert!(!score.enable_hand);
    assert!(score.ice);
    assert!(!score.punch);
}

#[test]
fn enabler_scores_and_does_not_stop_the_run() {
    let mut s = Spinner::new(3, 3);
    s.set_grids(vec![
        (2, 0, arrow(-1, 0)),
        (1, 0, Grid::On),
        (0, 0, Grid::Ice),
    ]);
    let score = exercise(&s);
    // The enabler was recorded and the run continued to the ice beyond it.
    assert!(score.enable_hand);
    assert!(score.ice);
    assert!(!score.hand);
    assert!(!score.punch);
}

#[test]
fn hand_after_enabler_stops_the_run() {
    let mut s = Spinner::new(3, 3);
    s.set_grids(vec![
        (2, 0, arrow(-1, 0)),
        (1, 0, Grid::On),
        (0, 0, Grid::Hand),
    ]);
    let score = exercise(&s);
    assert!(score.enable_hand);
    assert!(score.hand);
    assert!(!score.ice);
    assert!(!score.punch);
}

#[test]
fn punch_stops_the_run() {
    let mut s = Spinner::new(2, 4);
    s.set_grids(vec![
        (1, 0, arrow(0, 1)),
        (1, 1, Grid::Punch),
    ]);
    let score = exercise(&s);
    assert!(score.punch);
    assert!(!score.ice);
    assert!(!score.enable_hand);
    assert!(!score.hand);
}

#[test]
fn arrow_to_ice_two_cells_away_traverses_exactly_those_cells() {
    // One arrow at the entry cell points inward at an ice stop two cells
    // away, with nothing in between and no wraparound.
    let mut s = Spinner::new(4, 6);
    s.set_grids(vec![
        (3, 0, arrow(-1, 0)),
        (1, 0, Grid::Ice),
    ]);
    let (score, trace) = exercise_trace(&s);
    assert!(score.ice);
    assert!(!score.punch);
    assert!(!score.enable_hand);
    assert!(!score.hand);
    assert_eq!(trace, vec![(3, 0), (2, 0), (1, 0)]);
}

#[test]
fn marker_leaving_the_board_scores_nothing() {
    let mut s = Spinner::new(3, 4);
    s.set_grid(2, 0, arrow(1, 0));
    let (score, trace) = exercise_trace(&s);
    assert!(!score.punch && !score.enable_hand && !score.hand && !score.ice);
    assert_eq!(trace, vec![(2, 0)]);
}

#[test]
fn angular_motion_wraps_around() {
    let mut s = Spinner::new(2, 4);
    s.set_grids(vec![
        (1, 0, arrow(0, -1)),
        (1, 3, Grid::Ice),
    ]);
    let (score, trace) = exercise_trace(&s);
    assert!(score.ice);
    assert_eq!(trace, vec![(1, 0), (1, 3)]);
}

#[test]
fn run_stops_on_a_cycle_without_scoring() {
    let mut s = Spinner::new(2, 4);
    s.set_grids(vec![
        (1, 0, arrow(0, 1)),
        (1, 2, arrow(0, -1)),
    ]);
    let (score, trace) = exercise_trace(&s);
    assert!(!score.punch && !score.enable_hand && !score.hand && !score.ice);
    // (1,0) -> (1,1) -> (1,2) -> back towards (1,1), already visited.
    assert_eq!(trace, vec![(1, 0), (1, 1), (1, 2)]);
}
