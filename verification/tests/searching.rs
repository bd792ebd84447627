use spinner::grid::{Arrow, Grid, Spinner};
use spinner::search::{search, Move};
use spinner::simulate::exercise;

fn arrow(dr: i8, da: i8) -> Grid {
    Grid::Arrow(Arrow { direction: (dr, da) })
}

// A board one ring-rotation away from a winning layout: rotating ring 1 by 3
// restores entry -> arrow -> enabler -> arrow -> goal.
fn one_move_from_win() -> Spinner {
    let mut s = Spinner::new(2, 4);
    s.set_grids(vec![
        (1, 0, Grid::On),
        (1, 1, arrow(-1, 0)),
        (1, 3, arrow(0, 1)),
        (0, 2, Grid::Hand),
    ]);
    s
}

#[test]
fn search_finds_a_one_move_win() {
    let mut s = one_move_from_win();
    let result = search(&mut s, 1);
    let path = result.expect("a one-move solution exists");
    assert_eq!(path.len(), 1);
    // The candidates before this rotation all fail, so first-found
    // depth-first order returns exactly it.
    assert_eq!(path, vec![Move::Rotate { ring: 1, amount: 3 }]);
    // The board is left in the winning position.
    let score = exercise(&s);
    assert!(score.hand);
    assert!(score.enable_hand);
}

#[test]
fn search_with_enabler_and_hand_swapped_finds_nothing() {
    // The same layout with the enabler and the goal exchanged: the marker
    // reaches the goal cell before the enabler, so no single move wins.
    let mut s = Spinner::new(2, 4);
    s.set_grids(vec![
        (1, 0, Grid::Hand),
        (1, 1, arrow(-1, 0)),
        (1, 3, arrow(0, 1)),
        (0, 2, Grid::On),
    ]);
    let result = search(&mut s, 1);
    assert!(result.is_none());
}

#[test]
fn failed_search_restores_the_board() {
    // No goal cell anywhere, so no move sequence can win: the search
    // exhausts the bounded tree and leaves no net mutation behind.
    let mut s = Spinner::new(2, 4);
    let layout: Vec<(usize, usize, Grid)> = vec![
        (1, 0, arrow(0, 1)),
        (1, 1, Grid::Ice),
        (0, 0, Grid::On),
        (0, 3, Grid::Punch),
        (1, 2, arrow(-1, -1)),
    ];
    s.set_grids(layout.clone());
    let result = search(&mut s, 2);
    assert!(result.is_none());
    let mut fresh = Spinner::new(2, 4);
    fresh.set_grids(layout);
    for r in 0..2 {
        for a in 0..4 {
            assert_eq!(s.get_grid(r, a), fresh.get_grid(r, a));
        }
    }
}

#[test]
fn search_at_depth_zero_finds_nothing() {
    let mut s = one_move_from_win();
    assert!(search(&mut s, 0).is_none());
}

#[test]
fn search_finds_a_two_move_win() {
    // Both rings sit one rotation away from the winning layout
    // entry -> arrow -> enabler -> arrow -> goal, and no single move wins:
    // the search must go to depth two.
    let mut s = Spinner::new(2, 4);
    s.set_grids(vec![
        (1, 0, Grid::On),
        (1, 1, arrow(-1, 0)),
        (1, 3, arrow(0, 1)),
        (0, 1, Grid::Hand),
    ]);
    let result = search(&mut s, 2);
    let path = result.expect("a two-move solution exists");
    assert_eq!(path.len(), 2);
    let score = exercise(&s);
    assert!(score.hand);
}
