//! The marker simulator: replays the marker's deterministic path across the
//! current board from the fixed entry cell (outermost ring, angular index 0)
//! and records which terminal conditions were observed.

use vstd::prelude::*;

verus! {

use crate::grid::{Grid, Spinner};

/// The outcome record of one simulation run: which terminal or marker
/// conditions were observed. `hand` can only be set after `enable_hand`.
#[derive(Clone, Copy, PartialEq, Eq, Structural, Debug)]
pub struct Score {
    pub punch: bool,
    pub enable_hand: bool,
    pub hand: bool,
    pub ice: bool,
}

/// The all-false outcome a run starts from.
pub open spec fn score_empty() -> Score {
    Score { punch: false, enable_hand: false, hand: false, ice: false }
}

/// A location or direction pair widened to mathematical integers.
pub open spec fn loc_view(p: (i8, i8)) -> (int, int) {
    (p.0 as int, p.1 as int)
}

/// A recorded trajectory widened to mathematical integers.
pub open spec fn trace_view(t: Seq<(i8, i8)>) -> Seq<(int, int)> {
    t.map_values(|p: (i8, i8)| loc_view(p))
}

/// One step of marker motion: the radial component moves linearly and is
/// checked against the board bounds only at the next iteration; the angular
/// component always wraps modulo `a_size`.
pub open spec fn advance_loc(loc: (int, int), dir: (int, int), a_size: int) -> (int, int) {
    (loc.0 + dir.0, (loc.1 + dir.1 + a_size) % a_size)
}

/// The remainder of a run from a given marker state: the final outcome, and
/// the positions the run still visits, in order. The run ends without scoring
/// when the marker returns to a visited position or leaves the radial range;
/// otherwise the current cell acts and the marker advances. `fuel` bounds the
/// recursion depth; a run from the entry cell visits each board position at
/// most once, so any fuel above `r_size * a_size` never runs out.
pub open spec fn sim(
    b: Seq<Seq<Grid>>,
    r_size: int,
    a_size: int,
    loc: (int, int),
    dir: (int, int),
    enabled: bool,
    visited: Set<(int, int)>,
    score: Score,
    fuel: nat,
) -> (Score, Seq<(int, int)>)
    decreases fuel,
{
    if fuel == 0 {
        (score, Seq::empty())
    } else if visited.contains(loc) || loc.0 < 0 || loc.0 >= r_size {
        (score, Seq::empty())
    } else {
        let visited2 = visited.insert(loc);
        let fuel2 = (fuel - 1) as nat;
        match b[loc.0][loc.1] {
            Grid::Arrow(ar) => {
                let dir2 = (ar.direction.0 as int, ar.direction.1 as int);
                let rest = sim(b, r_size, a_size, advance_loc(loc, dir2, a_size), dir2,
                    enabled, visited2, score, fuel2);
                (rest.0, seq![loc] + rest.1)
            },
            Grid::Ice => (
                Score { punch: score.punch, enable_hand: score.enable_hand,
                    hand: score.hand, ice: true },
                seq![loc],
            ),
            Grid::Punch => (
                Score { punch: true, enable_hand: score.enable_hand,
                    hand: score.hand, ice: score.ice },
                seq![loc],
            ),
            Grid::On => {
                let score2 = Score { punch: score.punch, enable_hand: true,
                    hand: score.hand, ice: score.ice };
                let rest = sim(b, r_size, a_size, advance_loc(loc, dir, a_size), dir,
                    true, visited2, score2, fuel2);
                (rest.0, seq![loc] + rest.1)
            },
            Grid::Hand => {
                if enabled {
                    (
                        Score { punch: score.punch, enable_hand: score.enable_hand,
                            hand: true, ice: score.ice },
                        seq![loc],
                    )
                } else {
                    let rest = sim(b, r_size, a_size, advance_loc(loc, dir, a_size), dir,
                        enabled, visited2, score, fuel2);
                    (rest.0, seq![loc] + rest.1)
                }
            },
            Grid::Empty => {
                let rest = sim(b, r_size, a_size, advance_loc(loc, dir, a_size), dir,
                    enabled, visited2, score, fuel2);
                (rest.0, seq![loc] + rest.1)
            },
        }
    }
}

/// Fuel that can never run out: one more than the number of board positions.
pub open spec fn sim_fuel(r_size: int, a_size: int) -> nat {
    (r_size * a_size + 1) as nat
}

/// A full run on a board of the given sizes: the marker starts at the entry
/// cell (outermost ring, angular index 0), stationary (direction (0, 0)),
/// disabled, with nothing visited and an all-false outcome.
pub open spec fn run_result(b: Seq<Seq<Grid>>, r_size: int, a_size: int)
    -> (Score, Seq<(int, int)>) {
    sim(b, r_size, a_size, (r_size - 1, 0), (0, 0), false, Set::empty(), score_empty(),
        sim_fuel(r_size, a_size))
}

/// The outcome of a full run on a board of the given sizes.
pub open spec fn run_score(b: Seq<Seq<Grid>>, r_size: int, a_size: int) -> Score {
    run_result(b, r_size, a_size).0
}

/// A full run on `s`.
pub open spec fn exercise_result(s: Spinner) -> (Score, Seq<(int, int)>) {
    run_result(s.board(), s.r_size as int, s.a_size as int)
}

/// The outcome of a full run on `s`.
pub open spec fn spec_exercise(s: Spinner) -> Score {
    exercise_result(s).0
}

/// The positions a full run on `s` visits, in order.
pub open spec fn spec_trace(s: Spinner) -> Seq<(int, int)> {
    exercise_result(s).1
}

/// Whether a recorded trajectory contains a position, seen through the lens
/// that the simulator's model uses.
proof fn lemma_trace_view_contains(t: Seq<(i8, i8)>, p: (i8, i8))
    ensures
        t.contains(p) <==> trace_view(t).contains(loc_view(p)),
{
    if t.contains(p) {
        let j = choose|j: int| 0 <= j < t.len() && t[j] == p;
        assert(trace_view(t)[j] == loc_view(p));
    }
    if trace_view(t).contains(loc_view(p)) {
        let j = choose|j: int| 0 <= j < trace_view(t).len()
            && trace_view(t)[j] == loc_view(p);
        assert(t[j] == p);
    }
}

/// Distinct board positions have distinct flat codes `radial * a_size +
/// angular`.
proof fn lemma_code_injective(p: (int, int), q: (int, int), a_size: int)
    requires
        0 <= p.1 < a_size,
        0 <= q.1 < a_size,
        p.0 * a_size + p.1 == q.0 * a_size + q.1,
    ensures
        p == q,
{
    assert(p.0 == q.0 && p.1 == q.1) by (nonlinear_arith)
        requires
            0 <= p.1 < a_size,
            0 <= q.1 < a_size,
            p.0 * a_size + p.1 == q.0 * a_size + q.1,
    {
    }
}

/// The flat code of an in-range position lies in `[0, r_size * a_size)`.
proof fn lemma_code_in_range(p: (int, int), r_size: int, a_size: int)
    requires
        0 <= p.0 < r_size,
        0 <= p.1 < a_size,
    ensures
        0 <= p.0 * a_size + p.1 < r_size * a_size,
{
    assert(0 <= p.0 * a_size + p.1 < r_size * a_size) by (nonlinear_arith)
        requires
            0 <= p.0 < r_size,
            0 <= p.1 < a_size,
    {
    }
}

/// Runs the marker across the board and reports the outcome together with
/// the trajectory: every position the marker visited, in order. The run stops
/// at a terminal cell, at a revisited position, or when the marker leaves the
/// radial range; the board is only read.
#[verifier::loop_isolation(false)]
#[verifier::rlimit(50)]
pub fn exercise_trace(spinner: &Spinner) -> (res: (Score, Vec<(i8, i8)>))
    requires
        spinner.wf(),
    ensures
        res.0 == spec_exercise(*spinner),
        trace_view(res.1@) == spec_trace(*spinner),
{
    let r_size = spinner.r_size;
    let a_size = spinner.a_size;
    let ghost b = spinner.board();
    let ghost rs = r_size as int;
    let ghost asz = a_size as int;

    let mut score = Score { punch: false, enable_hand: false, hand: false, ice: false };
    let mut loc: (i8, i8) = ((r_size - 1) as i8, 0);
    let mut dir: (i8, i8) = (0, 0);
    let mut is_hand_enabled = false;
    let mut visited: Vec<(i8, i8)> = Vec::new();
    let ghost mut vset: Set<(int, int)> = Set::empty();
    let ghost mut remaining: Set<int> = vstd::set_lib::set_int_range(0, rs * asz);
    proof {
        vstd::set_lib::lemma_int_range(0, rs * asz);
        assert(rs * asz >= 1) by (nonlinear_arith)
            requires
                rs >= 1,
                asz >= 1,
        {
        }
        assert(vset =~= trace_view(visited@).to_set());
        assert forall|p: (int, int)|
            0 <= p.0 < rs && 0 <= p.1 < asz && !(#[trigger] vset.contains(p)) implies
            remaining.contains(p.0 * asz + p.1) by {
            lemma_code_in_range(p, rs, asz);
        }
        assert(trace_view(visited@) + exercise_result(*spinner).1
            =~= exercise_result(*spinner).1);
    }

    loop
        invariant
            spinner.wf(),
            r_size == spinner.r_size,
            a_size == spinner.a_size,
            b == spinner.board(),
            -1 <= loc.0 <= r_size,
            0 <= loc.1 < a_size,
            -1 <= dir.0 <= 1,
            -1 <= dir.1 <= 1,
            vset == trace_view(visited@).to_set(),
            remaining.finite(),
            visited@.len() + remaining.len() == rs * asz,
            forall|p: (int, int)|
                0 <= p.0 < rs && 0 <= p.1 < asz && !(#[trigger] vset.contains(p))
                    ==> remaining.contains(p.0 * asz + p.1),
            exercise_result(*spinner).0 == sim(b, rs, asz, loc_view(loc), loc_view(dir),
                is_hand_enabled, vset, score, (remaining.len() + 1) as nat).0,
            exercise_result(*spinner).1 == trace_view(visited@) + sim(b, rs, asz,
                loc_view(loc), loc_view(dir), is_hand_enabled, vset, score,
                (remaining.len() + 1) as nat).1,
        decreases remaining.len(),
    {
        let ghost v0 = visited@;
        let ghost vset0 = vset;
        let ghost rem0 = remaining;
        let ghost l0 = loc_view(loc);
        let ghost d0 = loc_view(dir);
        let ghost en0 = is_hand_enabled;
        let ghost sc0 = score;
        let ghost fuel0 = (remaining.len() + 1) as nat;

        let revisited = contains_loc(&visited, loc);
        proof {
            lemma_trace_view_contains(v0, loc);
        }
        if revisited || loc.0 < 0 || loc.0 >= r_size as i8 {
            proof {
                assert(vset0.contains(l0) || l0.0 < 0 || l0.0 >= rs);
                assert(sim(b, rs, asz, l0, d0, en0, vset0, sc0, fuel0)
                    == (sc0, Seq::<(int, int)>::empty()));
                assert(exercise_result(*spinner).1 =~= trace_view(visited@));
            }
            return (score, visited);
        }

        visited.push(loc);
        proof {
            assert(!vset0.contains(l0));
            assert(remaining.contains(l0.0 * asz + l0.1));
            vset = vset0.insert(l0);
            remaining = rem0.remove(l0.0 * asz + l0.1);
            assert(remaining.len() == rem0.len() - 1);
            assert(trace_view(visited@) =~= trace_view(v0).push(l0));
            assert(vset =~= trace_view(visited@).to_set()) by {
                broadcast use vstd::seq_lib::lemma_seq_contains_after_push;

                assert(trace_view(visited@) == trace_view(v0).push(l0));
            }
            assert forall|p: (int, int)|
                0 <= p.0 < rs && 0 <= p.1 < asz && !(#[trigger] vset.contains(p)) implies
                remaining.contains(p.0 * asz + p.1) by {
                assert(p != l0);
                assert(rem0.contains(p.0 * asz + p.1));
                if p.0 * asz + p.1 == l0.0 * asz + l0.1 {
                    lemma_code_injective(p, l0, asz);
                }
            }
        }

        let cell = spinner.grids[loc.0 as usize][loc.1 as usize];
        proof {
            assert(b[l0.0] == spinner.grids@[l0.0]@);
            assert(cell == b[l0.0][l0.1]);
            assert(crate::grid::grid_ok(b[l0.0][l0.1]));
        }
        match cell {
            Grid::Arrow(arrow) => {
                dir = arrow.direction;
            },
            Grid::Ice => {
                score.ice = true;
                proof {
                    assert(sim(b, rs, asz, l0, d0, en0, vset0, sc0, fuel0)
                        == (score, seq![l0]));
                    assert(exercise_result(*spinner).1 =~= trace_view(visited@));
                }
                return (score, visited);
            },
            Grid::Punch => {
                score.punch = true;
                proof {
                    assert(sim(b, rs, asz, l0, d0, en0, vset0, sc0, fuel0)
                        == (score, seq![l0]));
                    assert(exercise_result(*spinner).1 =~= trace_view(visited@));
                }
                return (score, visited);
            },
            Grid::On => {
                is_hand_enabled = true;
                score.enable_hand = true;
            },
            Grid::Hand => {
                if is_hand_enabled {
                    score.hand = true;
                    proof {
                        assert(sim(b, rs, asz, l0, d0, en0, vset0, sc0, fuel0)
                            == (score, seq![l0]));
                        assert(exercise_result(*spinner).1 =~= trace_view(visited@));
                    }
                    return (score, visited);
                }
            },
            Grid::Empty => {},
        }
        loc = (loc.0 + dir.0, (loc.1 + dir.1 + a_size as i8) % (a_size as i8));
        proof {
            let rest = sim(b, rs, asz, loc_view(loc), loc_view(dir), is_hand_enabled,
                vset, score, (remaining.len() + 1) as nat);
            assert(loc_view(loc) == advance_loc(l0, loc_view(dir), asz));
            assert(sim(b, rs, asz, l0, d0, en0, vset0, sc0, fuel0)
                == (rest.0, seq![l0] + rest.1));
            assert(trace_view(v0) + (seq![l0] + rest.1)
                =~= trace_view(visited@) + rest.1);
        }
    }
}

/// Runs the marker across the board from the fixed entry cell and reports
/// which terminal conditions it met: whether an ice or punch stop was hit,
/// whether the enabler was triggered, and whether the goal cell stopped the
/// run (which it only does after the enabler).
pub fn exercise(spinner: &Spinner) -> (score: Score)
    requires
        spinner.wf(),
    ensures
        score == spec_exercise(*spinner),
{
    let res = exercise_trace(spinner);
    res.0
}

/// A run never clears an outcome field: whatever the outcome already records
/// when the marker is in some state is still recorded when the run ends.
pub proof fn lemma_sim_score_monotone(
    b: Seq<Seq<Grid>>,
    r_size: int,
    a_size: int,
    loc: (int, int),
    dir: (int, int),
    enabled: bool,
    visited: Set<(int, int)>,
    score: Score,
    fuel: nat,
)
    ensures
        ({
            let r = sim(b, r_size, a_size, loc, dir, enabled, visited, score, fuel).0;
            &&& (score.punch ==> r.punch)
            &&& (score.enable_hand ==> r.enable_hand)
            &&& (score.hand ==> r.hand)
            &&& (score.ice ==> r.ice)
        }),
    decreases fuel,
{
    if fuel == 0 {
    } else if visited.contains(loc) || loc.0 < 0 || loc.0 >= r_size {
    } else {
        let visited2 = visited.insert(loc);
        let fuel2 = (fuel - 1) as nat;
        match b[loc.0][loc.1] {
            Grid::Arrow(ar) => {
                let dir2 = (ar.direction.0 as int, ar.direction.1 as int);
                lemma_sim_score_monotone(b, r_size, a_size, advance_loc(loc, dir2, a_size),
                    dir2, enabled, visited2, score, fuel2);
            },
            Grid::Ice => {},
            Grid::Punch => {},
            Grid::On => {
                let score2 = Score { punch: score.punch, enable_hand: true,
                    hand: score.hand, ice: score.ice };
                lemma_sim_score_monotone(b, r_size, a_size, advance_loc(loc, dir, a_size),
                    dir, true, visited2, score2, fuel2);
            },
            Grid::Hand => {
                if !enabled {
                    lemma_sim_score_monotone(b, r_size, a_size,
                        advance_loc(loc, dir, a_size), dir, enabled, visited2, score,
                        fuel2);
                }
            },
            Grid::Empty => {
                lemma_sim_score_monotone(b, r_size, a_size, advance_loc(loc, dir, a_size),
                    dir, enabled, visited2, score, fuel2);
            },
        }
    }
}

/// The goal is gated by the enabler: a run whose outcome and enabled flag do
/// not already record the goal or the enabler can record the goal only
/// together with the enabler.
proof fn lemma_sim_hand_needs_enabler(
    b: Seq<Seq<Grid>>,
    r_size: int,
    a_size: int,
    loc: (int, int),
    dir: (int, int),
    enabled: bool,
    visited: Set<(int, int)>,
    score: Score,
    fuel: nat,
)
    requires
        enabled ==> score.enable_hand,
        score.hand ==> score.enable_hand,
    ensures
        sim(b, r_size, a_size, loc, dir, enabled, visited, score, fuel).0.hand
            ==> sim(b, r_size, a_size, loc, dir, enabled, visited, score, fuel).0.enable_hand,
    decreases fuel,
{
    if fuel == 0 {
    } else if visited.contains(loc) || loc.0 < 0 || loc.0 >= r_size {
    } else {
        let visited2 = visited.insert(loc);
        let fuel2 = (fuel - 1) as nat;
        match b[loc.0][loc.1] {
            Grid::Arrow(ar) => {
                let dir2 = (ar.direction.0 as int, ar.direction.1 as int);
                lemma_sim_hand_needs_enabler(b, r_size, a_size,
                    advance_loc(loc, dir2, a_size), dir2, enabled, visited2, score, fuel2);
            },
            Grid::Ice => {},
            Grid::Punch => {},
            Grid::On => {
                let score2 = Score { punch: score.punch, enable_hand: true,
                    hand: score.hand, ice: score.ice };
                lemma_sim_hand_needs_enabler(b, r_size, a_size,
                    advance_loc(loc, dir, a_size), dir, true, visited2, score2, fuel2);
            },
            Grid::Hand => {
                if !enabled {
                    lemma_sim_hand_needs_enabler(b, r_size, a_size,
                        advance_loc(loc, dir, a_size), dir, enabled, visited2, score, fuel2);
                }
            },
            Grid::Empty => {
                lemma_sim_hand_needs_enabler(b, r_size, a_size,
                    advance_loc(loc, dir, a_size), dir, enabled, visited2, score, fuel2);
            },
        }
    }
}

/// A full run can reach the goal only having passed the enabler first: an
/// outcome that records the goal also records the enabler.
pub proof fn lemma_run_hand_needs_enabler(b: Seq<Seq<Grid>>, r_size: int, a_size: int)
    ensures
        run_score(b, r_size, a_size).hand ==> run_score(b, r_size, a_size).enable_hand,
{
    lemma_sim_hand_needs_enabler(b, r_size, a_size, (r_size - 1, 0), (0, 0), false,
        Set::empty(), score_empty(), sim_fuel(r_size, a_size));
}

/// A run on an all-empty board ends with every outcome field false: the
/// travel direction stays (0, 0), so the marker sits at the entry cell, is
/// marked visited, and the revisit on the next iteration ends the run. The
/// trajectory is exactly the entry cell.
pub proof fn lemma_exercise_all_empty(s: Spinner)
    requires
        s.wf(),
        forall|i: int, j: int|
            0 <= i < s.r_size && 0 <= j < s.a_size ==> s.board()[i][j] == Grid::Empty,
    ensures
        spec_exercise(s) == score_empty(),
        spec_trace(s) == seq![((s.r_size - 1) as int, 0 as int)],
{
    let b = s.board();
    let rs = s.r_size as int;
    let asz = s.a_size as int;
    let entry = (rs - 1, 0 as int);
    let fuel = sim_fuel(rs, asz);
    assert(rs * asz >= 1) by (nonlinear_arith)
        requires
            rs >= 1,
            asz >= 1,
    {
    }
    assert(b[entry.0][entry.1] == Grid::Empty);
    assert((0 + 0 + asz) % asz == 0) by {
        vstd::arithmetic::div_mod::lemma_mod_self_0(asz);
    }
    assert(advance_loc(entry, (0 as int, 0 as int), asz) == entry);
    let visited2 = Set::<(int, int)>::empty().insert(entry);
    let rest = sim(b, rs, asz, entry, (0 as int, 0 as int), false, visited2, score_empty(),
        (fuel - 1) as nat);
    assert(visited2.contains(entry));
    assert(rest == (score_empty(), Seq::<(int, int)>::empty()));
    assert(exercise_result(s) == (score_empty(), seq![entry] + Seq::<(int, int)>::empty()));
    assert(seq![entry] + Seq::<(int, int)>::empty() =~= seq![entry]);
}

/// Reaching the goal cell with the enabled flag unset neither stops the run
/// nor records the goal: the run continues exactly as from the advanced
/// state, with the flag still unset and the outcome unchanged.
pub proof fn lemma_sim_hand_not_enabled(
    b: Seq<Seq<Grid>>,
    r_size: int,
    a_size: int,
    loc: (int, int),
    dir: (int, int),
    visited: Set<(int, int)>,
    score: Score,
    fuel: nat,
)
    requires
        fuel >= 1,
        !visited.contains(loc),
        0 <= loc.0 < r_size,
        b[loc.0][loc.1] == Grid::Hand,
    ensures
        ({
            let rest = sim(b, r_size, a_size, advance_loc(loc, dir, a_size), dir, false,
                visited.insert(loc), score, (fuel - 1) as nat);
            sim(b, r_size, a_size, loc, dir, false, visited, score, fuel)
                == (rest.0, seq![loc] + rest.1)
        }),
{
}

/// Reaching an enabler cell records `enable_hand`, sets the enabled flag for
/// the remainder of the run, and does not stop it: the run continues exactly
/// as from the advanced state, and the final outcome has `enable_hand` set.
pub proof fn lemma_sim_enabler(
    b: Seq<Seq<Grid>>,
    r_size: int,
    a_size: int,
    loc: (int, int),
    dir: (int, int),
    enabled: bool,
    visited: Set<(int, int)>,
    score: Score,
    fuel: nat,
)
    requires
        fuel >= 1,
        !visited.contains(loc),
        0 <= loc.0 < r_size,
        b[loc.0][loc.1] == Grid::On,
    ensures
        ({
            let score2 = Score { punch: score.punch, enable_hand: true, hand: score.hand,
                ice: score.ice };
            let rest = sim(b, r_size, a_size, advance_loc(loc, dir, a_size), dir, true,
                visited.insert(loc), score2, (fuel - 1) as nat);
            sim(b, r_size, a_size, loc, dir, enabled, visited, score, fuel)
                == (rest.0, seq![loc] + rest.1)
        }),
        sim(b, r_size, a_size, loc, dir, enabled, visited, score, fuel).0.enable_hand,
{
    let score2 = Score { punch: score.punch, enable_hand: true, hand: score.hand,
        ice: score.ice };
    lemma_sim_score_monotone(b, r_size, a_size, advance_loc(loc, dir, a_size), dir, true,
        visited.insert(loc), score2, (fuel - 1) as nat);
}

/// Whether a recorded trajectory contains the given position.
fn contains_loc(t: &Vec<(i8, i8)>, loc: (i8, i8)) -> (found: bool)
    ensures
        found == t@.contains(loc),
{
    let mut k: usize = 0;
    while k < t.len()
        invariant
            k <= t@.len(),
            forall|j: int| 0 <= j < k ==> t@[j] != loc,
        decreases t@.len() - k,
    {
        let e = t[k];
        if e.0 == loc.0 && e.1 == loc.1 {
            assert(t@[k as int] == loc);
            return true;
        }
        k += 1;
    }
    false
}

} // verus!
