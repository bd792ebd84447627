//! The depth-bounded backtracking search: tries move sequences, simulating
//! after each move, and stops at the first sequence whose outcome reaches the
//! goal. Every trial move is undone by its algebraic inverse on backtrack, so
//! a failed search leaves the board exactly as it found it.

use vstd::prelude::*;

verus! {

use crate::grid::{
    lemma_rotate_round_trip, lemma_slide_round_trip, rotate_board, slide_board, Grid, Spinner,
};
use crate::simulate::{exercise, run_score, spec_exercise};

/// One puzzle move.
#[derive(Clone, Copy, PartialEq, Eq, Structural, Debug)]
pub enum Move {
    /// Rotate ring `ring` by `amount` angular positions.
    Rotate { ring: usize, amount: usize },
    /// Slide the diametrical pair at angular index `axis` by `amount` steps
    /// along the folded track of length `2 * r_size`.
    Slide { axis: usize, amount: usize },
}

/// Whether a move is one of the candidates the search enumerates on a board
/// of the given sizes: indices in range, amount nonzero and below one full
/// turn of its track.
pub open spec fn move_valid(m: Move, r_size: int, a_size: int) -> bool {
    match m {
        Move::Rotate { ring, amount } => ring < r_size && 1 <= amount < a_size,
        Move::Slide { axis, amount } => axis < a_size / 2 && 1 <= amount < 2 * r_size,
    }
}

/// The board after one move.
pub open spec fn apply_move(b: Seq<Seq<Grid>>, m: Move, r_size: int, a_size: int)
    -> Seq<Seq<Grid>> {
    match m {
        Move::Rotate { ring, amount } => rotate_board(b, ring as int, amount as int, a_size),
        Move::Slide { axis, amount } => slide_board(b, axis as int, amount as int, r_size,
            a_size),
    }
}

/// The board after a sequence of moves, applied in order.
pub open spec fn apply_moves(b: Seq<Seq<Grid>>, moves: Seq<Move>, r_size: int, a_size: int)
    -> Seq<Seq<Grid>>
    decreases moves.len(),
{
    if moves.len() == 0 {
        b
    } else {
        apply_move(apply_moves(b, moves.drop_last(), r_size, a_size), moves.last(), r_size,
            a_size)
    }
}

/// Whether every move of a sequence is a candidate the search enumerates.
pub open spec fn seq_valid(ms: Seq<Move>, r_size: int, a_size: int) -> bool {
    forall|k: int| 0 <= k < ms.len() ==> move_valid(#[trigger] ms[k], r_size, a_size)
}

/// What a node of the search has established about the candidate first moves
/// it has fully explored: no valid sequence of at most `depth_left` moves
/// that begins with one of them leads to a board whose run reaches the goal.
spec fn explored_fail(
    b0: Seq<Seq<Grid>>,
    tried: Set<Move>,
    depth_left: int,
    r_size: int,
    a_size: int,
) -> bool {
    forall|ms: Seq<Move>|
        1 <= ms.len() <= depth_left && #[trigger] seq_valid(ms, r_size, a_size)
            && tried.contains(ms[0])
            ==> !run_score(apply_moves(b0, ms, r_size, a_size), r_size, a_size).hand
}

/// After one candidate first move has failed — the run on the board it leaves
/// does not reach the goal, and neither does any valid continuation of at
/// most `depth_left - 1` further moves — the move joins the exhausted set.
proof fn lemma_candidate_fails(
    b0: Seq<Seq<Grid>>,
    tried: Set<Move>,
    m: Move,
    depth_left: int,
    r_size: int,
    a_size: int,
)
    requires
        depth_left >= 1,
        explored_fail(b0, tried, depth_left, r_size, a_size),
        !run_score(apply_move(b0, m, r_size, a_size), r_size, a_size).hand,
        forall|ms2: Seq<Move>|
            1 <= ms2.len() <= depth_left - 1 && #[trigger] seq_valid(ms2, r_size, a_size)
                ==> !run_score(apply_moves(apply_move(b0, m, r_size, a_size), ms2, r_size,
                    a_size), r_size, a_size).hand,
    ensures
        explored_fail(b0, tried.insert(m), depth_left, r_size, a_size),
{
    assert forall|ms: Seq<Move>|
        1 <= ms.len() <= depth_left && #[trigger] seq_valid(ms, r_size, a_size)
            && tried.insert(m).contains(ms[0]) implies !run_score(
        apply_moves(b0, ms, r_size, a_size), r_size, a_size).hand by {
        if ms[0] == m {
            lemma_apply_moves_one(b0, m, r_size, a_size);
            if ms.len() == 1 {
                assert(ms =~= seq![m]);
            } else {
                let rest = ms.skip(1);
                assert(ms =~= seq![m] + rest);
                assert(seq_valid(rest, r_size, a_size)) by {
                    assert forall|k: int| 0 <= k < rest.len() implies move_valid(
                        #[trigger] rest[k], r_size, a_size) by {
                        assert(move_valid(ms[k + 1], r_size, a_size));
                    }
                }
                lemma_apply_moves_concat(b0, seq![m], rest, r_size, a_size);
            }
        } else {
            assert(tried.contains(ms[0]));
        }
    }
}

/// Applying a concatenation of move sequences applies the first, then the
/// second.
proof fn lemma_apply_moves_concat(
    b: Seq<Seq<Grid>>,
    s1: Seq<Move>,
    s2: Seq<Move>,
    r_size: int,
    a_size: int,
)
    ensures
        apply_moves(b, s1 + s2, r_size, a_size)
            == apply_moves(apply_moves(b, s1, r_size, a_size), s2, r_size, a_size),
    decreases s2.len(),
{
    if s2.len() == 0 {
        assert(s1 + s2 =~= s1);
    } else {
        lemma_apply_moves_concat(b, s1, s2.drop_last(), r_size, a_size);
        assert((s1 + s2).drop_last() =~= s1 + s2.drop_last());
        assert((s1 + s2).last() == s2.last());
    }
}

/// A single move as a move sequence.
proof fn lemma_apply_moves_one(b: Seq<Seq<Grid>>, m: Move, r_size: int, a_size: int)
    ensures
        apply_moves(b, seq![m], r_size, a_size) == apply_move(b, m, r_size, a_size),
{
    assert(seq![m].drop_last() =~= Seq::<Move>::empty());
    assert(apply_moves(b, Seq::<Move>::empty(), r_size, a_size) == b);
    assert(seq![m].last() == m);
}

/// One node of the backtracking search, at recursion depth `level`: tries
/// every slide of every axis, then every rotation of every ring, in a fixed
/// order; after each candidate it simulates a run, recurses if the goal was
/// not reached and the depth limit allows, and undoes the candidate by its
/// algebraic inverse before trying the next. Returns at the first success
/// without undoing, leaving the winning moves appended to `path` and the
/// board in the winning position; returns false, with board and path exactly
/// restored, precisely when no valid extension of `path` by 1 to
/// `max_depth - level` moves leads to a board whose run reaches the goal.
#[verifier::loop_isolation(false)]
#[verifier::rlimit(50)]
pub fn dfs(spinner: &mut Spinner, level: usize, max_depth: usize, path: &mut Vec<Move>)
    -> (found: bool)
    requires
        old(spinner).wf(),
        level <= max_depth,
    ensures
        final(spinner).wf(),
        final(spinner).r_size == old(spinner).r_size,
        final(spinner).a_size == old(spinner).a_size,
        !found ==> final(spinner).board() == old(spinner).board()
            && final(path)@ == old(path)@,
        !found ==> forall|ms: Seq<Move>|
            1 <= ms.len() <= max_depth - level && #[trigger] seq_valid(ms,
                old(spinner).r_size as int, old(spinner).a_size as int)
                ==> !run_score(apply_moves(old(spinner).board(), ms,
                    old(spinner).r_size as int, old(spinner).a_size as int),
                    old(spinner).r_size as int, old(spinner).a_size as int).hand,
        found ==> {
            &&& old(path)@.is_prefix_of(final(path)@)
            &&& old(path)@.len() < final(path)@.len()
            &&& final(path)@.len() <= old(path)@.len() + (max_depth - level)
            &&& seq_valid(final(path)@.skip(old(path)@.len() as int),
                old(spinner).r_size as int, old(spinner).a_size as int)
            &&& final(spinner).board() == apply_moves(old(spinner).board(),
                final(path)@.skip(old(path)@.len() as int), old(spinner).r_size as int,
                old(spinner).a_size as int)
            &&& spec_exercise(*final(spinner)).hand
        },
    decreases max_depth - level,
{
    if level >= max_depth {
        return false;
    }
    let r_size = spinner.r_size;
    let a_size = spinner.a_size;
    let ghost b0 = spinner.board();
    let ghost p0 = path@;
    let ghost rs = r_size as int;
    let ghost asz = a_size as int;
    let ghost depth_left = max_depth - level;
    let ghost mut tried: Set<Move> = Set::empty();

    let half = a_size / 2;
    let track_len = 2 * r_size;
    for a in 0..half
        invariant
            spinner.wf(),
            spinner.r_size == r_size,
            spinner.a_size == a_size,
            spinner.board() == b0,
            path@ == p0,
            explored_fail(b0, tried, depth_left as int, rs, asz),
            forall|ax: usize, am: usize|
                ax < a && 1 <= am < track_len ==> #[trigger] tried.contains(
                    Move::Slide { axis: ax, amount: am }),
    {
        for n in 1..track_len
            invariant
                spinner.wf(),
                spinner.r_size == r_size,
                spinner.a_size == a_size,
                spinner.board() == b0,
                path@ == p0,
                explored_fail(b0, tried, depth_left as int, rs, asz),
                forall|ax: usize, am: usize|
                    ax < a && 1 <= am < track_len ==> #[trigger] tried.contains(
                        Move::Slide { axis: ax, amount: am }),
                forall|am: usize|
                    1 <= am < n ==> #[trigger] tried.contains(
                        Move::Slide { axis: a, amount: am }),
        {
            spinner.mutate_radial(a, n);
            let m = Move::Slide { axis: a, amount: n };
            path.push(m);
            let ghost p1 = path@;
            let score = exercise(spinner);
            if score.hand {
                proof {
                    lemma_apply_moves_one(b0, m, rs, asz);
                    assert(path@.skip(p0.len() as int) =~= seq![m]);
                    assert(path@.subrange(0, p0.len() as int) =~= p0);
                }
                return true;
            }
            if dfs(spinner, level + 1, max_depth, path) {
                proof {
                    let suffix2 = path@.skip(p1.len() as int);
                    lemma_apply_moves_one(b0, m, rs, asz);
                    lemma_apply_moves_concat(b0, seq![m], suffix2, rs, asz);
                    assert(path@.subrange(0, p1.len() as int) =~= p1);
                    assert(path@.subrange(0, p0.len() as int) =~= p0);
                    assert(path@[p0.len() as int] == m) by {
                        assert(path@.subrange(0, p1.len() as int)[p0.len() as int]
                            == path@[p0.len() as int]);
                    }
                    assert(seq![m] + suffix2 =~= path@.skip(p0.len() as int));
                    assert forall|k: int|
                        0 <= k < path@.skip(p0.len() as int).len() implies move_valid(
                        #[trigger] path@.skip(p0.len() as int)[k], rs, asz) by {
                        if k > 0 {
                            assert(move_valid(suffix2[k - 1], rs, asz));
                        }
                    }
                }
                return true;
            }
            path.pop();
            spinner.mutate_radial(a, track_len - n);
            proof {
                lemma_slide_round_trip(b0, a as int, n as int, rs, asz);
                assert(path@ =~= p0);
                lemma_candidate_fails(b0, tried, m, depth_left as int, rs, asz);
                tried = tried.insert(m);
            }
        }
    }
    for n in 1..a_size
        invariant
            spinner.wf(),
            spinner.r_size == r_size,
            spinner.a_size == a_size,
            spinner.board() == b0,
            path@ == p0,
            explored_fail(b0, tried, depth_left as int, rs, asz),
            forall|ax: usize, am: usize|
                ax < half && 1 <= am < track_len ==> #[trigger] tried.contains(
                    Move::Slide { axis: ax, amount: am }),
            forall|rg: usize, am: usize|
                rg < r_size && 1 <= am < n ==> #[trigger] tried.contains(
                    Move::Rotate { ring: rg, amount: am }),
    {
        for r in 0..r_size
            invariant
                spinner.wf(),
                spinner.r_size == r_size,
                spinner.a_size == a_size,
                spinner.board() == b0,
                path@ == p0,
                explored_fail(b0, tried, depth_left as int, rs, asz),
                forall|ax: usize, am: usize|
                    ax < half && 1 <= am < track_len ==> #[trigger] tried.contains(
                        Move::Slide { axis: ax, amount: am }),
                forall|rg: usize, am: usize|
                    rg < r_size && 1 <= am < n ==> #[trigger] tried.contains(
                        Move::Rotate { ring: rg, amount: am }),
                forall|rg: usize|
                    rg < r ==> #[trigger] tried.contains(Move::Rotate { ring: rg, amount: n }),
        {
            spinner.mutate_angular(r, n);
            let m = Move::Rotate { ring: r, amount: n };
            path.push(m);
            let ghost p1 = path@;
            let score = exercise(spinner);
            if score.hand {
                proof {
                    lemma_apply_moves_one(b0, m, rs, asz);
                    assert(path@.skip(p0.len() as int) =~= seq![m]);
                    assert(path@.subrange(0, p0.len() as int) =~= p0);
                }
                return true;
            }
            if dfs(spinner, level + 1, max_depth, path) {
                proof {
                    let suffix2 = path@.skip(p1.len() as int);
                    lemma_apply_moves_one(b0, m, rs, asz);
                    lemma_apply_moves_concat(b0, seq![m], suffix2, rs, asz);
                    assert(path@.subrange(0, p1.len() as int) =~= p1);
                    assert(path@.subrange(0, p0.len() as int) =~= p0);
                    assert(path@[p0.len() as int] == m) by {
                        assert(path@.subrange(0, p1.len() as int)[p0.len() as int]
                            == path@[p0.len() as int]);
                    }
                    assert(seq![m] + suffix2 =~= path@.skip(p0.len() as int));
                    assert forall|k: int|
                        0 <= k < path@.skip(p0.len() as int).len() implies move_valid(
                        #[trigger] path@.skip(p0.len() as int)[k], rs, asz) by {
                        if k > 0 {
                            assert(move_valid(suffix2[k - 1], rs, asz));
                        }
                    }
                }
                return true;
            }
            path.pop();
            spinner.mutate_angular(r, a_size - n);
            proof {
                lemma_rotate_round_trip(b0, r as int, n as int, rs, asz);
                assert(path@ =~= p0);
                lemma_candidate_fails(b0, tried, m, depth_left as int, rs, asz);
                tried = tried.insert(m);
            }
        }
    }
    proof {
        assert forall|ms: Seq<Move>|
            1 <= ms.len() <= depth_left && #[trigger] seq_valid(ms, rs, asz) implies
            !run_score(apply_moves(b0, ms, rs, asz), rs, asz).hand by {
            assert(move_valid(ms[0], rs, asz));
            match ms[0] {
                Move::Slide { axis, amount } => {
                    assert(axis < half as int);
                    assert(tried.contains(Move::Slide { axis, amount }));
                },
                Move::Rotate { ring, amount } => {
                    assert(tried.contains(Move::Rotate { ring, amount }));
                },
            }
        }
    }
    false
}

/// The search entry point: looks for a sequence of at most `max_depth` moves
/// after which a run reaches the goal. Returns the first such sequence found
/// in depth-first order, leaving the board in the winning position. Returns
/// `None`, with the board exactly restored, precisely when no valid sequence
/// of 1 to `max_depth` moves leads to a board whose run reaches the goal.
pub fn search(spinner: &mut Spinner, max_depth: usize) -> (result: Option<Vec<Move>>)
    requires
        old(spinner).wf(),
    ensures
        final(spinner).wf(),
        final(spinner).r_size == old(spinner).r_size,
        final(spinner).a_size == old(spinner).a_size,
        result is None ==> final(spinner).board() == old(spinner).board(),
        result is None ==> forall|ms: Seq<Move>|
            1 <= ms.len() <= max_depth && #[trigger] seq_valid(ms,
                old(spinner).r_size as int, old(spinner).a_size as int)
                ==> !run_score(apply_moves(old(spinner).board(), ms,
                    old(spinner).r_size as int, old(spinner).a_size as int),
                    old(spinner).r_size as int, old(spinner).a_size as int).hand,
        result matches Some(path) ==> {
            &&& 1 <= path@.len() <= max_depth
            &&& forall|k: int|
                0 <= k < path@.len() ==> move_valid(#[trigger] path@[k],
                    old(spinner).r_size as int, old(spinner).a_size as int)
            &&& final(spinner).board() == apply_moves(old(spinner).board(), path@,
                old(spinner).r_size as int, old(spinner).a_size as int)
            &&& spec_exercise(*final(spinner)).hand
        },
{
    let mut path: Vec<Move> = Vec::new();
    if dfs(spinner, 0, max_depth, &mut path) {
        proof {
            assert(path@.skip(0) =~= path@);
        }
        Some(path)
    } else {
        None
    }
}

} // verus!
