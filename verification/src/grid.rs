//! The board model: cell variants, the board of concentric rings, and the two
//! geometric mutators (angular rotation of one ring, radial slide of one
//! diametrical pair of half-rings through the center).

use vstd::prelude::*;

verus! {

/// A unit travel direction in (radial, angular) space. Each component is
/// -1, 0 or 1; an arrow cell redirects the marker to this direction.
#[derive(Clone, Copy, PartialEq, Eq, Debug)]
pub struct Arrow {
    pub direction: (i8, i8),
}

/// One cell of the board.
#[derive(Clone, Copy, PartialEq, Eq, Debug)]
pub enum Grid {
    /// Unconditional terminal cell (the "ice" stop).
    Ice,
    /// Redirects the marker's travel direction; does not stop it.
    Arrow(Arrow),
    /// Sets the one-shot enabled flag for the rest of the run; does not stop.
    On,
    /// The goal cell: terminal only when the enabled flag is set, inert otherwise.
    Hand,
    /// Unconditional terminal cell (the "punch" stop, scored separately).
    Punch,
    /// Inert.
    Empty,
}

/// A cell is well formed when any arrow it carries is a unit step:
/// both components in -1 ..= 1.
pub open spec fn grid_ok(g: Grid) -> bool {
    match g {
        Grid::Arrow(ar) => -1 <= ar.direction.0 <= 1 && -1 <= ar.direction.1 <= 1,
        _ => true,
    }
}

/// The board: `r_size` concentric rings of `a_size` cells each. The angular
/// index space is circular (arithmetic modulo `a_size`); the radial index
/// space is linear, except that a radial slide treats two opposite
/// half-rings as one circular track of length `2 * r_size`.
pub struct Spinner {
    pub r_size: usize,
    pub a_size: usize,
    pub grids: Vec<Vec<Grid>>,
}

/// Well-formedness of a board seen as a sequence of rings: `r_size` rings of
/// `a_size` cells each, every cell carrying a unit arrow at most.
pub open spec fn board_wf(b: Seq<Seq<Grid>>, r_size: int, a_size: int) -> bool {
    &&& b.len() == r_size
    &&& forall|i: int| 0 <= i < r_size ==> (#[trigger] b[i]).len() == a_size
    &&& forall|i: int, j: int|
        0 <= i < r_size && 0 <= j < a_size ==> grid_ok(#[trigger] b[i][j])
}

impl Spinner {
    /// The board's mathematical model: ring `i` is `board()[i]`, the cell at
    /// ring `i`, angular position `j` is `board()[i][j]`.
    pub open spec fn board(self) -> Seq<Seq<Grid>> {
        Seq::new(self.grids@.len(), |i: int| self.grids@[i]@)
    }

    /// A spinner is well formed when the table matches the stated sizes and
    /// every arrow is a unit step. The size bounds keep all location and
    /// index arithmetic inside `i8` during simulation.
    pub open spec fn wf(self) -> bool {
        &&& 1 <= self.r_size <= 63
        &&& 1 <= self.a_size <= 63
        &&& board_wf(self.board(), self.r_size as int, self.a_size as int)
    }

    /// Constructs a board of the given radial and angular size with every
    /// cell `Empty`.
    ///
    /// `r`: radial size (number of rings); `a`: angular size (cells per ring).
    #[verifier::loop_isolation(false)]
    pub fn new(r: usize, a: usize) -> (s: Spinner)
        requires
            1 <= r <= 63,
            1 <= a <= 63,
        ensures
            s.wf(),
            s.r_size == r,
            s.a_size == a,
            forall|i: int, j: int| 0 <= i < r && 0 <= j < a ==> s.board()[i][j] == Grid::Empty,
    {
        let mut grids: Vec<Vec<Grid>> = Vec::new();
        for i in 0..r
            invariant
                grids@.len() == i,
                forall|k: int| 0 <= k < i ==> (#[trigger] grids@[k])@.len() == a,
                forall|k: int, j: int|
                    0 <= k < i && 0 <= j < a ==> grids@[k]@[j] == Grid::Empty,
        {
            let mut circle: Vec<Grid> = Vec::new();
            for j in 0..a
                invariant
                    circle@.len() == j,
                    forall|k: int| 0 <= k < j ==> circle@[k] == Grid::Empty,
            {
                circle.push(Grid::Empty);
            }
            grids.push(circle);
        }
        Spinner { grids, r_size: r, a_size: a }
    }

    /// Overwrites the cell at ring `r`, angular position `a`.
    pub fn set_grid(&mut self, r: usize, a: usize, new_grid: Grid)
        requires
            old(self).wf(),
            r < old(self).r_size,
            a < old(self).a_size,
            grid_ok(new_grid),
        ensures
            final(self).wf(),
            final(self).r_size == old(self).r_size,
            final(self).a_size == old(self).a_size,
            final(self).board() == place_grid(old(self).board(), r as int, a as int, new_grid),
    {
        proof {
            assert(self.board()[r as int] == self.grids@[r as int]@);
        }
        self.grids[r][a] = new_grid;
        proof {
            assert(self.board() =~~= place_grid(
                old(self).board(), r as int, a as int, new_grid));
        }
    }

    /// Bulk initialization: applies a list of (ring, angular position, cell)
    /// assignments in order, each overwriting the prior cell there.
    #[verifier::loop_isolation(false)]
    pub fn set_grids(&mut self, grids: Vec<(usize, usize, Grid)>)
        requires
            old(self).wf(),
            forall|k: int| 0 <= k < grids@.len() ==> {
                &&& (#[trigger] grids@[k]).0 < old(self).r_size
                &&& grids@[k].1 < old(self).a_size
                &&& grid_ok(grids@[k].2)
            },
        ensures
            final(self).wf(),
            final(self).r_size == old(self).r_size,
            final(self).a_size == old(self).a_size,
            final(self).board() == place_grids(old(self).board(), grids@),
    {
        let ghost b0 = self.board();
        let ghost l = grids@;
        for k in 0..grids.len()
            invariant
                self.wf(),
                self.r_size == old(self).r_size,
                self.a_size == old(self).a_size,
                self.board() == place_grids(b0, l.take(k as int)),
        {
            let g = grids[k];
            self.set_grid(g.0, g.1, g.2);
            proof {
                assert(l.take(k + 1).drop_last() =~= l.take(k as int));
                assert(l.take(k + 1).last() == l[k as int]);
            }
        }
        proof {
            assert(l.take(l.len() as int) =~= l);
        }
    }

    /// Reads the cell at ring `r`, angular position `a`.
    pub fn get_grid(&self, r: usize, a: usize) -> (g: Grid)
        requires
            self.wf(),
            r < self.r_size,
            a < self.a_size,
        ensures
            g == self.board()[r as int][a as int],
    {
        self.grids[r][a]
    }

    /// The radial size: the number of rings.
    pub fn radial_size(&self) -> (r: usize)
        ensures
            r == self.r_size,
    {
        self.r_size
    }

    /// The angular size: the number of cells per ring.
    pub fn angular_size(&self) -> (a: usize)
        ensures
            a == self.a_size,
    {
        self.a_size
    }
}

impl Spinner {
    /// Cyclically shifts the `a_size` cells of ring `r` by `n` positions in
    /// the angular direction: the cell that ends at angular position `i` is
    /// the one that was at `(i + n) mod a_size`. A pure relabeling — no cell
    /// content changes. `n == a_size` (like `n == 0`) is the identity.
    #[verifier::loop_isolation(false)]
    pub fn mutate_angular(&mut self, r: usize, n: usize)
        requires
            old(self).wf(),
            r < old(self).r_size,
            n <= old(self).a_size,
        ensures
            final(self).wf(),
            final(self).r_size == old(self).r_size,
            final(self).a_size == old(self).a_size,
            final(self).board() == rotate_board(
                old(self).board(), r as int, n as int, old(self).a_size as int),
    {
        let ghost b0 = self.board();
        let a_size = self.a_size;
        let mut new_circle: Vec<Grid> = Vec::new();
        proof {
            assert(b0[r as int] == self.grids@[r as int]@);
        }
        for i in 0..a_size
            invariant
                new_circle@.len() == i,
                forall|k: int|
                    0 <= k < i ==> new_circle@[k] == b0[r as int][(k + n) % (a_size as int)],
        {
            new_circle.push(self.grids[r][(i + n) % a_size]);
        }
        for i in 0..a_size
            invariant
                new_circle@.len() == a_size,
                forall|k: int|
                    0 <= k < a_size ==> new_circle@[k] == b0[r as int][(k + n) % (a_size as int)],
                self.r_size == old(self).r_size,
                self.a_size == a_size,
                self.grids@.len() == old(self).r_size,
                self.grids@[r as int]@.len() == a_size,
                forall|k: int|
                    0 <= k < old(self).r_size && k != r ==> self.grids@[k] == old(self).grids@[k],
                forall|k: int| 0 <= k < i ==> self.grids@[r as int]@[k] == new_circle@[k],
                forall|k: int|
                    i <= k < a_size ==> self.grids@[r as int]@[k] == b0[r as int][k],
        {
            self.grids[r][i] = new_circle[i];
        }
        proof {
            assert(self.board().len() == b0.len());
            assert forall|k: int| 0 <= k < b0.len() && k != r implies self.board()[k] =~=
                b0[k] by {
                assert(self.grids@[k] == old(self).grids@[k]);
            }
            let ghost ri = r as int;
            assert forall|k: int| 0 <= k < a_size implies self.board()[ri][k] == b0[ri][(k + n)
                % (a_size as int)] by {
                assert(self.grids@[r as int]@[k] == new_circle@[k]);
            }
            assert(self.board() =~~= rotate_board(b0, r as int, n as int, a_size as int));
            assert forall|i: int, j: int|
                0 <= i < self.r_size && 0 <= j < self.a_size implies grid_ok(
                #[trigger] self.board()[i][j]) by {
                if i == r {
                    assert(grid_ok(b0[r as int][(j + n) % (a_size as int)]));
                } else {
                    assert(grid_ok(b0[i][j]));
                }
            }
        }
    }
}

/// The board after an angular rotation of ring `r` by `n` positions: ring `r`
/// is relabeled so that the cell at angular position `i` becomes the one that
/// was at `(i + n) mod a_size`; all other rings are unchanged.
pub open spec fn rotate_board(b: Seq<Seq<Grid>>, r: int, n: int, a_size: int) -> Seq<Seq<Grid>> {
    b.update(r, Seq::new(a_size as nat, |i: int| b[r][(i + n) % a_size]))
}

/// Round-trip law of rotation: rotating ring `r` by `n` and then by
/// `a_size - n` restores the board exactly.
pub proof fn lemma_rotate_round_trip(b: Seq<Seq<Grid>>, r: int, n: int, r_size: int, a_size: int)
    requires
        board_wf(b, r_size, a_size),
        0 <= r < r_size,
        0 <= n <= a_size,
    ensures
        rotate_board(rotate_board(b, r, n, a_size), r, a_size - n, a_size) == b,
{
    let b1 = rotate_board(b, r, n, a_size);
    let b2 = rotate_board(b1, r, a_size - n, a_size);
    assert forall|i: int| 0 <= i < a_size implies b2[r][i] == b[r][i] by {
        let j = (i + (a_size - n)) % a_size;
        assert(b2[r][i] == b1[r][j]);
        assert(b1[r][j] == b[r][(j + n) % a_size]);
        assert((j + n) % a_size == i) by {
            lemma_mod_cancel(i, n, a_size);
        }
    }
    assert(b2 =~~= b);
}

/// Shifting a circular index of `m` positions forward by `m - n` and then by
/// `n` is the identity.
proof fn lemma_mod_cancel(i: int, n: int, m: int)
    requires
        0 < m,
        0 <= i < m,
        0 <= n <= m,
    ensures
        ((i + m - n) % m + n) % m == i,
{
    vstd::arithmetic::div_mod::lemma_add_mod_noop_right(n, i + m - n, m);
    vstd::arithmetic::div_mod::lemma_mod_add_multiples_vanish(i, m);
    vstd::arithmetic::div_mod::lemma_small_mod(i as nat, m as nat);
}

/// An arrow cell flipped end-for-end by passing through the center: both
/// direction components are negated. Any other cell is unchanged.
pub open spec fn flip_grid(g: Grid) -> Grid {
    match g {
        Grid::Arrow(ar) => Grid::Arrow(
            Arrow { direction: ((-ar.direction.0) as i8, (-ar.direction.1) as i8) },
        ),
        _ => g,
    }
}

/// The diametrical pair at angular index `a` laid out as one circular track
/// of length `2 * r_size`: first the cells of ring-column `a` from innermost
/// to outermost ring, then the cells of the opposite column `a_size / 2 + a`
/// from outermost back to innermost.
pub open spec fn track_of(b: Seq<Seq<Grid>>, a: int, r_size: int, a_size: int) -> Seq<Grid> {
    Seq::new((2 * r_size) as nat, |i: int|
        if i < r_size {
            b[i][a]
        } else {
            b[2 * r_size - 1 - i][a_size / 2 + a]
        })
}

/// Whether the cell that ends at track position `i` after a slide by `n`
/// crossed the center: its source position `(i + n) mod (2 * r_size)` lies in
/// the other half of the track.
pub open spec fn crosses_center(i: int, n: int, r_size: int) -> bool {
    ((((i + n) % (2 * r_size)) / r_size) % 2) != ((i / r_size) % 2)
}

/// The track after a slide by `n` positions: the cell that ends at position
/// `i` is the one that was at `(i + n) mod (2 * r_size)`, flipped end-for-end
/// when it crossed the center.
pub open spec fn slide_track(t: Seq<Grid>, n: int, r_size: int) -> Seq<Grid> {
    Seq::new((2 * r_size) as nat, |i: int| {
        let j = (i + n) % (2 * r_size);
        if crosses_center(i, n, r_size) {
            flip_grid(t[j])
        } else {
            t[j]
        }
    })
}

/// The board after a radial slide of the diametrical pair at angular index
/// `a` by `n` steps: both ring-columns of the pair are replaced by the slid
/// track, split back by position; all other cells are unchanged.
pub open spec fn slide_board(b: Seq<Seq<Grid>>, a: int, n: int, r_size: int, a_size: int)
    -> Seq<Seq<Grid>> {
    let nt = slide_track(track_of(b, a, r_size, a_size), n, r_size);
    Seq::new(b.len(), |i: int| Seq::new(b[i].len(), |j: int|
        if 0 <= i < r_size && j == a {
            nt[i]
        } else if 0 <= i < r_size && j == a_size / 2 + a {
            nt[2 * r_size - 1 - i]
        } else {
            b[i][j]
        }))
}

impl Spinner {
    /// Slides the diametrical pair at angular index `a` by `n` steps towards
    /// the center, along the folded circular track of length `2 * r_size`
    /// formed by column `a` and the opposite column `a_size / 2 + a`. A cell
    /// that crosses the center is carried onto the opposite half-ring and, if
    /// it is an arrow, flipped end-for-end (both direction components
    /// negated). `n == 2 * r_size` (like `n == 0`) is the identity.
    #[verifier::loop_isolation(false)]
    #[verifier::rlimit(50)]
    pub fn mutate_radial(&mut self, a: usize, n: usize)
        requires
            old(self).wf(),
            a < old(self).a_size / 2,
            n <= 2 * old(self).r_size,
        ensures
            final(self).wf(),
            final(self).r_size == old(self).r_size,
            final(self).a_size == old(self).a_size,
            final(self).board() == slide_board(
                old(self).board(), a as int, n as int,
                old(self).r_size as int, old(self).a_size as int),
    {
        let ghost b0 = self.board();
        let ghost t = track_of(b0, a as int, self.r_size as int, self.a_size as int);
        let r_size = self.r_size;
        let half = self.a_size / 2;
        let track_len = 2 * r_size;

        let mut old_axes: Vec<Grid> = Vec::new();
        for i in 0..r_size
            invariant
                old_axes@.len() == i,
                forall|k: int| 0 <= k < i ==> old_axes@[k] == t[k],
        {
            proof {
                assert(b0[i as int] == self.grids@[i as int]@);
            }
            old_axes.push(self.grids[i][a]);
        }
        for i in 0..r_size
            invariant
                old_axes@.len() == r_size + i,
                forall|k: int| 0 <= k < r_size + i ==> old_axes@[k] == t[k],
        {
            proof {
                assert(b0[r_size - 1 - i as int] == self.grids@[r_size - 1 - i as int]@);
                assert(t[r_size + i] == b0[r_size - 1 - i as int][half + a as int]);
            }
            old_axes.push(self.grids[r_size - 1 - i][half + a]);
        }
        proof {
            assert(old_axes@ =~= t);
        }

        let ghost nt = slide_track(t, n as int, r_size as int);
        let mut new_axes: Vec<Grid> = Vec::new();
        for i in 0..track_len
            invariant
                new_axes@.len() == i,
                forall|k: int| 0 <= k < i ==> new_axes@[k] == nt[k],
        {
            let j = (i + n) % track_len;
            let g = old_axes[j];
            proof {
                assert(grid_ok(t[j as int])) by {
                    if j < r_size {
                        assert(t[j as int] == b0[j as int][a as int]);
                        assert(grid_ok(b0[j as int][a as int]));
                    } else {
                        assert(t[j as int] == b0[track_len - 1 - j as int][half + a as int]);
                        assert(grid_ok(b0[track_len - 1 - j as int][half + a as int]));
                    }
                }
            }
            let g2 = if (j / r_size) % 2 != (i / r_size) % 2 {
                match g {
                    Grid::Arrow(arrow) => Grid::Arrow(
                        Arrow { direction: (-arrow.direction.0, -arrow.direction.1) },
                    ),
                    _ => g,
                }
            } else {
                g
            };
            new_axes.push(g2);
        }
        proof {
            assert(new_axes@ =~= nt);
            assert forall|k: int| 0 <= k < r_size implies #[trigger] self.grids@[k]@
                == b0[k] by {
                assert(b0[k] == self.grids@[k]@);
            }
        }

        for i in 0..r_size
            invariant
                new_axes@ == nt,
                self.r_size == r_size,
                self.a_size == old(self).a_size,
                self.grids@.len() == r_size,
                forall|k: int| 0 <= k < r_size ==> (#[trigger] self.grids@[k])@.len()
                    == old(self).a_size,
                forall|k: int, c: int|
                    0 <= k < r_size && 0 <= c < old(self).a_size && c != a
                        ==> self.grids@[k]@[c] == b0[k][c],
                forall|k: int| 0 <= k < i ==> self.grids@[k]@[a as int] == nt[k],
                forall|k: int| i <= k < r_size ==> self.grids@[k]@[a as int] == b0[k][a as int],
        {
            self.grids[i][a] = new_axes[i];
        }
        for i in 0..r_size
            invariant
                new_axes@ == nt,
                self.r_size == r_size,
                self.a_size == old(self).a_size,
                self.grids@.len() == r_size,
                forall|k: int| 0 <= k < r_size ==> (#[trigger] self.grids@[k])@.len()
                    == old(self).a_size,
                forall|k: int, c: int|
                    0 <= k < r_size && 0 <= c < old(self).a_size && c != a && c != half + a
                        ==> self.grids@[k]@[c] == b0[k][c],
                forall|k: int| 0 <= k < r_size ==> self.grids@[k]@[a as int] == nt[k],
                forall|k: int|
                    r_size - i <= k < r_size ==> self.grids@[k]@[half + a as int]
                        == nt[track_len - 1 - k],
                forall|k: int|
                    0 <= k < r_size - i ==> self.grids@[k]@[half + a as int]
                        == b0[k][half + a as int],
        {
            self.grids[r_size - 1 - i][half + a] = new_axes[i + r_size];
        }
        proof {
            let ghost sb = slide_board(
                b0, a as int, n as int, r_size as int, old(self).a_size as int);
            assert(self.board().len() == b0.len());
            assert forall|k: int| 0 <= k < r_size implies self.board()[k] =~= sb[k] by {
                assert(self.grids@[k]@[a as int] == nt[k]);
                assert(self.grids@[k]@[half + a as int] == nt[track_len - 1 - k]);
            }
            assert(self.board() =~~= sb);
            assert forall|i: int, j: int|
                0 <= i < self.r_size && 0 <= j < self.a_size implies grid_ok(
                #[trigger] self.board()[i][j]) by {
                assert(grid_ok(b0[i][j]));
                if j == a || j == half + a {
                    let p = if j == a as int { i } else { track_len - 1 - i };
                    let src = (p + n) % (track_len as int);
                    assert(grid_ok(t[src])) by {
                        if src < r_size {
                            assert(grid_ok(b0[src][a as int]));
                        } else {
                            assert(grid_ok(b0[track_len - 1 - src][half + a as int]));
                        }
                    }
                }
            }
        }
    }
}

/// Round-trip law of the radial slide: sliding the pair at angular index `a`
/// by `n` and then by `2 * r_size - n` restores the board exactly, arrow
/// orientations included.
pub proof fn lemma_slide_round_trip(b: Seq<Seq<Grid>>, a: int, n: int, r_size: int, a_size: int)
    requires
        board_wf(b, r_size, a_size),
        1 <= r_size,
        0 <= a < a_size / 2,
        0 <= n <= 2 * r_size,
    ensures
        slide_board(slide_board(b, a, n, r_size, a_size), a, 2 * r_size - n, r_size, a_size)
            == b,
{
    let m = 2 * r_size;
    let b1 = slide_board(b, a, n, r_size, a_size);
    let b2 = slide_board(b1, a, m - n, r_size, a_size);
    let t = track_of(b, a, r_size, a_size);
    let t1 = slide_track(t, n, r_size);
    assert(track_of(b1, a, r_size, a_size) =~= t1);
    let t2 = slide_track(t1, m - n, r_size);
    assert forall|i: int| 0 <= i < m implies t2[i] == t[i] by {
        let j = (i + (m - n)) % m;
        lemma_mod_cancel(i, n, m);
        assert((j + n) % m == i);
        assert(t1[j] == if crosses_center(j, n, r_size) { flip_grid(t[i]) } else { t[i] });
        assert(crosses_center(j, n, r_size) == crosses_center(i, m - n, r_size));
        if crosses_center(i, m - n, r_size) {
            assert(t2[i] == flip_grid(flip_grid(t[i])));
            assert(grid_ok(t[i])) by {
                if i < r_size {
                    assert(grid_ok(b[i][a]));
                } else {
                    assert(grid_ok(b[m - 1 - i][a_size / 2 + a]));
                }
            }
            assert(flip_grid(flip_grid(t[i])) == t[i]);
        }
    }
    assert forall|i: int| 0 <= i < r_size implies b2[i] =~= b[i] by {
        assert(b[i].len() == a_size);
        assert(b1[i].len() == a_size);
        assert(t[i] == b[i][a]);
        assert(t[m - 1 - i] == b[i][a_size / 2 + a]);
    }
    assert(b2 =~~= b);
}

/// The direction-flip rule of a single slide, cell by cell: writing `j` for
/// the source position `(i + n) mod (2 * r_size)` of track position `i`, an
/// arrow that crosses the center exactly once ends with both direction
/// components negated, and a cell that does not cross keeps its orientation
/// unchanged. A slide amount of `2 * r_size` or `0` moves every cell back to
/// its own half, so nothing crosses and nothing is flipped.
pub proof fn lemma_slide_flip(t: Seq<Grid>, n: int, r_size: int, i: int)
    requires
        1 <= r_size,
        0 <= i < 2 * r_size,
        0 <= n,
    ensures
        crosses_center(i, n, r_size) ==> slide_track(t, n, r_size)[i]
            == flip_grid(t[(i + n) % (2 * r_size)]),
        !crosses_center(i, n, r_size) ==> slide_track(t, n, r_size)[i]
            == t[(i + n) % (2 * r_size)],
        n == 0 || n == 2 * r_size ==> !crosses_center(i, n, r_size),
{
    if n == 0 || n == 2 * r_size {
        assert((i + n) % (2 * r_size) == i) by {
            vstd::arithmetic::div_mod::lemma_mod_add_multiples_vanish(i, 2 * r_size);
            vstd::arithmetic::div_mod::lemma_small_mod(i as nat, (2 * r_size) as nat);
        }
    }
}

/// The board with the cell at ring `r`, angular position `a` replaced by `g`.
pub open spec fn place_grid(b: Seq<Seq<Grid>>, r: int, a: int, g: Grid) -> Seq<Seq<Grid>> {
    b.update(r, b[r].update(a, g))
}

/// The board after a list of (ring, angular position, cell) assignments,
/// applied in order.
pub open spec fn place_grids(b: Seq<Seq<Grid>>, l: Seq<(usize, usize, Grid)>) -> Seq<Seq<Grid>>
    decreases l.len(),
{
    if l.len() == 0 {
        b
    } else {
        let last = l.last();
        place_grid(place_grids(b, l.drop_last()), last.0 as int, last.1 as int, last.2)
    }
}

} // verus!
