//! The engine as a mathematical value, and what a step does to it.
//!
//! Everything here is specification: the state of an engine, what holds of it at
//! every moment, and the functions from state to state that the executable
//! engine is proved to follow.

use vstd::prelude::*;
use crate::adjacency::{
    adjacency_table, compat_mask, compatible, lemma_adjacency_symmetric, shifted, support,
    Adjacency, Direction,
};
use crate::domain::{
    full_mask, has_tile, lemma_full_mask_step, lemma_has_tile, lemma_nonempty_has_tile,
    lemma_full_mask_zero, lemma_popcount_and, lemma_popcount_bounds, lemma_popcount_full, lemma_popcount_single,
    lemma_union_same, popcount, single_mask, subset_of,
};
use crate::sampling::{all_settled, domain_weight, is_lowest, lemma_picks_share};
use crate::tiles::{all_square, weight_sum, Grid};

verus! {

/// Side of the square that the first repair resets.
pub const INITIAL_RESET_RADIUS: usize = 8;

/// Repairs in a row after which the square grows.
pub const MAX_ATTEMPTS: usize = 8;

/// By how much the side of the square grows.
pub const RADIUS_STEP: usize = 4;

/// An engine as a mathematical value.
pub struct EngineView {
    /// Side of the board.
    pub size: nat,
    /// Side of a tile.
    pub tile_size: nat,
    /// The distinct tiles.
    pub tiles: Seq<Grid>,
    /// How often each tile occurs in the example.
    pub weights: Seq<u64>,
    /// Which tiles may neighbour which.
    pub table: Seq<Adjacency>,
    /// The domain of each cell, row by row.
    pub domains: Seq<u128>,
    /// The cached number of tiles in each cell's domain.
    pub entropy: Seq<usize>,
    /// Cells whose neighbours are still to be looked at.
    pub frontier: Seq<(usize, usize)>,
    /// Side of the square that the next repair resets.
    pub reset_radius: nat,
    /// Repairs since the square last grew.
    pub attempts: nat,
}

impl EngineView {
    /// The domain in which every tile is possible.
    pub open spec fn all_tiles(self) -> u128 {
        full_mask(self.tiles.len())
    }

    /// The tile set is sound: between 1 and 128 square tiles of positive weight
    /// with their adjacency table.
    pub open spec fn tiles_ok(self) -> bool {
        &&& 1 <= self.tiles.len() <= 128
        &&& self.tile_size >= 1
        &&& all_square(self.tiles, self.tile_size)
        &&& self.weights.len() == self.tiles.len()
        &&& forall|i: int| 0 <= i < self.weights.len() ==> #[trigger] self.weights[i] >= 1
        &&& weight_sum(self.weights) <= u64::MAX
        &&& self.table == adjacency_table(self.tiles)
    }

    /// Cell `i` is sound: its domain is not empty, holds tiles of the tile set
    /// only, and its cached entropy is the number of tiles in its domain.
    pub open spec fn cell_ok(self, i: int) -> bool {
        &&& self.domains[i] != 0
        &&& self.domains[i] & self.all_tiles() == self.domains[i]
        &&& self.entropy[i] == popcount(self.domains[i])
    }

    /// The board is sound: it has `size` by `size` sound cells over a sound tile
    /// set, and the cells of the frontier lie on it.
    pub open spec fn board_ok(self) -> bool {
        &&& self.tiles_ok()
        &&& self.size * self.size <= usize::MAX
        &&& self.size + RADIUS_STEP <= usize::MAX
        &&& self.domains.len() == self.size * self.size
        &&& self.entropy.len() == self.size * self.size
        &&& forall|i: int| 0 <= i < self.domains.len() ==> #[trigger] self.cell_ok(i)
        &&& forall|k: int|
            0 <= k < self.frontier.len() ==> (#[trigger] self.frontier[k]).0 < self.size
                && self.frontier[k].1 < self.size
    }

    /// What holds of an engine at every moment: the board is sound, and the
    /// repair square is at its first size, or wider but no wider than the board.
    pub open spec fn consistent(self) -> bool {
        &&& self.board_ok()
        &&& self.attempts <= MAX_ATTEMPTS
        &&& self.reset_radius >= INITIAL_RESET_RADIUS
        &&& self.reset_radius == INITIAL_RESET_RADIUS || self.reset_radius <= self.size
    }

    /// `other` has the tiles, the board size and the repair counters of `self`.
    pub open spec fn same_setup(self, other: EngineView) -> bool {
        &&& other.size == self.size
        &&& other.tile_size == self.tile_size
        &&& other.tiles == self.tiles
        &&& other.weights == self.weights
        &&& other.table == self.table
        &&& other.reset_radius == self.reset_radius
        &&& other.attempts == self.attempts
    }

    /// Whether the reset of the square around `(row, col)`, going row by row, has
    /// reached cell `i` when it stands at row `r`, column `c`.
    pub open spec fn reset_reached(self, i: int, row: int, col: int, side: nat, r: int, c: int) -> bool {
        &&& self.in_square(i, row, col, side)
        &&& i / (self.size as int) < r || (i / (self.size as int) == r && i % (self.size as int) < c)
    }

    /// The board while the square around `(row, col)` is being reset, standing at
    /// row `r`, column `c`: the cells reached are open to every tile, the others
    /// are as they were.
    pub open spec fn reset_upto(self, row: int, col: int, side: nat, r: int, c: int) -> EngineView {
        EngineView {
            domains: Seq::new(
                self.domains.len(),
                |i: int|
                    if self.reset_reached(i, row, col, side, r, c) {
                        self.all_tiles()
                    } else {
                        self.domains[i]
                    },
            ),
            entropy: Seq::new(
                self.domains.len(),
                |i: int|
                    if self.reset_reached(i, row, col, side, r, c) {
                        self.tiles.len() as usize
                    } else {
                        self.entropy[i]
                    },
            ),
            ..self
        }
    }

    /// What holds of an engine between two calls: it is consistent and no
    /// propagation is pending.
    pub open spec fn wf(self) -> bool {
        &&& self.consistent()
        &&& self.frontier.len() == 0
    }

    /// The board with every cell open to every tile, nothing pending, and the
    /// repair counters at their start.
    pub open spec fn reset_all(self) -> EngineView {
        EngineView {
            domains: Seq::new(self.domains.len(), |i: int| self.all_tiles()),
            entropy: Seq::new(self.domains.len(), |i: int| self.tiles.len() as usize),
            frontier: Seq::empty(),
            reset_radius: INITIAL_RESET_RADIUS as nat,
            attempts: 0,
            ..self
        }
    }

    /// What looking from a cell with the domain `here` at row `r`, column `c` does
    /// to its neighbour in direction `d`, and whether that neighbour keeps a tile.
    /// A neighbour off the board or with at most one tile left is passed over.
    /// Else its domain is cut down to the tiles that `here` supports: if none is
    /// left, nothing changes and the answer is `false`; if some went, the
    /// neighbour's entropy follows and it joins the frontier.
    pub open spec fn relax(self, here: u128, r: int, c: int, d: Direction) -> (EngineView, bool) {
        match (
            shifted(r, d.row_offset(), self.size as int),
            shifted(c, d.col_offset(), self.size as int),
        ) {
            (Some(nr), Some(nc)) => {
                let idx = nr * self.size + nc;
                if !(0 <= idx < self.domains.len()) || self.entropy[idx] <= 1 {
                    (self, true)
                } else {
                    let there = self.domains[idx];
                    let updated = there & support(self.table, here, d, self.table.len());
                    if updated == 0 {
                        (self, false)
                    } else if updated != there {
                        (
                            EngineView {
                                domains: self.domains.update(idx, updated),
                                entropy: self.entropy.update(idx, popcount(updated) as usize),
                                frontier: self.frontier.push((nr, nc)),
                                ..self
                            },
                            true,
                        )
                    } else {
                        (self, true)
                    }
                }
            },
            _ => (self, true),
        }
    }

    /// Looks from the cell at row `r`, column `c` at its neighbours up, down, left
    /// and right, in that order, and stops at the first that would be left
    /// without a tile.
    pub open spec fn visit(self, r: int, c: int) -> (EngineView, bool) {
        let here = self.domains[r * self.size + c];
        let up = self.relax(here, r, c, Direction::Up);
        if !up.1 {
            up
        } else {
            let down = up.0.relax(here, r, c, Direction::Down);
            if !down.1 {
                down
            } else {
                let left = down.0.relax(here, r, c, Direction::Left);
                if !left.1 {
                    left
                } else {
                    left.0.relax(here, r, c, Direction::Right)
                }
            }
        }
    }

    /// Works the frontier off, last cell first, until it is empty (`true`) or a
    /// neighbour would be left without a tile (`false`).
    pub open spec fn propagate(self) -> (EngineView, bool)
        decreases total_popcount(self.domains), self.frontier.len(),
    {
        if self.frontier.len() == 0 {
            (self, true)
        } else {
            let cell = self.frontier.last();
            let popped = EngineView { frontier: self.frontier.drop_last(), ..self };
            let next = popped.visit(cell.0 as int, cell.1 as int);
            if next.1 {
                proof {
                    lemma_visit_progress(popped, cell.0 as int, cell.1 as int);
                }
                next.0.propagate()
            } else {
                next
            }
        }
    }

    /// The repair counters after one more contradiction: the ninth in a row
    /// starts the count again and widens the square by four.
    pub open spec fn escalate(self) -> EngineView {
        if self.attempts + 1 > MAX_ATTEMPTS {
            EngineView {
                attempts: 0,
                reset_radius: self.reset_radius + RADIUS_STEP as nat,
                ..self
            }
        } else {
            EngineView { attempts: self.attempts + 1nat, ..self }
        }
    }

    /// Cell `i` lies in the square of side `side` around row `row`, column `col`:
    /// `side / 2` cells before the centre and `side / 2 - 1` after it, each way.
    pub open spec fn in_square(self, i: int, row: int, col: int, side: nat) -> bool {
        let half = side / 2;
        &&& row - half <= i / (self.size as int) < row + half
        &&& col - half <= i % (self.size as int) < col + half
    }

    /// The board with the cells of the square around `(row, col)` open to every
    /// tile again and nothing pending. Cells outside the square stay.
    pub open spec fn reset_local(self, row: int, col: int, side: nat) -> EngineView {
        EngineView {
            domains: Seq::new(
                self.domains.len(),
                |i: int|
                    if self.in_square(i, row, col, side) {
                        self.all_tiles()
                    } else {
                        self.domains[i]
                    },
            ),
            entropy: Seq::new(
                self.domains.len(),
                |i: int|
                    if self.in_square(i, row, col, side) {
                        self.tiles.len() as usize
                    } else {
                        self.entropy[i]
                    },
            ),
            frontier: Seq::empty(),
            ..self
        }
    }

    /// The repair after a contradiction met while collapsing the cell at
    /// `(row, col)`: the counters move on, then the whole board is reset if the
    /// square has outgrown it, and else the square around the cell.
    pub open spec fn recover(self, row: int, col: int) -> EngineView {
        let e = self.escalate();
        if e.reset_radius > e.size {
            e.reset_all()
        } else {
            e.reset_local(row, col, e.reset_radius)
        }
    }

    /// One step once its two choices are made: cell `idx` is collapsed to `tile`,
    /// the consequences are propagated, and a contradiction is repaired around
    /// the cell.
    pub open spec fn collapse(self, idx: int, tile: int) -> EngineView {
        let row = idx / (self.size as int);
        let col = idx % (self.size as int);
        let start = EngineView {
            domains: self.domains.update(idx, single_mask(tile)),
            entropy: self.entropy.update(idx, 1),
            frontier: self.frontier.push((row as usize, col as usize)),
            ..self
        };
        let after = start.propagate();
        if after.1 {
            after.0
        } else {
            after.0.recover(row, col)
        }
    }
}

/// The number of tiles left on the whole board.
pub open spec fn total_popcount(domains: Seq<u128>) -> nat
    decreases domains.len(),
{
    if domains.len() == 0 {
        0
    } else {
        total_popcount(domains.drop_last()) + popcount(domains.last())
    }
}

/// The number of cells with exactly one tile left.
pub open spec fn count_collapsed(entropy: Seq<usize>) -> nat
    decreases entropy.len(),
{
    if entropy.len() == 0 {
        0
    } else {
        count_collapsed(entropy.drop_last()) + if entropy.last() == 1 {
            1nat
        } else {
            0nat
        }
    }
}

/// Replacing one domain changes the number of tiles on the board by the
/// difference of the two counts.
pub proof fn lemma_total_update(domains: Seq<u128>, idx: int, mask: u128)
    requires
        0 <= idx < domains.len(),
    ensures
        total_popcount(domains.update(idx, mask)) == total_popcount(domains) - popcount(
            domains[idx],
        ) + popcount(mask),
        popcount(domains[idx]) <= total_popcount(domains),
    decreases domains.len(),
{
    if idx == domains.len() - 1 {
        assert(domains.update(idx, mask).drop_last() =~= domains.drop_last());
    } else {
        lemma_total_update(domains.drop_last(), idx, mask);
        assert(domains.update(idx, mask).drop_last() =~= domains.drop_last().update(idx, mask));
    }
}

/// Looking at one neighbour either changes nothing or takes tiles off the board.
pub proof fn lemma_relax_progress(v: EngineView, here: u128, r: int, c: int, d: Direction)
    ensures
        v.relax(here, r, c, d).0 == v || total_popcount(v.relax(here, r, c, d).0.domains)
            < total_popcount(v.domains),
{
    let w = v.relax(here, r, c, d).0;
    if w != v {
        let nr = shifted(r, d.row_offset(), v.size as int).unwrap();
        let nc = shifted(c, d.col_offset(), v.size as int).unwrap();
        let idx = nr * v.size + nc;
        let there = v.domains[idx];
        let allowed = support(v.table, here, d, v.table.len());
        lemma_popcount_and(there, allowed);
        lemma_total_update(v.domains, idx, there & allowed);
    }
}

/// Looking at the four neighbours of a cell either changes nothing or takes
/// tiles off the board.
pub proof fn lemma_visit_progress(v: EngineView, r: int, c: int)
    ensures
        v.visit(r, c).0 == v || total_popcount(v.visit(r, c).0.domains) < total_popcount(
            v.domains,
        ),
{
    let here = v.domains[r * v.size + c];
    let up = v.relax(here, r, c, Direction::Up);
    lemma_relax_progress(v, here, r, c, Direction::Up);
    let down = up.0.relax(here, r, c, Direction::Down);
    lemma_relax_progress(up.0, here, r, c, Direction::Down);
    let left = down.0.relax(here, r, c, Direction::Left);
    lemma_relax_progress(down.0, here, r, c, Direction::Left);
    lemma_relax_progress(left.0, here, r, c, Direction::Right);
}

/// The cell at row `r`, column `c` has the index `r * size + c`, from which row
/// and column come back by division.
pub proof fn lemma_cell_index(r: int, c: int, size: int)
    requires
        0 <= r < size,
        0 <= c < size,
    ensures
        0 <= r * size + c < size * size,
        (r * size + c) / size == r,
        (r * size + c) % size == c,
{
    vstd::arithmetic::div_mod::lemma_fundamental_div_mod_converse(r * size + c, size, r, c);
    assert(0 <= r * size && r * size + size <= size * size) by (nonlinear_arith)
        requires
            0 <= r < size,
    ;
}

/// The index of a cell splits into a row and a column on the board.
pub proof fn lemma_cell_coords(i: int, size: int)
    requires
        0 <= i < size * size,
        0 <= size,
    ensures
        0 < size,
        0 <= i / size < size,
        0 <= i % size < size,
        (i / size) * size + i % size == i,
{
    assert(size > 0) by (nonlinear_arith)
        requires
            0 <= i < size * size,
            0 <= size,
    ;
    vstd::arithmetic::div_mod::lemma_fundamental_div_mod(i, size);
    vstd::arithmetic::div_mod::lemma_mod_pos_bound(i, size);
    let q = i / size;
    assert(0 <= q < size) by (nonlinear_arith)
        requires
            0 <= i < size * size,
            0 < size,
            i == size * q + i % size,
            0 <= i % size < size,
    ;
    assert(q * size == size * q) by (nonlinear_arith);
}

/// A domain cut down stays within the tile set.
pub proof fn lemma_narrowed_cell(there: u128, allowed: u128, all: u128)
    requires
        there & all == there,
    ensures
        (there & allowed) & all == there & allowed,
{
    assert((there & allowed) & all == there & allowed) by (bit_vector)
        requires
            there & all == there,
    ;
}

/// The domain of one tile of the tile set makes a sound cell.
pub proof fn lemma_single_cell(tile: int, n: nat)
    requires
        0 <= tile < n <= 128,
    ensures
        single_mask(tile) != 0,
        single_mask(tile) & full_mask(n) == single_mask(tile),
        popcount(single_mask(tile)) == 1,
{
    lemma_popcount_single(tile);
    let t = tile as u128;
    if n < 128 {
        let m = n as u128;
        assert((1u128 << t) & (((1u128 << m) - 1) as u128) == (1u128 << t)) by (bit_vector)
            requires
                t < m < 128,
        ;
    } else {
        assert((1u128 << t) & 0xffff_ffff_ffff_ffff_ffff_ffff_ffff_ffffu128 == (1u128 << t))
            by (bit_vector);
    }
}

/// The domain of all tiles makes a sound cell.
pub proof fn lemma_full_mask_cell(n: nat)
    requires
        1 <= n <= 128,
    ensures
        full_mask(n) != 0,
        full_mask(n) & full_mask(n) == full_mask(n),
        popcount(full_mask(n)) == n,
{
    lemma_popcount_full(n);
    lemma_popcount_bounds(full_mask(n));
    let f = full_mask(n);
    assert(f & f == f) by (bit_vector);
}

/// A domain of a sound cell holds a tile of the tile set, and so weighs
/// something.
pub proof fn lemma_cell_has_tile(v: EngineView, i: int)
    requires
        v.tiles_ok(),
        0 <= i < v.domains.len(),
        v.cell_ok(i),
    ensures
        exists|t: int| 0 <= t < v.tiles.len() && has_tile(v.domains[i], t),
        domain_weight(v.weights, v.domains[i], v.weights.len()) > 0,
{
    let mask = v.domains[i];
    lemma_nonempty_has_tile(mask);
    let t = choose|t: int| has_tile(mask, t);
    lemma_has_tile(mask, v.all_tiles(), t, v.tiles.len() as int);
    assert(0 <= t < v.tiles.len() && has_tile(v.domains[i], t));
    lemma_picks_share(v.weights, mask, t, 0);
    assert(v.weights[t] >= 1);
}

/// Without a cell that has exactly one tile, no cell counts as collapsed.
pub proof fn lemma_none_collapsed(entropy: Seq<usize>)
    requires
        forall|i: int| 0 <= i < entropy.len() ==> #[trigger] entropy[i] != 1,
    ensures
        count_collapsed(entropy) == 0,
    decreases entropy.len(),
{
    if entropy.len() > 0 {
        lemma_none_collapsed(entropy.drop_last());
    }
}

/// The first and the last row, or column, of the part of the reset square that
/// lies on the board, for a centre at `at`.
pub open spec fn square_from(at: int, side: nat) -> int {
    if at >= side / 2 {
        at - side / 2
    } else {
        0
    }
}

/// One past the last row, or column, of the part of the reset square that lies
/// on a board of side `size`, for a centre at `at`.
pub open spec fn square_to(at: int, side: nat, size: int) -> int {
    if side / 2 >= size - at {
        size
    } else {
        at + side / 2
    }
}

/// Before the first row of the square nothing is reset, and after its last row
/// the whole square is.
pub proof fn lemma_reset_ends(v: EngineView, row: int, col: int, side: nat)
    requires
        v.domains.len() == v.size * v.size,
        v.entropy.len() == v.size * v.size,
        0 <= row < v.size,
        0 <= col < v.size,
    ensures
        v.reset_upto(row, col, side, square_from(row, side), 0) == v,
        (EngineView {
            frontier: Seq::empty(),
            ..v.reset_upto(row, col, side, square_to(row, side, v.size as int), 0)
        }) == v.reset_local(row, col, side),
{
    let first = v.reset_upto(row, col, side, square_from(row, side), 0);
    let last = v.reset_upto(row, col, side, square_to(row, side, v.size as int), 0);
    let target = v.reset_local(row, col, side);
    assert forall|i: int| 0 <= i < v.domains.len() implies !v.reset_reached(
        i,
        row,
        col,
        side,
        square_from(row, side),
        0,
    ) && (v.reset_reached(i, row, col, side, square_to(row, side, v.size as int), 0)
        <==> v.in_square(i, row, col, side)) by {
        lemma_cell_coords(i, v.size as int);
    }
    assert(first.domains =~= v.domains);
    assert(first.entropy =~= v.entropy);
    assert(last.domains =~= target.domains);
    assert(last.entropy =~= target.entropy);
}

/// Within a row, the reset starts at the first column of the square and is done
/// with the row after its last.
pub proof fn lemma_reset_row(v: EngineView, row: int, col: int, side: nat, r: int)
    requires
        v.domains.len() == v.size * v.size,
        v.entropy.len() == v.size * v.size,
        0 <= row < v.size,
        0 <= col < v.size,
    ensures
        v.reset_upto(row, col, side, r, 0) == v.reset_upto(
            row,
            col,
            side,
            r,
            square_from(col, side),
        ),
        v.reset_upto(row, col, side, r, square_to(col, side, v.size as int)) == v.reset_upto(
            row,
            col,
            side,
            r + 1,
            0,
        ),
{
    let lo = square_from(col, side);
    let hi = square_to(col, side, v.size as int);
    assert forall|i: int| 0 <= i < v.domains.len() implies (v.reset_reached(
        i,
        row,
        col,
        side,
        r,
        0,
    ) <==> v.reset_reached(i, row, col, side, r, lo)) && (v.reset_reached(i, row, col, side, r, hi)
        <==> v.reset_reached(i, row, col, side, r + 1, 0)) by {
        lemma_cell_coords(i, v.size as int);
    }
    assert(v.reset_upto(row, col, side, r, 0).domains =~= v.reset_upto(row, col, side, r, lo).domains);
    assert(v.reset_upto(row, col, side, r, 0).entropy =~= v.reset_upto(row, col, side, r, lo).entropy);
    assert(v.reset_upto(row, col, side, r, hi).domains =~= v.reset_upto(
        row,
        col,
        side,
        r + 1,
        0,
    ).domains);
    assert(v.reset_upto(row, col, side, r, hi).entropy =~= v.reset_upto(
        row,
        col,
        side,
        r + 1,
        0,
    ).entropy);
}

/// Resetting the cell at `(r, c)` of the square takes the reset one column on.
pub proof fn lemma_reset_cell(v: EngineView, row: int, col: int, side: nat, r: int, c: int)
    requires
        v.domains.len() == v.size * v.size,
        v.entropy.len() == v.size * v.size,
        0 <= row < v.size,
        0 <= col < v.size,
        square_from(row, side) <= r < square_to(row, side, v.size as int),
        square_from(col, side) <= c < square_to(col, side, v.size as int),
    ensures
        v.reset_upto(row, col, side, r, c + 1) == (EngineView {
            domains: v.reset_upto(row, col, side, r, c).domains.update(
                r * v.size + c,
                v.all_tiles(),
            ),
            entropy: v.reset_upto(row, col, side, r, c).entropy.update(
                r * v.size + c,
                v.tiles.len() as usize,
            ),
            ..v
        }),
{
    let idx = r * v.size + c;
    lemma_cell_index(r, c, v.size as int);
    assert forall|i: int| 0 <= i < v.domains.len() implies (v.reset_reached(
        i,
        row,
        col,
        side,
        r,
        c + 1,
    ) <==> (i == idx || v.reset_reached(i, row, col, side, r, c))) by {
        lemma_cell_coords(i, v.size as int);
    }
    let next = v.reset_upto(row, col, side, r, c + 1);
    let here = v.reset_upto(row, col, side, r, c);
    assert(next.domains =~= here.domains.update(idx, v.all_tiles()));
    assert(next.entropy =~= here.entropy.update(idx, v.tiles.len() as usize));
}

/// In a consistent engine every cell has a tile left and its cached entropy is
/// the number of tiles in its domain.
pub proof fn lemma_consistent_cells(v: EngineView)
    requires
        v.consistent(),
    ensures
        forall|i: int| 0 <= i < v.domains.len() ==> #[trigger] v.domains[i] != 0,
        forall|i: int| 0 <= i < v.domains.len() ==> #[trigger] v.entropy[i] == popcount(v.domains[i]),
{
    assert forall|i: int| 0 <= i < v.domains.len() implies #[trigger] v.domains[i] != 0 by {
        assert(v.cell_ok(i));
    }
    assert forall|i: int| 0 <= i < v.domains.len() implies #[trigger] v.entropy[i] == popcount(
        v.domains[i],
    ) by {
        assert(v.cell_ok(i));
    }
}

/// In an engine with a sound tile set, tile `j` may neighbour tile `i` in
/// direction `d` exactly when tile `i` may neighbour tile `j` in the opposite
/// direction.
pub proof fn lemma_table_symmetric(v: EngineView, i: int, j: int, d: Direction)
    requires
        v.tiles_ok(),
        0 <= i < v.tiles.len(),
        0 <= j < v.tiles.len(),
    ensures
        has_tile(v.table[i].toward(d), j) <==> has_tile(v.table[j].toward(d.opposite()), i),
{
    assert(v.tiles[i].len() == v.tile_size);
    assert(v.tiles[j].len() == v.tile_size);
    lemma_adjacency_symmetric(v.tiles, i, j, d);
}

/// After a full reset of an engine with at least two tiles every cell is open
/// to every tile and none counts as collapsed.
pub proof fn lemma_reset_all(v: EngineView)
    requires
        2 <= v.tiles.len() <= 128,
    ensures
        count_collapsed(v.reset_all().entropy) == 0,
        forall|i: int|
            0 <= i < v.domains.len() ==> #[trigger] v.reset_all().domains[i] == v.all_tiles(),
{
    lemma_none_collapsed(v.reset_all().entropy);
}

proof fn lemma_subset_facts(x: u128, y: u128, z: u128)
    by (bit_vector)
    ensures
        x & x == x,
        (x & y) & x == x & y,
        (x & y == x && y & z == y) ==> x & z == x,
{
}

/// Cell `i` of the board `w` has no tile that it did not have on the board `v`,
/// and is as it was if it had at most one tile left.
pub open spec fn cell_narrowed(w: EngineView, v: EngineView, i: int) -> bool {
    &&& subset_of(w.domains[i], v.domains[i])
    &&& v.entropy[i] <= 1 ==> w.domains[i] == v.domains[i] && w.entropy[i] == v.entropy[i]
}

/// What holds between a board `v` and the board `w` that looking at neighbours
/// makes of it: no cell has gained a tile, and the cells with at most one tile
/// left are as they were.
pub open spec fn narrowed_from(w: EngineView, v: EngineView) -> bool {
    &&& v.same_setup(w)
    &&& w.domains.len() == v.domains.len()
    &&& w.entropy.len() == v.entropy.len()
    &&& forall|i: int| 0 <= i < v.domains.len() ==> #[trigger] cell_narrowed(w, v, i)
}

proof fn lemma_narrowed_same(w: EngineView, v: EngineView)
    requires
        v.same_setup(w),
        w.domains == v.domains,
        w.entropy == v.entropy,
    ensures
        narrowed_from(w, v),
{
    assert forall|i: int| 0 <= i < v.domains.len() implies #[trigger] cell_narrowed(w, v, i) by {
        lemma_subset_facts(v.domains[i], 0, 0);
    }
}

proof fn lemma_narrowed_transitive(x: EngineView, w: EngineView, v: EngineView)
    requires
        narrowed_from(x, w),
        narrowed_from(w, v),
    ensures
        narrowed_from(x, v),
{
    assert forall|i: int| 0 <= i < v.domains.len() implies #[trigger] cell_narrowed(x, v, i) by {
        assert(cell_narrowed(x, w, i));
        assert(cell_narrowed(w, v, i));
        lemma_subset_facts(x.domains[i], w.domains[i], v.domains[i]);
    }
}

/// Looking at one neighbour only ever takes tiles away, and leaves settled
/// cells alone.
pub proof fn lemma_relax_narrows(v: EngineView, here: u128, r: int, c: int, d: Direction)
    requires
        v.entropy.len() == v.domains.len(),
    ensures
        narrowed_from(v.relax(here, r, c, d).0, v),
{
    let w = v.relax(here, r, c, d).0;
    assert forall|i: int| 0 <= i < v.domains.len() implies #[trigger] cell_narrowed(w, v, i) by {
        lemma_subset_facts(v.domains[i], support(v.table, here, d, v.table.len()), 0);
    }
}

/// Looking at the four neighbours of a cell only ever takes tiles away, and
/// leaves settled cells alone.
pub proof fn lemma_visit_narrows(v: EngineView, r: int, c: int)
    requires
        v.entropy.len() == v.domains.len(),
    ensures
        narrowed_from(v.visit(r, c).0, v),
{
    let here = v.domains[r * v.size + c];
    let up = v.relax(here, r, c, Direction::Up).0;
    lemma_relax_narrows(v, here, r, c, Direction::Up);
    let down = up.relax(here, r, c, Direction::Down).0;
    lemma_relax_narrows(up, here, r, c, Direction::Down);
    let left = down.relax(here, r, c, Direction::Left).0;
    lemma_relax_narrows(down, here, r, c, Direction::Left);
    let right = left.relax(here, r, c, Direction::Right).0;
    lemma_relax_narrows(left, here, r, c, Direction::Right);
    lemma_narrowed_transitive(down, up, v);
    lemma_narrowed_transitive(left, down, v);
    lemma_narrowed_transitive(right, left, v);
}

/// Propagation only ever takes tiles away: no cell ends with a tile that it did
/// not have, and cells with at most one tile left are never touched.
pub proof fn lemma_propagate_narrows(v: EngineView)
    requires
        v.entropy.len() == v.domains.len(),
    ensures
        narrowed_from(v.propagate().0, v),
    decreases total_popcount(v.domains), v.frontier.len(),
{
    if v.frontier.len() == 0 {
        lemma_narrowed_same(v, v);
    } else {
        let cell = v.frontier.last();
        let popped = EngineView { frontier: v.frontier.drop_last(), ..v };
        let next = popped.visit(cell.0 as int, cell.1 as int);
        lemma_narrowed_same(popped, v);
        lemma_visit_narrows(popped, cell.0 as int, cell.1 as int);
        lemma_narrowed_transitive(next.0, popped, v);
        if next.1 {
            lemma_visit_progress(popped, cell.0 as int, cell.1 as int);
            lemma_propagate_narrows(next.0);
            lemma_narrowed_transitive(next.0.propagate().0, next.0, v);
        }
    }
}

/// A collapse that meets no contradiction leaves the chosen tile alone in the
/// chosen cell, and takes tiles away from the other cells at most.
pub proof fn lemma_collapse_narrows(v: EngineView, idx: int, tile: int)
    requires
        v.entropy.len() == v.domains.len(),
        0 <= idx < v.domains.len(),
        (EngineView {
            domains: v.domains.update(idx, single_mask(tile)),
            entropy: v.entropy.update(idx, 1),
            frontier: v.frontier.push(
                ((idx / (v.size as int)) as usize, (idx % (v.size as int)) as usize),
            ),
            ..v
        }).propagate().1,
    ensures
        v.collapse(idx, tile).domains.len() == v.domains.len(),
        v.collapse(idx, tile).domains[idx] == single_mask(tile),
        forall|i: int|
            0 <= i < v.domains.len() && i != idx ==> subset_of(
                #[trigger] v.collapse(idx, tile).domains[i],
                v.domains[i],
            ),
{
    let start = EngineView {
        domains: v.domains.update(idx, single_mask(tile)),
        entropy: v.entropy.update(idx, 1),
        frontier: v.frontier.push(
            ((idx / (v.size as int)) as usize, (idx % (v.size as int)) as usize),
        ),
        ..v
    };
    let end = v.collapse(idx, tile);
    lemma_propagate_narrows(start);
    assert(cell_narrowed(end, start, idx));
    assert forall|i: int| 0 <= i < v.domains.len() && i != idx implies subset_of(
        #[trigger] end.domains[i],
        v.domains[i],
    ) by {
        assert(cell_narrowed(end, start, i));
    }
}

/// The number of cells with more than one tile left.
pub open spec fn count_undetermined(entropy: Seq<usize>) -> nat
    decreases entropy.len(),
{
    if entropy.len() == 0 {
        0
    } else {
        count_undetermined(entropy.drop_last()) + if entropy.last() > 1 {
            1nat
        } else {
            0nat
        }
    }
}

/// No cell is undetermined exactly when every cell is settled, and there are
/// never more undetermined cells than cells.
pub proof fn lemma_undetermined(entropy: Seq<usize>)
    ensures
        count_undetermined(entropy) == 0 <==> all_settled(entropy),
        count_undetermined(entropy) <= entropy.len(),
    decreases entropy.len(),
{
    if entropy.len() > 0 {
        let head = entropy.drop_last();
        lemma_undetermined(head);
        if all_settled(head) && entropy.last() <= 1 {
            assert forall|j: int| 0 <= j < entropy.len() implies #[trigger] entropy[j] <= 1 by {
                if j < head.len() {
                    assert(head[j] <= 1);
                }
            }
        }
        if all_settled(entropy) {
            assert(entropy[entropy.len() - 1] <= 1);
            assert forall|j: int| 0 <= j < head.len() implies #[trigger] head[j] <= 1 by {
                assert(entropy[j] <= 1);
            }
        }
    }
}

/// Settling one undetermined cell takes one off the undetermined cells and adds
/// one to the collapsed ones.
pub proof fn lemma_settle_counts(entropy: Seq<usize>, idx: int)
    requires
        0 <= idx < entropy.len(),
        entropy[idx] > 1,
    ensures
        count_undetermined(entropy.update(idx, 1)) + 1 == count_undetermined(entropy),
        count_collapsed(entropy.update(idx, 1)) == count_collapsed(entropy) + 1,
    decreases entropy.len(),
{
    if idx == entropy.len() - 1 {
        assert(entropy.update(idx, 1).drop_last() =~= entropy.drop_last());
    } else {
        lemma_settle_counts(entropy.drop_last(), idx);
        assert(entropy.update(idx, 1).drop_last() =~= entropy.drop_last().update(idx, 1));
    }
}

/// Among tiles of a single cell every tile may neighbour every tile, in every
/// direction: two such tiles never overlap.
pub proof fn lemma_single_cell_table(tiles: Seq<Grid>, i: int, d: Direction, k: nat)
    requires
        all_square(tiles, 1),
        0 <= i < tiles.len(),
        k <= tiles.len() <= 128,
    ensures
        compat_mask(tiles, i, d, k) == full_mask(k),
    decreases k,
{
    if k > 0 {
        lemma_single_cell_table(tiles, i, d, (k - 1) as nat);
        assert(tiles[i].len() == 1);
        assert(compatible(tiles[i], tiles[k - 1], d));
        lemma_full_mask_step((k - 1) as nat);
    } else {
        lemma_full_mask_zero();
    }
}

/// With tiles of a single cell, a domain that holds a tile supports every tile
/// next door.
pub proof fn lemma_single_cell_support(v: EngineView, here: u128, d: Direction, k: nat)
    requires
        v.tiles_ok(),
        v.tile_size == 1,
        k <= v.tiles.len(),
    ensures
        (forall|i: int| 0 <= i < k ==> !has_tile(here, i)) ==> support(v.table, here, d, k) == 0,
        (exists|i: int| 0 <= i < k && has_tile(here, i)) ==> support(v.table, here, d, k)
            == v.all_tiles(),
    decreases k,
{
    if k > 0 {
        let rest = support(v.table, here, d, (k - 1) as nat);
        lemma_single_cell_support(v, here, d, (k - 1) as nat);
        lemma_single_cell_table(v.tiles, k - 1, d, v.tiles.len());
        assert(v.table[k - 1].toward(d) == v.all_tiles());
        lemma_union_same(v.all_tiles());
        if exists|i: int| 0 <= i < k - 1 && has_tile(here, i) {
            let i = choose|i: int| 0 <= i < k - 1 && has_tile(here, i);
            assert(0 <= i < k && has_tile(here, i));
        } else if has_tile(here, k - 1) {
            assert(0 <= k - 1 < k && has_tile(here, k - 1));
        } else {
            assert forall|i: int| 0 <= i < k implies !has_tile(here, i) by {}
        }
        if exists|i: int| 0 <= i < k && has_tile(here, i) {
            let i = choose|i: int| 0 <= i < k && has_tile(here, i);
            if i < k - 1 {
                assert(0 <= i < k - 1 && has_tile(here, i));
            }
        }
    }
}

/// With tiles of a single cell, looking at a neighbour changes nothing and
/// never fails.
pub proof fn lemma_single_cell_relax(v: EngineView, here: u128, r: int, c: int, d: Direction)
    requires
        v.board_ok(),
        v.tile_size == 1,
        exists|t: int| 0 <= t < v.tiles.len() && has_tile(here, t),
    ensures
        v.relax(here, r, c, d) == (v, true),
{
    lemma_single_cell_support(v, here, d, v.tiles.len());
    match (
        shifted(r, d.row_offset(), v.size as int),
        shifted(c, d.col_offset(), v.size as int),
    ) {
        (Some(nr), Some(nc)) => {
            let idx = nr * v.size + nc;
            if 0 <= idx < v.domains.len() {
                assert(v.cell_ok(idx));
            }
        },
        _ => {},
    }
}

/// With tiles of a single cell a collapse settles the chosen cell and touches
/// nothing else: no other cell is narrowed and no contradiction is met.
pub proof fn lemma_single_cell_collapse(v: EngineView, idx: int, tile: int)
    requires
        v.wf(),
        v.tile_size == 1,
        0 <= idx < v.domains.len(),
        0 <= tile < v.tiles.len(),
    ensures
        v.collapse(idx, tile) == (EngineView {
            domains: v.domains.update(idx, single_mask(tile)),
            entropy: v.entropy.update(idx, 1),
            ..v
        }),
        v.collapse(idx, tile).wf(),
{
    let row = idx / (v.size as int);
    let col = idx % (v.size as int);
    lemma_cell_coords(idx, v.size as int);
    lemma_single_cell(tile, v.tiles.len());
    lemma_has_tile(0, 0, tile, tile);
    let start = EngineView {
        domains: v.domains.update(idx, single_mask(tile)),
        entropy: v.entropy.update(idx, 1),
        frontier: v.frontier.push((row as usize, col as usize)),
        ..v
    };
    let popped = EngineView { frontier: start.frontier.drop_last(), ..start };
    let here = popped.domains[row * v.size + col];
    assert(here == single_mask(tile));
    assert(0 <= tile < v.tiles.len() && has_tile(here, tile));
    assert forall|i: int| 0 <= i < popped.domains.len() implies #[trigger] popped.cell_ok(i) by {
        assert(v.cell_ok(i));
    }
    assert(popped.frontier =~= v.frontier);
    lemma_single_cell_relax(popped, here, row, col, Direction::Up);
    lemma_single_cell_relax(popped, here, row, col, Direction::Down);
    lemma_single_cell_relax(popped, here, row, col, Direction::Left);
    lemma_single_cell_relax(popped, here, row, col, Direction::Right);
    assert(popped.visit(row, col) == (popped, true));
    assert(start.frontier.last() == (row as usize, col as usize));
    reveal_with_fuel(EngineView::propagate, 3);
    assert(popped.propagate() == (popped, true));
    assert(start.propagate() == (popped, true));
}

/// A choice that a step may make: an undetermined cell of least entropy and a
/// tile of its domain.
pub open spec fn legal_choice(v: EngineView, choice: (int, int)) -> bool {
    &&& is_lowest(v.entropy, choice.0)
    &&& 0 <= choice.1 < v.tiles.len()
    &&& has_tile(v.domains[choice.0], choice.1)
}

/// The engine after one step for each of `choices`, in order.
pub open spec fn after_steps(v: EngineView, choices: Seq<(int, int)>) -> EngineView
    decreases choices.len(),
{
    if choices.len() == 0 {
        v
    } else {
        after_steps(v, choices.drop_last()).collapse(choices.last().0, choices.last().1)
    }
}

/// Each of `choices` is one that a step may make at the moment it is made.
pub open spec fn legal_run(v: EngineView, choices: Seq<(int, int)>) -> bool
    decreases choices.len(),
{
    choices.len() == 0 || (legal_run(v, choices.drop_last()) && legal_choice(
        after_steps(v, choices.drop_last()),
        choices.last(),
    ))
}

/// A run over tiles of a single cell: every step settles exactly one cell and
/// meets no contradiction, so the repair counters never move, the run is no
/// longer than there were undetermined cells at its start, and it has settled
/// every cell exactly when it is that long.
pub proof fn lemma_single_cell_run(v: EngineView, choices: Seq<(int, int)>)
    requires
        v.wf(),
        v.tile_size == 1,
        legal_run(v, choices),
    ensures
        after_steps(v, choices).wf(),
        v.same_setup(after_steps(v, choices)),
        count_undetermined(after_steps(v, choices).entropy) + choices.len() == count_undetermined(
            v.entropy,
        ),
        count_collapsed(after_steps(v, choices).entropy) == count_collapsed(v.entropy)
            + choices.len(),
        choices.len() <= count_undetermined(v.entropy) <= v.size * v.size,
        all_settled(after_steps(v, choices).entropy) <==> choices.len() == count_undetermined(
            v.entropy,
        ),
    decreases choices.len(),
{
    lemma_undetermined(v.entropy);
    lemma_undetermined(after_steps(v, choices).entropy);
    if choices.len() > 0 {
        let before = after_steps(v, choices.drop_last());
        let choice = choices.last();
        lemma_single_cell_run(v, choices.drop_last());
        lemma_single_cell_collapse(before, choice.0, choice.1);
        lemma_settle_counts(before.entropy, choice.0);
    }
}

} // verus!
