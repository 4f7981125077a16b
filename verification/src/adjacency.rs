//! Adjacency: which tiles may stand next to which, in each of the four directions.

use vstd::prelude::*;
use crate::color::Color;
use crate::domain::{has_tile, single_mask, single_domain, contains_tile, lemma_has_tile, MAX_TILES};
use crate::tiles::{all_square, grid_of, grids_of, is_square, Grid};

verus! {

/// One of the four directions in which a neighbour lies.
#[derive(Clone, Copy, Debug, PartialEq, Eq, Structural)]
pub enum Direction {
    Up,
    Down,
    Left,
    Right,
}

impl Direction {
    /// Rows from a cell to its neighbour in this direction.
    pub open spec fn row_offset(self) -> int {
        match self {
            Direction::Up => -1,
            Direction::Down => 1,
            _ => 0,
        }
    }

    /// Columns from a cell to its neighbour in this direction.
    pub open spec fn col_offset(self) -> int {
        match self {
            Direction::Left => -1,
            Direction::Right => 1,
            _ => 0,
        }
    }

    /// The direction that leads back.
    pub open spec fn opposite(self) -> Direction {
        match self {
            Direction::Up => Direction::Down,
            Direction::Down => Direction::Up,
            Direction::Left => Direction::Right,
            Direction::Right => Direction::Left,
        }
    }

    /// The row of the neighbour of row `r` on a board of `size` rows, if it is on
    /// the board.
    pub fn shift_row(self, r: usize, size: usize) -> (out: Option<usize>)
        requires
            r < size,
        ensures
            out == shifted(r as int, self.row_offset(), size as int),
    {
        match self {
            Direction::Up => if r >= 1 {
                Some(r - 1)
            } else {
                None
            },
            Direction::Down => if r + 1 < size {
                Some(r + 1)
            } else {
                None
            },
            _ => Some(r),
        }
    }

    /// The column of the neighbour of column `c` on a board of `size` columns, if
    /// it is on the board.
    pub fn shift_col(self, c: usize, size: usize) -> (out: Option<usize>)
        requires
            c < size,
        ensures
            out == shifted(c as int, self.col_offset(), size as int),
    {
        match self {
            Direction::Left => if c >= 1 {
                Some(c - 1)
            } else {
                None
            },
            Direction::Right => if c + 1 < size {
                Some(c + 1)
            } else {
                None
            },
            _ => Some(c),
        }
    }
}

/// `i + offset` if that lies in `0..size`.
pub open spec fn shifted(i: int, offset: int, size: int) -> Option<usize> {
    if 0 <= i + offset < size {
        Some((i + offset) as usize)
    } else {
        None
    }
}

/// The colour at row `r`, column `c` of `g`.
pub open spec fn cell(g: Grid, r: int, c: int) -> Color {
    g[r][c]
}

/// Tile `b` may be the neighbour of tile `a` in direction `d`: wherever a cell of
/// `a` and the cell of `b` one step further in `d` both exist, they agree.
pub open spec fn compatible(a: Grid, b: Grid, d: Direction) -> bool {
    forall|r: int, c: int|
        0 <= r < a.len() && 0 <= c < a.len() && 0 <= r + d.row_offset() < a.len() && 0 <= c
            + d.col_offset() < a.len() ==> #[trigger] cell(a, r, c) == cell(
            b,
            r + d.row_offset(),
            c + d.col_offset(),
        )
}

/// The tiles that may neighbour one tile, by direction.
#[derive(Clone, Copy, Debug, PartialEq, Eq, Structural)]
pub struct Adjacency {
    pub up: u128,
    pub down: u128,
    pub left: u128,
    pub right: u128,
}

impl Adjacency {
    /// The domain of compatible neighbours in direction `d`.
    pub open spec fn toward(self, d: Direction) -> u128 {
        match d {
            Direction::Up => self.up,
            Direction::Down => self.down,
            Direction::Left => self.left,
            Direction::Right => self.right,
        }
    }

    /// The domain of compatible neighbours in direction `d`.
    pub fn get(&self, d: Direction) -> (mask: u128)
        ensures
            mask == self.toward(d),
    {
        match d {
            Direction::Up => self.up,
            Direction::Down => self.down,
            Direction::Left => self.left,
            Direction::Right => self.right,
        }
    }
}

/// The domain of those among the first `k` tiles that are compatible with tile `i`
/// in direction `d`.
pub open spec fn compat_mask(tiles: Seq<Grid>, i: int, d: Direction, k: nat) -> u128
    decreases k,
{
    if k == 0 {
        0
    } else if compatible(tiles[i], tiles[k - 1], d) {
        compat_mask(tiles, i, d, (k - 1) as nat) | single_mask(k - 1)
    } else {
        compat_mask(tiles, i, d, (k - 1) as nat)
    }
}

/// The adjacency of tile `i` among `tiles`.
pub open spec fn adjacency_of(tiles: Seq<Grid>, i: int) -> Adjacency {
    Adjacency {
        up: compat_mask(tiles, i, Direction::Up, tiles.len()),
        down: compat_mask(tiles, i, Direction::Down, tiles.len()),
        left: compat_mask(tiles, i, Direction::Left, tiles.len()),
        right: compat_mask(tiles, i, Direction::Right, tiles.len()),
    }
}

/// The adjacency table of `tiles`.
pub open spec fn adjacency_table(tiles: Seq<Grid>) -> Seq<Adjacency> {
    Seq::new(tiles.len(), |i: int| adjacency_of(tiles, i))
}

/// The tiles a neighbour in direction `d` may still be, given `domain` here: the
/// union of the compatible neighbours of those among the first `k` tiles that
/// `domain` holds.
pub open spec fn support(table: Seq<Adjacency>, domain: u128, d: Direction, k: nat) -> u128
    decreases k,
{
    if k == 0 {
        0
    } else if has_tile(domain, k - 1) {
        support(table, domain, d, (k - 1) as nat) | table[k - 1].toward(d)
    } else {
        support(table, domain, d, (k - 1) as nat)
    }
}

/// Tile `j` is in `compat_mask` exactly when it is one of the first `k` tiles and
/// compatible.
pub proof fn lemma_compat_mask_bits(tiles: Seq<Grid>, i: int, d: Direction, k: nat, j: int)
    requires
        k <= 128,
    ensures
        has_tile(compat_mask(tiles, i, d, k), j) <==> 0 <= j < k && compatible(
            tiles[i],
            tiles[j],
            d,
        ),
    decreases k,
{
    if k > 0 {
        lemma_compat_mask_bits(tiles, i, d, (k - 1) as nat, j);
        lemma_has_tile(compat_mask(tiles, i, d, (k - 1) as nat), single_mask(k - 1), j, k - 1);
    } else {
        lemma_has_tile(0, 0, j, 0);
    }
}

/// Tile `j` is supported exactly when some tile of `domain` among the first `k`
/// allows it as its neighbour.
pub proof fn lemma_support_bits(table: Seq<Adjacency>, domain: u128, d: Direction, k: nat, j: int)
    ensures
        has_tile(support(table, domain, d, k), j) <==> exists|i: int|
            0 <= i < k && has_tile(domain, i) && has_tile(#[trigger] table[i].toward(d), j),
    decreases k,
{
    if k > 0 {
        let rest = (k - 1) as nat;
        lemma_support_bits(table, domain, d, rest, j);
        lemma_has_tile(support(table, domain, d, rest), table[k - 1].toward(d), j, 0);
        if has_tile(support(table, domain, d, rest), j) {
            let i = choose|i: int|
                0 <= i < rest && has_tile(domain, i) && has_tile(#[trigger] table[i].toward(d), j);
            assert(0 <= i < k && has_tile(domain, i) && has_tile(table[i].toward(d), j));
        }
    } else {
        lemma_has_tile(0, 0, j, 0);
    }
}

/// Compatibility is symmetric: `b` may follow `a` in direction `d` exactly when
/// `a` may follow `b` in the opposite direction.
pub proof fn lemma_compatible_symmetric(a: Grid, b: Grid, d: Direction)
    requires
        a.len() == b.len(),
    ensures
        compatible(a, b, d) <==> compatible(b, a, d.opposite()),
{
    let o = d.opposite();
    if compatible(a, b, d) {
        assert forall|r: int, c: int|
            0 <= r < b.len() && 0 <= c < b.len() && 0 <= r + o.row_offset() < b.len() && 0 <= c
                + o.col_offset() < b.len() implies #[trigger] cell(b, r, c) == cell(
            a,
            r + o.row_offset(),
            c + o.col_offset(),
        ) by {
            let r0 = r + o.row_offset();
            let c0 = c + o.col_offset();
            assert(cell(a, r0, c0) == cell(b, r0 + d.row_offset(), c0 + d.col_offset()));
        }
    }
    if compatible(b, a, o) {
        assert forall|r: int, c: int|
            0 <= r < a.len() && 0 <= c < a.len() && 0 <= r + d.row_offset() < a.len() && 0 <= c
                + d.col_offset() < a.len() implies #[trigger] cell(a, r, c) == cell(
            b,
            r + d.row_offset(),
            c + d.col_offset(),
        ) by {
            let r0 = r + d.row_offset();
            let c0 = c + d.col_offset();
            assert(cell(b, r0, c0) == cell(a, r0 + o.row_offset(), c0 + o.col_offset()));
        }
    }
}

/// The adjacency table is symmetric: tile `j` may neighbour tile `i` in direction
/// `d` exactly when tile `i` may neighbour tile `j` in the opposite direction.
pub proof fn lemma_adjacency_symmetric(tiles: Seq<Grid>, i: int, j: int, d: Direction)
    requires
        tiles.len() <= 128,
        0 <= i < tiles.len(),
        0 <= j < tiles.len(),
        tiles[i].len() == tiles[j].len(),
    ensures
        has_tile(adjacency_table(tiles)[i].toward(d), j) <==> has_tile(
            adjacency_table(tiles)[j].toward(d.opposite()),
            i,
        ),
{
    lemma_compat_mask_bits(tiles, i, d, tiles.len(), j);
    lemma_compat_mask_bits(tiles, j, d.opposite(), tiles.len(), i);
    lemma_compatible_symmetric(tiles[i], tiles[j], d);
}

/// Whether tile `t2` may be the neighbour of tile `t1` in direction `d`.
pub fn can_overlap(t1: &Vec<Vec<Color>>, t2: &Vec<Vec<Color>>, d: Direction) -> (ok: bool)
    requires
        is_square(grid_of(t1), t1@.len()),
        is_square(grid_of(t2), t1@.len()),
    ensures
        ok == compatible(grid_of(t1), grid_of(t2), d),
{
    let size = t1.len();
    let ghost a = grid_of(t1);
    let ghost b = grid_of(t2);
    let mut r1: usize = 0;
    while r1 < size
        invariant
            r1 <= size,
            size == t1@.len(),
            a == grid_of(t1),
            b == grid_of(t2),
            is_square(a, size as nat),
            is_square(b, size as nat),
            forall|r: int, c: int|
                0 <= r < r1 && 0 <= c < size && 0 <= r + d.row_offset() < size && 0 <= c
                    + d.col_offset() < size ==> #[trigger] cell(a, r, c) == cell(
                    b,
                    r + d.row_offset(),
                    c + d.col_offset(),
                ),
        decreases size - r1,
    {
        let mut c1: usize = 0;
        while c1 < size
            invariant
                r1 < size,
                c1 <= size,
                size == t1@.len(),
                a == grid_of(t1),
                b == grid_of(t2),
                is_square(a, size as nat),
                is_square(b, size as nat),
                forall|r: int, c: int|
                    0 <= r < r1 && 0 <= c < size && 0 <= r + d.row_offset() < size && 0 <= c
                        + d.col_offset() < size ==> #[trigger] cell(a, r, c) == cell(
                        b,
                        r + d.row_offset(),
                        c + d.col_offset(),
                    ),
                forall|c: int|
                    0 <= c < c1 && 0 <= r1 + d.row_offset() < size && 0 <= c + d.col_offset()
                        < size ==> #[trigger] cell(a, r1 as int, c) == cell(
                        b,
                        r1 + d.row_offset(),
                        c + d.col_offset(),
                    ),
            decreases size - c1,
        {
            let r2 = d.shift_row(r1, size);
            let c2 = d.shift_col(c1, size);
            match (r2, c2) {
                (Some(r2), Some(c2)) => {
                    assert(a[r1 as int].len() == size);
                    assert(b[r2 as int].len() == size);
                    if t1[r1][c1] != t2[r2][c2] {
                        assert(cell(a, r1 as int, c1 as int) != cell(
                            b,
                            r1 + d.row_offset(),
                            c1 + d.col_offset(),
                        ));
                        return false;
                    }
                },
                _ => {},
            }
            c1 = c1 + 1;
        }
        r1 = r1 + 1;
    }
    true
}

/// Computes, for every tile, the domains of the tiles that may neighbour it.
pub fn compute_adjacencies(tiles: &Vec<Vec<Vec<Color>>>, tile_size: usize) -> (table: Vec<Adjacency>)
    requires
        tiles@.len() <= MAX_TILES,
        all_square(grids_of(tiles), tile_size as nat),
    ensures
        table@ == adjacency_table(grids_of(tiles)),
{
    let count = tiles.len();
    let ghost grids = grids_of(tiles);
    let mut table: Vec<Adjacency> = Vec::new();
    let mut i: usize = 0;
    while i < count
        invariant
            i <= count,
            count == tiles@.len(),
            count <= MAX_TILES,
            grids == grids_of(tiles),
            all_square(grids, tile_size as nat),
            table@.len() == i,
            forall|k: int| 0 <= k < i ==> #[trigger] table@[k] == adjacency_of(grids, k),
        decreases count - i,
    {
        let mut entry = Adjacency { up: 0, down: 0, left: 0, right: 0 };
        let mut j: usize = 0;
        while j < count
            invariant
                i < count,
                j <= count,
                count == tiles@.len(),
                count <= MAX_TILES,
                grids == grids_of(tiles),
                all_square(grids, tile_size as nat),
                entry.up == compat_mask(grids, i as int, Direction::Up, j as nat),
                entry.down == compat_mask(grids, i as int, Direction::Down, j as nat),
                entry.left == compat_mask(grids, i as int, Direction::Left, j as nat),
                entry.right == compat_mask(grids, i as int, Direction::Right, j as nat),
            decreases count - j,
        {
            assert(is_square(grids[i as int], tile_size as nat));
            assert(is_square(grids[j as int], tile_size as nat));
            let bit = single_domain(j);
            if can_overlap(&tiles[i], &tiles[j], Direction::Up) {
                entry.up = entry.up | bit;
            }
            if can_overlap(&tiles[i], &tiles[j], Direction::Down) {
                entry.down = entry.down | bit;
            }
            if can_overlap(&tiles[i], &tiles[j], Direction::Left) {
                entry.left = entry.left | bit;
            }
            if can_overlap(&tiles[i], &tiles[j], Direction::Right) {
                entry.right = entry.right | bit;
            }
            j = j + 1;
        }
        table.push(entry);
        i = i + 1;
    }
    assert(table@ =~= adjacency_table(grids));
    table
}

/// The tiles that a neighbour in direction `d` may still be when the cell here
/// has the domain `domain`.
pub fn allowed_neighbors(table: &Vec<Adjacency>, domain: u128, d: Direction) -> (mask: u128)
    requires
        table@.len() <= MAX_TILES,
    ensures
        mask == support(table@, domain, d, table@.len()),
{
    let mut mask: u128 = 0;
    let mut i: usize = 0;
    while i < table.len()
        invariant
            i <= table@.len(),
            table@.len() <= MAX_TILES,
            mask == support(table@, domain, d, i as nat),
        decreases table@.len() - i,
    {
        if contains_tile(domain, i) {
            mask = mask | table[i].get(d);
        }
        i = i + 1;
    }
    mask
}

} // verus!
