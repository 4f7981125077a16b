//! The generation engine: a board of domains that is collapsed cell by cell, with
//! constraint propagation after each collapse and a local repair when propagation
//! runs dry.

use vstd::prelude::*;
use rand::rngs::SmallRng;
use crate::adjacency::{
    adjacency_table, allowed_neighbors, compute_adjacencies, Adjacency, Direction,
};
use crate::color::Color;
use crate::domain::{
    contains_tile, count_tiles, full_domain, full_mask, popcount, single_domain, MAX_TILES,
};
use crate::model::{
    count_collapsed, legal_choice, lemma_cell_coords, lemma_cell_has_tile, lemma_cell_index,
    lemma_consistent_cells, lemma_full_mask_cell, lemma_narrowed_cell, lemma_none_collapsed,
    lemma_reset_cell, lemma_reset_ends, lemma_reset_row, lemma_single_cell,
    lemma_visit_progress, square_from, square_to, total_popcount, EngineView,
    INITIAL_RESET_RADIUS, MAX_ATTEMPTS, RADIUS_STEP,
};
use crate::render::{channel_sum, display_color, image_of, members};
use crate::sampling::{
    all_settled, domain_weight, draw_below, is_lowest, lowest_cells, lowest_entropy_cells,
    nth_lowest, pick_weighted, picks, total_weight,
};
use crate::tiles::{
    all_square, candidates, dedup, extract_tiles, grid_of, grids_of, is_rect,
    lemma_candidates_len, lemma_dedup_contains, lemma_occurrences_zero, occurrences, width_of,
    Grid,
};

verus! {

/// Why an engine could not be built.
#[derive(Clone, Copy, Debug, PartialEq, Eq, Structural)]
pub enum EngineError {
    /// The example image holds more distinct tiles than a domain has bits.
    TooManyPatterns,
}

impl EngineError {
    /// What to tell the caller.
    pub fn message(&self) -> (text: &'static str)
        ensures
            text@ == "Too many unique patterns. Max 128."@,
    {
        "Too many unique patterns. Max 128."
    }
}

/// The example image can be cut into tiles of side `tile_size`: it is a
/// rectangle in which a tile fits, and its candidates can be counted.
pub open spec fn valid_example(img: Grid, tile_size: nat) -> bool {
    &&& is_rect(img, img.len(), width_of(img))
    &&& 1 <= tile_size <= img.len()
    &&& tile_size <= width_of(img)
    &&& 4 * ((img.len() - tile_size + 1) * (width_of(img) - tile_size + 1)) <= u64::MAX
}

proof fn lemma_product_fits(a: usize, b: usize)
    by (nonlinear_arith)
    ensures
        a * b <= 0xffff_ffff_ffff_ffff * 0xffff_ffff_ffff_ffff,
{
}

/// Whether an engine can be built from `input` for a board of side
/// `output_size` and tiles of side `tile_size`: the image is a rectangle in
/// which a tile fits, and the board and the count of candidates fit the machine.
pub fn example_fits(input: &Vec<Vec<Color>>, output_size: usize, tile_size: usize) -> (ok: bool)
    ensures
        ok == (valid_example(grid_of(input), tile_size as nat) && output_size * output_size
            <= usize::MAX),
{
    let ghost img = grid_of(input);
    let rows = input.len();
    if rows == 0 || tile_size == 0 {
        return false;
    }
    let cols = input[0].len();
    assert(img[0].len() == cols);
    if tile_size > rows || tile_size > cols {
        return false;
    }
    let mut r: usize = 0;
    while r < rows
        invariant
            r <= rows,
            rows == input@.len(),
            img == grid_of(input),
            cols == width_of(img),
            forall|i: int| 0 <= i < r ==> (#[trigger] img[i]).len() == cols,
        decreases rows - r,
    {
        if input[r].len() != cols {
            assert(img[r as int].len() != cols);
            return false;
        }
        r = r + 1;
    }
    let positions_down = rows - tile_size + 1;
    let positions_across = cols - tile_size + 1;
    proof {
        lemma_product_fits(positions_down, positions_across);
        lemma_product_fits(output_size, output_size);
    }
    let windows: u128 = (positions_down as u128) * (positions_across as u128);
    let cells: u128 = (output_size as u128) * (output_size as u128);
    windows <= (u64::MAX as u128) / 4 && cells <= usize::MAX as u128
}

/// The engine that the example image `img` gives for a board of side `size`.
pub open spec fn initial_view(img: Grid, size: nat, tile_size: nat) -> EngineView {
    let all = candidates(img, tile_size);
    let tiles = dedup(all);
    EngineView {
        size,
        tile_size,
        tiles,
        weights: Seq::new(tiles.len(), |i: int| occurrences(all, tiles[i]) as u64),
        table: adjacency_table(tiles),
        domains: Seq::new(size * size, |i: int| full_mask(tiles.len())),
        entropy: Seq::new(size * size, |i: int| tiles.len() as usize),
        frontier: Seq::empty(),
        reset_radius: INITIAL_RESET_RADIUS as nat,
        attempts: 0,
    }
}

/// A board of domains over the tiles of an example image.
pub struct WfcEngine {
    output_size: usize,
    tile_size: usize,
    tiles: Vec<Vec<Vec<Color>>>,
    weights: Vec<u64>,
    adjacencies: Vec<Adjacency>,
    matrix: Vec<u128>,
    entropy_map: Vec<usize>,
    rng: SmallRng,
    stack: Vec<(usize, usize)>,
    local_reset_size: usize,
    local_reset_attempts: usize,
}

impl View for WfcEngine {
    type V = EngineView;

    closed spec fn view(&self) -> EngineView {
        EngineView {
            size: self.output_size as nat,
            tile_size: self.tile_size as nat,
            tiles: grids_of(&self.tiles),
            weights: self.weights@,
            table: self.adjacencies@,
            domains: self.matrix@,
            entropy: self.entropy_map@,
            frontier: self.stack@,
            reset_radius: self.local_reset_size as nat,
            attempts: self.local_reset_attempts as nat,
        }
    }
}

proof fn lemma_board_side(size: nat)
    by (nonlinear_arith)
    requires
        size * size <= usize::MAX,
    ensures
        size + 4 <= usize::MAX,
{
}

proof fn lemma_some_window(rows: nat, cols: nat)
    by (nonlinear_arith)
    requires
        rows >= 1,
        cols >= 1,
    ensures
        rows * cols >= 1,
{
}

impl WfcEngine {
    /// Builds an engine for a board of `output_size` by `output_size` cells from
    /// the tiles of side `tile_size` of the example image, with `rng` as its
    /// source of random choices. Fails when the image holds more than 128
    /// distinct tiles.
    pub fn new(
        input: &Vec<Vec<Color>>,
        output_size: usize,
        tile_size: usize,
        rng: SmallRng,
    ) -> (res: Result<WfcEngine, EngineError>)
        requires
            valid_example(grid_of(input), tile_size as nat),
            output_size * output_size <= usize::MAX,
        ensures
            match res {
                Ok(engine) => {
                    &&& dedup(candidates(grid_of(input), tile_size as nat)).len() <= 128
                    &&& engine@ == initial_view(grid_of(input), output_size as nat, tile_size as nat)
                    &&& engine@.wf()
                },
                Err(e) => {
                    &&& dedup(candidates(grid_of(input), tile_size as nat)).len() > 128
                    &&& e == EngineError::TooManyPatterns
                },
            },
    {
        let (tiles, weights) = extract_tiles(input, tile_size);
        if tiles.len() > MAX_TILES {
            return Err(EngineError::TooManyPatterns);
        }
        let ghost img = grid_of(input);
        let ghost all = candidates(img, tile_size as nat);
        let ghost known = grids_of(&tiles);
        proof {
            lemma_candidates_len(img, tile_size as nat);
            lemma_some_window(
                (img.len() - tile_size + 1) as nat,
                (width_of(img) - tile_size + 1) as nat,
            );
            lemma_dedup_contains(all, all[0]);
            assert(all.contains(all[0]));
            assert forall|i: int| 0 <= i < weights@.len() implies #[trigger] weights@[i] >= 1 by {
                lemma_dedup_contains(all, known[i]);
                lemma_occurrences_zero(all, known[i]);
                assert(known.contains(known[i]));
            }
            lemma_board_side(output_size as nat);
            lemma_full_mask_cell(known.len());
        }
        let everything = full_domain(tiles.len());
        let adjacencies = compute_adjacencies(&tiles, tile_size);
        let cells = output_size * output_size;
        let count = tiles.len();
        let mut matrix: Vec<u128> = Vec::new();
        let mut entropy_map: Vec<usize> = Vec::new();
        let mut i: usize = 0;
        while i < cells
            invariant
                i <= cells,
                matrix@.len() == i,
                entropy_map@.len() == i,
                forall|k: int| 0 <= k < i ==> #[trigger] matrix@[k] == everything,
                forall|k: int| 0 <= k < i ==> #[trigger] entropy_map@[k] == count,
            decreases cells - i,
        {
            matrix.push(everything);
            entropy_map.push(count);
            i = i + 1;
        }
        let engine = WfcEngine {
            output_size,
            tile_size,
            tiles,
            weights,
            adjacencies,
            matrix,
            entropy_map,
            rng,
            stack: Vec::new(),
            local_reset_size: INITIAL_RESET_RADIUS,
            local_reset_attempts: 0,
        };
        proof {
            let v = engine@;
            let w = initial_view(img, output_size as nat, tile_size as nat);
            assert(v.weights =~= w.weights);
            assert(v.domains =~= w.domains);
            assert(v.entropy =~= w.entropy);
            assert(v.frontier =~= w.frontier);
            assert(v == w);
            assert forall|i: int| 0 <= i < v.domains.len() implies #[trigger] v.cell_ok(i) by {}
        }
        Ok(engine)
    }

    /// Side of the board.
    pub fn output_size(&self) -> (n: usize)
        ensures
            n == self@.size,
    {
        self.output_size
    }

    /// Number of distinct tiles.
    pub fn tile_count(&self) -> (n: usize)
        ensures
            n == self@.tiles.len(),
    {
        self.tiles.len()
    }

    /// Side of the square that the next repair resets.
    pub fn reset_radius(&self) -> (n: usize)
        ensures
            n == self@.reset_radius,
    {
        self.local_reset_size
    }

    /// Repairs since the square last grew.
    pub fn attempt_count(&self) -> (n: usize)
        ensures
            n == self@.attempts,
    {
        self.local_reset_attempts
    }

    /// The domain of the cell at `index`, counting row by row.
    pub fn domain_at(&self, index: usize) -> (mask: u128)
        requires
            index < self@.domains.len(),
        ensures
            mask == self@.domains[index as int],
    {
        self.matrix[index]
    }

    /// The cached entropy of the cell at `index`, counting row by row.
    pub fn entropy_at(&self, index: usize) -> (n: usize)
        requires
            index < self@.entropy.len(),
        ensures
            n == self@.entropy[index as int],
    {
        self.entropy_map[index]
    }

    /// Opens every cell to every tile again, drops pending propagation and puts
    /// the repair counters back to their start. The tiles stay.
    pub fn reset(&mut self)
        requires
            old(self)@.consistent(),
        ensures
            final(self)@ == old(self)@.reset_all(),
            final(self)@.wf(),
            forall|i: int|
                0 <= i < final(self)@.domains.len() ==> #[trigger] final(self)@.domains[i]
                    == final(self)@.all_tiles(),
            final(self)@.tiles.len() >= 2 ==> count_collapsed(final(self)@.entropy) == 0,
    {
        self.reset_all_cells();
    }

    fn reset_all_cells(&mut self)
        requires
            old(self)@.board_ok(),
        ensures
            final(self)@ == old(self)@.reset_all(),
            final(self)@.wf(),
            final(self)@.tiles.len() >= 2 ==> count_collapsed(final(self)@.entropy) == 0,
    {
        let count = self.tiles.len();
        let everything = full_domain(count);
        let cells = self.matrix.len();
        let mut i: usize = 0;
        while i < cells
            invariant
                i <= cells,
                cells == self.matrix@.len(),
                cells == self.entropy_map@.len(),
                count == self@.tiles.len(),
                everything == full_mask(count as nat),
                self@.tiles == old(self)@.tiles,
                self@.weights == old(self)@.weights,
                self@.table == old(self)@.table,
                self@.size == old(self)@.size,
                self@.tile_size == old(self)@.tile_size,
                forall|k: int| 0 <= k < i ==> #[trigger] self.matrix@[k] == everything,
                forall|k: int| 0 <= k < i ==> #[trigger] self.entropy_map@[k] == count,
            decreases cells - i,
        {
            self.matrix[i] = everything;
            self.entropy_map[i] = count;
            i = i + 1;
        }
        self.stack.clear();
        self.local_reset_size = INITIAL_RESET_RADIUS;
        self.local_reset_attempts = 0;
        proof {
            let v = self@;
            let w = old(self)@.reset_all();
            assert(v.domains =~= w.domains);
            assert(v.entropy =~= w.entropy);
            assert(v.frontier =~= w.frontier);
            assert(v == w);
            lemma_full_mask_cell(v.tiles.len());
            assert forall|i: int| 0 <= i < v.domains.len() implies #[trigger] v.cell_ok(i) by {}
            if v.tiles.len() >= 2 {
                lemma_none_collapsed(v.entropy);
            }
        }
    }

    /// The number of cells with exactly one tile left.
    pub fn get_collapsed_count(&self) -> (n: usize)
        ensures
            n == count_collapsed(self@.entropy),
    {
        let mut n: usize = 0;
        let mut i: usize = 0;
        while i < self.entropy_map.len()
            invariant
                i <= self.entropy_map@.len(),
                n <= i,
                n == count_collapsed(self.entropy_map@.take(i as int)),
            decreases self.entropy_map@.len() - i,
        {
            assert(self.entropy_map@.take(i + 1).drop_last() =~= self.entropy_map@.take(i as int));
            if self.entropy_map[i] == 1 {
                n = n + 1;
            }
            i = i + 1;
        }
        assert(self.entropy_map@.take(i as int) =~= self.entropy_map@);
        n
    }

    /// The colour that stands for the domain `mask`.
    pub fn get_display_color(&self, mask: u128) -> (color: Color)
        requires
            self@.tiles_ok(),
        ensures
            color == display_color(self@.tiles, mask),
    {
        let mut r: u32 = 0;
        let mut g: u32 = 0;
        let mut b: u32 = 0;
        let mut count: u32 = 0;
        let ghost tiles = grids_of(&self.tiles);
        let mut i: usize = 0;
        while i < self.tiles.len()
            invariant
                i <= self.tiles@.len(),
                self.tiles@.len() <= 128,
                tiles == grids_of(&self.tiles),
                all_square(tiles, self.tile_size as nat),
                self.tile_size >= 1,
                count == members(mask, i as nat),
                r == channel_sum(tiles, mask, i as nat, 0),
                g == channel_sum(tiles, mask, i as nat, 1),
                b == channel_sum(tiles, mask, i as nat, 2),
                count <= i,
                r <= 255 * count,
                g <= 255 * count,
                b <= 255 * count,
            decreases self.tiles@.len() - i,
        {
            if contains_tile(mask, i) {
                assert(tiles[i as int].len() == self.tile_size);
                assert(tiles[i as int][0].len() == self.tile_size);
                let c = self.tiles[i][0][0];
                assert(c == tiles[i as int][0][0]);
                r = r + c.r as u32;
                g = g + c.g as u32;
                b = b + c.b as u32;
                count = count + 1;
            }
            i = i + 1;
        }
        if count > 0 {
            assert(r / count <= 255 && g / count <= 255 && b / count <= 255) by (nonlinear_arith)
                requires
                    count > 0,
                    r <= 255 * count,
                    g <= 255 * count,
                    b <= 255 * count,
            ;
            Color { r: (r / count) as u8, g: (g / count) as u8, b: (b / count) as u8 }
        } else {
            Color { r: 255, g: 0, b: 255 }
        }
    }

    /// The board as an RGBA buffer: for each cell, row by row, the colour that
    /// stands for its domain, and an alpha of 255.
    pub fn get_image_data(&self) -> (data: Vec<u8>)
        requires
            self@.tiles_ok(),
        ensures
            data@ == image_of(self@.tiles, self@.domains),
    {
        let mut data: Vec<u8> = Vec::new();
        let mut i: usize = 0;
        while i < self.matrix.len()
            invariant
                i <= self.matrix@.len(),
                self@.tiles_ok(),
                data@.len() == 4 * i,
                forall|k: int|
                    0 <= k < 4 * i ==> #[trigger] data@[k] == image_of(
                        self@.tiles,
                        self@.domains,
                    )[k],
            decreases self.matrix@.len() - i,
        {
            let color = self.get_display_color(self.matrix[i]);
            data.push(color.r);
            data.push(color.g);
            data.push(color.b);
            data.push(255);
            i = i + 1;
        }
        assert(data@ =~= image_of(self@.tiles, self@.domains));
        data
    }

    /// Looks from the cell at `(r, c)`, whose domain is `here`, at its neighbour in
    /// direction `d`; `false` when that neighbour would be left without a tile.
    fn relax(&mut self, here: u128, r: usize, c: usize, d: Direction) -> (ok: bool)
        requires
            old(self)@.consistent(),
            r < old(self)@.size,
            c < old(self)@.size,
        ensures
            (final(self)@, ok) == old(self)@.relax(here, r as int, c as int, d),
            final(self)@.consistent(),
            old(self)@.same_setup(final(self)@),
    {
        let nr = match d.shift_row(r, self.output_size) {
            Some(nr) => nr,
            None => {
                return true;
            },
        };
        let nc = match d.shift_col(c, self.output_size) {
            Some(nc) => nc,
            None => {
                return true;
            },
        };
        proof {
            lemma_cell_index(nr as int, nc as int, self.output_size as int);
        }
        let idx = nr * self.output_size + nc;
        if self.entropy_map[idx] <= 1 {
            return true;
        }
        let there = self.matrix[idx];
        let allowed = allowed_neighbors(&self.adjacencies, here, d);
        let updated = there & allowed;
        if updated == 0 {
            return false;
        }
        if updated != there {
            let left = count_tiles(updated);
            self.matrix[idx] = updated;
            self.entropy_map[idx] = left;
            self.stack.push((nr, nc));
            proof {
                let v = old(self)@;
                let w = self@;
                assert(v.cell_ok(idx as int));
                lemma_narrowed_cell(there, allowed, v.all_tiles());
                assert forall|i: int| 0 <= i < w.domains.len() implies #[trigger] w.cell_ok(i) by {
                    assert(v.cell_ok(i));
                }
                assert(w == v.relax(here, r as int, c as int, d).0);
            }
        }
        true
    }

    /// Looks from the cell at `(r, c)` at its four neighbours; `false` when one of
    /// them would be left without a tile.
    fn visit(&mut self, r: usize, c: usize) -> (ok: bool)
        requires
            old(self)@.consistent(),
            r < old(self)@.size,
            c < old(self)@.size,
        ensures
            (final(self)@, ok) == old(self)@.visit(r as int, c as int),
            final(self)@.consistent(),
            old(self)@.same_setup(final(self)@),
    {
        proof {
            lemma_cell_index(r as int, c as int, self.output_size as int);
        }
        let here = self.matrix[r * self.output_size + c];
        if !self.relax(here, r, c, Direction::Up) {
            return false;
        }
        if !self.relax(here, r, c, Direction::Down) {
            return false;
        }
        if !self.relax(here, r, c, Direction::Left) {
            return false;
        }
        self.relax(here, r, c, Direction::Right)
    }

    /// Works the frontier off; `false` when a cell would be left without a tile.
    fn propagate(&mut self) -> (ok: bool)
        requires
            old(self)@.consistent(),
        ensures
            (final(self)@, ok) == old(self)@.propagate(),
            final(self)@.consistent(),
            old(self)@.same_setup(final(self)@),
            ok ==> final(self)@.frontier.len() == 0,
    {
        loop
            invariant
                self@.consistent(),
                old(self)@.same_setup(self@),
                self@.propagate() == old(self)@.propagate(),
            decreases total_popcount(self@.domains), self@.frontier.len(),
        {
            let ghost before = self@;
            match self.stack.pop() {
                None => {
                    return true;
                },
                Some((r, c)) => {
                    let ghost popped = self@;
                    proof {
                        assert(before.frontier[before.frontier.len() - 1] == (r, c));
                        assert(popped == EngineView {
                            frontier: before.frontier.drop_last(),
                            ..before
                        });
                        assert forall|k: int| 0 <= k < popped.frontier.len() implies (
                        #[trigger] popped.frontier[k]).0 < popped.size && popped.frontier[k].1
                            < popped.size by {
                            assert(popped.frontier[k] == before.frontier[k]);
                        }
                        assert forall|i: int|
                            0 <= i < popped.domains.len() implies #[trigger] popped.cell_ok(i) by {
                            assert(before.cell_ok(i));
                        }
                        lemma_visit_progress(popped, r as int, c as int);
                    }
                    if !self.visit(r, c) {
                        return false;
                    }
                },
            }
        }
    }

    /// Opens the cells of the square of side `side` around `(row, col)` to every
    /// tile again and drops pending propagation.
    fn reset_local(&mut self, row: usize, col: usize, side: usize)
        requires
            old(self)@.consistent(),
            row < old(self)@.size,
            col < old(self)@.size,
        ensures
            final(self)@ == old(self)@.reset_local(row as int, col as int, side as nat),
            final(self)@.wf(),
    {
        let half = side / 2;
        let n = self.output_size;
        let count = self.tiles.len();
        let everything = full_domain(count);
        let lo_r = if row >= half {
            row - half
        } else {
            0
        };
        let hi_r = if half >= n - row {
            n
        } else {
            row + half
        };
        let lo_c = if col >= half {
            col - half
        } else {
            0
        };
        let hi_c = if half >= n - col {
            n
        } else {
            col + half
        };
        let ghost v = old(self)@;
        let ghost (y, x, s) = (row as int, col as int, side as nat);
        proof {
            lemma_reset_ends(v, y, x, s);
        }
        let mut r = lo_r;
        while r < hi_r
            invariant
                lo_r <= r <= hi_r <= n,
                lo_c <= hi_c <= n,
                v == old(self)@,
                v.consistent(),
                n == v.size,
                everything == v.all_tiles(),
                count == v.tiles.len(),
                (y, x, s) == (row as int, col as int, side as nat),
                y < n && x < n,
                lo_r == square_from(y, s) && hi_r == square_to(y, s, n as int),
                lo_c == square_from(x, s) && hi_c == square_to(x, s, n as int),
                self@ == v.reset_upto(y, x, s, r as int, 0),
            decreases hi_r - r,
        {
            proof {
                lemma_reset_row(v, y, x, s, r as int);
            }
            let mut c = lo_c;
            while c < hi_c
                invariant
                    lo_r <= r < hi_r <= n,
                    lo_c <= c <= hi_c <= n,
                    v == old(self)@,
                    v.consistent(),
                    n == v.size,
                    everything == v.all_tiles(),
                    count == v.tiles.len(),
                    (y, x, s) == (row as int, col as int, side as nat),
                    y < n && x < n,
                    lo_r == square_from(y, s) && hi_r == square_to(y, s, n as int),
                    lo_c == square_from(x, s) && hi_c == square_to(x, s, n as int),
                    self@ == v.reset_upto(y, x, s, r as int, c as int),
                decreases hi_c - c,
            {
                proof {
                    lemma_cell_index(r as int, c as int, n as int);
                    lemma_reset_cell(v, y, x, s, r as int, c as int);
                }
                self.matrix[r * n + c] = everything;
                self.entropy_map[r * n + c] = count;
                c = c + 1;
            }
            r = r + 1;
        }
        self.stack.clear();
        proof {
            let w = self@;
            assert(w.frontier =~= Seq::empty());
            lemma_full_mask_cell(count as nat);
            assert forall|i: int| 0 <= i < w.domains.len() implies #[trigger] w.cell_ok(i) by {
                assert(v.cell_ok(i));
            }
        }
    }

    /// Repairs the board after a contradiction met while collapsing the cell at
    /// `(row, col)`: counts the attempt, widens the square by four on the ninth
    /// in a row, and resets the square around the cell, or the whole board once
    /// the square is wider than the board.
    pub fn handle_contradiction(&mut self, row: usize, col: usize)
        requires
            old(self)@.consistent(),
            row < old(self)@.size,
            col < old(self)@.size,
        ensures
            final(self)@ == old(self)@.recover(row as int, col as int),
            final(self)@.wf(),
    {
        self.local_reset_attempts = self.local_reset_attempts + 1;
        if self.local_reset_attempts > MAX_ATTEMPTS {
            self.local_reset_attempts = 0;
            self.local_reset_size = self.local_reset_size + RADIUS_STEP;
        }
        assert(self@ == old(self)@.escalate());
        if self.local_reset_size > self.output_size {
            proof {
                let e = self@;
                let v = old(self)@;
                assert forall|i: int| 0 <= i < e.domains.len() implies #[trigger] e.cell_ok(i) by {
                    assert(v.cell_ok(i));
                }
            }
            self.reset_all_cells();
        } else {
            proof {
                let e = self@;
                let v = old(self)@;
                assert forall|i: int| 0 <= i < e.domains.len() implies #[trigger] e.cell_ok(i) by {
                    assert(v.cell_ok(i));
                }
            }
            let side = self.local_reset_size;
            self.reset_local(row, col, side);
        }
    }

    /// Collapses the cell at `index` to `tile`, propagates the consequences, and
    /// repairs the board around the cell if they end in a contradiction.
    pub fn collapse(&mut self, index: usize, tile: usize)
        requires
            old(self)@.wf(),
            index < old(self)@.domains.len(),
            tile < old(self)@.tiles.len(),
        ensures
            final(self)@ == old(self)@.collapse(index as int, tile as int),
            final(self)@.wf(),
    {
        proof {
            lemma_cell_coords(index as int, self.output_size as int);
            lemma_single_cell(tile as int, self@.tiles.len());
        }
        let row = index / self.output_size;
        let col = index % self.output_size;
        self.matrix[index] = single_domain(tile);
        self.entropy_map[index] = 1;
        self.stack.push((row, col));
        proof {
            let v = old(self)@;
            let w = self@;
            assert(w.frontier[0] == (row, col));
            assert forall|i: int| 0 <= i < w.domains.len() implies #[trigger] w.cell_ok(i) by {
                assert(v.cell_ok(i));
            }
            assert(w.frontier =~= v.frontier.push((row, col)));
        }
        if !self.propagate() {
            self.handle_contradiction(row, col);
        }
    }

    /// Picks at random one of the undetermined cells of least entropy; `None`
    /// when every cell has at most one tile left.
    pub fn find_lowest_entropy(&mut self) -> (cell: Option<usize>)
        ensures
            final(self)@ == old(self)@,
            match cell {
                Some(i) => is_lowest(old(self)@.entropy, i as int) && lowest_cells(
                    old(self)@.entropy,
                ).contains(i),
                None => all_settled(old(self)@.entropy),
            },
    {
        let count = lowest_entropy_cells(&self.entropy_map).len();
        if count == 0 {
            None
        } else {
            let draw = draw_below(&mut self.rng, count as u64);
            let cell = nth_lowest(&self.entropy_map, draw as usize);
            assert(lowest_cells(self@.entropy)[draw as int] == cell);
            Some(cell)
        }
    }

    /// Picks at random one of the tiles of `mask`, each in proportion to its
    /// weight; tile 0 when `mask` holds no tile.
    pub fn observe(&mut self, mask: u128) -> (tile: usize)
        requires
            old(self)@.tiles_ok(),
        ensures
            final(self)@ == old(self)@,
            domain_weight(old(self)@.weights, mask, old(self)@.weights.len()) == 0 ==> tile == 0,
            domain_weight(old(self)@.weights, mask, old(self)@.weights.len()) > 0 ==> exists|
                draw: nat,
            |
                draw < domain_weight(old(self)@.weights, mask, old(self)@.weights.len())
                    && #[trigger] picks(old(self)@.weights, mask, draw, tile as int),
    {
        let total = total_weight(&self.weights, mask);
        if total == 0 {
            return 0;
        }
        let draw = draw_below(&mut self.rng, total);
        let tile = pick_weighted(&self.weights, mask, draw);
        assert(picks(self@.weights, mask, draw as nat, tile as int));
        tile
    }

    /// Performs one step: collapses one of the undetermined cells of least
    /// entropy to one of its tiles, propagates, and repairs a contradiction.
    /// Returns `false`, and does nothing, when no cell is undetermined. Which
    /// cell and tile are taken is left to the generator: the board afterwards
    /// is the one that some legal choice gives.
    pub fn step(&mut self) -> (worked: bool)
        requires
            old(self)@.wf(),
        ensures
            final(self)@.wf(),
            forall|i: int|
                0 <= i < final(self)@.domains.len() ==> #[trigger] final(self)@.domains[i] != 0,
            forall|i: int|
                0 <= i < final(self)@.domains.len() ==> #[trigger] final(self)@.entropy[i]
                    == popcount(final(self)@.domains[i]),
            worked == !all_settled(old(self)@.entropy),
            !worked ==> final(self)@ == old(self)@,
            worked ==> exists|choice: (int, int)|
                #[trigger] legal_choice(old(self)@, choice) && final(self)@ == old(self)@.collapse(
                    choice.0,
                    choice.1,
                ),
    {
        proof {
            lemma_consistent_cells(self@);
        }
        match self.find_lowest_entropy() {
            Some(index) => {
                let mask = self.matrix[index];
                proof {
                    assert(self@.cell_ok(index as int));
                    lemma_cell_has_tile(self@, index as int);
                }
                let tile = self.observe(mask);
                self.collapse(index, tile);
                proof {
                    let v = old(self)@;
                    assert(v.entropy[index as int] > 1);
                    lemma_consistent_cells(self@);
                    let choice = (index as int, tile as int);
                    assert(legal_choice(v, choice) && self@ == v.collapse(choice.0, choice.1));
                }
                true
            },
            None => false,
        }
    }
}

} // verus!
