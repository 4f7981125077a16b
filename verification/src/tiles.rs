//! Tile extraction: every window of the example image, in all four orientations,
//! deduplicated and weighted by how often it occurs.

use vstd::prelude::*;
use crate::color::Color;

verus! {

/// A grid of colours as a mathematical value: a sequence of rows.
pub type Grid = Seq<Seq<Color>>;

/// The grid that a vector of rows holds.
pub open spec fn grid_of(rows: &Vec<Vec<Color>>) -> Grid {
    Seq::new(rows@.len(), |r: int| rows@[r]@)
}

/// The grids that a vector of tiles holds, in order.
pub open spec fn grids_of(tiles: &Vec<Vec<Vec<Color>>>) -> Seq<Grid> {
    Seq::new(tiles@.len(), |i: int| grid_of(&tiles@[i]))
}

/// `g` has `rows` rows of `cols` cells each.
pub open spec fn is_rect(g: Grid, rows: nat, cols: nat) -> bool {
    &&& g.len() == rows
    &&& forall|r: int| 0 <= r < rows ==> (#[trigger] g[r]).len() == cols
}

/// `g` is a square of side `n`.
pub open spec fn is_square(g: Grid, n: nat) -> bool {
    is_rect(g, n, n)
}

/// Number of columns of an image: the length of its first row.
pub open spec fn width_of(img: Grid) -> nat {
    if img.len() > 0 {
        img[0].len()
    } else {
        0
    }
}

/// The `n` by `n` window of `img` whose top-left cell is `(r0, c0)`.
pub open spec fn window(img: Grid, r0: int, c0: int, n: nat) -> Grid {
    Seq::new(n, |r: int| Seq::new(n, |c: int| img[r0 + r][c0 + c]))
}

/// `g` turned by a quarter: the cell `(r, c)` of `g` lands on `(c, n - 1 - r)`.
pub open spec fn rotate(g: Grid) -> Grid {
    Seq::new(g.len(), |r: int| Seq::new(g.len(), |c: int| g[g.len() - 1 - c][r]))
}

/// A window followed by its three successive quarter turns.
pub open spec fn four_rotations(w: Grid) -> Seq<Grid> {
    seq![w, rotate(w), rotate(rotate(w)), rotate(rotate(rotate(w)))]
}

/// The candidates contributed by the first `c` window positions of row `r`.
pub open spec fn row_candidates(img: Grid, n: nat, r: int, c: nat) -> Seq<Grid>
    decreases c,
{
    if c == 0 {
        Seq::empty()
    } else {
        row_candidates(img, n, r, (c - 1) as nat) + four_rotations(window(img, r, c - 1, n))
    }
}

/// The candidates contributed by the first `r` rows of window positions, each row
/// having `ncols` positions.
pub open spec fn candidates_upto(img: Grid, n: nat, r: nat, ncols: nat) -> Seq<Grid>
    decreases r,
{
    if r == 0 {
        Seq::empty()
    } else {
        candidates_upto(img, n, (r - 1) as nat, ncols) + row_candidates(img, n, r - 1, ncols)
    }
}

/// Every candidate tile of `img`: each position at which a window of side `n`
/// fits, taken row by row, each in its four orientations.
pub open spec fn candidates(img: Grid, n: nat) -> Seq<Grid> {
    if n <= img.len() && n <= width_of(img) {
        candidates_upto(img, n, (img.len() - n + 1) as nat, (width_of(img) - n + 1) as nat)
    } else {
        Seq::empty()
    }
}

/// `s` without repetitions, each grid at the place of its first occurrence.
pub open spec fn dedup(s: Seq<Grid>) -> Seq<Grid>
    decreases s.len(),
{
    if s.len() == 0 {
        Seq::empty()
    } else {
        register(dedup(s.drop_last()), s.last())
    }
}

/// `known` with `g` appended unless it is there already.
pub open spec fn register(known: Seq<Grid>, g: Grid) -> Seq<Grid> {
    if known.contains(g) {
        known
    } else {
        known.push(g)
    }
}

/// How many times `g` occurs in `s`.
pub open spec fn occurrences(s: Seq<Grid>, g: Grid) -> nat
    decreases s.len(),
{
    if s.len() == 0 {
        0
    } else {
        occurrences(s.drop_last(), g) + if s.last() == g {
            1nat
        } else {
            0nat
        }
    }
}

/// The sum of a sequence of weights.
pub open spec fn weight_sum(w: Seq<u64>) -> nat
    decreases w.len(),
{
    if w.len() == 0 {
        0
    } else {
        weight_sum(w.drop_last()) + w.last() as nat
    }
}

/// Whether two tiles hold the same colours in the same places.
pub fn same_tile(a: &Vec<Vec<Color>>, b: &Vec<Vec<Color>>) -> (eq: bool)
    ensures
        eq == (grid_of(a) == grid_of(b)),
{
    if a.len() != b.len() {
        assert(grid_of(a).len() != grid_of(b).len());
        return false;
    }
    let mut r: usize = 0;
    while r < a.len()
        invariant
            r <= a.len(),
            a.len() == b.len(),
            forall|i: int| 0 <= i < r ==> a@[i]@ == b@[i]@,
        decreases a.len() - r,
    {
        let ra = &a[r];
        let rb = &b[r];
        if ra.len() != rb.len() {
            assert(grid_of(a)[r as int].len() != grid_of(b)[r as int].len());
            return false;
        }
        let mut c: usize = 0;
        while c < ra.len()
            invariant
                c <= ra.len(),
                ra.len() == rb.len(),
                r < a.len(),
                a.len() == b.len(),
                ra@ == a@[r as int]@,
                rb@ == b@[r as int]@,
                forall|j: int| 0 <= j < c ==> ra@[j] == rb@[j],
            decreases ra.len() - c,
        {
            if ra[c] != rb[c] {
                assert(grid_of(a)[r as int][c as int] != grid_of(b)[r as int][c as int]);
                return false;
            }
            c = c + 1;
        }
        assert(ra@ =~= rb@);
        r = r + 1;
    }
    assert(grid_of(a) =~= grid_of(b));
    true
}

/// Turns a square tile by a quarter.
pub fn rotate_tile(tile: &Vec<Vec<Color>>) -> (turned: Vec<Vec<Color>>)
    requires
        is_square(grid_of(tile), tile@.len()),
    ensures
        grid_of(&turned) == rotate(grid_of(tile)),
        is_square(grid_of(&turned), tile@.len()),
{
    let size = tile.len();
    let mut turned: Vec<Vec<Color>> = Vec::new();
    let mut r: usize = 0;
    while r < size
        invariant
            r <= size,
            size == tile@.len(),
            is_square(grid_of(tile), size as nat),
            turned@.len() == r,
            forall|i: int| 0 <= i < r ==> (#[trigger] turned@[i])@ == rotate(grid_of(tile))[i],
        decreases size - r,
    {
        let mut row: Vec<Color> = Vec::new();
        let mut c: usize = 0;
        while c < size
            invariant
                c <= size,
                r < size,
                size == tile@.len(),
                is_square(grid_of(tile), size as nat),
                row@.len() == c,
                forall|j: int| 0 <= j < c ==> #[trigger] row@[j] == grid_of(tile)[size - 1 - j][r as int],
            decreases size - c,
        {
            assert(grid_of(tile)[size - 1 - c].len() == size);
            row.push(tile[size - 1 - c][r]);
            c = c + 1;
        }
        assert(row@ =~= rotate(grid_of(tile))[r as int]);
        turned.push(row);
        r = r + 1;
    }
    assert(grid_of(&turned) =~= rotate(grid_of(tile)));
    turned
}

/// Copies the window of side `n` whose top-left cell is `(r0, c0)` out of `input`.
pub fn cut_window(input: &Vec<Vec<Color>>, r0: usize, c0: usize, n: usize) -> (tile: Vec<Vec<Color>>)
    requires
        is_rect(grid_of(input), input@.len(), width_of(grid_of(input))),
        r0 + n <= input@.len(),
        c0 + n <= width_of(grid_of(input)),
    ensures
        grid_of(&tile) == window(grid_of(input), r0 as int, c0 as int, n as nat),
        is_square(grid_of(&tile), n as nat),
{
    let mut tile: Vec<Vec<Color>> = Vec::new();
    let mut r: usize = 0;
    proof {
        assert(input.len() == input@.len());
        if input@.len() > 0 {
            assert(grid_of(input)[0].len() == input@[0].len());
        }
    }
    while r < n
        invariant
            r <= n,
            is_rect(grid_of(input), input@.len(), width_of(grid_of(input))),
            r0 + n <= input@.len(),
            c0 + n <= width_of(grid_of(input)),
            r0 + n <= usize::MAX,
            n > 0 ==> c0 + n <= usize::MAX,
            tile@.len() == r,
            forall|i: int| 0 <= i < r ==> (#[trigger] tile@[i])@ == window(
                grid_of(input),
                r0 as int,
                c0 as int,
                n as nat,
            )[i],
        decreases n - r,
    {
        let mut row: Vec<Color> = Vec::new();
        let mut c: usize = 0;
        while c < n
            invariant
                c <= n,
                r < n,
                is_rect(grid_of(input), input@.len(), width_of(grid_of(input))),
                r0 + n <= input@.len(),
                c0 + n <= width_of(grid_of(input)),
                c0 + n <= usize::MAX,
                r0 + n <= usize::MAX,
                row@.len() == c,
                forall|j: int| 0 <= j < c ==> #[trigger] row@[j] == grid_of(input)[r0 + r][c0 + j],
            decreases n - c,
        {
            assert(grid_of(input)[r0 + r].len() == width_of(grid_of(input)));
            row.push(input[r0 + r][c0 + c]);
            c = c + 1;
        }
        assert(row@ =~= window(grid_of(input), r0 as int, c0 as int, n as nat)[r as int]);
        tile.push(row);
        r = r + 1;
    }
    assert(grid_of(&tile) =~= window(grid_of(input), r0 as int, c0 as int, n as nat));
    tile
}

/// `weights[i]` is the number of times `known[i]` occurs in `s`, for every `i`.
pub open spec fn counts_match(known: Seq<Grid>, weights: Seq<u64>, s: Seq<Grid>) -> bool {
    &&& weights.len() == known.len()
    &&& forall|i: int| 0 <= i < known.len() ==> (#[trigger] weights[i]) as nat == occurrences(s, known[i])
}

/// Every grid of `known` is a square of side `n`.
pub open spec fn all_square(known: Seq<Grid>, n: nat) -> bool {
    forall|i: int| 0 <= i < known.len() ==> is_square(#[trigger] known[i], n)
}

/// No grid occurs twice in `known`.
pub open spec fn distinct(known: Seq<Grid>) -> bool {
    forall|i: int, j: int| 0 <= i < j < known.len() ==> known[i] != known[j]
}

/// The weights after one more occurrence of `g`: its count goes up by one, or it
/// enters with count one.
pub open spec fn bump(known: Seq<Grid>, weights: Seq<u64>, g: Grid) -> Seq<u64> {
    if known.contains(g) {
        weights.update(known.index_of(g), (weights[known.index_of(g)] + 1) as u64)
    } else {
        weights.push(1)
    }
}

/// A deduplicated list holds exactly the grids of the list it came from.
pub proof fn lemma_dedup_contains(s: Seq<Grid>, g: Grid)
    ensures
        dedup(s).contains(g) <==> s.contains(g),
    decreases s.len(),
{
    if s.len() > 0 {
        let head = s.drop_last();
        let last = s.last();
        lemma_dedup_contains(head, g);
        lemma_dedup_contains(head, last);
        let d = dedup(head);
        if s.contains(g) && !dedup(s).contains(g) {
            let k = choose|k: int| 0 <= k < s.len() && s[k] == g;
            if k < head.len() {
                assert(head[k] == g);
                let m = choose|m: int| 0 <= m < d.len() && d[m] == g;
                if !d.contains(last) {
                    assert(d.push(last)[m] == g);
                }
            } else {
                if !d.contains(g) {
                    assert(d.push(g)[d.len() as int] == g);
                }
            }
        }
        if dedup(s).contains(g) && !s.contains(g) {
            let k = choose|k: int| 0 <= k < dedup(s).len() && dedup(s)[k] == g;
            if k < d.len() {
                assert(d[k] == g);
                let m = choose|m: int| 0 <= m < head.len() && head[m] == g;
                assert(s[m] == g);
            } else {
                assert(s[s.len() - 1] == g);
            }
        }
    }
}

/// A deduplicated list holds no grid twice.
pub proof fn lemma_dedup_distinct(s: Seq<Grid>)
    ensures
        distinct(dedup(s)),
    decreases s.len(),
{
    if s.len() > 0 {
        lemma_dedup_distinct(s.drop_last());
    }
}

/// A grid occurs zero times exactly when the list does not hold it.
pub proof fn lemma_occurrences_zero(s: Seq<Grid>, g: Grid)
    ensures
        occurrences(s, g) == 0 <==> !s.contains(g),
    decreases s.len(),
{
    if s.len() > 0 {
        let head = s.drop_last();
        lemma_occurrences_zero(head, g);
        if s.contains(g) {
            let k = choose|k: int| 0 <= k < s.len() && s[k] == g;
            if k < head.len() {
                assert(head[k] == g);
            }
        }
        if head.contains(g) {
            let k = choose|k: int| 0 <= k < head.len() && head[k] == g;
            assert(s[k] == g);
        }
        if s.last() == g {
            assert(s[s.len() - 1] == g);
        }
    }
}

proof fn lemma_weight_sum_update(w: Seq<u64>, j: int, v: u64)
    requires
        0 <= j < w.len(),
    ensures
        weight_sum(w.update(j, v)) == weight_sum(w) - w[j] + v,
        w[j] <= weight_sum(w),
    decreases w.len(),
{
    if j == w.len() - 1 {
        assert(w.update(j, v).drop_last() =~= w.drop_last());
    } else {
        lemma_weight_sum_update(w.drop_last(), j, v);
        assert(w.update(j, v).drop_last() =~= w.drop_last().update(j, v));
    }
}

proof fn lemma_register_step(s: Seq<Grid>, known: Seq<Grid>, weights: Seq<u64>, g: Grid)
    requires
        known == dedup(s),
        counts_match(known, weights, s),
        weight_sum(weights) == s.len(),
        s.len() < u64::MAX,
    ensures
        register(known, g) == dedup(s.push(g)),
        counts_match(register(known, g), bump(known, weights, g), s.push(g)),
        weight_sum(bump(known, weights, g)) == s.len() + 1,
{
    let s2 = s.push(g);
    assert(s2.drop_last() =~= s);
    lemma_dedup_distinct(s);
    lemma_dedup_contains(s, g);
    lemma_occurrences_zero(s, g);
    let known2 = register(known, g);
    let weights2 = bump(known, weights, g);
    if known.contains(g) {
        let j = known.index_of(g);
        lemma_weight_sum_update(weights, j, (weights[j] + 1) as u64);
        assert forall|i: int| 0 <= i < known2.len() implies (#[trigger] weights2[i]) as nat
            == occurrences(s2, known2[i]) by {
            if i != j {
                assert(known[i] != known[j]);
            }
        }
    } else {
        assert(weights2.drop_last() =~= weights);
        assert forall|i: int| 0 <= i < known2.len() implies (#[trigger] weights2[i]) as nat
            == occurrences(s2, known2[i]) by {
            if i < known.len() {
                assert(known[i] != g);
            }
        }
    }
}

/// Counts one more occurrence of `tile`: it joins `tiles` with weight one if it is
/// new, and else the weight of its equal goes up by one.
pub fn register_tile(tiles: &mut Vec<Vec<Vec<Color>>>, weights: &mut Vec<u64>, tile: Vec<Vec<Color>>)
    requires
        old(tiles)@.len() == old(weights)@.len(),
        distinct(grids_of(old(tiles))),
        weight_sum(old(weights)@) < u64::MAX,
    ensures
        grids_of(final(tiles)) == register(grids_of(old(tiles)), grid_of(&tile)),
        final(weights)@ == bump(grids_of(old(tiles)), old(weights)@, grid_of(&tile)),
{
    let ghost known = grids_of(tiles);
    let ghost g = grid_of(&tile);
    let mut i: usize = 0;
    while i < tiles.len()
        invariant
            i <= tiles@.len(),
            tiles@.len() == weights@.len(),
            known == grids_of(tiles),
            g == grid_of(&tile),
            distinct(known),
            *tiles == *old(tiles),
            *weights == *old(weights),
            weight_sum(weights@) < u64::MAX,
            forall|k: int| 0 <= k < i ==> known[k] != g,
        decreases tiles@.len() - i,
    {
        if same_tile(&tiles[i], &tile) {
            proof {
                assert(known[i as int] == g);
                assert(known.index_of(g) == i) by {
                    let j = known.index_of(g);
                    if j < i {
                        assert(known[j] != g);
                    } else if j > i {
                        assert(known[i as int] != known[j]);
                    }
                }
                lemma_weight_sum_update(weights@, i as int, 0);
            }
            let bumped: u64 = weights[i] + 1;
            weights[i] = bumped;
            return ;
        }
        i = i + 1;
    }
    proof {
        assert(!known.contains(g));
    }
    tiles.push(tile);
    weights.push(1);
    proof {
        assert(grids_of(tiles) =~= known.push(g));
    }
}

proof fn lemma_row_len(img: Grid, n: nat, r: int, c: nat)
    ensures
        row_candidates(img, n, r, c).len() == 4 * c,
    decreases c,
{
    if c > 0 {
        lemma_row_len(img, n, r, (c - 1) as nat);
    }
}

proof fn lemma_upto_len(img: Grid, n: nat, r: nat, ncols: nat)
    ensures
        candidates_upto(img, n, r, ncols).len() == 4 * (r * ncols),
    decreases r,
{
    if r > 0 {
        lemma_upto_len(img, n, (r - 1) as nat, ncols);
        lemma_row_len(img, n, r - 1, ncols);
        assert((r - 1) * ncols + ncols == r * ncols) by (nonlinear_arith);
    } else {
        assert(0 * ncols == 0) by (nonlinear_arith);
    }
}

/// An image in which the window fits at `rows` by `cols` positions has four
/// candidates for each of them.
pub proof fn lemma_candidates_len(img: Grid, n: nat)
    requires
        n <= img.len(),
        n <= width_of(img),
    ensures
        candidates(img, n).len() == 4 * ((img.len() - n + 1) * (width_of(img) - n + 1)),
{
    lemma_upto_len(img, n, (img.len() - n + 1) as nat, (width_of(img) - n + 1) as nat);
}

proof fn lemma_position_bound(r: nat, c: nat, nrows: nat, ncols: nat)
    by (nonlinear_arith)
    requires
        r < nrows,
        c < ncols,
    ensures
        4 * (r * ncols) + 4 * c + 4 <= 4 * (nrows * ncols),
{
}

/// Slides a window of side `tile_size` over `input` and returns the distinct
/// tiles, in the order in which they first occur, with the number of times each
/// occurs among the windows and their quarter turns.
pub fn extract_tiles(input: &Vec<Vec<Color>>, tile_size: usize) -> (out: (
    Vec<Vec<Vec<Color>>>,
    Vec<u64>,
))
    requires
        is_rect(grid_of(input), input@.len(), width_of(grid_of(input))),
        1 <= tile_size <= input@.len(),
        tile_size <= width_of(grid_of(input)),
        4 * ((input@.len() - tile_size + 1) * (width_of(grid_of(input)) - tile_size + 1))
            <= u64::MAX,
    ensures
        grids_of(&out.0) == dedup(candidates(grid_of(input), tile_size as nat)),
        counts_match(grids_of(&out.0), out.1@, candidates(grid_of(input), tile_size as nat)),
        weight_sum(out.1@) == candidates(grid_of(input), tile_size as nat).len(),
        all_square(grids_of(&out.0), tile_size as nat),
{
    let ghost img = grid_of(input);
    let ghost n = tile_size as nat;
    assert(img[0].len() == input@[0].len());
    let last_r = input.len() - tile_size;
    let last_c = input[0].len() - tile_size;
    let ghost nrows = (last_r + 1) as nat;
    let ghost ncols = (last_c + 1) as nat;
    let mut tiles: Vec<Vec<Vec<Color>>> = Vec::new();
    let mut weights: Vec<u64> = Vec::new();
    let ghost mut seen: Seq<Grid> = Seq::empty();
    assert(grids_of(&tiles) =~= dedup(seen));
    let mut r: usize = 0;
    while r <= last_r
        invariant
            r <= last_r + 1,
            last_r < usize::MAX,
            last_c < usize::MAX,
            last_r + tile_size == input@.len(),
            last_c + tile_size == width_of(img),
            nrows == last_r + 1,
            ncols == last_c + 1,
            img == grid_of(input),
            n == tile_size,
            is_rect(img, input@.len(), width_of(img)),
            4 * (nrows * ncols) <= u64::MAX,
            seen == candidates_upto(img, n, r as nat, ncols),
            grids_of(&tiles) == dedup(seen),
            counts_match(grids_of(&tiles), weights@, seen),
            weight_sum(weights@) == seen.len(),
            all_square(grids_of(&tiles), n),
        decreases last_r + 1 - r,
    {
        let ghost before_row = seen;
        let mut c: usize = 0;
        while c <= last_c
            invariant
                r <= last_r,
                c <= last_c + 1,
                last_r < usize::MAX,
                last_c < usize::MAX,
                last_r + tile_size == input@.len(),
                last_c + tile_size == width_of(img),
                nrows == last_r + 1,
                ncols == last_c + 1,
                img == grid_of(input),
                n == tile_size,
                is_rect(img, input@.len(), width_of(img)),
                4 * (nrows * ncols) <= u64::MAX,
                before_row == candidates_upto(img, n, r as nat, ncols),
                seen == before_row + row_candidates(img, n, r as int, c as nat),
                grids_of(&tiles) == dedup(seen),
                counts_match(grids_of(&tiles), weights@, seen),
                weight_sum(weights@) == seen.len(),
                all_square(grids_of(&tiles), n),
            decreases last_c + 1 - c,
        {
            proof {
                lemma_upto_len(img, n, r as nat, ncols);
                lemma_row_len(img, n, r as int, c as nat);
                lemma_position_bound(r as nat, c as nat, nrows, ncols);
            }
            let t0 = cut_window(input, r, c, tile_size);
            let t1 = rotate_tile(&t0);
            let t2 = rotate_tile(&t1);
            let t3 = rotate_tile(&t2);
            let ghost w = window(img, r as int, c as int, n);
            let ghost s0 = seen;
            proof {
                lemma_dedup_distinct(seen);
                lemma_register_step(seen, grids_of(&tiles), weights@, grid_of(&t0));
                seen = seen.push(grid_of(&t0));
            }
            register_tile(&mut tiles, &mut weights, t0);
            proof {
                lemma_dedup_distinct(seen);
                lemma_register_step(seen, grids_of(&tiles), weights@, grid_of(&t1));
                seen = seen.push(grid_of(&t1));
            }
            register_tile(&mut tiles, &mut weights, t1);
            proof {
                lemma_dedup_distinct(seen);
                lemma_register_step(seen, grids_of(&tiles), weights@, grid_of(&t2));
                seen = seen.push(grid_of(&t2));
            }
            register_tile(&mut tiles, &mut weights, t2);
            proof {
                lemma_dedup_distinct(seen);
                lemma_register_step(seen, grids_of(&tiles), weights@, grid_of(&t3));
                seen = seen.push(grid_of(&t3));
            }
            register_tile(&mut tiles, &mut weights, t3);
            proof {
                assert(seen =~= s0 + four_rotations(w));
                assert(seen =~= before_row + row_candidates(img, n, r as int, (c + 1) as nat));
            }
            c = c + 1;
        }
        r = r + 1;
    }
    (tiles, weights)
}

} // verus!
