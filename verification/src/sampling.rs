//! Random choices: which cell to collapse next, and to which tile.
//!
//! The generator is the only thing here that is not verified. Each choice is split
//! in two: a draw from the generator, of which only its range is known, and a
//! verified function that turns any draw of that range into the choice:
//! [`nth_lowest`] for the cell, [`pick_weighted`] for the tile.

use vstd::prelude::*;
use rand::rngs::SmallRng;
use rand::Rng;
use crate::domain::{contains_tile, has_tile, MAX_TILES};
use crate::tiles::weight_sum;

verus! {

/// `rand::rngs::SmallRng`, the generator of the engine: a value that is carried
/// along and of whose inside nothing is known.
#[verifier::external_type_specification]
#[verifier::external_body]
pub struct ExSmallRng(SmallRng);

/// Calls `Rng::gen_range` on the half-open range `0..bound`. The range must not
/// be empty; the draw lies in it. Which of its values comes is not stated.
#[verifier::external_body]
pub(crate) fn draw_below(rng: &mut SmallRng, bound: u64) -> (draw: u64)
    requires
        bound > 0,
    ensures
        draw < bound,
{
    rng.gen_range(0..bound)
}

/// The total weight of those among the first `k` tiles that `mask` holds.
pub open spec fn domain_weight(weights: Seq<u64>, mask: u128, k: nat) -> nat
    decreases k,
{
    if k == 0 {
        0
    } else if has_tile(mask, k - 1) {
        domain_weight(weights, mask, (k - 1) as nat) + weights[k - 1] as nat
    } else {
        domain_weight(weights, mask, (k - 1) as nat)
    }
}

/// The draw `draw` selects tile `t`: `mask` holds `t`, and `draw` falls into the
/// stretch of length `weights[t]` that starts at the total weight of the tiles
/// of `mask` below `t`.
pub open spec fn picks(weights: Seq<u64>, mask: u128, draw: nat, t: int) -> bool {
    &&& 0 <= t < weights.len()
    &&& has_tile(mask, t)
    &&& domain_weight(weights, mask, t as nat) <= draw < domain_weight(weights, mask, (t + 1) as nat)
}

/// The largest of the first `k` tiles that `mask` holds, or 0 if it holds none.
pub open spec fn last_tile(mask: u128, k: nat) -> nat
    decreases k,
{
    if k == 0 {
        0
    } else if has_tile(mask, k - 1) {
        (k - 1) as nat
    } else {
        last_tile(mask, (k - 1) as nat)
    }
}

/// The weight of a domain grows with the number of tiles looked at.
pub proof fn lemma_domain_weight_monotonic(weights: Seq<u64>, mask: u128, j: nat, k: nat)
    requires
        j <= k,
    ensures
        domain_weight(weights, mask, j) <= domain_weight(weights, mask, k),
    decreases k,
{
    if j < k {
        lemma_domain_weight_monotonic(weights, mask, j, (k - 1) as nat);
    }
}

proof fn lemma_take_sum(w: Seq<u64>, k: int)
    requires
        0 <= k <= w.len(),
    ensures
        weight_sum(w.take(k)) <= weight_sum(w),
        k < w.len() ==> weight_sum(w.take(k + 1)) == weight_sum(w.take(k)) + w[k],
    decreases w.len(),
{
    if k == w.len() {
        assert(w.take(k) =~= w);
    } else {
        assert(w.take(k) =~= w.drop_last().take(k));
        lemma_take_sum(w.drop_last(), k);
        assert(w.take(k + 1).drop_last() =~= w.take(k));
    }
}

/// No domain weighs more than all the weights together.
pub proof fn lemma_domain_weight_bound(weights: Seq<u64>, mask: u128, k: nat)
    requires
        k <= weights.len(),
    ensures
        domain_weight(weights, mask, k) <= weight_sum(weights.take(k as int)),
        domain_weight(weights, mask, k) <= weight_sum(weights),
    decreases k,
{
    lemma_take_sum(weights, k as int);
    if k > 0 {
        lemma_domain_weight_bound(weights, mask, (k - 1) as nat);
        lemma_take_sum(weights, k - 1);
    }
}

/// For one draw at most one tile is selected.
pub proof fn lemma_picks_unique(weights: Seq<u64>, mask: u128, draw: nat, s: int, t: int)
    requires
        picks(weights, mask, draw, s),
        picks(weights, mask, draw, t),
    ensures
        s == t,
{
    if s < t {
        lemma_domain_weight_monotonic(weights, mask, (s + 1) as nat, t as nat);
    } else if t < s {
        lemma_domain_weight_monotonic(weights, mask, (t + 1) as nat, s as nat);
    }
}

/// Of the draws below the weight of a domain, exactly `weights[t]` many select
/// tile `t` of the domain: the draws from the weight of the tiles below `t` on.
/// So a draw that is uniform selects each tile in proportion to its weight.
pub proof fn lemma_picks_share(weights: Seq<u64>, mask: u128, t: int, draw: nat)
    requires
        0 <= t < weights.len(),
        has_tile(mask, t),
    ensures
        picks(weights, mask, draw, t) <==> domain_weight(weights, mask, t as nat) <= draw
            < domain_weight(weights, mask, t as nat) + weights[t],
        domain_weight(weights, mask, t as nat) + weights[t] <= domain_weight(
            weights,
            mask,
            weights.len(),
        ),
{
    lemma_domain_weight_monotonic(weights, mask, (t + 1) as nat, weights.len());
}

/// The total weight of the tiles that `mask` holds.
pub fn total_weight(weights: &Vec<u64>, mask: u128) -> (total: u64)
    requires
        weights@.len() <= MAX_TILES,
        weight_sum(weights@) <= u64::MAX,
    ensures
        total == domain_weight(weights@, mask, weights@.len()),
{
    let mut total: u64 = 0;
    let mut i: usize = 0;
    while i < weights.len()
        invariant
            i <= weights@.len(),
            weights@.len() <= MAX_TILES,
            weight_sum(weights@) <= u64::MAX,
            total == domain_weight(weights@, mask, i as nat),
        decreases weights@.len() - i,
    {
        if contains_tile(mask, i) {
            proof {
                lemma_domain_weight_bound(weights@, mask, (i + 1) as nat);
            }
            total = total + weights[i];
        }
        i = i + 1;
    }
    total
}

/// Turns a draw into a tile of `mask`: walks the tiles of `mask` upwards and takes
/// the first whose weight exceeds what is left of the draw, taking each passed
/// tile's weight off. A draw that is not below the weight of `mask` gives the
/// largest tile of `mask`, and an empty `mask` gives tile 0.
pub fn pick_weighted(weights: &Vec<u64>, mask: u128, draw: u64) -> (tile: usize)
    requires
        weights@.len() <= MAX_TILES,
    ensures
        draw < domain_weight(weights@, mask, weights@.len()) ==> picks(
            weights@,
            mask,
            draw as nat,
            tile as int,
        ),
        draw >= domain_weight(weights@, mask, weights@.len()) ==> tile == last_tile(
            mask,
            weights@.len(),
        ),
{
    let mut rest: u64 = draw;
    let mut last: usize = 0;
    let mut i: usize = 0;
    while i < weights.len()
        invariant
            i <= weights@.len(),
            weights@.len() <= MAX_TILES,
            rest + domain_weight(weights@, mask, i as nat) == draw,
            last == last_tile(mask, i as nat),
        decreases weights@.len() - i,
    {
        if contains_tile(mask, i) {
            if rest < weights[i] {
                proof {
                    lemma_domain_weight_monotonic(weights@, mask, (i + 1) as nat, weights@.len());
                }
                return i;
            }
            rest = rest - weights[i];
            last = i;
        }
        i = i + 1;
    }
    last
}

/// Cell `i` is undetermined and no undetermined cell has fewer tiles left.
pub open spec fn is_lowest(entropy: Seq<usize>, i: int) -> bool {
    &&& 0 <= i < entropy.len()
    &&& entropy[i] > 1
    &&& forall|j: int| 0 <= j < entropy.len() && #[trigger] entropy[j] > 1 ==> entropy[i] <= entropy[j]
}

/// No cell has more than one tile left.
pub open spec fn all_settled(entropy: Seq<usize>) -> bool {
    forall|j: int| 0 <= j < entropy.len() ==> #[trigger] entropy[j] <= 1
}

/// Those among the first `k` cells that are undetermined and of least entropy on
/// the whole board, in ascending order.
pub open spec fn lowest_upto(entropy: Seq<usize>, k: nat) -> Seq<usize>
    decreases k,
{
    if k == 0 {
        Seq::empty()
    } else if is_lowest(entropy, k - 1) {
        lowest_upto(entropy, (k - 1) as nat).push((k - 1) as usize)
    } else {
        lowest_upto(entropy, (k - 1) as nat)
    }
}

/// The undetermined cells of least entropy, in ascending order.
pub open spec fn lowest_cells(entropy: Seq<usize>) -> Seq<usize> {
    lowest_upto(entropy, entropy.len())
}

proof fn lemma_lowest_prefix(entropy: Seq<usize>, cells: Seq<usize>, m: nat) -> (j: int)
    requires
        m <= entropy.len() <= usize::MAX,
        forall|k: int| 0 <= k < cells.len() ==> is_lowest(entropy, #[trigger] cells[k] as int),
        forall|i: int| #[trigger] is_lowest(entropy, i) ==> cells.contains(i as usize),
        forall|a: int, b: int| 0 <= a < b < cells.len() ==> cells[a] < cells[b],
    ensures
        0 <= j <= cells.len(),
        lowest_upto(entropy, m) == cells.take(j),
        forall|k: int| 0 <= k < j ==> cells[k] < m,
        forall|k: int| j <= k < cells.len() ==> cells[k] >= m,
    decreases m,
{
    if m == 0 {
        assert(cells.take(0) =~= Seq::<usize>::empty());
        0
    } else {
        let j0 = lemma_lowest_prefix(entropy, cells, (m - 1) as nat);
        let i = m - 1;
        if is_lowest(entropy, i) {
            assert(cells.contains(i as usize));
            let q = choose|q: int| 0 <= q < cells.len() && cells[q] == i as usize;
            if q > j0 {
                assert(cells[j0] < cells[q]);
            }
            assert(q == j0);
            assert(cells.take(j0 + 1) =~= cells.take(j0).push(i as usize));
            assert forall|k: int| j0 + 1 <= k < cells.len() implies cells[k] >= m by {
                assert(cells[j0] < cells[k]);
            }
            j0 + 1
        } else {
            assert forall|k: int| j0 <= k < cells.len() implies cells[k] >= m by {
                assert(is_lowest(entropy, cells[k] as int));
            }
            j0
        }
    }
}

/// The list of lowest cells holds exactly the lowest cells, each once, and is
/// empty exactly when every cell is settled.
pub proof fn lemma_lowest_cells(entropy: Seq<usize>, k: nat)
    requires
        k <= entropy.len() <= usize::MAX,
    ensures
        forall|j: int|
            0 <= j < lowest_upto(entropy, k).len() ==> is_lowest(
                entropy,
                #[trigger] lowest_upto(entropy, k)[j] as int,
            ) && lowest_upto(entropy, k)[j] < k,
        forall|i: int|
            0 <= i < k && #[trigger] is_lowest(entropy, i) ==> lowest_upto(entropy, k).contains(
                i as usize,
            ),
        lowest_upto(entropy, k).len() <= k,
    decreases k,
{
    if k > 0 {
        let rest = lowest_upto(entropy, (k - 1) as nat);
        let all = lowest_upto(entropy, k);
        lemma_lowest_cells(entropy, (k - 1) as nat);
        assert forall|i: int| 0 <= i < k && #[trigger] is_lowest(entropy, i) implies all.contains(
            i as usize,
        ) by {
            if i < k - 1 {
                let q = choose|q: int| 0 <= q < rest.len() && rest[q] == i as usize;
                assert(all[q] == i as usize);
            } else {
                assert(all[all.len() - 1] == i as usize);
            }
        }
    }
}

/// The undetermined cells of least entropy, in ascending order.
pub fn lowest_entropy_cells(entropy: &Vec<usize>) -> (cells: Vec<usize>)
    ensures
        cells@ == lowest_cells(entropy@),
        forall|k: int| 0 <= k < cells@.len() ==> is_lowest(entropy@, #[trigger] cells@[k] as int),
        forall|i: int| is_lowest(entropy@, i) ==> cells@.contains(i as usize),
        forall|j: int, k: int| 0 <= j < k < cells@.len() ==> cells@[j] < cells@[k],
        cells@.len() == 0 <==> all_settled(entropy@),
{
    let mut least: usize = usize::MAX;
    let mut cells: Vec<usize> = Vec::new();
    let mut i: usize = 0;
    while i < entropy.len()
        invariant
            i <= entropy@.len(),
            forall|k: int|
                0 <= k < cells@.len() ==> (#[trigger] cells@[k]) < i && entropy@[cells@[k] as int]
                    == least,
            cells@.len() > 0 ==> least > 1,
            cells@.len() == 0 ==> least == usize::MAX,
            forall|j: int| 0 <= j < i && #[trigger] entropy@[j] > 1 ==> least <= entropy@[j],
            forall|j: int|
                0 <= j < i && #[trigger] entropy@[j] > 1 && entropy@[j] == least
                    ==> cells@.contains(j as usize),
            forall|j: int, k: int| 0 <= j < k < cells@.len() ==> cells@[j] < cells@[k],
            cells@.len() == 0 ==> forall|j: int| 0 <= j < i ==> #[trigger] entropy@[j] <= 1,
        decreases entropy@.len() - i,
    {
        let e = entropy[i];
        if e > 1 {
            if e < least {
                least = e;
                cells.clear();
                cells.push(i);
                assert(cells@[0] == i);
            } else if e == least {
                let ghost before = cells@;
                cells.push(i);
                assert(cells@[before.len() as int] == i);
                assert forall|j: int|
                    0 <= j < i + 1 && #[trigger] entropy@[j] > 1 && entropy@[j] == least
                        implies cells@.contains(j as usize) by {
                    if j < i {
                        let k = choose|k: int| 0 <= k < before.len() && before[k] == j as usize;
                        assert(cells@[k] == j as usize);
                    }
                }
            } else {
                assert forall|j: int|
                    0 <= j < i + 1 && #[trigger] entropy@[j] > 1 && entropy@[j] == least
                        implies cells@.contains(j as usize) by {}
            }
        }
        i = i + 1;
    }
    proof {
        if cells@.len() > 0 {
            let c = cells@[0] as int;
            assert(entropy@[c] > 1);
        }
        assert forall|i: int| is_lowest(entropy@, i) implies cells@.contains(i as usize) by {
            if cells@.len() > 0 {
                let c = cells@[0] as int;
                assert(entropy@[c] == least);
            }
        }
        assert(entropy.len() == entropy@.len());
        let j = lemma_lowest_prefix(entropy@, cells@, entropy@.len());
        if j < cells@.len() {
            assert(is_lowest(entropy@, cells@[j] as int));
        }
        assert(cells@.take(j) =~= cells@);
    }
    cells
}

/// The cell that a draw selects: of the undetermined cells of least entropy,
/// taken in ascending order, the one at place `draw`.
pub fn nth_lowest(entropy: &Vec<usize>, draw: usize) -> (cell: usize)
    requires
        draw < lowest_cells(entropy@).len(),
    ensures
        cell == lowest_cells(entropy@)[draw as int],
        is_lowest(entropy@, cell as int),
{
    let cells = lowest_entropy_cells(entropy);
    cells[draw]
}

} // verus!
