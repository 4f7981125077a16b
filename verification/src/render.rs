//! The board as a picture: the colour that stands for a domain, and the RGBA
//! buffer of a whole board.

use vstd::prelude::*;
use crate::color::{sentinel_color, Color};
use crate::domain::has_tile;
use crate::tiles::Grid;

verus! {

/// How many of the first `k` tiles `mask` holds.
pub open spec fn members(mask: u128, k: nat) -> nat
    decreases k,
{
    if k == 0 {
        0
    } else {
        members(mask, (k - 1) as nat) + if has_tile(mask, k - 1) {
            1nat
        } else {
            0nat
        }
    }
}

/// One of the channels of `c`: 0 for red, 1 for green, anything else for blue.
pub open spec fn channel(c: Color, ch: int) -> u8 {
    if ch == 0 {
        c.r
    } else if ch == 1 {
        c.g
    } else {
        c.b
    }
}

/// The sum of one channel of the first pixel of those among the first `k` tiles
/// that `mask` holds.
pub open spec fn channel_sum(tiles: Seq<Grid>, mask: u128, k: nat, ch: int) -> nat
    decreases k,
{
    if k == 0 {
        0
    } else {
        channel_sum(tiles, mask, (k - 1) as nat, ch) + if has_tile(mask, k - 1) {
            channel(tiles[k - 1][0][0], ch) as nat
        } else {
            0nat
        }
    }
}

/// The colour that stands for a domain: channel by channel the mean, rounded
/// down, of the first pixel of its tiles, and the sentinel for an empty domain.
pub open spec fn display_color(tiles: Seq<Grid>, mask: u128) -> Color {
    let n = members(mask, tiles.len());
    if n > 0 {
        Color {
            r: (channel_sum(tiles, mask, tiles.len(), 0) / n) as u8,
            g: (channel_sum(tiles, mask, tiles.len(), 1) / n) as u8,
            b: (channel_sum(tiles, mask, tiles.len(), 2) / n) as u8,
        }
    } else {
        sentinel_color()
    }
}

/// The board as an RGBA buffer, row by row, four bytes to the cell, opaque.
pub open spec fn image_of(tiles: Seq<Grid>, domains: Seq<u128>) -> Seq<u8> {
    Seq::new(
        4 * domains.len(),
        |k: int|
            if k % 4 == 3 {
                255u8
            } else {
                channel(display_color(tiles, domains[k / 4]), k % 4)
            },
    )
}

} // verus!
