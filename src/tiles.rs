//! Tile values: the collision rule and the per-tile score.
use vstd::prelude::*;

verus! {

/// What two adjacent cells become when the tile in `y` is pushed onto the
/// cell holding `x`: `Some(v)` when they collide and the destination ends up
/// holding `v`, `None` when the pair stays as it is.
///
/// An empty destination takes the source value; a 1 and a 2 make a 3; two
/// equal values above 2 make their double. A pair whose double would not fit
/// in a `u32` does not merge.
pub open spec fn collide(x: u32, y: u32) -> Option<u32> {
    if x == 0 {
        Some(y)
    } else if (x == 1 && y == 2) || (x == 2 && y == 1) {
        Some(3u32)
    } else if x == y && x > 2 && x <= u32::MAX / 2 {
        Some((2 * x) as u32)
    } else {
        None
    }
}

/// A tile of the form `3 * 2^k`.
pub open spec fn is_triple(v: nat) -> bool
    decreases v,
{
    if v <= 3 {
        v == 3
    } else {
        v % 2 == 0 && is_triple(v / 2)
    }
}

/// A value that a cell of a well-formed grid may hold: empty, a seed tile
/// (1 or 2), or `3 * 2^k`.
pub open spec fn is_cell_value(v: u32) -> bool {
    v == 0 || v == 1 || v == 2 || is_triple(v as nat)
}

/// Resolves one collision between a destination cell `x` and the source cell
/// `y` next to it.
pub fn handle_collisions(x: u32, y: u32) -> (r: Option<u32>)
    ensures
        r == collide(x, y),
{
    if x == 0 {
        Some(y)
    } else if (x == 1 && y == 2) || (y == 1 && x == 2) {
        Some(3)
    } else if x == y && x > 2 && x <= u32::MAX / 2 {
        Some(x * 2)
    } else {
        None
    }
}

/// Number of halvings that bring `x` down to 3 or less, plus one: for a tile
/// `3 * 2^(c - 1)` this is `c`.
pub open spec fn coefficient(x: nat) -> nat
    decreases x,
{
    if x > 3 {
        1 + coefficient(x / 2)
    } else {
        1
    }
}

/// `3^n`.
pub open spec fn pow3(n: nat) -> nat
    decreases n,
{
    if n == 0 {
        1
    } else {
        3 * pow3((n - 1) as nat)
    }
}

/// What one tile adds to the score: nothing for an empty cell, a 1 or a 2,
/// and `3^c` for any other value, `c` being its coefficient.
pub open spec fn tile_score(v: u32) -> nat {
    if v == 0 || v == 1 || v == 2 {
        0
    } else {
        pow3(coefficient(v as nat))
    }
}

proof fn lemma_coefficient_below(x: nat, h: nat)
    requires
        x < 4 * vstd::arithmetic::power2::pow2(h),
    ensures
        coefficient(x) <= h + 1,
    decreases h,
{
    if x > 3 {
        if h == 0 {
            vstd::arithmetic::power2::lemma2_to64();
        } else {
            vstd::arithmetic::power2::lemma_pow2_unfold(h);
            lemma_coefficient_below(x / 2, (h - 1) as nat);
        }
    }
}

/// The coefficient of any `u32` is at most 31.
pub proof fn lemma_coefficient_bound(x: u32)
    ensures
        coefficient(x as nat) <= 31,
{
    vstd::arithmetic::power2::lemma2_to64();
    lemma_coefficient_below(x as nat, 30);
}

/// The number of halvings that bring `x` down to 3 or less, plus one.
pub fn calculate_coefficient(x: u32) -> (r: u32)
    ensures
        r as nat == coefficient(x as nat),
        r <= 31,
{
    proof {
        lemma_coefficient_bound(x);
    }
    let mut y: u32 = x;
    let mut c: u32 = 1;
    while y > 3
        invariant
            c >= 1,
            (c - 1) + coefficient(y as nat) == coefficient(x as nat),
            coefficient(x as nat) <= 31,
        decreases y,
    {
        y = y / 2;
        c = c + 1;
    }
    c
}

} // verus!
