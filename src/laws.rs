//! Laws that relate the rules and the moves.
use crate::board::{count_empty, lemma_count_empty_update, move_result, Board};
use crate::grid::{lemma_pos, lemma_sweep, sweep, trailing, Direction};
use crate::tiles::collide;
use vstd::prelude::*;

verus! {

/// The collision rule: an empty destination takes the source value; a 1 and
/// a 2 make a 3 in either order; two equal values above 2 make their double
/// (when it fits in a `u32`); every other pair stays as it is.
pub proof fn lemma_collision_rule(x: u32, y: u32)
    ensures
        collide(0, y) == Some(y),
        collide(1, 2) == Some(3u32),
        collide(2, 1) == Some(3u32),
        2 < x <= u32::MAX / 2 ==> collide(x, x) == Some((2 * x) as u32),
        x != 0 && !(x == 1 && y == 2) && !(x == 2 && y == 1) && !(x == y && x > 2) ==> collide(
            x,
            y,
        ) is None,
{
}

/// After a successful move, exactly one cell that the slide left empty, on
/// the trailing edge, holds a tile: the next card from before the move. All
/// other cells are as the slide left them, and the new next card is not
/// empty.
pub proof fn lemma_move_places_one_tile(before: Board, after: Board, d: Direction)
    requires
        before.wf(),
        move_result(before, after, d, true),
    ensures
        exists|l: int|
            0 <= l < 4 && #[trigger] sweep(before.cells(), before.high_card, d).0[trailing(d, l)] == 0
                && after.cells()[trailing(d, l)] == before.next_card && forall|k: int|
                0 <= k < 16 && k != trailing(d, l) ==> #[trigger] after.cells()[k] == sweep(
                    before.cells(),
                    before.high_card,
                    d,
                ).0[k],
        count_empty(after.cells()) + 1 == count_empty(sweep(before.cells(), before.high_card, d).0),
        after.next_card != 0,
{
    let s = sweep(before.cells(), before.high_card, d).0;
    lemma_sweep(before.cells(), before.high_card, d);
    lemma_pos(d);
    let l = choose|l: int|
        0 <= l < 4 && #[trigger] sweep(before.cells(), before.high_card, d).0[trailing(d, l)] == 0
            && after.cells() == sweep(before.cells(), before.high_card, d).0.update(
            trailing(d, l),
            before.next_card,
        );
    assert(0 <= trailing(d, l) < 16);
    lemma_count_empty_update(s, trailing(d, l), before.next_card);
}

} // verus!
