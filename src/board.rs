//! The board: grid, high card, next card and the two supplies, with the moves
//! that change them.
use crate::grid::{
    any_move, can_slide, cells_ok, lemma_pos, lemma_slide_line, lemma_sweep, lemma_write_line,
    line_moves, line_of, line_steps, pos, slide_line, sweep, sweep_lines, trailing,
    Direction,
};
use crate::supply::{
    basic_deck, bonus_run, generate_basic_stack, generate_bonus_stack, random_below,
};
use crate::tiles::{
    calculate_coefficient, coefficient, handle_collisions, is_cell_value, is_triple,
    lemma_coefficient_bound, pow3, tile_score,
};
use vstd::multiset::Multiset;
use vstd::prelude::*;

verus! {

broadcast use vstd::seq_lib::group_to_multiset_ensures;

/// The 16 cells of a grid in row-major order.
pub open spec fn cells_of(g: [[u32; 4]; 4]) -> Seq<u32> {
    Seq::new(16, |k: int| g[k / 4][k % 4])
}

/// Number of empty cells.
pub open spec fn count_empty(s: Seq<u32>) -> nat
    decreases s.len(),
{
    if s.len() == 0 {
        0
    } else {
        count_empty(s.drop_last()) + if s.last() == 0 {
            1nat
        } else {
            0nat
        }
    }
}

/// The values of the non-empty cells.
pub open spec fn tiles(s: Seq<u32>) -> Multiset<u32>
    decreases s.len(),
{
    if s.len() == 0 {
        Multiset::empty()
    } else if s.last() == 0 {
        tiles(s.drop_last())
    } else {
        tiles(s.drop_last()).insert(s.last())
    }
}

/// Sum of the tile scores of the cells.
pub open spec fn score(s: Seq<u32>) -> nat
    decreases s.len(),
{
    if s.len() == 0 {
        0
    } else {
        score(s.drop_last()) + tile_score(s.last())
    }
}

/// The high card from which bonus draws may happen.
pub const BONUS_THRESHOLD: u32 = 48;

/// The number of faces of the die rolled for a bonus draw.
pub const BONUS_DIE: usize = 21;

/// The face of the die that calls for a bonus draw.
pub const BONUS_FACE: usize = 7;

/// Whether drawing from the bonus supply is called for: the high card has
/// reached the threshold, the roll came up the bonus face, and the bonus
/// supply for the high card is not empty.
pub open spec fn is_bonus_draw(high: u32, roll: usize) -> bool {
    high >= BONUS_THRESHOLD && roll == BONUS_FACE && bonus_run(high / 8).len() > 0
}

/// `after` holds the supplies and next card that drawing with `roll` leaves,
/// starting from the supplies `basic` and `bonus` and the high card `high`.
/// A bonus draw takes a card off a fresh bonus supply; otherwise the card comes
/// off the end of the basic supply, which is first refilled if empty.
pub open spec fn next_card_drawn(
    high: u32,
    basic: Seq<u32>,
    bonus: Seq<u32>,
    roll: usize,
    after: Board,
) -> bool {
    if is_bonus_draw(high, roll) {
        &&& after.basic_cards@ == basic
        &&& after.bonus_cards@.push(after.next_card).to_multiset() == bonus_run(
            high / 8,
        ).to_multiset()
    } else if basic.len() > 0 {
        &&& after.bonus_cards@ == bonus
        &&& after.basic_cards@ == basic.drop_last()
        &&& after.next_card == basic.last()
    } else {
        &&& after.bonus_cards@ == bonus
        &&& after.basic_cards@.push(after.next_card).to_multiset() == basic_deck().to_multiset()
    }
}

/// What a move in `d` did, from `before` to `after`, `moved` telling whether
/// it happened. It happens exactly when some pair collides. If it did not,
/// nothing changed. If it did, the grid is the slid grid with the old next
/// card placed on one of its empty trailing-edge cells, the high card is the
/// one the slide left, and the next card was drawn by some roll of the die.
pub open spec fn move_result(before: Board, after: Board, d: Direction, moved: bool) -> bool {
    &&& after.wf()
    &&& moved == can_slide(before.cells(), d)
    &&& !moved ==> after == before
    &&& moved ==> after.high_card == sweep(before.cells(), before.high_card, d).1
    &&& moved ==> exists|l: int|
        0 <= l < 4 && #[trigger] sweep(before.cells(), before.high_card, d).0[trailing(d, l)] == 0
            && after.cells() == sweep(before.cells(), before.high_card, d).0.update(
            trailing(d, l),
            before.next_card,
        )
    &&& moved ==> exists|roll: usize|
        roll < BONUS_DIE && next_card_drawn(
            sweep(before.cells(), before.high_card, d).1,
            before.basic_cards@,
            before.bonus_cards@,
            roll,
            after,
        )
}

/// The state of one game.
#[derive(Debug)]
pub struct Board {
    /// The grid, `state[row][col]`; 0 is an empty cell.
    pub state: [[u32; 4]; 4],
    /// The highest tile value placed so far.
    pub high_card: u32,
    /// The value of the tile that the next successful move places.
    pub next_card: u32,
    /// The basic supply, drawn from the end.
    pub basic_cards: Vec<u32>,
    /// The rest of the last bonus supply.
    pub bonus_cards: Vec<u32>,
}

fn read_cell(g: &[[u32; 4]; 4], k: usize) -> (v: u32)
    requires
        k < 16,
    ensures
        v == cells_of(*g)[k as int],
{
    g[k / 4][k % 4]
}

fn write_cell(g: &mut [[u32; 4]; 4], k: usize, v: u32)
    requires
        k < 16,
    ensures
        cells_of(*final(g)) == cells_of(*old(g)).update(k as int, v),
{
    g[k / 4][k % 4] = v;
    assert(cells_of(*g) =~= cells_of(*old(g)).update(k as int, v));
}

/// Row-major index of the cell at place `i` of line `l` when moving in `d`.
fn cell_index(d: Direction, l: usize, i: usize) -> (k: usize)
    requires
        l < 4,
        i < 4,
    ensures
        k == pos(d, l as int, i as int),
        k < 16,
{
    match d {
        Direction::Up => 4 * i + l,
        Direction::Down => 4 * (3 - i) + l,
        Direction::Left => 4 * l + i,
        Direction::Right => 4 * l + (3 - i),
    }
}

/// Filling an empty cell with a tile leaves one empty cell fewer.
pub proof fn lemma_count_empty_update(s: Seq<u32>, k: int, v: u32)
    requires
        0 <= k < s.len(),
        s[k] == 0,
        v != 0,
    ensures
        count_empty(s.update(k, v)) + 1 == count_empty(s),
    decreases s.len(),
{
    let t = s.update(k, v);
    if k == s.len() - 1 {
        assert(t.drop_last() =~= s.drop_last());
    } else {
        assert(t.drop_last() =~= s.drop_last().update(k, v));
        lemma_count_empty_update(s.drop_last(), k, v);
    }
}

proof fn lemma_tiles_update(s: Seq<u32>, k: int, v: u32)
    requires
        0 <= k < s.len(),
        s[k] == 0,
        v != 0,
    ensures
        tiles(s.update(k, v)) == tiles(s).insert(v),
    decreases s.len(),
{
    let t = s.update(k, v);
    if k == s.len() - 1 {
        assert(t.drop_last() =~= s.drop_last());
    } else {
        assert(t.drop_last() =~= s.drop_last().update(k, v));
        lemma_tiles_update(s.drop_last(), k, v);
        if s.last() != 0 {
            assert(tiles(t) =~= tiles(s).insert(v));
        }
    }
}

proof fn lemma_count_empty_take(s: Seq<u32>, i: int)
    requires
        0 <= i < s.len(),
    ensures
        count_empty(s.take(i + 1)) == count_empty(s.take(i)) + if s[i] == 0 {
            1nat
        } else {
            0nat
        },
{
    assert(s.take(i + 1).drop_last() =~= s.take(i));
}

proof fn lemma_score_take(s: Seq<u32>, i: int)
    requires
        0 <= i < s.len(),
    ensures
        score(s.take(i + 1)) == score(s.take(i)) + tile_score(s[i]),
{
    assert(s.take(i + 1).drop_last() =~= s.take(i));
}

/// A grid with an empty cell always has a move: the empty cell is the
/// destination of some pair.
pub proof fn lemma_empty_cell_moves(c: Seq<u32>, k: int)
    requires
        c.len() == 16,
        0 <= k < 16,
        c[k] == 0,
    ensures
        any_move(c),
{
    let r = k / 4;
    let col = k % 4;
    if r < 3 {
        let a = line_of(c, Direction::Up, col);
        assert(a[r] == c[k]);
        assert(line_moves(a));
    } else {
        let a = line_of(c, Direction::Down, col);
        assert(a[0] == c[k]);
        assert(line_moves(a));
    }
}

proof fn lemma_triple_at_least_three(v: nat)
    requires
        is_triple(v),
    ensures
        v >= 3,
{
}

proof fn lemma_bonus_run_values(v: u32)
    requires
        is_triple(v as nat) || v <= 3,
    ensures
        forall|i: int|
            0 <= i < bonus_run(v).len() ==> is_triple(#[trigger] bonus_run(v)[i] as nat)
                && bonus_run(v)[i] <= v,
    decreases v,
{
    if v > 3 {
        lemma_bonus_run_values(v / 2);
        assert forall|i: int| 0 <= i < bonus_run(v).len() implies is_triple(
            #[trigger] bonus_run(v)[i] as nat,
        ) && bonus_run(v)[i] <= v by {
            if i > 0 {
                assert(bonus_run(v)[i] == bonus_run(v / 2)[i - 1]);
            }
        }
    }
}

proof fn lemma_high_eighth(h: u32)
    requires
        is_triple(h as nat),
        h >= 48,
    ensures
        is_triple((h / 8) as nat),
        h / 8 >= 6,
        bonus_run(h / 8).len() > 0,
{
    assert(is_triple((h / 2) as nat));
    assert(is_triple((h / 2 / 2) as nat));
    assert(is_triple((h / 2 / 2 / 2) as nat));
    assert(h / 2 / 2 / 2 == h / 8);
}

proof fn lemma_pow3_monotone(a: nat, b: nat)
    requires
        a <= b,
    ensures
        pow3(a) <= pow3(b),
    decreases b,
{
    if a < b {
        lemma_pow3_monotone(a, (b - 1) as nat);
    }
}

proof fn lemma_tile_score_bound(v: u32)
    ensures
        tile_score(v) <= 617673396283947,
{
    lemma_coefficient_bound(v);
    lemma_pow3_monotone(coefficient(v as nat), 31);
    reveal_with_fuel(pow3, 32);
    assert(pow3(31) == 617673396283947);
}

/// `3^e`.
fn power_of_three(e: u32) -> (r: u64)
    requires
        e <= 31,
    ensures
        r == pow3(e as nat),
{
    let mut p: u64 = 1;
    let mut j: u32 = 0;
    while j < e
        invariant
            j <= e <= 31,
            p == pow3(j as nat),
        decreases e - j,
    {
        proof {
            lemma_pow3_monotone(j as nat, 30);
            reveal_with_fuel(pow3, 31);
            assert(pow3(30) == 205891132094649);
        }
        p = p * 3;
        j = j + 1;
    }
    p
}

/// Index of the `slot`-th empty cell (counting from 0) in row-major order.
fn nth_empty(g: &[[u32; 4]; 4], slot: usize) -> (k: usize)
    requires
        slot < count_empty(cells_of(*g)),
    ensures
        k < 16,
        cells_of(*g)[k as int] == 0,
        count_empty(cells_of(*g).take(k as int)) == slot,
{
    let ghost c = cells_of(*g);
    let mut seen: usize = 0;
    let mut k: usize = 0;
    while k < 16
        invariant
            k <= 16,
            c == cells_of(*g),
            seen == count_empty(c.take(k as int)),
            seen <= slot < count_empty(c),
        decreases 16 - k,
    {
        proof {
            lemma_count_empty_take(c, k as int);
        }
        if read_cell(g, k) == 0 {
            if seen == slot {
                return k;
            }
            seen = seen + 1;
        }
        k = k + 1;
    }
    assert(c.take(16) =~= c);
    k
}

impl Board {
    /// The grid as 16 cells in row-major order.
    pub open spec fn cells(&self) -> Seq<u32> {
        cells_of(self.state)
    }

    /// The board's invariant: every cell is empty, a 1, a 2 or `3 * 2^k`, and
    /// no greater than the high card; the high card is `3 * 2^k`; the next
    /// card is a legal non-empty value no greater than the high card; the
    /// basic supply holds 1s, 2s and 3s; the bonus supply holds values
    /// `3 * 2^k` no greater than the high card.
    pub open spec fn wf(&self) -> bool {
        &&& cells_ok(self.cells(), self.high_card)
        &&& is_triple(self.high_card as nat)
        &&& self.next_card != 0
        &&& is_cell_value(self.next_card)
        &&& self.next_card <= self.high_card
        &&& forall|i: int|
            0 <= i < self.basic_cards@.len() ==> 1 <= #[trigger] self.basic_cards@[i] <= 3
        &&& forall|i: int|
            0 <= i < self.bonus_cards@.len() ==> is_triple(#[trigger] self.bonus_cards@[i] as nat)
                && self.bonus_cards@[i] <= self.high_card
    }

    /// A new game: nine tiles off a shuffled basic supply, each placed on a
    /// cell chosen uniformly among the empty ones; the high card 3; the next
    /// card the tenth off the supply. The placed tiles, the next card and the
    /// rest of the supply make up one basic supply, and the new board always
    /// has a move.
    pub fn new() -> (r: Board)
        ensures
            r.wf(),
            tiles(r.cells()).insert(r.next_card).add(r.basic_cards@.to_multiset())
                == basic_deck().to_multiset(),
            r.high_card == 3,
            count_empty(r.cells()) == 7,
            forall|k: int| 0 <= k < 16 ==> #[trigger] r.cells()[k] <= 3,
            1 <= r.next_card <= 3,
            r.basic_cards@.len() == 2,
            r.bonus_cards@.len() == 0,
            any_move(r.cells()),
    {
        let mut state: [[u32; 4]; 4] = [[0;4], [0;4], [0;4], [0;4]];
        assert(cells_of(state) =~= Seq::new(16, |k: int| 0u32));
        proof {
            lemma_count_empty_zeros(16);
        }
        let mut basic_stack = generate_basic_stack();
        let mut placed: usize = 0;
        while placed < 9
            invariant
                placed <= 9,
                basic_stack@.len() == 12 - placed,
                forall|i: int| 0 <= i < basic_stack@.len() ==> 1 <= #[trigger] basic_stack@[i] <= 3,
                count_empty(cells_of(state)) == 16 - placed,
                forall|k: int| 0 <= k < 16 ==> #[trigger] cells_of(state)[k] <= 3,
                tiles(cells_of(state)).add(basic_stack@.to_multiset()) == basic_deck().to_multiset(),
            decreases 9 - placed,
        {
            let slot = random_below(16 - placed);
            let k = nth_empty(&state, slot);
            let ghost before = basic_stack@;
            let card = basic_stack.pop().unwrap();
            proof {
                lemma_count_empty_update(cells_of(state), k as int, card);
                lemma_tiles_update(cells_of(state), k as int, card);
                assert(before =~= basic_stack@.push(card));
                assert(tiles(cells_of(state)).insert(card).add(basic_stack@.to_multiset())
                    =~= tiles(cells_of(state)).add(before.to_multiset()));
            }
            write_cell(&mut state, k, card);
            placed = placed + 1;
        }
        let ghost before = basic_stack@;
        let next_card = basic_stack.pop().unwrap();
        proof {
            assert(before =~= basic_stack@.push(next_card));
            assert(tiles(cells_of(state)).insert(next_card).add(basic_stack@.to_multiset())
                =~= tiles(cells_of(state)).add(before.to_multiset()));
        }
        let r = Board {
            state,
            high_card: 3,
            next_card,
            basic_cards: basic_stack,
            bonus_cards: Vec::new(),
        };
        proof {
            assert(is_triple(3));
            assert forall|k: int| 0 <= k < r.cells().len() implies is_cell_value(
                #[trigger] r.cells()[k],
            ) && r.cells()[k] <= 3 by {
                assert(r.cells()[k] <= 3);
            }
            assert(is_cell_value(next_card));
            assert(cells_of(state).take(0) =~= Seq::<u32>::empty());
            let z = lemma_empty_witness(cells_of(state));
            lemma_empty_cell_moves(r.cells(), z);
        }
        r
    }

    /// The grid, row by row.
    pub fn get_board(&self) -> (r: &[[u32; 4]])
        ensures
            r@ == self.state@,
    {
        self.state.as_slice()
    }

    /// The value of the tile that the next successful move places.
    pub fn get_next_card(&self) -> (r: u32)
        ensures
            r == self.next_card,
    {
        self.next_card
    }

    /// Whether a move in `d` would change anything.
    pub fn can_move(&self, d: Direction) -> (r: bool)
        ensures
            r == can_slide(self.cells(), d),
    {
        let mut l: usize = 0;
        while l < 4
            invariant
                l <= 4,
                forall|m: int| 0 <= m < l ==> !line_moves(#[trigger] line_of(self.cells(), d, m)),
            decreases 4 - l,
        {
            let a0 = read_cell(&self.state, cell_index(d, l, 0));
            let a1 = read_cell(&self.state, cell_index(d, l, 1));
            let a2 = read_cell(&self.state, cell_index(d, l, 2));
            let a3 = read_cell(&self.state, cell_index(d, l, 3));
            let ghost a = line_of(self.cells(), d, l as int);
            assert(a[0] == a0 && a[1] == a1 && a[2] == a2 && a[3] == a3);
            if handle_collisions(a0, a1).is_some() || handle_collisions(a1, a2).is_some()
                || handle_collisions(a2, a3).is_some() {
                return true;
            }
            l = l + 1;
        }
        false
    }

    /// Whether any move is possible: some adjacent pair of cells, taken in
    /// either order (vertical and horizontal pairs), would collide. When this
    /// is false no move changes the board and the game is over.
    pub fn has_moves(&self) -> (r: bool)
        ensures
            r == any_move(self.cells()),
    {
        self.can_move(Direction::Up) || self.can_move(Direction::Down) || self.can_move(
            Direction::Left,
        ) || self.can_move(Direction::Right)
    }

    /// The score: the sum over all cells of their tile scores.
    pub fn calculate_score(&self) -> (r: u64)
        ensures
            r == score(self.cells()),
    {
        let ghost c = self.cells();
        let mut total: u64 = 0;
        let mut k: usize = 0;
        while k < 16
            invariant
                k <= 16,
                c == self.cells(),
                total == score(c.take(k as int)),
                total <= k * 617673396283947,
            decreases 16 - k,
        {
            let tile = read_cell(&self.state, k);
            proof {
                lemma_score_take(c, k as int);
                lemma_tile_score_bound(tile);
            }
            if !(tile == 0 || tile == 1 || tile == 2) {
                total = total + power_of_three(calculate_coefficient(tile));
            }
            k = k + 1;
        }
        assert(c.take(16) =~= c);
        total
    }

    fn update_high_card(&mut self, new_card: u32)
        ensures
            final(self).high_card == if new_card > old(self).high_card {
                new_card
            } else {
                old(self).high_card
            },
            final(self).state == old(self).state,
            final(self).next_card == old(self).next_card,
            final(self).basic_cards == old(self).basic_cards,
            final(self).bonus_cards == old(self).bonus_cards,
    {
        if new_card > self.high_card {
            self.high_card = new_card;
        }
    }

    /// Slides every line towards the leading edge of `d`, resolving the pairs
    /// of each line from the leading edge inward, and raises the high card to
    /// each value a collision produces. Returns whether anything collided.
    /// Places no new tile.
    pub fn slide(&mut self, d: Direction) -> (moved: bool)
        ensures
            (final(self).cells(), final(self).high_card, moved) == sweep(
                old(self).cells(),
                old(self).high_card,
                d,
            ),
            moved == can_slide(old(self).cells(), d),
            final(self).next_card == old(self).next_card,
            final(self).basic_cards == old(self).basic_cards,
            final(self).bonus_cards == old(self).bonus_cards,
            !moved ==> *final(self) == *old(self),
    {
        proof {
            lemma_sweep(old(self).cells(), old(self).high_card, d);
        }
        let mut moved = false;
        let mut l: usize = 0;
        while l < 4
            invariant
                l <= 4,
                (self.cells(), self.high_card, moved) == sweep_lines(
                    old(self).cells(),
                    old(self).high_card,
                    d,
                    l as nat,
                ),
                self.next_card == old(self).next_card,
                self.basic_cards == old(self).basic_cards,
                self.bonus_cards == old(self).bonus_cards,
                !moved ==> *self == *old(self),
            decreases 4 - l,
        {
            let ghost start = *self;
            let k0 = cell_index(d, l, 0);
            let k1 = cell_index(d, l, 1);
            let k2 = cell_index(d, l, 2);
            let k3 = cell_index(d, l, 3);
            let mut line: [u32; 4] = [
                read_cell(&self.state, k0),
                read_cell(&self.state, k1),
                read_cell(&self.state, k2),
                read_cell(&self.state, k3),
            ];
            let ghost a = line_of(start.cells(), d, l as int);
            assert(line@ =~= a);
            proof {
                lemma_slide_line(a, start.high_card);
                lemma_write_line(start.cells(), d, l as int, slide_line(a, start.high_card).0);
            }
            let mut line_moved = false;
            let mut i: usize = 0;
            while i < 3
                invariant
                    i <= 3,
                    (line@, self.high_card, line_moved) == line_steps(
                        (a, start.high_card, false),
                        i as nat,
                    ),
                    self.state == start.state,
                    self.next_card == start.next_card,
                    self.basic_cards == start.basic_cards,
                    self.bonus_cards == start.bonus_cards,
                    !line_moved ==> *self == start,
                decreases 3 - i,
            {
                if let Some(x) = handle_collisions(line[i], line[i + 1]) {
                    line[i + 1] = 0;
                    line[i] = x;
                    self.update_high_card(x);
                    line_moved = true;
                }
                i = i + 1;
            }
            if line_moved {
                write_cell(&mut self.state, k0, line[0]);
                write_cell(&mut self.state, k1, line[1]);
                write_cell(&mut self.state, k2, line[2]);
                write_cell(&mut self.state, k3, line[3]);
                moved = true;
            }
            l = l + 1;
        }
        moved
    }

    /// Takes the next card off the supplies. `roll` is the outcome of the
    /// bonus die (any value in `[0, BONUS_DIE)`): the bonus face calls for a
    /// bonus draw once the high card has reached the threshold. A bonus draw refills the bonus supply
    /// for the high card and takes a card off it; when that supply comes out
    /// empty, or when there is no bonus draw, the card comes off the basic
    /// supply, which is refilled first if empty.
    pub fn draw_next_card(&mut self, roll: usize)
        requires
            old(self).wf(),
        ensures
            final(self).wf(),
            final(self).state == old(self).state,
            final(self).high_card == old(self).high_card,
            next_card_drawn(
                old(self).high_card,
                old(self).basic_cards@,
                old(self).bonus_cards@,
                roll,
                *final(self),
            ),
    {
        if self.high_card >= BONUS_THRESHOLD && roll == BONUS_FACE {
            let mut stack = generate_bonus_stack(self.high_card);
            let ghost run = bonus_run(self.high_card / 8);
            proof {
                lemma_high_eighth(self.high_card);
                lemma_bonus_run_values(self.high_card / 8);
                assert(stack@.len() == stack@.to_multiset().len());
                assert(run.len() == run.to_multiset().len());
            }
            let ghost full = stack@;
            let card = stack.pop().unwrap();
            proof {
                assert(full =~= stack@.push(card));
                assert forall|i: int| 0 <= i < full.len() implies is_triple(
                    #[trigger] full[i] as nat,
                ) && full[i] <= self.high_card by {
                    assert(full.contains(full[i]));
                    assert(full.to_multiset().count(full[i]) > 0);
                    assert(run.contains(full[i]));
                }
                assert(full[full.len() - 1] == card);
                assert forall|i: int| 0 <= i < stack@.len() implies is_triple(
                    #[trigger] stack@[i] as nat,
                ) && stack@[i] <= self.high_card by {
                    assert(stack@[i] == full[i]);
                }
            }
            self.bonus_cards = stack;
            self.next_card = card;
            return;
        }
        if self.basic_cards.len() == 0 {
            self.basic_cards = generate_basic_stack();
        }
        let ghost full = self.basic_cards@;
        let card = self.basic_cards.pop().unwrap();
        proof {
            assert(full =~= self.basic_cards@.push(card));
            assert(full[full.len() - 1] == card);
            assert forall|i: int| 0 <= i < self.basic_cards@.len() implies 1
                <= #[trigger] self.basic_cards@[i] <= 3 by {
                assert(self.basic_cards@[i] == full[i]);
            }
            lemma_triple_at_least_three(self.high_card as nat);
            assert(is_triple(3));
        }
        self.next_card = card;
    }

    /// Places the next card on the empty cell `state[x][y]`, then draws a new
    /// next card, rolling the bonus die.
    fn spawn_next_tile(&mut self, x: usize, y: usize)
        requires
            old(self).wf(),
            x < 4,
            y < 4,
            old(self).cells()[4 * x + y] == 0,
        ensures
            final(self).wf(),
            final(self).cells() == old(self).cells().update(4 * x + y, old(self).next_card),
            final(self).high_card == old(self).high_card,
            exists|roll: usize|
                roll < BONUS_DIE && next_card_drawn(
                    old(self).high_card,
                    old(self).basic_cards@,
                    old(self).bonus_cards@,
                    roll,
                    *final(self),
                ),
    {
        let card = self.next_card;
        write_cell(&mut self.state, 4 * x + y, card);
        assert forall|k: int| 0 <= k < self.cells().len() implies is_cell_value(
            #[trigger] self.cells()[k],
        ) && self.cells()[k] <= self.high_card by {
            if k != 4 * x + y {
                assert(self.cells()[k] == old(self).cells()[k]);
            }
        }
        let roll = random_below(BONUS_DIE);
        self.draw_next_card(roll);
    }

    /// A move in direction `d`: the lines slide; if anything collided, the
    /// next card is placed on a random empty cell of the trailing edge and a
    /// new next card is drawn. Returns whether the move happened; a move in
    /// which nothing collides changes nothing.
    pub fn make_move(&mut self, d: Direction) -> (moved: bool)
        requires
            old(self).wf(),
        ensures
            move_result(*old(self), *final(self), d, moved),
    {
        proof {
            lemma_sweep(old(self).cells(), old(self).high_card, d);
            lemma_pos(d);
        }
        let moved = self.slide(d);
        if moved {
            let mut open_lines: Vec<usize> = Vec::new();
            let mut l: usize = 0;
            while l < 4
                invariant
                    l <= 4,
                    forall|j: int|
                        0 <= j < open_lines@.len() ==> #[trigger] open_lines@[j] < 4
                            && self.cells()[trailing(d, open_lines@[j] as int)] == 0,
                    forall|m: int|
                        0 <= m < l && #[trigger] self.cells()[trailing(d, m)] == 0 ==> open_lines@.len() > 0,
                decreases 4 - l,
            {
                let k = cell_index(d, l, 3);
                if read_cell(&self.state, k) == 0 {
                    open_lines.push(l);
                }
                l = l + 1;
            }
            let pick = random_below(open_lines.len());
            let line = open_lines[pick];
            let k = cell_index(d, line, 3);
            self.spawn_next_tile(k / 4, k % 4);
        }
        moved
    }

    /// Moves the tiles up; see [`Board::make_move`].
    pub fn move_up(&mut self) -> (moved: bool)
        requires
            old(self).wf(),
        ensures
            move_result(*old(self), *final(self), Direction::Up, moved),
    {
        self.make_move(Direction::Up)
    }

    /// Moves the tiles down; see [`Board::make_move`].
    pub fn move_down(&mut self) -> (moved: bool)
        requires
            old(self).wf(),
        ensures
            move_result(*old(self), *final(self), Direction::Down, moved),
    {
        self.make_move(Direction::Down)
    }

    /// Moves the tiles left; see [`Board::make_move`].
    pub fn move_left(&mut self) -> (moved: bool)
        requires
            old(self).wf(),
        ensures
            move_result(*old(self), *final(self), Direction::Left, moved),
    {
        self.make_move(Direction::Left)
    }

    /// Moves the tiles right; see [`Board::make_move`].
    pub fn move_right(&mut self) -> (moved: bool)
        requires
            old(self).wf(),
        ensures
            move_result(*old(self), *final(self), Direction::Right, moved),
    {
        self.make_move(Direction::Right)
    }
}

proof fn lemma_count_empty_zeros(n: nat)
    ensures
        count_empty(Seq::new(n, |k: int| 0u32)) == n,
        tiles(Seq::new(n, |k: int| 0u32)) == Multiset::<u32>::empty(),
    decreases n,
{
    if n > 0 {
        assert(Seq::new(n, |k: int| 0u32).drop_last() =~= Seq::new((n - 1) as nat, |k: int| 0u32));
        lemma_count_empty_zeros((n - 1) as nat);
    }
}

proof fn lemma_empty_witness(s: Seq<u32>) -> (k: int)
    requires
        count_empty(s) > 0,
    ensures
        0 <= k < s.len(),
        s[k] == 0,
    decreases s.len(),
{
    if s.last() == 0 {
        s.len() - 1
    } else {
        lemma_empty_witness(s.drop_last())
    }
}

} // verus!
