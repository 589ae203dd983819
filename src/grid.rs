//! The grid as 16 cells in row-major order, and the slide of a move: which
//! pairs of cells a move compares, in which order, and what they become.
use crate::tiles::{collide, is_cell_value, is_triple};
use vstd::prelude::*;

verus! {

/// The direction in which tiles are pushed.
#[derive(Clone, Copy, Debug, PartialEq, Eq, Structural)]
pub enum Direction {
    Up,
    Down,
    Left,
    Right,
}

/// Row-major index of the cell at place `i` of line `l` when moving in `d`.
/// Place 0 is the leading edge (the side tiles are pushed towards) and place
/// 3 the trailing edge. For `Up` and `Down` the lines are the columns, for
/// `Left` and `Right` the rows.
pub open spec fn pos(d: Direction, l: int, i: int) -> int {
    match d {
        Direction::Up => 4 * i + l,
        Direction::Down => 4 * (3 - i) + l,
        Direction::Left => 4 * l + i,
        Direction::Right => 4 * l + (3 - i),
    }
}

/// The cell of line `l` on the trailing edge of a move in `d`: where the new
/// tile may appear.
pub open spec fn trailing(d: Direction, l: int) -> int {
    pos(d, l, 3)
}

/// The four cells of line `l`, from the leading edge to the trailing edge.
pub open spec fn line_of(c: Seq<u32>, d: Direction, l: int) -> Seq<u32> {
    Seq::new(4, |i: int| c[pos(d, l, i)])
}

/// `c` with the four cells of line `l` replaced by `line`.
pub open spec fn write_line(c: Seq<u32>, d: Direction, l: int, line: Seq<u32>) -> Seq<u32> {
    c.update(pos(d, l, 0), line[0]).update(pos(d, l, 1), line[1]).update(pos(d, l, 2), line[2]).update(
        pos(d, l, 3),
        line[3],
    )
}

/// Whether some adjacent pair of the line collides: destination first.
pub open spec fn line_moves(a: Seq<u32>) -> bool {
    ||| collide(a[0], a[1]) is Some
    ||| collide(a[1], a[2]) is Some
    ||| collide(a[2], a[3]) is Some
}

/// Whether a move in `d` would change anything: some line has a colliding
/// pair.
pub open spec fn can_slide(c: Seq<u32>, d: Direction) -> bool {
    exists|l: int| 0 <= l < 4 && line_moves(#[trigger] line_of(c, d, l))
}

/// Whether any move is possible.
pub open spec fn any_move(c: Seq<u32>) -> bool {
    ||| can_slide(c, Direction::Up)
    ||| can_slide(c, Direction::Down)
    ||| can_slide(c, Direction::Left)
    ||| can_slide(c, Direction::Right)
}

/// Resolves the pair at places `i` (destination) and `i + 1` (source) of a
/// line. The state is the line, the high card, and whether anything moved.
pub open spec fn line_step(s: (Seq<u32>, u32, bool), i: int) -> (Seq<u32>, u32, bool) {
    match collide(s.0[i], s.0[i + 1]) {
        Some(v) => (s.0.update(i + 1, 0).update(i, v), if v > s.1 { v } else { s.1 }, true),
        None => s,
    }
}

/// The first `n` pairs of a line resolved, from the leading edge inward.
pub open spec fn line_steps(s: (Seq<u32>, u32, bool), n: nat) -> (Seq<u32>, u32, bool)
    decreases n,
{
    if n == 0 {
        s
    } else {
        line_step(line_steps(s, (n - 1) as nat), n - 1)
    }
}

/// One line after a move: the new line, the new high card, and whether
/// anything moved.
pub open spec fn slide_line(line: Seq<u32>, high: u32) -> (Seq<u32>, u32, bool) {
    line_steps((line, high, false), 3)
}

/// The grid after the first `n` lines of a move in `d` have slid.
pub open spec fn sweep_lines(c: Seq<u32>, high: u32, d: Direction, n: nat) -> (Seq<u32>, u32, bool)
    decreases n,
{
    if n == 0 {
        (c, high, false)
    } else {
        let p = sweep_lines(c, high, d, (n - 1) as nat);
        let r = slide_line(line_of(p.0, d, n - 1), p.1);
        (write_line(p.0, d, n - 1, r.0), r.1, p.2 || r.2)
    }
}

/// The grid after all four lines of a move in `d` have slid: the cells, the
/// high card, and whether anything moved.
pub open spec fn sweep(c: Seq<u32>, high: u32, d: Direction) -> (Seq<u32>, u32, bool) {
    sweep_lines(c, high, d, 4)
}

/// Every cell holds a legal value no greater than `high`.
pub open spec fn cells_ok(c: Seq<u32>, high: u32) -> bool {
    forall|k: int| 0 <= k < c.len() ==> is_cell_value(#[trigger] c[k]) && c[k] <= high
}

/// The places of a line are distinct cells of the grid.
pub proof fn lemma_pos(d: Direction)
    ensures
        forall|l: int, i: int| 0 <= l < 4 && 0 <= i < 4 ==> 0 <= #[trigger] pos(d, l, i) < 16,
        forall|l1: int, i1: int, l2: int, i2: int|
            0 <= l1 < 4 && 0 <= i1 < 4 && 0 <= l2 < 4 && 0 <= i2 < 4 && #[trigger] pos(d, l1, i1)
                == #[trigger] pos(d, l2, i2) ==> l1 == l2 && i1 == i2,
{
}

proof fn lemma_double_triple(x: nat)
    requires
        is_triple(x),
    ensures
        is_triple(2 * x),
{
    assert((2 * x) / 2 == x);
}

proof fn lemma_step(s: (Seq<u32>, u32, bool), i: int)
    requires
        s.0.len() == 4,
        0 <= i < 3,
    ensures
        line_step(s, i).0.len() == 4,
        line_step(s, i).1 >= s.1,
        cells_ok(s.0, s.1) && is_triple(s.1 as nat) ==> cells_ok(line_step(s, i).0, line_step(s, i).1)
            && is_triple(line_step(s, i).1 as nat),
{
    let x = s.0[i];
    let y = s.0[i + 1];
    if cells_ok(s.0, s.1) && is_triple(s.1 as nat) {
        match collide(x, y) {
            Some(v) => {
                if x != 0 && !((x == 1 && y == 2) || (x == 2 && y == 1)) {
                    assert(is_cell_value(x));
                    lemma_double_triple(x as nat);
                }
                assert(is_cell_value(v));
                let t = line_step(s, i);
                assert forall|k: int| 0 <= k < t.0.len() implies is_cell_value(#[trigger] t.0[k])
                    && t.0[k] <= t.1 by {
                    if k != i && k != i + 1 {
                        assert(t.0[k] == s.0[k]);
                    }
                }
            },
            None => {},
        }
    }
}

/// What sliding one line does: it moves exactly when some pair collides; a
/// line that does not move is left as it was; a line that moves ends with an
/// empty cell on the trailing edge; legal values stay legal.
pub proof fn lemma_slide_line(a: Seq<u32>, h: u32)
    requires
        a.len() == 4,
    ensures
        slide_line(a, h).0.len() == 4,
        slide_line(a, h).2 == line_moves(a),
        !slide_line(a, h).2 ==> slide_line(a, h).0 == a && slide_line(a, h).1 == h,
        slide_line(a, h).2 ==> slide_line(a, h).0[3] == 0,
        slide_line(a, h).1 >= h,
        cells_ok(a, h) && is_triple(h as nat) ==> cells_ok(slide_line(a, h).0, slide_line(a, h).1)
            && is_triple(slide_line(a, h).1 as nat),
{
    let s0 = (a, h, false);
    let s1 = line_step(s0, 0);
    let s2 = line_step(s1, 1);
    let s3 = line_step(s2, 2);
    assert(line_steps(s0, 0) == s0);
    assert(line_steps(s0, 1) == s1);
    assert(line_steps(s0, 2) == s2);
    assert(line_steps(s0, 3) == s3);
    lemma_step(s0, 0);
    lemma_step(s1, 1);
    lemma_step(s2, 2);
}

/// Line `l` of `c` after line `l` has been replaced, and the other lines.
pub proof fn lemma_write_line(c: Seq<u32>, d: Direction, l: int, line: Seq<u32>)
    requires
        c.len() == 16,
        line.len() == 4,
        0 <= l < 4,
    ensures
        write_line(c, d, l, line).len() == 16,
        line_of(write_line(c, d, l, line), d, l) == line,
        forall|m: int| 0 <= m < 4 && m != l ==> #[trigger] line_of(write_line(c, d, l, line), d, m) == line_of(c, d, m),
        forall|m: int, i: int| 0 <= m < 4 && m != l && 0 <= i < 4 ==> #[trigger] write_line(c, d, l, line)[pos(d, m, i)] == c[pos(d, m, i)],
        write_line(c, d, l, line_of(c, d, l)) == c,
{
    lemma_pos(d);
    let w = write_line(c, d, l, line);
    assert(line_of(w, d, l) =~= line);
    assert forall|m: int| 0 <= m < 4 && m != l implies #[trigger] line_of(w, d, m) == line_of(c, d, m) by {
        assert(line_of(w, d, m) =~= line_of(c, d, m));
    }
    assert(write_line(c, d, l, line_of(c, d, l)) =~= c);
}

/// What a whole move does, line by line: it moves exactly when some line can;
/// a move that does not move leaves the grid and the high card as they were; a
/// move that moves leaves an empty cell on the trailing edge; legal values
/// stay legal.
pub proof fn lemma_sweep_lines(c: Seq<u32>, h: u32, d: Direction, n: nat)
    requires
        c.len() == 16,
        n <= 4,
    ensures
        sweep_lines(c, h, d, n).0.len() == 16,
        forall|m: int| n <= m < 4 ==> #[trigger] line_of(sweep_lines(c, h, d, n).0, d, m) == line_of(c, d, m),
        sweep_lines(c, h, d, n).2 <==> exists|m: int| 0 <= m < n && line_moves(#[trigger] line_of(c, d, m)),
        !sweep_lines(c, h, d, n).2 ==> sweep_lines(c, h, d, n).0 == c && sweep_lines(c, h, d, n).1 == h,
        sweep_lines(c, h, d, n).2 ==> exists|m: int| 0 <= m < n && #[trigger] sweep_lines(c, h, d, n).0[trailing(d, m)] == 0,
        sweep_lines(c, h, d, n).1 >= h,
        cells_ok(c, h) && is_triple(h as nat) ==> cells_ok(sweep_lines(c, h, d, n).0, sweep_lines(c, h, d, n).1)
            && is_triple(sweep_lines(c, h, d, n).1 as nat),
    decreases n,
{
    if n > 0 {
        let k = (n - 1) as nat;
        lemma_sweep_lines(c, h, d, k);
        let p = sweep_lines(c, h, d, k);
        let a = line_of(p.0, d, k as int);
        assert(a == line_of(c, d, k as int));
        let r = slide_line(a, p.1);
        lemma_slide_line(a, p.1);
        lemma_write_line(p.0, d, k as int, r.0);
        lemma_pos(d);
        let w = write_line(p.0, d, k as int, r.0);
        assert(sweep_lines(c, h, d, n) == (w, r.1, p.2 || r.2));
        if p.2 || r.2 {
            if r.2 {
                assert(w[pos(d, k as int, 3)] == r.0[3]);
                assert(w[trailing(d, k as int)] == 0);
                assert(sweep_lines(c, h, d, n).0[trailing(d, k as int)] == 0);
            } else {
                let m = choose|m: int| 0 <= m < k && #[trigger] p.0[trailing(d, m)] == 0;
                assert(w[pos(d, m, 3)] == p.0[pos(d, m, 3)]);
                assert(w[trailing(d, m)] == 0);
                assert(sweep_lines(c, h, d, n).0[trailing(d, m)] == 0);
            }
        }
        if !(p.2 || r.2) {
            assert(r.0 == line_of(p.0, d, k as int));
        }
        if r.2 {
            assert(line_moves(line_of(c, d, k as int)));
        }
        if cells_ok(c, h) && is_triple(h as nat) {
            assert(cells_ok(a, p.1)) by {
                assert forall|i: int| 0 <= i < 4 implies is_cell_value(#[trigger] a[i]) && a[i] <= p.1 by {
                    assert(a[i] == p.0[pos(d, k as int, i)]);
                }
            }
            assert forall|j: int| 0 <= j < 16 implies is_cell_value(#[trigger] w[j]) && w[j] <= r.1 by {
                if j == pos(d, k as int, 0) {
                    assert(w[j] == r.0[0]);
                } else if j == pos(d, k as int, 1) {
                    assert(w[j] == r.0[1]);
                } else if j == pos(d, k as int, 2) {
                    assert(w[j] == r.0[2]);
                } else if j == pos(d, k as int, 3) {
                    assert(w[j] == r.0[3]);
                } else {
                    assert(w[j] == p.0[j]);
                }
            }
        }
    }
}

/// A whole move: [`lemma_sweep_lines`] for all four lines.
pub proof fn lemma_sweep(c: Seq<u32>, h: u32, d: Direction)
    requires
        c.len() == 16,
    ensures
        sweep(c, h, d).0.len() == 16,
        sweep(c, h, d).2 == can_slide(c, d),
        !sweep(c, h, d).2 ==> sweep(c, h, d).0 == c && sweep(c, h, d).1 == h,
        sweep(c, h, d).2 ==> exists|m: int| 0 <= m < 4 && #[trigger] sweep(c, h, d).0[trailing(d, m)] == 0,
        sweep(c, h, d).1 >= h,
        cells_ok(c, h) && is_triple(h as nat) ==> cells_ok(sweep(c, h, d).0, sweep(c, h, d).1)
            && is_triple(sweep(c, h, d).1 as nat),
{
    lemma_sweep_lines(c, h, d, 4);
}

} // verus!
