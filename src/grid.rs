use vstd::prelude::*;
use crate::cube::{position_in, Cube};
use crate::math::{absmax, absmax_spec};
use crate::point::{representable, rotated, Point, Turn, EXACT_LIMIT};
use crate::scene::{single_name, Command, CommandLog, CommandView, Move, Scene};
use crate::tetrimino::{Tetrimino, TetriminoLetter};

verus! {

pub const ROW_COUNT: usize = 20;
pub const COLUMN_COUNT: usize = 10;
pub const TOP: i32 = 19;
pub const BOTTOM: i32 = 0;
pub const LEFT: i32 = 0;
pub const RIGHT: i32 = 9;

/// Occupancy of the whole playfield, row after row from the floor up: each
/// cell holds the name of the cube frozen there, if any.
pub type Cells = Seq<Option<Seq<char>>>;

/// The name of the cube held by a cell, if any.
pub open spec fn cell_view(c: Option<Cube>) -> Option<Seq<char>> {
    match c {
        Some(cube) => Some(cube@),
        None => None,
    }
}

/// The cell at row `r` (0 is the floor) and column `c` (0 is the left wall).
pub open spec fn at(cells: Cells, r: int, c: int) -> Option<Seq<char>> {
    cells[r * 10 + c]
}

/// (x, y) lies on the playfield: column x, row y.
pub open spec fn inside(x: int, y: int) -> bool {
    LEFT <= x <= RIGHT && BOTTOM <= y <= TOP
}

/// The cell at column x, row y does not block a piece whose cubes are `own`.
pub open spec fn cell_free(cells: Cells, x: int, y: int, own: Seq<Seq<char>>) -> bool {
    match at(cells, y, x) {
        None => true,
        Some(n) => own.contains(n),
    }
}

/// `p` shifted by `off` lies on the playfield in a cell that does not block.
pub open spec fn spot_free(cells: Cells, p: Point, own: Seq<Seq<char>>, off: Point) -> bool {
    inside(p.x + off.x, p.y + off.y) && cell_free(cells, p.x + off.x, p.y + off.y, own)
}

/// All four points, shifted by `off`, are free spots.
pub open spec fn all_free(cells: Cells, pts: Seq<Point>, own: Seq<Seq<char>>, off: Point) -> bool {
    forall|i: int| 0 <= i < 4 ==> spot_free(cells, #[trigger] pts[i], own, off)
}

/// The names of a list of cubes.
pub open spec fn names_of(cubes: Seq<Cube>) -> Seq<Seq<char>> {
    cubes.map_values(|c: Cube| c@)
}

/// The cell at column `p.x`, row `p.y` after the first `k` cubes were frozen
/// at `pts`, over a cell that held `before`.
pub open spec fn stamped(
    before: Option<Seq<char>>,
    names: Seq<Seq<char>>,
    pts: Seq<Point>,
    k: int,
    r: int,
    c: int,
) -> Option<Seq<char>>
    decreases k,
{
    if k <= 0 {
        before
    } else if pts[k - 1].x == c && pts[k - 1].y == r {
        Some(names[k - 1])
    } else {
        stamped(before, names, pts, k - 1, r, c)
    }
}

/// How far a coordinate must be pushed to come back into `[lo, hi]`.
pub open spec fn clamp_delta(v: int, lo: int, hi: int) -> int {
    if v < lo {
        lo - v
    } else if v > hi {
        hi - v
    } else {
        0
    }
}

/// Horizontal wall correction gathered over the first `n` points: for each
/// point off the playfield, the larger in magnitude of its own push and the
/// correction so far.
pub open spec fn kick_x(pts: Seq<Point>, n: int) -> int
    decreases n,
{
    if n <= 0 {
        0
    } else {
        let g = kick_x(pts, n - 1);
        let p = pts[n - 1];
        if inside(p.x as int, p.y as int) {
            g
        } else {
            absmax_spec(clamp_delta(p.x as int, LEFT as int, RIGHT as int), g)
        }
    }
}

/// Vertical wall correction gathered over the first `n` points.
pub open spec fn kick_y(pts: Seq<Point>, n: int) -> int
    decreases n,
{
    if n <= 0 {
        0
    } else {
        let g = kick_y(pts, n - 1);
        let p = pts[n - 1];
        if inside(p.x as int, p.y as int) {
            g
        } else {
            absmax_spec(clamp_delta(p.y as int, BOTTOM as int, TOP as int), g)
        }
    }
}

/// The single offset that brings four turned points back onto the playfield.
pub open spec fn kick(pts: Seq<Point>) -> Point {
    Point { x: kick_x(pts, 4) as i32, y: kick_y(pts, 4) as i32 }
}

/// The horizontal nudges tried, in order, when a turned piece is blocked.
pub open spec fn jiggle(k: int) -> int {
    if k == 0 {
        -1
    } else if k == 1 {
        1
    } else if k == 2 {
        -2
    } else {
        2
    }
}

/// `base` nudged sideways by the `k`-th jiggle.
pub open spec fn nudged(base: Point, k: int) -> Point {
    Point { x: (base.x + jiggle(k)) as i32, y: base.y }
}

/// The first of the nudges from the `k`-th on under which the points are free.
pub open spec fn first_fit(cells: Cells, pts: Seq<Point>, own: Seq<Seq<char>>, base: Point, k: int) -> Option<Point>
    decreases 4 - k,
{
    if k < 0 || k >= 4 {
        None
    } else if all_free(cells, pts, own, nudged(base, k)) {
        Some(nudged(base, k))
    } else {
        first_fit(cells, pts, own, base, k + 1)
    }
}

/// The offset under which turned points `pts` are placed: the wall correction
/// if it frees them, else the first nudge of it that does; none if all fail.
pub open spec fn rotation_offset(cells: Cells, pts: Seq<Point>, own: Seq<Seq<char>>) -> Option<Point> {
    if all_free(cells, pts, own, kick(pts)) {
        Some(kick(pts))
    } else {
        first_fit(cells, pts, own, kick(pts), 0)
    }
}

/// The piece's cube positions turned about its anchor.
pub open spec fn turned_positions(t: Tetrimino, scene: Scene, turn: Turn) -> Seq<Point> {
    Seq::new(4, |i: int| rotated(t.cube_positions_in(scene)[i], turn, position_in(scene, t.root@)))
}

/// What a committed turn asks of the scene: each cube goes to its turned
/// position, then the anchor, which carries the cubes, moves by the offset.
pub open spec fn turn_commands(t: Tetrimino, pts: Seq<Point>, off: Point) -> Seq<CommandView> {
    seq![
        CommandView::Translate { names: seq![t.cubes@[0]@], x: pts[0].x, y: pts[0].y, mode: Move::Absolute },
        CommandView::Translate { names: seq![t.cubes@[1]@], x: pts[1].x, y: pts[1].y, mode: Move::Absolute },
        CommandView::Translate { names: seq![t.cubes@[2]@], x: pts[2].x, y: pts[2].y, mode: Move::Absolute },
        CommandView::Translate { names: seq![t.cubes@[3]@], x: pts[3].x, y: pts[3].y, mode: Move::Absolute },
        CommandView::Translate { names: seq![t.root@], x: off.x, y: off.y, mode: Move::Relative },
        CommandView::Refresh,
    ]
}

/// Bound on the coordinates of a point turned about another, both exactly
/// representable.
pub open spec fn turned_bound(p: Point) -> bool {
    -3 * EXACT_LIMIT <= p.x <= 3 * EXACT_LIMIT && -3 * EXACT_LIMIT <= p.y <= 3 * EXACT_LIMIT
}

proof fn lemma_kick_bound(pts: Seq<Point>, n: int)
    requires
        0 <= n <= 4,
        pts.len() == 4,
        forall|i: int| 0 <= i < 4 ==> turned_bound(#[trigger] pts[i]),
    ensures
        -3 * EXACT_LIMIT - 9 <= kick_x(pts, n) <= 3 * EXACT_LIMIT + 9,
        -3 * EXACT_LIMIT - 19 <= kick_y(pts, n) <= 3 * EXACT_LIMIT + 19,
    decreases n,
{
    if n > 0 {
        lemma_kick_bound(pts, n - 1);
        assert(turned_bound(pts[n - 1]));
    }
}

/// Every cell of row `r` is occupied.
pub open spec fn full(cells: Cells, r: int) -> bool {
    forall|c: int| 0 <= c < 10 ==> (#[trigger] at(cells, r, c)) is Some
}

/// Every cell of row `r` is empty.
pub open spec fn empty_row(cells: Cells, r: int) -> bool {
    forall|c: int| 0 <= c < 10 ==> (#[trigger] at(cells, r, c)) is None
}

/// Row `ra` of `a` holds what row `rb` of `b` holds.
pub open spec fn same_cells(a: Cells, ra: int, b: Cells, rb: int) -> bool {
    forall|c: int| 0 <= c < 10 ==> #[trigger] at(a, ra, c) == at(b, rb, c)
}

/// Number of full rows from row `r` up to the top.
pub open spec fn full_count(cells: Cells, r: int) -> int
    decreases 20 - r,
{
    if r < 0 || r >= 20 {
        0
    } else {
        (if full(cells, r) { 1int } else { 0int }) + full_count(cells, r + 1)
    }
}

/// Number of full rows from row `lo` up to, not including, row `hi`.
pub open spec fn full_between(cells: Cells, lo: int, hi: int) -> int
    decreases hi - lo,
{
    if lo >= hi {
        0
    } else {
        (if full(cells, lo) { 1int } else { 0int }) + full_between(cells, lo + 1, hi)
    }
}

/// Some row strictly above `from` holds a cube.
pub open spec fn occupied_above(cells: Cells, from: int) -> bool {
    exists|r: int| from < r < 20 && !#[trigger] empty_row(cells, r)
}

/// The cell at row `r`, column `c` once every row above `from` came down one
/// row over it; the top row is then empty.
pub open spec fn collapsed_at(cells: Cells, from: int, r: int, c: int) -> Option<Seq<char>> {
    if r < from {
        at(cells, r, c)
    } else if r < 19 {
        at(cells, r + 1, c)
    } else {
        None
    }
}

/// The playfield once every row above `from` came down one row.
pub open spec fn collapsed(cells: Cells, from: int) -> Cells {
    Seq::new(200, |i: int| collapsed_at(cells, from, i / 10, i % 10))
}

/// The names of the cubes in the first `k` cells of row `r`, from left to
/// right.
pub open spec fn occupied_names(cells: Cells, r: int, k: int) -> Seq<Seq<char>>
    decreases k,
{
    if k <= 0 {
        seq![]
    } else {
        occupied_names(cells, r, k - 1) + match at(cells, r, k - 1) {
            Some(n) => seq![n],
            None => seq![],
        }
    }
}

/// The names of the cubes of row `r`, from left to right.
pub open spec fn row_names(cells: Cells, r: int) -> Seq<Seq<char>> {
    occupied_names(cells, r, 10)
}

/// The translations that bring the rows among `from + 1 .. upto` that hold a
/// cube down one row, from the bottom up.
pub open spec fn shift_commands(cells: Cells, from: int, upto: int) -> Seq<CommandView>
    decreases upto - from,
{
    if upto <= from + 1 {
        seq![]
    } else {
        shift_commands(cells, from, upto - 1) + if !empty_row(cells, upto - 1) {
            seq![
                CommandView::Translate {
                    names: row_names(cells, upto - 1),
                    x: 0i32,
                    y: -1i32,
                    mode: Move::Relative,
                },
            ]
        } else {
            seq![]
        }
    }
}

/// What collapsing the rows above `from` asks of the scene.
pub open spec fn collapse_commands(cells: Cells, from: int) -> Seq<CommandView> {
    shift_commands(cells, from, 20).push(CommandView::Refresh)
}

proof fn lemma_cell_index(r: int, c: int)
    requires
        0 <= c < 10,
    ensures
        (r * 10 + c) / 10 == r,
        (r * 10 + c) % 10 == c,
{
}

proof fn lemma_index_split(i: int)
    requires
        0 <= i < 200,
    ensures
        0 <= i / 10 < 20,
        0 <= i % 10 < 10,
        i == (i / 10) * 10 + i % 10,
{
}

proof fn lemma_collapsed_rows(cells: Cells, from: int)
    ensures
        collapsed(cells, from).len() == 200,
        forall|r: int, c: int|
            0 <= r < 20 && 0 <= c < 10 ==> #[trigger] at(collapsed(cells, from), r, c) == collapsed_at(cells, from, r, c),
{
    assert forall|r: int, c: int| 0 <= r < 20 && 0 <= c < 10 implies #[trigger] at(collapsed(cells, from), r, c)
        == collapsed_at(cells, from, r, c) by {
        lemma_cell_index(r, c);
    }
}

/// There are at most as many full rows as rows.
pub proof fn lemma_full_count_bound(cells: Cells, r: int)
    ensures
        0 <= full_count(cells, r) <= 20,
        0 <= r <= 20 ==> full_count(cells, r) <= 20 - r,
        full_count(cells, r + 1) <= full_count(cells, r) || r < 0,
    decreases 20 - r,
{
    if 0 <= r < 20 {
        lemma_full_count_bound(cells, r + 1);
    }
}

proof fn lemma_collapsed_count_from(cells: Cells, from: int, k: int)
    requires
        0 <= from <= k <= 19,
    ensures
        full_count(collapsed(cells, from), k) == full_count(cells, k + 1),
    decreases 19 - k,
{
    let n = collapsed(cells, from);
    lemma_collapsed_rows(cells, from);
    if k == 19 {
        assert(at(n, 19, 0) is None);
        assert(full_count(n, 20) == 0);
        assert(full_count(cells, 20) == 0);
    } else {
        assert(full(n, k) == full(cells, k + 1)) by {
            if full(cells, k + 1) {
                assert forall|c: int| 0 <= c < 10 implies (#[trigger] at(n, k, c)) is Some by {
                    assert(at(cells, k + 1, c) is Some);
                }
            } else {
                let c = choose|c: int| 0 <= c < 10 && !(#[trigger] at(cells, k + 1, c) is Some);
                assert(at(n, k, c) is None);
            }
        }
        lemma_collapsed_count_from(cells, from, k + 1);
    }
}

/// Clearing a full row takes one full row off the rows from there up.
pub proof fn lemma_collapse_count(cells: Cells, from: int)
    requires
        0 <= from < 20,
        full(cells, from),
    ensures
        full_count(collapsed(cells, from), from) == full_count(cells, from) - 1,
{
    lemma_collapsed_count_from(cells, from, from);
}

proof fn lemma_full_between_split(cells: Cells, lo: int, hi: int)
    requires
        lo <= hi,
    ensures
        full_between(cells, lo, hi + 1) == full_between(cells, lo, hi) + if full(cells, hi) { 1int } else { 0int },
    decreases hi - lo,
{
    if lo < hi {
        lemma_full_between_split(cells, lo + 1, hi);
    } else {
        assert(full_between(cells, lo + 1, hi + 1) == 0);
    }
}

proof fn lemma_full_between_count(cells: Cells, lo: int)
    requires
        0 <= lo <= 20,
    ensures
        full_between(cells, lo, 20) == full_count(cells, lo),
    decreases 20 - lo,
{
    if lo < 20 {
        lemma_full_between_count(cells, lo + 1);
    }
}

proof fn lemma_full_between_collapsed(cells: Cells, from: int, lo: int, hi: int)
    requires
        0 <= from <= lo <= hi <= 19,
    ensures
        full_between(collapsed(cells, from), lo, hi) == full_between(cells, lo + 1, hi + 1),
    decreases hi - lo,
{
    if lo < hi {
        let n = collapsed(cells, from);
        lemma_collapsed_rows(cells, from);
        assert(full(n, lo) == full(cells, lo + 1)) by {
            if full(cells, lo + 1) {
                assert forall|c: int| 0 <= c < 10 implies (#[trigger] at(n, lo, c)) is Some by {
                    assert(at(cells, lo + 1, c) is Some);
                }
            } else {
                let c = choose|c: int| 0 <= c < 10 && !(#[trigger] at(cells, lo + 1, c) is Some);
                assert(at(n, lo, c) is None);
            }
        }
        lemma_full_between_collapsed(cells, from, lo + 1, hi);
    }
}

proof fn lemma_occupied_names_same(a: Cells, b: Cells, r: int, k: int)
    requires
        0 <= k <= 10,
        forall|c: int| 0 <= c < 10 ==> #[trigger] at(a, r, c) == at(b, r, c),
    ensures
        occupied_names(a, r, k) == occupied_names(b, r, k),
    decreases k,
{
    if k > 0 {
        lemma_occupied_names_same(a, b, r, k - 1);
        assert(at(a, r, k - 1) == at(b, r, k - 1));
    }
}

/// Row clearing from row `idx` up: the number of rows cleared, the playfield
/// afterwards and what was asked of the scene.
///
/// A full row is cleared: its cubes are deleted and every row above it comes
/// down one row; when something came down, the same row is examined again.
pub open spec fn clear_rows(cells: Cells, idx: int) -> (int, Cells, Seq<CommandView>)
    decreases 20 - idx, full_count(cells, idx),
{
    if idx < 0 || idx >= 20 || cells.len() != 200 {
        (0, cells, seq![])
    } else if full(cells, idx) {
        let next = collapsed(cells, idx);
        let cmds = seq![CommandView::Delete { names: row_names(cells, idx) }] + collapse_commands(cells, idx);
        if occupied_above(cells, idx) {
            proof {
                lemma_collapse_count(cells, idx);
                lemma_full_count_bound(next, idx);
            }
            let rest = clear_rows(next, idx);
            (1 + rest.0, rest.1, cmds + rest.2)
        } else {
            let rest = clear_rows(next, idx + 1);
            (1 + rest.0, rest.1, cmds + rest.2)
        }
    } else {
        clear_rows(cells, idx + 1)
    }
}

/// Row `j` of `before`, when it is not full, stands in `after` lowered by the
/// number of full rows beneath it from row `idx` up.
pub open spec fn row_lands(after: Cells, before: Cells, idx: int, j: int) -> bool {
    !full(before, j) ==> same_cells(after, j - full_between(before, idx, j), before, j)
}

/// What clearing rows from row `idx` up does, when no row below `idx` is full:
/// as many rows are cleared as were full; every other row keeps its order and
/// comes down by the number of full rows beneath it; the rows freed at the top
/// end empty.
pub proof fn lemma_clear_rows_outcome(cells: Cells, idx: int)
    requires
        cells.len() == 200,
        0 <= idx <= 20,
        forall|r: int| 0 <= r < idx ==> !#[trigger] full(cells, r),
    ensures
        clear_rows(cells, idx).0 == full_count(cells, idx),
        forall|j: int| 0 <= j < 20 ==> #[trigger] row_lands(clear_rows(cells, idx).1, cells, idx, j),
        forall|i: int|
            20 - full_count(cells, idx) <= i < 20 ==> #[trigger] empty_row(clear_rows(cells, idx).1, i),
    decreases 20 - idx, full_count(cells, idx),
{
    let res = clear_rows(cells, idx);
    if idx == 20 {
        assert forall|j: int| 0 <= j < 20 implies #[trigger] row_lands(res.1, cells, idx, j) by {
            assert(full_between(cells, idx, j) == 0);
        }
        return;
    }
    if !full(cells, idx) {
        lemma_clear_rows_outcome(cells, idx + 1);
        assert forall|j: int| 0 <= j < 20 implies #[trigger] row_lands(res.1, cells, idx, j) by {
            assert(row_lands(res.1, cells, idx + 1, j));
            assert(full_between(cells, idx, j) == full_between(cells, idx + 1, j));
        }
        return;
    }
    let next = collapsed(cells, idx);
    lemma_collapsed_rows(cells, idx);
    lemma_collapse_count(cells, idx);
    lemma_full_count_bound(next, idx);
    assert forall|r: int| 0 <= r < idx implies !#[trigger] full(next, r) by {
        assert(!full(cells, r));
        let c = choose|c: int| 0 <= c < 10 && !(#[trigger] at(cells, r, c) is Some);
        assert(at(next, r, c) == at(cells, r, c));
    }
    lemma_clear_rows_outcome(next, idx);
    let rest = clear_rows(next, idx);
    if !occupied_above(cells, idx) {
        assert(at(next, idx, 0) is None) by {
            if idx < 19 {
                assert(empty_row(cells, idx + 1));
            }
        }
        assert(clear_rows(next, idx) == clear_rows(next, idx + 1));
    }
    assert(res.0 == 1 + rest.0 && res.1 == rest.1);
    assert forall|j: int| 0 <= j < 20 implies #[trigger] row_lands(res.1, cells, idx, j) by {
        if !full(cells, j) {
            if j < idx {
                assert(full_between(cells, idx, j) == 0);
                assert(full_between(next, idx, j) == 0);
                assert(!full(next, j));
                assert(row_lands(rest.1, next, idx, j));
                assert forall|c: int| 0 <= c < 10 implies #[trigger] at(res.1, j, c) == at(cells, j, c) by {
                    assert(at(next, j, c) == at(cells, j, c));
                }
            } else {
                assert(j > idx);
                assert(!full(next, j - 1)) by {
                    let c = choose|c: int| 0 <= c < 10 && !(#[trigger] at(cells, j, c) is Some);
                    assert(at(next, j - 1, c) == at(cells, j, c));
                }
                assert(row_lands(rest.1, next, idx, j - 1));
                lemma_full_between_collapsed(cells, idx, idx, j - 1);
                assert(full_between(cells, idx, j) == 1 + full_between(cells, idx + 1, j));
                let t = j - full_between(cells, idx, j);
                assert(t == j - 1 - full_between(next, idx, j - 1));
                assert forall|c: int| 0 <= c < 10 implies #[trigger] at(res.1, t, c) == at(cells, j, c) by {
                    assert(at(rest.1, t, c) == at(next, j - 1, c));
                    assert(at(next, j - 1, c) == at(cells, j, c));
                }
            }
        }
    }
    let k = full_count(cells, idx);
    assert forall|i: int| 20 - k <= i < 20 implies #[trigger] empty_row(res.1, i) by {
        if i == 20 - k {
            assert(!full(next, 19)) by {
                assert(at(next, 19, 0) is None);
            }
            assert(row_lands(rest.1, next, idx, 19));
            lemma_full_between_split(next, idx, 19);
            lemma_full_between_count(next, idx);
            assert(19 - full_between(next, idx, 19) == i);
            assert forall|c: int| 0 <= c < 10 implies (#[trigger] at(res.1, i, c)) is None by {
                assert(at(rest.1, i, c) == at(next, 19, c));
            }
        } else {
            assert(empty_row(rest.1, i));
        }
    }
}

proof fn lemma_full_between_one(cells: Cells, r: int, hi: int)
    requires
        0 <= hi <= 20,
        0 <= r < 20,
        full(cells, r),
        forall|j: int| 0 <= j < 20 && j != r ==> !#[trigger] full(cells, j),
    ensures
        full_between(cells, 0, hi) == if hi > r { 1int } else { 0int },
    decreases hi,
{
    if hi > 0 {
        lemma_full_between_one(cells, r, hi - 1);
        lemma_full_between_split(cells, 0, hi - 1);
    }
}

proof fn lemma_full_between_two(cells: Cells, r: int, hi: int)
    requires
        0 <= hi <= 20,
        0 <= r < 19,
        full(cells, r),
        full(cells, r + 1),
        forall|j: int| 0 <= j < 20 && j != r && j != r + 1 ==> !#[trigger] full(cells, j),
    ensures
        full_between(cells, 0, hi) == if hi > r + 1 { 2int } else if hi > r { 1int } else { 0int },
    decreases hi,
{
    if hi > 0 {
        lemma_full_between_two(cells, r, hi - 1);
        lemma_full_between_split(cells, 0, hi - 1);
    }
}

/// Clearing a playfield whose only full row is `r` clears one row: the rows
/// below `r` stay, every row above it comes down by exactly one row, and the
/// top row ends empty.
pub proof fn lemma_one_full_row_cleared(before: Cells, after: Cells, count: int, r: int)
    requires
        before.len() == 200,
        0 <= r < 20,
        full(before, r),
        forall|j: int| 0 <= j < 20 && j != r ==> !#[trigger] full(before, j),
        count == full_count(before, 0),
        forall|j: int| 0 <= j < 20 ==> #[trigger] row_lands(after, before, 0, j),
        forall|i: int| 20 - count <= i < 20 ==> #[trigger] empty_row(after, i),
    ensures
        count == 1,
        forall|i: int| 0 <= i < r ==> #[trigger] same_cells(after, i, before, i),
        forall|i: int| r <= i < 19 ==> #[trigger] same_cells(after, i, before, i + 1),
        empty_row(after, 19),
{
    lemma_full_between_one(before, r, 20);
    lemma_full_between_count(before, 0);
    assert forall|i: int| 0 <= i < r implies #[trigger] same_cells(after, i, before, i) by {
        lemma_full_between_one(before, r, i);
        assert(row_lands(after, before, 0, i));
    }
    assert forall|i: int| r <= i < 19 implies #[trigger] same_cells(after, i, before, i + 1) by {
        lemma_full_between_one(before, r, i + 1);
        assert(row_lands(after, before, 0, i + 1));
    }
    assert(empty_row(after, 19));
}

/// Clearing a playfield whose only full rows are `r` and `r + 1` clears two
/// rows: the rows below `r` stay, every row above both comes down by exactly
/// two rows, and the two top rows end empty.
pub proof fn lemma_two_full_rows_cleared(before: Cells, after: Cells, count: int, r: int)
    requires
        before.len() == 200,
        0 <= r < 19,
        full(before, r),
        full(before, r + 1),
        forall|j: int| 0 <= j < 20 && j != r && j != r + 1 ==> !#[trigger] full(before, j),
        count == full_count(before, 0),
        forall|j: int| 0 <= j < 20 ==> #[trigger] row_lands(after, before, 0, j),
        forall|i: int| 20 - count <= i < 20 ==> #[trigger] empty_row(after, i),
    ensures
        count == 2,
        forall|i: int| 0 <= i < r ==> #[trigger] same_cells(after, i, before, i),
        forall|i: int| r <= i < 18 ==> #[trigger] same_cells(after, i, before, i + 2),
        empty_row(after, 18),
        empty_row(after, 19),
{
    lemma_full_between_two(before, r, 20);
    lemma_full_between_count(before, 0);
    assert forall|i: int| 0 <= i < r implies #[trigger] same_cells(after, i, before, i) by {
        lemma_full_between_two(before, r, i);
        assert(row_lands(after, before, 0, i));
    }
    assert forall|i: int| r <= i < 18 implies #[trigger] same_cells(after, i, before, i + 2) by {
        lemma_full_between_two(before, r, i + 2);
        assert(row_lands(after, before, 0, i + 2));
    }
    assert(empty_row(after, 18));
    assert(empty_row(after, 19));
}

/// A point of `pts`, among the first `k`, stands at column `c`, row `r`.
pub open spec fn hit(pts: Seq<Point>, k: int, r: int, c: int) -> bool {
    exists|i: int| 0 <= i < k && (#[trigger] pts[i]).x == c && pts[i].y == r
}

proof fn lemma_stamped_untouched(
    before: Option<Seq<char>>,
    names: Seq<Seq<char>>,
    pts: Seq<Point>,
    k: int,
    r: int,
    c: int,
)
    requires
        !hit(pts, k, r, c),
    ensures
        stamped(before, names, pts, k, r, c) == before,
    decreases k,
{
    if k > 0 {
        assert(!(pts[k - 1].x == c && pts[k - 1].y == r)) by {
            if pts[k - 1].x == c && pts[k - 1].y == r {
                assert(hit(pts, k, r, c));
            }
        }
        assert(!hit(pts, k - 1, r, c)) by {
            if hit(pts, k - 1, r, c) {
                let i = choose|i: int| 0 <= i < k - 1 && (#[trigger] pts[i]).x == c && pts[i].y == r;
                assert(hit(pts, k, r, c));
            }
        }
        lemma_stamped_untouched(before, names, pts, k - 1, r, c);
    }
}

proof fn lemma_stamped_hit(before: Option<Seq<char>>, names: Seq<Seq<char>>, pts: Seq<Point>, k: int, i: int)
    requires
        0 <= i < k,
    ensures
        exists|j: int|
            0 <= j < k && pts[j].x == pts[i].x && pts[j].y == pts[i].y && #[trigger] names[j] == stamped(
                before,
                names,
                pts,
                k,
                pts[i].y as int,
                pts[i].x as int,
            )->0 && stamped(before, names, pts, k, pts[i].y as int, pts[i].x as int) is Some,
        (forall|j: int| 0 <= j < k && j != i ==> (#[trigger] pts[j]) != pts[i]) ==> stamped(
            before,
            names,
            pts,
            k,
            pts[i].y as int,
            pts[i].x as int,
        ) == Some(names[i]),
    decreases k,
{
    let st = stamped(before, names, pts, k, pts[i].y as int, pts[i].x as int);
    if pts[k - 1].x == pts[i].x && pts[k - 1].y == pts[i].y {
        assert(names[k - 1] == st->0);
        if i != k - 1 && (forall|j: int| 0 <= j < k && j != i ==> (#[trigger] pts[j]) != pts[i]) {
            assert(pts[k - 1] != pts[i]);
        }
    } else {
        lemma_stamped_hit(before, names, pts, k - 1, i);
        let j = choose|j: int|
            0 <= j < k - 1 && pts[j].x == pts[i].x && pts[j].y == pts[i].y && #[trigger] names[j] == stamped(
                before,
                names,
                pts,
                k - 1,
                pts[i].y as int,
                pts[i].x as int,
            )->0 && stamped(before, names, pts, k - 1, pts[i].y as int, pts[i].x as int) is Some;
        assert(names[j] == st->0);
    }
}

/// Freezing a piece records exactly its own cells: a cell under none of its
/// cubes keeps what it held, and the cell under each cube ends holding a cube
/// of the piece that stands there, that very cube when no two cubes share a
/// cell.
pub proof fn lemma_freeze_exact(before: Cells, after: Cells, names: Seq<Seq<char>>, pts: Seq<Point>)
    requires
        pts.len() == 4,
        names.len() == 4,
        forall|r: int, c: int|
            0 <= r < 20 && 0 <= c < 10 ==> #[trigger] at(after, r, c) == stamped(at(before, r, c), names, pts, 4, r, c),
        forall|i: int| 0 <= i < 4 ==> inside((#[trigger] pts[i]).x as int, pts[i].y as int),
    ensures
        forall|r: int, c: int|
            0 <= r < 20 && 0 <= c < 10 && !hit(pts, 4, r, c) ==> #[trigger] at(after, r, c) == at(before, r, c),
        forall|i: int|
            #![trigger pts[i]]
            0 <= i < 4 ==> exists|j: int|
                0 <= j < 4 && pts[j].x == pts[i].x && pts[j].y == pts[i].y && at(after, pts[i].y as int, pts[i].x as int)
                    == Some(#[trigger] names[j]),
        (forall|i: int, j: int| 0 <= i < 4 && 0 <= j < 4 && i != j ==> pts[i] != pts[j]) ==> forall|i: int|
            0 <= i < 4 ==> at(after, (#[trigger] pts[i]).y as int, pts[i].x as int) == Some(names[i]),
{
    assert forall|r: int, c: int| 0 <= r < 20 && 0 <= c < 10 && !hit(pts, 4, r, c) implies #[trigger] at(after, r, c) == at(
        before,
        r,
        c,
    ) by {
        lemma_stamped_untouched(at(before, r, c), names, pts, 4, r, c);
    }
    assert forall|i: int| #![trigger pts[i]] 0 <= i < 4 implies exists|j: int|
        0 <= j < 4 && pts[j].x == pts[i].x && pts[j].y == pts[i].y && at(after, pts[i].y as int, pts[i].x as int) == Some(
            #[trigger] names[j],
        ) by {
        let (r, c) = (pts[i].y as int, pts[i].x as int);
        lemma_stamped_hit(at(before, r, c), names, pts, 4, i);
    }
    if forall|i: int, j: int| 0 <= i < 4 && 0 <= j < 4 && i != j ==> pts[i] != pts[j] {
        assert forall|i: int| 0 <= i < 4 implies at(after, (#[trigger] pts[i]).y as int, pts[i].x as int) == Some(names[i]) by {
            let (r, c) = (pts[i].y as int, pts[i].x as int);
            lemma_stamped_hit(at(before, r, c), names, pts, 4, i);
        }
    }
}

/// A piece never blocks itself: once its cubes are recorded where they stand,
/// it still fits there without moving.
pub proof fn lemma_frozen_piece_fits(before: Cells, after: Cells, names: Seq<Seq<char>>, pts: Seq<Point>)
    requires
        pts.len() == 4,
        names.len() == 4,
        forall|r: int, c: int|
            0 <= r < 20 && 0 <= c < 10 ==> #[trigger] at(after, r, c) == stamped(at(before, r, c), names, pts, 4, r, c),
        forall|i: int| 0 <= i < 4 ==> inside((#[trigger] pts[i]).x as int, pts[i].y as int),
    ensures
        all_free(after, pts, names, Point { x: 0, y: 0 }),
{
    lemma_freeze_exact(before, after, names, pts);
    assert forall|i: int| 0 <= i < 4 implies spot_free(after, #[trigger] pts[i], names, Point { x: 0, y: 0 }) by {
        let j = choose|j: int|
            0 <= j < 4 && pts[j].x == pts[i].x && pts[j].y == pts[i].y && at(after, pts[i].y as int, pts[i].x as int)
                == Some(#[trigger] names[j]);
        assert(names.contains(names[j]));
        assert(pts[i].x + 0 == pts[i].x && pts[i].y + 0 == pts[i].y);
    }
}

/// The playfield: a fixed matrix of occupancy cells and the active piece.
#[derive(Debug)]
pub struct Grid {
    cells: Vec<Option<Cube>>,
    active_tetrimino: Option<Tetrimino>,
}

impl Grid {
    /// The occupancy of the playfield.
    pub closed spec fn cells(&self) -> Cells {
        self.cells@.map_values(|c: Option<Cube>| cell_view(c))
    }

    /// The active piece.
    pub closed spec fn active(&self) -> Option<Tetrimino> {
        self.active_tetrimino
    }

    pub open spec fn wf(&self) -> bool {
        self.cells().len() == 200
    }

    /// An empty playfield with no active piece.
    pub fn new() -> (r: Grid)
        ensures
            r.wf(),
            forall|i: int| 0 <= i < 200 ==> r.cells()[i] is None,
            forall|row: int| 0 <= row < 20 ==> #[trigger] empty_row(r.cells(), row),
            r.active() is None,
    {
        let mut cells: Vec<Option<Cube>> = Vec::new();
        let mut i: usize = 0;
        while i < ROW_COUNT * COLUMN_COUNT
            invariant
                i <= 200,
                cells@.len() == i,
                forall|j: int| 0 <= j < i ==> cells@[j] is None,
            decreases 200 - i,
        {
            cells.push(None);
            i = i + 1;
        }
        let r = Grid { cells, active_tetrimino: None };
        assert forall|row: int| 0 <= row < 20 implies #[trigger] empty_row(r.cells(), row) by {
            assert forall|c: int| 0 <= c < 10 implies (#[trigger] at(r.cells(), row, c)) is None by {
                assert(r.cells()[row * 10 + c] == cell_view(cells@[row * 10 + c]));
            }
        }
        r
    }

    /// Makes `active_tetrimino` the piece that moves.
    pub fn set_active_tetrimino(&mut self, active_tetrimino: Tetrimino)
        ensures
            final(self).active() == Some(active_tetrimino),
            final(self).cells() == old(self).cells(),
    {
        self.active_tetrimino = Some(active_tetrimino);
    }

    /// The piece that moves, if any.
    pub fn get_active_tetrimino(&self) -> (r: &Option<Tetrimino>)
        ensures
            *r == self.active(),
    {
        &self.active_tetrimino
    }

    /// The name of the cube frozen at column `x`, row `y`, if any.
    pub fn cell(&self, x: usize, y: usize) -> (r: Option<String>)
        requires
            self.wf(),
            x < COLUMN_COUNT,
            y < ROW_COUNT,
        ensures
            (match r {
                Some(s) => Some(s@),
                None => None::<Seq<char>>,
            }) == at(self.cells(), y as int, x as int),
    {
        match &self.cells[y * COLUMN_COUNT + x] {
            Some(cube) => Some(cube.name.clone()),
            None => None,
        }
    }

    fn set_cell(&mut self, i: usize, v: Option<Cube>)
        requires
            i < old(self).cells@.len(),
        ensures
            final(self).cells() == old(self).cells().update(i as int, cell_view(v)),
            final(self).active() == old(self).active(),
    {
        let ghost v_view = cell_view(v);
        self.cells.set(i, v);
        assert(self.cells() =~= old(self).cells().update(i as int, v_view));
    }

    /// Whether `point` lies on the playfield.
    pub fn is_inside_grid(point: &Point) -> (r: bool)
        ensures
            r == inside(point.x as int, point.y as int),
    {
        (LEFT <= point.x) && (point.x <= RIGHT) && (BOTTOM <= point.y) && (point.y <= TOP)
    }

    /// Whether the cell at `point` is empty or holds one of `whitelist`.
    pub fn cell_is_available(&self, point: &Point, whitelist: &[Cube; 4]) -> (r: bool)
        requires
            self.wf(),
            inside(point.x as int, point.y as int),
        ensures
            r == cell_free(self.cells(), point.x as int, point.y as int, names_of(whitelist@)),
    {
        let i = point.y as usize * COLUMN_COUNT + point.x as usize;
        match &self.cells[i] {
            None => true,
            Some(cube) => {
                let ghost own = names_of(whitelist@);
                let mut j: usize = 0;
                while j < 4
                    invariant
                        j <= 4,
                        own == names_of(whitelist@),
                        cube@ == at(self.cells(), point.y as int, point.x as int)->0,
                        forall|k: int| 0 <= k < j ==> own[k] != cube@,
                    decreases 4 - j,
                {
                    if whitelist[j].name == cube.name {
                        assert(own[j as int] == cube@);
                        return true;
                    }
                    j = j + 1;
                }
                proof {
                    if own.contains(cube@) {
                        let k = choose|k: int| 0 <= k < own.len() && own[k] == cube@;
                        assert(own[k] != cube@);
                    }
                }
                false
            },
        }
    }

    /// Whether each of `points`, shifted by `offset`, lies on the playfield in
    /// a cell that is empty or holds one of `whitelist`.
    pub fn cells_are_available(&self, points: &[Point; 4], whitelist: &[Cube; 4], offset: &Point) -> (r: bool)
        requires
            self.wf(),
        ensures
            r == all_free(self.cells(), points@, names_of(whitelist@), *offset),
    {
        let ghost own = names_of(whitelist@);
        let mut i: usize = 0;
        while i < 4
            invariant
                i <= 4,
                self.wf(),
                own == names_of(whitelist@),
                forall|k: int| 0 <= k < i ==> spot_free(self.cells(), #[trigger] points@[k], own, *offset),
            decreases 4 - i,
        {
            let x: i64 = points[i].x as i64 + offset.x as i64;
            let y: i64 = points[i].y as i64 + offset.y as i64;
            let inside_grid = LEFT as i64 <= x && x <= RIGHT as i64 && BOTTOM as i64 <= y && y <= TOP as i64;
            if !inside_grid {
                assert(!spot_free(self.cells(), points@[i as int], own, *offset));
                return false;
            }
            let p = Point::new(x as i32, y as i32);
            if !self.cell_is_available(&p, whitelist) {
                assert(!spot_free(self.cells(), points@[i as int], own, *offset));
                return false;
            }
            i = i + 1;
        }
        true
    }

    /// Whether the piece, shifted by `offset`, would stand on free cells; its
    /// own cubes never block it.
    pub fn can_move_to(&self, tetrimino: &Tetrimino, offset: &Point, scene: &Scene) -> (r: bool)
        requires
            self.wf(),
            scene.wf(),
            tetrimino.on_scene(*scene),
        ensures
            r == all_free(self.cells(), tetrimino.cube_positions_in(*scene), tetrimino.cube_names(), *offset),
    {
        let pts = tetrimino.get_cube_positions(scene);
        assert(names_of(tetrimino.cubes@) == tetrimino.cube_names());
        self.cells_are_available(&pts, &tetrimino.cubes, offset)
    }

    /// Whether the piece, where it stands, overlaps a blocking cell or the
    /// outside of the playfield.
    pub fn inplace_collision(&self, tetrimino: &Tetrimino, scene: &Scene) -> (r: bool)
        requires
            self.wf(),
            scene.wf(),
            tetrimino.on_scene(*scene),
        ensures
            r == !all_free(
                self.cells(),
                tetrimino.cube_positions_in(*scene),
                tetrimino.cube_names(),
                Point { x: 0, y: 0 },
            ),
    {
        !self.can_move_to(tetrimino, &Point::default(), scene)
    }

    /// Moves the piece by `offset` if it can go there: the anchor is translated
    /// and the scene refreshed. Otherwise nothing happens.
    pub fn move_tetrimino(&self, tetrimino: &Tetrimino, offset: &Point, scene: &Scene, log: &mut CommandLog) -> (r: bool)
        requires
            self.wf(),
            scene.wf(),
            tetrimino.on_scene(*scene),
        ensures
            r == all_free(self.cells(), tetrimino.cube_positions_in(*scene), tetrimino.cube_names(), *offset),
            r ==> final(log)@ == old(log)@ + seq![
                CommandView::Translate { names: seq![tetrimino.root@], x: offset.x, y: offset.y, mode: Move::Relative },
                CommandView::Refresh,
            ],
            !r ==> final(log)@ == old(log)@,
    {
        if self.can_move_to(tetrimino, offset, scene) {
            log.push(Command::Translate { names: single_name(&tetrimino.root), x: offset.x, y: offset.y, mode: Move::Relative });
            log.push(Command::Refresh);
            assert(final(log)@ =~= old(log)@ + seq![
                CommandView::Translate { names: seq![tetrimino.root@], x: offset.x, y: offset.y, mode: Move::Relative },
                CommandView::Refresh,
            ]);
            return true;
        }
        false
    }
    /// Turns the piece a quarter turn about its anchor, if it can stand there.
    ///
    /// Square pieces never turn. Turned cubes that leave the playfield are
    /// brought back by the wall correction; if the piece is still blocked, the
    /// correction is nudged one column left, one right, two left and two right,
    /// and the first nudge that frees it is kept. When nothing frees it, the
    /// scene is left alone.
    pub fn rotate(&self, tetrimino: &Tetrimino, angle: Turn, scene: &Scene, log: &mut CommandLog) -> (r: bool)
        requires
            self.wf(),
            scene.wf(),
            tetrimino.on_scene(*scene),
        ensures
            tetrimino.letter == TetriminoLetter::O ==> !r && final(log)@ == old(log)@,
            tetrimino.letter != TetriminoLetter::O ==> ({
                let pts = turned_positions(*tetrimino, *scene, angle);
                let off = rotation_offset(self.cells(), pts, tetrimino.cube_names());
                &&& r == off is Some
                &&& off matches Some(o) ==> final(log)@ == old(log)@ + turn_commands(*tetrimino, pts, o)
                &&& off is None ==> final(log)@ == old(log)@
            }),
    {
        if tetrimino.letter == TetriminoLetter::O {
            return false;
        }
        let root_position = tetrimino.get_root_position(scene);
        let cur = tetrimino.get_cube_positions(scene);
        let mut p0 = cur[0];
        let mut p1 = cur[1];
        let mut p2 = cur[2];
        let mut p3 = cur[3];
        p0.rotate(angle, Some(&root_position));
        p1.rotate(angle, Some(&root_position));
        p2.rotate(angle, Some(&root_position));
        p3.rotate(angle, Some(&root_position));
        let pts = [p0, p1, p2, p3];
        let ghost gpts = turned_positions(*tetrimino, *scene, angle);
        assert(pts@ =~= gpts);
        assert forall|i: int| 0 <= i < 4 implies turned_bound(#[trigger] gpts[i]) by {
            assert(representable(cur@[i]));
        }

        let mut global_offset = Point::default();
        let mut i: usize = 0;
        while i < 4
            invariant
                i <= 4,
                pts@ == gpts,
                forall|k: int| 0 <= k < 4 ==> turned_bound(#[trigger] gpts[k]),
                global_offset.x == kick_x(gpts, i as int),
                global_offset.y == kick_y(gpts, i as int),
            decreases 4 - i,
        {
            proof {
                lemma_kick_bound(gpts, i as int);
                assert(turned_bound(gpts[i as int]));
            }
            let p = pts[i];
            if !Self::is_inside_grid(&p) {
                let cube_offset_x: i32 = if p.x < LEFT { LEFT - p.x } else if p.x > RIGHT { RIGHT - p.x } else { 0 };
                let cube_offset_y: i32 = if p.y < BOTTOM { BOTTOM - p.y } else if p.y > TOP { TOP - p.y } else { 0 };
                global_offset.x = absmax(cube_offset_x, global_offset.x);
                global_offset.y = absmax(cube_offset_y, global_offset.y);
            }
            i = i + 1;
        }
        proof {
            lemma_kick_bound(gpts, 4);
        }
        assert(global_offset == kick(gpts));
        let ghost own = tetrimino.cube_names();
        assert(names_of(tetrimino.cubes@) == own);

        let mut offset = global_offset;
        if !self.cells_are_available(&pts, &tetrimino.cubes, &global_offset) {
            let moves: [i32; 4] = [-1, 1, -2, 2];
            let mut found = false;
            let mut k: usize = 0;
            while k < 4 && !found
                invariant
                    k <= 4,
                    self.wf(),
                    own == names_of(tetrimino.cubes@),
                    pts@ == gpts,
                    global_offset == kick(gpts),
                    -3 * EXACT_LIMIT - 9 <= global_offset.x <= 3 * EXACT_LIMIT + 9,
                    moves@ == seq![-1i32, 1i32, -2i32, 2i32],
                    !found ==> rotation_offset(self.cells(), gpts, own) == first_fit(self.cells(), gpts, own, global_offset, k as int),
                    found ==> rotation_offset(self.cells(), gpts, own) == Some(offset),
                    !all_free(self.cells(), gpts, own, kick(gpts)),
                decreases 4 - k,
            {
                assert(moves@[k as int] == jiggle(k as int));
                let move_offset = Point::new(global_offset.x + moves[k], global_offset.y);
                assert(move_offset == nudged(global_offset, k as int));
                if self.cells_are_available(&pts, &tetrimino.cubes, &move_offset) {
                    offset = move_offset;
                    found = true;
                }
                k = k + 1;
            }
            if !found {
                assert(first_fit(self.cells(), gpts, own, global_offset, k as int) is None);
                return false;
            }
        }
        assert(rotation_offset(self.cells(), gpts, own) == Some(offset));

        tetrimino.cubes[0].move_to(pts[0], Move::Absolute, log);
        tetrimino.cubes[1].move_to(pts[1], Move::Absolute, log);
        tetrimino.cubes[2].move_to(pts[2], Move::Absolute, log);
        tetrimino.cubes[3].move_to(pts[3], Move::Absolute, log);
        log.push(Command::Translate { names: single_name(&tetrimino.root), x: offset.x, y: offset.y, mode: Move::Relative });
        log.push(Command::Refresh);
        assert(final(log)@ =~= old(log)@ + turn_commands(*tetrimino, gpts, offset));
        true
    }
    /// Whether every cell of row `r` is occupied.
    pub fn is_row_complete(&self, r: usize) -> (res: bool)
        requires
            self.wf(),
            r < 20,
        ensures
            res == full(self.cells(), r as int),
    {
        let mut c: usize = 0;
        while c < COLUMN_COUNT
            invariant
                c <= 10,
                r < 20,
                self.wf(),
                forall|k: int| 0 <= k < c ==> (#[trigger] at(self.cells(), r as int, k)) is Some,
            decreases 10 - c,
        {
            if self.cells[r * COLUMN_COUNT + c].is_none() {
                assert(at(self.cells(), r as int, c as int) is None);
                return false;
            }
            c = c + 1;
        }
        true
    }

    fn row_cube_names(&self, r: usize) -> (res: Vec<String>)
        requires
            self.wf(),
            r < 20,
        ensures
            crate::scene::names_view(res@) == row_names(self.cells(), r as int),
            res@.len() == 0 <==> empty_row(self.cells(), r as int),
    {
        let mut names: Vec<String> = Vec::new();
        let mut c: usize = 0;
        while c < COLUMN_COUNT
            invariant
                c <= 10,
                r < 20,
                self.wf(),
                crate::scene::names_view(names@) == occupied_names(self.cells(), r as int, c as int),
                names@.len() == 0 <==> forall|k: int| 0 <= k < c ==> (#[trigger] at(self.cells(), r as int, k)) is None,
            decreases 10 - c,
        {
            assert(self.cells()[(r * 10 + c) as int] == cell_view(self.cells@[(r * 10 + c) as int]));
            let ghost before = names@;
            match &self.cells[r * COLUMN_COUNT + c] {
                Some(cube) => {
                    names.push(cube.name.clone());
                    assert(crate::scene::names_view(names@) =~= crate::scene::names_view(before).push(cube@));
                },
                None => {},
            }
            assert(crate::scene::names_view(names@) =~= occupied_names(self.cells(), r as int, c + 1));
            c = c + 1;
        }
        names
    }

    /// Copies row `r` onto the row below it.
    fn copy_row_down(&mut self, r: usize)
        requires
            old(self).wf(),
            1 <= r < 20,
        ensures
            final(self).wf(),
            final(self).active() == old(self).active(),
            forall|rr: int, c: int|
                0 <= rr < 20 && 0 <= c < 10 ==> #[trigger] at(final(self).cells(), rr, c) == if rr == r - 1 {
                    at(old(self).cells(), r as int, c)
                } else {
                    at(old(self).cells(), rr, c)
                },
    {
        let mut c: usize = 0;
        while c < COLUMN_COUNT
            invariant
                c <= 10,
                1 <= r < 20,
                self.wf(),
                self.active() == old(self).active(),
                old(self).wf(),
                forall|rr: int, k: int|
                    0 <= rr < 20 && 0 <= k < 10 ==> #[trigger] at(self.cells(), rr, k) == if rr == r - 1 && k < c {
                        at(old(self).cells(), r as int, k)
                    } else {
                        at(old(self).cells(), rr, k)
                    },
            decreases 10 - c,
        {
            let v = match &self.cells[r * COLUMN_COUNT + c] {
                Some(cube) => Some(cube.duplicate()),
                None => None,
            };
            assert(cell_view(v) == at(self.cells(), r as int, c as int));
            let ghost prev = self.cells();
            self.set_cell((r - 1) * COLUMN_COUNT + c, v);
            proof {
                assert forall|rr: int, k: int| 0 <= rr < 20 && 0 <= k < 10 implies #[trigger] at(self.cells(), rr, k) == if rr == r - 1 && k < c + 1 {
                    at(old(self).cells(), r as int, k)
                } else {
                    at(old(self).cells(), rr, k)
                } by {
                    assert(at(prev, rr, k) == if rr == r - 1 && k < c {
                        at(old(self).cells(), r as int, k)
                    } else {
                        at(old(self).cells(), rr, k)
                    });
                    assert(at(prev, r as int, k) == at(old(self).cells(), r as int, k));
                }
            }
            c = c + 1;
        }
    }

    /// Empties row `r`.
    fn clear_row(&mut self, r: usize)
        requires
            old(self).wf(),
            r < 20,
        ensures
            final(self).wf(),
            final(self).active() == old(self).active(),
            forall|rr: int, c: int|
                0 <= rr < 20 && 0 <= c < 10 ==> #[trigger] at(final(self).cells(), rr, c) == if rr == r {
                    None
                } else {
                    at(old(self).cells(), rr, c)
                },
    {
        let mut c: usize = 0;
        while c < COLUMN_COUNT
            invariant
                c <= 10,
                r < 20,
                self.wf(),
                self.active() == old(self).active(),
                forall|rr: int, k: int|
                    0 <= rr < 20 && 0 <= k < 10 ==> #[trigger] at(self.cells(), rr, k) == if rr == r && k < c {
                        None
                    } else {
                        at(old(self).cells(), rr, k)
                    },
            decreases 10 - c,
        {
            let ghost prev = self.cells();
            self.set_cell(r * COLUMN_COUNT + c, None);
            proof {
                assert forall|rr: int, k: int| 0 <= rr < 20 && 0 <= k < 10 implies #[trigger] at(self.cells(), rr, k) == if rr == r && k < c + 1 {
                    None
                } else {
                    at(old(self).cells(), rr, k)
                } by {
                    assert(at(prev, rr, k) == if rr == r && k < c {
                        None
                    } else {
                        at(old(self).cells(), rr, k)
                    });
                }
            }
            c = c + 1;
        }
    }

    /// Brings every row above `from_row` down one row, over row `from_row`;
    /// the cubes of each row that holds any are translated down in one batch,
    /// and the top row is left empty. The scene is refreshed at the end.
    /// Returns whether any cube came down.
    pub fn move_down_rows(&mut self, from_row: usize, log: &mut CommandLog) -> (r: bool)
        requires
            old(self).wf(),
            from_row < 20,
        ensures
            final(self).wf(),
            final(self).active() == old(self).active(),
            final(self).cells() == collapsed(old(self).cells(), from_row as int),
            r == occupied_above(old(self).cells(), from_row as int),
            final(log)@ == old(log)@ + collapse_commands(old(self).cells(), from_row as int),
    {
        let ghost orig = self.cells();
        let mut moved_down = false;
        let mut row_idx: usize = from_row + 1;
        while row_idx < ROW_COUNT
            invariant
                from_row < 20,
                from_row + 1 <= row_idx <= 20,
                self.wf(),
                self.active() == old(self).active(),
                orig == old(self).cells(),
                forall|rr: int, c: int|
                    0 <= rr < 20 && 0 <= c < 10 ==> #[trigger] at(self.cells(), rr, c) == if from_row <= rr < row_idx - 1 {
                        at(orig, rr + 1, c)
                    } else {
                        at(orig, rr, c)
                    },
                log@ == old(log)@ + shift_commands(orig, from_row as int, row_idx as int),
                moved_down == exists|rr: int| from_row < rr < row_idx && !#[trigger] empty_row(orig, rr),
            decreases 20 - row_idx,
        {
            assert forall|c: int|
                #![trigger at(self.cells(), row_idx as int, c)]
                #![trigger at(orig, row_idx as int, c)]
                0 <= c < 10 implies at(self.cells(), row_idx as int, c) == at(orig, row_idx as int, c) by {}
            assert(empty_row(self.cells(), row_idx as int) == empty_row(orig, row_idx as int));
            assert(row_names(self.cells(), row_idx as int) == row_names(orig, row_idx as int)) by {
                assert forall|k: int| 0 <= k <= 10 implies occupied_names(self.cells(), row_idx as int, k)
                    == #[trigger] occupied_names(orig, row_idx as int, k) by {
                    lemma_occupied_names_same(self.cells(), orig, row_idx as int, k);
                }
            }
            let names = self.row_cube_names(row_idx);
            if names.len() > 0 {
                log.push(Command::Translate { names, x: 0, y: -1, mode: Move::Relative });
                moved_down = true;
            }
            self.copy_row_down(row_idx);
            assert(log@ =~= old(log)@ + shift_commands(orig, from_row as int, row_idx + 1));
            row_idx = row_idx + 1;
        }
        self.clear_row(ROW_COUNT - 1);
        log.push(Command::Refresh);
        assert(log@ =~= old(log)@ + collapse_commands(orig, from_row as int));
        assert forall|i: int| 0 <= i < 200 implies self.cells()[i] == collapsed(orig, from_row as int)[i] by {
            lemma_index_split(i);
            assert(at(self.cells(), i / 10, i % 10) == self.cells()[i]);
        }
        assert(self.cells() =~= collapsed(orig, from_row as int));
        moved_down
    }

    /// Clears the full rows, from the floor up: the cubes of a full row are
    /// deleted and every row above it comes down one row; when something came
    /// down, the same row is examined again. Returns the number of rows
    /// cleared.
    ///
    /// The rows that were not full keep their order, each lowered by the
    /// number of full rows beneath it, and the rows freed at the top end empty.
    pub fn py_process_completed_rows(&mut self, log: &mut CommandLog) -> (r: i32)
        requires
            old(self).wf(),
        ensures
            final(self).wf(),
            final(self).active() == old(self).active(),
            r == full_count(old(self).cells(), 0),
            forall|j: int| 0 <= j < 20 ==> #[trigger] row_lands(final(self).cells(), old(self).cells(), 0, j),
            forall|i: int| 20 - r <= i < 20 ==> #[trigger] empty_row(final(self).cells(), i),
            final(log)@ == old(log)@ + clear_rows(old(self).cells(), 0).2,
    {
        let ghost orig = self.cells();
        proof {
            lemma_full_count_bound(orig, 0);
        }
        let mut row_idx: usize = 0;
        let mut completed_rows: i32 = 0;
        while row_idx < ROW_COUNT
            invariant
                row_idx <= 20,
                self.wf(),
                self.active() == old(self).active(),
                0 <= completed_rows,
                completed_rows + full_count(self.cells(), row_idx as int) <= 20,
                clear_rows(orig, 0).0 == completed_rows + clear_rows(self.cells(), row_idx as int).0,
                clear_rows(orig, 0).1 == clear_rows(self.cells(), row_idx as int).1,
                old(log)@ + clear_rows(orig, 0).2 == log@ + clear_rows(self.cells(), row_idx as int).2,
            decreases 20 - row_idx, full_count(self.cells(), row_idx as int),
        {
            let ghost before = self.cells();
            let ghost log_before = log@;
            proof {
                lemma_full_count_bound(before, row_idx as int);
            }
            if self.is_row_complete(row_idx) {
                completed_rows = completed_rows + 1;
                let names = self.row_cube_names(row_idx);
                log.push(Command::Delete { names });
                let moved = self.move_down_rows(row_idx, log);
                proof {
                    lemma_collapse_count(before, row_idx as int);
                    lemma_full_count_bound(self.cells(), row_idx as int);
                    let cmds = seq![CommandView::Delete { names: row_names(before, row_idx as int) }]
                        + collapse_commands(before, row_idx as int);
                    assert(log@ =~= log_before + cmds);
                    let rest = if moved {
                        clear_rows(self.cells(), row_idx as int)
                    } else {
                        clear_rows(self.cells(), row_idx as int + 1)
                    };
                    assert(log_before + (cmds + rest.2) =~= log@ + rest.2);
                }
                if !moved {
                    row_idx = row_idx + 1;
                }
            } else {
                row_idx = row_idx + 1;
            }
        }
        proof {
            lemma_clear_rows_outcome(orig, 0);
        }
        completed_rows
    }

    /// Freezes the active piece: each of its cubes is recorded in the cell
    /// where the snapshot places it. The snapshot is meant to be taken after
    /// the scene was refreshed.
    pub fn py_update_cells(&mut self, scene: &Scene)
        requires
            old(self).wf(),
            scene.wf(),
            old(self).active() matches Some(t) ==> t.on_scene(*scene) && forall|i: int|
                0 <= i < 4 ==> inside(
                    (#[trigger] t.cube_positions_in(*scene)[i]).x as int,
                    t.cube_positions_in(*scene)[i].y as int,
                ),
        ensures
            final(self).wf(),
            final(self).active() == old(self).active(),
            old(self).active() is None ==> final(self).cells() == old(self).cells(),
            old(self).active() matches Some(t) ==> forall|r: int, c: int|
                0 <= r < 20 && 0 <= c < 10 ==> #[trigger] at(final(self).cells(), r, c) == stamped(
                    at(old(self).cells(), r, c),
                    t.cube_names(),
                    t.cube_positions_in(*scene),
                    4,
                    r,
                    c,
                ),
    {
        let (cubes, pts) = match &self.active_tetrimino {
            Some(t) => {
                let cubes = [t.cubes[0].duplicate(), t.cubes[1].duplicate(), t.cubes[2].duplicate(), t.cubes[3].duplicate()];
                let pts = t.get_cube_positions(scene);
                assert(names_of(cubes@) =~= t.cube_names());
                (cubes, pts)
            },
            None => {
                return;
            },
        };
        let ghost names = names_of(cubes@);
        let mut i: usize = 0;
        while i < 4
            invariant
                i <= 4,
                self.wf(),
                self.active() == old(self).active(),
                names == names_of(cubes@),
                forall|k: int| 0 <= k < 4 ==> inside((#[trigger] pts@[k]).x as int, pts@[k].y as int),
                forall|r: int, c: int|
                    0 <= r < 20 && 0 <= c < 10 ==> #[trigger] at(self.cells(), r, c) == stamped(
                        at(old(self).cells(), r, c),
                        names,
                        pts@,
                        i as int,
                        r,
                        c,
                    ),
            decreases 4 - i,
        {
            let p = pts[i];
            assert(inside(pts@[i as int].x as int, pts@[i as int].y as int));
            let ghost prev = self.cells();
            self.set_cell(p.y as usize * COLUMN_COUNT + p.x as usize, Some(cubes[i].duplicate()));
            proof {
                assert forall|r: int, c: int| 0 <= r < 20 && 0 <= c < 10 implies #[trigger] at(self.cells(), r, c) == stamped(
                    at(old(self).cells(), r, c),
                    names,
                    pts@,
                    i + 1,
                    r,
                    c,
                ) by {
                    assert(at(prev, r, c) == stamped(at(old(self).cells(), r, c), names, pts@, i as int, r, c));
                }
            }
            i = i + 1;
        }
    }

    /// Moves the active piece by (x, y); false when there is none.
    pub fn py_move(&self, x: i32, y: i32, scene: &Scene, log: &mut CommandLog) -> (r: bool)
        requires
            self.wf(),
            scene.wf(),
            self.active() matches Some(t) ==> t.on_scene(*scene),
        ensures
            self.active() is None ==> !r && final(log)@ == old(log)@,
            self.active() matches Some(t) ==> {
                &&& r == all_free(self.cells(), t.cube_positions_in(*scene), t.cube_names(), Point { x, y })
                &&& r ==> final(log)@ == old(log)@ + seq![
                    CommandView::Translate { names: seq![t.root@], x, y, mode: Move::Relative },
                    CommandView::Refresh,
                ]
                &&& !r ==> final(log)@ == old(log)@
            },
    {
        match &self.active_tetrimino {
            Some(t) => self.move_tetrimino(t, &Point::new(x, y), scene, log),
            None => false,
        }
    }

    /// Turns the active piece; false when there is none.
    pub fn py_rotate(&self, angle: Turn, scene: &Scene, log: &mut CommandLog) -> (r: bool)
        requires
            self.wf(),
            scene.wf(),
            self.active() matches Some(t) ==> t.on_scene(*scene),
        ensures
            self.active() is None ==> !r && final(log)@ == old(log)@,
            self.active() matches Some(t) ==> {
                &&& t.letter == TetriminoLetter::O ==> !r && final(log)@ == old(log)@
                &&& t.letter != TetriminoLetter::O ==> ({
                    let pts = turned_positions(t, *scene, angle);
                    let off = rotation_offset(self.cells(), pts, t.cube_names());
                    &&& r == off is Some
                    &&& off matches Some(o) ==> final(log)@ == old(log)@ + turn_commands(t, pts, o)
                    &&& off is None ==> final(log)@ == old(log)@
                })
            },
    {
        match &self.active_tetrimino {
            Some(t) => self.rotate(t, angle, scene, log),
            None => false,
        }
    }

    /// Whether the active piece, where it stands, overlaps a blocking cell or
    /// the outside of the playfield; false when there is none.
    pub fn py_inplace_collision(&self, scene: &Scene) -> (r: bool)
        requires
            self.wf(),
            scene.wf(),
            self.active() matches Some(t) ==> t.on_scene(*scene),
        ensures
            self.active() is None ==> !r,
            self.active() matches Some(t) ==> r == !all_free(
                self.cells(),
                t.cube_positions_in(*scene),
                t.cube_names(),
                Point { x: 0, y: 0 },
            ),
    {
        match &self.active_tetrimino {
            Some(t) => self.inplace_collision(t, scene),
            None => false,
        }
    }
}

} // verus!
