use vstd::prelude::*;
use crate::game::{Direction, State};

verus! {

/// A 4x4 grid of tiles; zero marks an empty cell.
pub type Board = [[i32; 4]; 4];

/// The mathematical view of a board: four rows of four integers.
pub open spec fn grid(b: Board) -> Seq<Seq<int>> {
    Seq::new(4, |i: int| Seq::new(4, |j: int| b[i][j] as int))
}

/// Four rows of four cells each.
pub open spec fn is_grid(g: Seq<Seq<int>>) -> bool {
    g.len() == 4 && forall|r: int| 0 <= r < 4 ==> #[trigger] g[r].len() == 4
}

/// The grid mirrored along its main diagonal.
pub open spec fn transposed(g: Seq<Seq<int>>) -> Seq<Seq<int>> {
    Seq::new(4, |i: int| Seq::new(4, |j: int| g[j][i]))
}

/// The grid turned a quarter turn clockwise: the left column becomes the top row.
pub open spec fn rotated(g: Seq<Seq<int>>) -> Seq<Seq<int>> {
    Seq::new(4, |i: int| Seq::new(4, |j: int| g[3 - j][i]))
}

/// The grid turned `n` quarter turns clockwise.
pub open spec fn rotated_n(g: Seq<Seq<int>>, n: nat) -> Seq<Seq<int>>
    decreases n,
{
    if n == 0 {
        g
    } else {
        rotated(rotated_n(g, (n - 1) as nat))
    }
}

/// Column `c` of the grid, read from top to bottom.
pub open spec fn column(g: Seq<Seq<int>>, c: int) -> Seq<int> {
    Seq::new(4, |r: int| g[r][c])
}

/// The sum of the cells of a row.
pub open spec fn row_sum(s: Seq<int>) -> int
    decreases s.len(),
{
    if s.len() == 0 {
        0
    } else {
        row_sum(s.drop_last()) + s.last()
    }
}

/// The sum of all cells of the grid.
pub open spec fn grid_sum(g: Seq<Seq<int>>) -> int {
    row_sum(g[0]) + row_sum(g[1]) + row_sum(g[2]) + row_sum(g[3])
}

/// Whether some cell of the grid holds `v`.
pub open spec fn grid_has(g: Seq<Seq<int>>, v: int) -> bool {
    exists|r: int, c: int| 0 <= r < 4 && 0 <= c < 4 && #[trigger] g[r][c] == v
}

/// What sliding one row to the left has produced so far: the packed tiles,
/// which of them came out of a merge during this slide, and the points gained.
pub struct RowMerge {
    pub tiles: Seq<int>,
    pub merged: Seq<bool>,
    pub gained: int,
}

/// Whether the tile `x`, arriving from the right, merges into the last packed tile.
pub open spec fn merges_into(m: RowMerge, x: int) -> bool {
    &&& x != 0
    &&& m.tiles.len() > 0
    &&& m.tiles.last() == x
    &&& !m.merged.last()
}

/// One tile arriving from the right: empty cells are skipped, an equal tile
/// that has not merged yet doubles, any other tile is packed behind.
pub open spec fn merge_step(m: RowMerge, x: int) -> RowMerge {
    if x == 0 {
        m
    } else if merges_into(m, x) {
        RowMerge {
            tiles: m.tiles.update(m.tiles.len() - 1, 2 * x),
            merged: m.merged.update(m.merged.len() - 1, true),
            gained: m.gained + 2 * x,
        }
    } else {
        RowMerge { tiles: m.tiles.push(x), merged: m.merged.push(false), gained: m.gained }
    }
}

/// The row cells `s`, read from left to right, slid together.
pub open spec fn merge_prefix(s: Seq<int>) -> RowMerge
    decreases s.len(),
{
    if s.len() == 0 {
        RowMerge { tiles: Seq::empty(), merged: Seq::empty(), gained: 0 }
    } else {
        merge_step(merge_prefix(s.drop_last()), s.last())
    }
}

pub open spec fn fits_i32(v: int) -> bool {
    i32::MIN <= v <= i32::MAX
}

/// Sliding the cells `s` with a running score that starts at `base` keeps
/// every doubled tile and every running score within `i32`.
pub open spec fn merge_fits(s: Seq<int>, base: int) -> bool
    decreases s.len(),
{
    if s.len() == 0 {
        true
    } else {
        let m = merge_prefix(s.drop_last());
        &&& merge_fits(s.drop_last(), base)
        &&& merges_into(m, s.last()) ==> fits_i32(2 * s.last()) && fits_i32(
            base + m.gained + 2 * s.last(),
        )
    }
}

/// The packed tiles of a row, padded with empty cells to the width of the board.
pub open spec fn slid_row(s: Seq<int>) -> Seq<int> {
    let t = merge_prefix(s).tiles;
    Seq::new(4, |c: int| if c < t.len() { t[c] } else { 0 })
}

/// Every row of the grid slid to the left.
pub open spec fn slide_left(g: Seq<Seq<int>>) -> Seq<Seq<int>> {
    Seq::new(4, |r: int| slid_row(g[r]))
}

/// Points gained by sliding the first `n` rows to the left.
pub open spec fn gain_before(g: Seq<Seq<int>>, n: int) -> int
    decreases n,
{
    if n <= 0 {
        0
    } else {
        gain_before(g, n - 1) + merge_prefix(g[n - 1]).gained
    }
}

/// Points gained by sliding the whole grid to the left.
pub open spec fn slide_gain(g: Seq<Seq<int>>) -> int {
    gain_before(g, 4)
}

/// Sliding the grid to the left, row after row, never leaves `i32`.
pub open spec fn slide_fits(g: Seq<Seq<int>>) -> bool {
    forall|r: int| 0 <= r < 4 ==> #[trigger] merge_fits(g[r], gain_before(g, r))
}

/// The number of occupied cells.
pub open spec fn occupied(s: Seq<int>) -> int
    decreases s.len(),
{
    if s.len() == 0 {
        0
    } else {
        occupied(s.drop_last()) + if s.last() != 0 {
            1int
        } else {
            0
        }
    }
}

/// Shape facts of a partial slide of `n` cells.
pub open spec fn merge_wf(m: RowMerge, n: int) -> bool {
    &&& m.tiles.len() == m.merged.len()
    &&& m.tiles.len() <= n
    &&& forall|c: int| 0 <= c < m.tiles.len() ==> m.tiles[c] != 0
    &&& m.tiles.len() > 0 && m.merged.last() ==> m.tiles.len() < n
}

pub proof fn lemma_merge_wf(s: Seq<int>)
    ensures
        merge_wf(merge_prefix(s), s.len() as int),
    decreases s.len(),
{
    if s.len() > 0 {
        lemma_merge_wf(s.drop_last());
    }
}

pub proof fn lemma_merge_fits_take(s: Seq<int>, base: int)
    requires
        merge_fits(s, base),
    ensures
        forall|n: int| 0 <= n <= s.len() ==> merge_fits(#[trigger] s.take(n), base),
    decreases s.len(),
{
    assert forall|n: int| 0 <= n <= s.len() implies merge_fits(#[trigger] s.take(n), base) by {
        if n == s.len() {
            assert(s.take(n) =~= s);
        } else {
            lemma_merge_fits_take(s.drop_last(), base);
            assert(s.take(n) =~= s.drop_last().take(n));
        }
    }
}


/// Quarter turns clockwise that bring the side a move goes toward to the left.
pub open spec fn turns_before(d: Direction) -> nat {
    match d {
        Direction::Up => 3,
        Direction::Left => 0,
        Direction::Down => 1,
        Direction::Right => 2,
    }
}

/// Quarter turns clockwise that bring the grid back after a slide to the left.
pub open spec fn turns_after(d: Direction) -> nat {
    match d {
        Direction::Up => 1,
        Direction::Left => 0,
        Direction::Down => 3,
        Direction::Right => 2,
    }
}

/// The grid turned so that direction `d` points to the left.
pub open spec fn facing(g: Seq<Seq<int>>, d: Direction) -> Seq<Seq<int>> {
    rotated_n(g, turns_before(d))
}

/// The grid after all tiles slide toward `d`.
pub open spec fn moved_grid(g: Seq<Seq<int>>, d: Direction) -> Seq<Seq<int>> {
    rotated_n(slide_left(facing(g, d)), turns_after(d))
}

/// Whether sliding toward `d` changes any cell.
pub open spec fn move_changes(g: Seq<Seq<int>>, d: Direction) -> bool {
    slide_left(facing(g, d)) != facing(g, d)
}

/// The points that sliding toward `d` gains.
pub open spec fn move_gain(g: Seq<Seq<int>>, d: Direction) -> int {
    slide_gain(facing(g, d))
}

/// Sliding toward `d` stays within `i32`.
pub open spec fn move_fits(g: Seq<Seq<int>>, d: Direction) -> bool {
    slide_fits(facing(g, d))
}

/// Whether any of the four moves changes the grid.
pub open spec fn can_move(g: Seq<Seq<int>>) -> bool {
    ||| move_changes(g, Direction::Up)
    ||| move_changes(g, Direction::Left)
    ||| move_changes(g, Direction::Down)
    ||| move_changes(g, Direction::Right)
}

/// Where a game on grid `g` stands: lost when no move changes it, otherwise
/// won when some tile is 2048, otherwise going on.
pub open spec fn standing(g: Seq<Seq<int>>) -> State {
    if !can_move(g) {
        State::Loss
    } else if grid_has(g, 2048) {
        State::Win
    } else {
        State::MidGame
    }
}

/// Trying the moves up, left, down and right in turn, until one changes the
/// grid, stays within `i32`.
pub open spec fn probe_fits(g: Seq<Seq<int>>) -> bool {
    &&& move_fits(g, Direction::Up)
    &&& !move_changes(g, Direction::Up) ==> move_fits(g, Direction::Left)
    &&& !move_changes(g, Direction::Up) && !move_changes(g, Direction::Left) ==> move_fits(
        g,
        Direction::Down,
    )
    &&& !move_changes(g, Direction::Up) && !move_changes(g, Direction::Left) && !move_changes(
        g,
        Direction::Down,
    ) ==> move_fits(g, Direction::Right)
}

/// The empty cells among the first `n` cells, read row by row, as (row, column).
pub open spec fn empties_upto(g: Seq<Seq<int>>, n: int) -> Seq<(int, int)>
    decreases n,
{
    if n <= 0 {
        Seq::empty()
    } else {
        let prev = empties_upto(g, n - 1);
        let p = ((n - 1) / 4, (n - 1) % 4);
        if g[p.0][p.1] == 0 {
            prev.push(p)
        } else {
            prev
        }
    }
}

/// The empty cells of the grid, read row by row.
pub open spec fn empty_spots(g: Seq<Seq<int>>) -> Seq<(int, int)> {
    empties_upto(g, 16)
}

/// The grid with `v` put at cell `p`.
pub open spec fn put(g: Seq<Seq<int>>, p: (int, int), v: int) -> Seq<Seq<int>> {
    g.update(p.0, g[p.0].update(p.1, v))
}

/// The value of a new tile for a draw below 11: 4 for the draw 10, 2 otherwise.
pub open spec fn spawn_value(roll: int) -> int {
    if roll == 10 {
        4
    } else {
        2
    }
}

/// A new tile of value `v` at the empty cell numbered `pick`. When it fills
/// the last empty cell and leaves no move, the other value (2 for 4, 4 for 2)
/// takes its place. A grid without empty cells stays as it is.
pub open spec fn spawn_result(g: Seq<Seq<int>>, v: int, pick: int) -> Seq<Seq<int>> {
    let e = empty_spots(g);
    if e.len() == 0 {
        g
    } else {
        let first = put(g, e[pick], v);
        if e.len() == 1 && !can_move(first) {
            put(g, e[pick], 6 - v)
        } else {
            first
        }
    }
}

/// The grid after a turn: the move toward `d`, then, when it changed
/// anything, a new tile of value `v` at the empty cell numbered `pick`.
pub open spec fn after_tick(g: Seq<Seq<int>>, d: Direction, v: int, pick: int) -> Seq<Seq<int>> {
    if move_changes(g, d) {
        spawn_result(moved_grid(g, d), v, pick)
    } else {
        g
    }
}

/// A turn toward `d` from grid `g`, score `points` and `moves` moves stays
/// within `i32` whatever tile appears.
pub open spec fn tick_fits(g: Seq<Seq<int>>, d: Direction, points: int, moves: int) -> bool {
    let h = moved_grid(g, d);
    &&& move_fits(g, d)
    &&& move_changes(g, d) ==> {
        &&& fits_i32(points + move_gain(g, d))
        &&& moves < i32::MAX
        &&& spawn_fits(h, 2)
        &&& spawn_fits(h, 4)
        &&& forall|v: int, pick: int|
            (v == 2 || v == 4) && (empty_spots(h).len() > 0 ==> 0 <= pick < empty_spots(h).len())
                ==> probe_fits(#[trigger] spawn_result(h, v, pick))
    }
    &&& !move_changes(g, d) ==> probe_fits(g)
}

/// Looking for a move after a new tile of value `v` fills the last empty cell stays within `i32`.
pub open spec fn spawn_fits(g: Seq<Seq<int>>, v: int) -> bool {
    empty_spots(g).len() == 1 ==> probe_fits(put(g, empty_spots(g)[0], v))
}

} // verus!

verus! {

/// Every cell listed as empty lies on the grid and is empty, and the cells
/// are listed in reading order, each once.
pub proof fn lemma_empty_spots_are_empty(g: Seq<Seq<int>>, n: int)
    requires
        n <= 16,
    ensures
        forall|k: int|
            0 <= k < empties_upto(g, n).len() ==> {
                let p = #[trigger] empties_upto(g, n)[k];
                0 <= p.0 < 4 && 0 <= p.1 < 4 && g[p.0][p.1] == 0 && 4 * p.0 + p.1 < n
            },
        forall|k1: int, k2: int|
            0 <= k1 < k2 < empties_upto(g, n).len() ==> 4 * (#[trigger] empties_upto(g, n)[k1]).0
                + empties_upto(g, n)[k1].1 < 4 * (#[trigger] empties_upto(g, n)[k2]).0 + empties_upto(
                g,
                n,
            )[k2].1,
    decreases n,
{
    if n > 0 {
        lemma_empty_spots_are_empty(g, n - 1);
        assert(0 <= (n - 1) / 4 < 4 && 0 <= (n - 1) % 4 < 4 && 4 * ((n - 1) / 4) + (n - 1) % 4 == n
            - 1) by (nonlinear_arith)
            requires
                1 <= n <= 16,
        ;
        let prev = empties_upto(g, n - 1);
        let cur = empties_upto(g, n);
        assert forall|k: int| 0 <= k < cur.len() implies {
            let p = #[trigger] cur[k];
            0 <= p.0 < 4 && 0 <= p.1 < 4 && g[p.0][p.1] == 0 && 4 * p.0 + p.1 < n
        } by {
            if k < prev.len() {
                assert(cur[k] == prev[k]);
            }
        }
        assert forall|k1: int, k2: int| 0 <= k1 < k2 < cur.len() implies 4 * (#[trigger] cur[k1]).0
            + cur[k1].1 < 4 * (#[trigger] cur[k2]).0 + cur[k2].1 by {
            assert(cur[k1] == prev[k1]);
            if k2 < prev.len() {
                assert(cur[k2] == prev[k2]);
            }
        }
    }
}

} // verus!
