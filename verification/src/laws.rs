use vstd::prelude::*;
use crate::board::{
    is_grid, transposed, rotated, rotated_n, slide_left, slid_row, column, moved_grid, facing,
    move_changes, turns_before, turns_after, row_sum, grid_sum, merge_prefix, merges_into,
    lemma_merge_wf, move_gain, gain_before, grid, empty_spots, put, spawn_result, can_move,
    lemma_empty_spots_are_empty, occupied,
};
use crate::game::{Direction, State};
use crate::board::{standing, spawn_value, empties_upto};

verus! {

/// Mirroring a grid along its diagonal twice gives the grid back.
pub proof fn law_transpose_twice(g: Seq<Seq<int>>)
    requires
        is_grid(g),
    ensures
        transposed(transposed(g)) == g,
{
    assert(transposed(transposed(g)) =~~= g);
}

/// Four quarter turns clockwise give the grid back.
pub proof fn law_four_quarter_turns(g: Seq<Seq<int>>)
    requires
        is_grid(g),
    ensures
        rotated(rotated(rotated(rotated(g)))) == g,
        rotated_n(g, 4) == g,
{
    reveal_with_fuel(rotated_n, 5);
    assert(rotated_n(g, 4) =~~= g);
}

/// Each move slides every line toward its side: a move to the left slides
/// each row to the left, a move to the right each reversed row, a move up
/// each column toward the top, and a move down each reversed column.
pub proof fn law_moves_slide_lines(g: Seq<Seq<int>>)
    requires
        is_grid(g),
    ensures
        moved_grid(g, Direction::Left) == Seq::new(4, |r: int| slid_row(g[r])),
        moved_grid(g, Direction::Right) == Seq::new(4, |r: int| slid_row(g[r].reverse()).reverse()),
        moved_grid(g, Direction::Up) == Seq::new(
            4,
            |r: int| Seq::new(4, |c: int| slid_row(column(g, c))[r]),
        ),
        moved_grid(g, Direction::Down) == Seq::new(
            4,
            |r: int| Seq::new(4, |c: int| slid_row(column(g, c).reverse())[3 - r]),
        ),
{
    reveal_with_fuel(rotated_n, 4);
    // left
    assert(moved_grid(g, Direction::Left) =~~= Seq::new(4, |r: int| slid_row(g[r])));
    // right
    let f2 = rotated_n(g, 2);
    assert forall|i: int| 0 <= i < 4 implies #[trigger] f2[i] =~= g[3 - i].reverse() by {}
    let s2 = slide_left(f2);
    assert forall|i: int| 0 <= i < 4 implies #[trigger] s2[i] == slid_row(g[3 - i].reverse()) by {}
    assert(moved_grid(g, Direction::Right) =~~= Seq::new(
        4,
        |r: int| slid_row(g[r].reverse()).reverse(),
    ));
    // up
    let f3 = rotated_n(g, 3);
    assert forall|i: int| 0 <= i < 4 implies #[trigger] f3[i] =~= column(g, 3 - i) by {}
    let s3 = slide_left(f3);
    assert forall|i: int| 0 <= i < 4 implies #[trigger] s3[i] == slid_row(column(g, 3 - i)) by {}
    assert(moved_grid(g, Direction::Up) =~~= Seq::new(
        4,
        |r: int| Seq::new(4, |c: int| slid_row(column(g, c))[r]),
    ));
    // down
    let f1 = rotated_n(g, 1);
    assert forall|i: int| 0 <= i < 4 implies #[trigger] f1[i] =~= column(g, i).reverse() by {}
    let s1 = slide_left(f1);
    assert forall|i: int| 0 <= i < 4 implies #[trigger] s1[i] == slid_row(column(g, i).reverse()) by {}
    assert(moved_grid(g, Direction::Down) =~~= Seq::new(
        4,
        |r: int| Seq::new(4, |c: int| slid_row(column(g, c).reverse())[3 - r]),
    ));
}

/// A move reports a change exactly when the grid after it differs from the grid before it.
pub proof fn law_move_changes_iff_grid_differs(g: Seq<Seq<int>>, d: Direction)
    requires
        is_grid(g),
    ensures
        move_changes(g, d) <==> moved_grid(g, d) != g,
{
    reveal_with_fuel(rotated_n, 5);
    let f = facing(g, d);
    let s = slide_left(f);
    if s == f {
        assert(moved_grid(g, d) =~~= g);
    } else {
        if moved_grid(g, d) == g {
            // turning back by the same number of quarter turns undoes the move
            assert(rotated_n(moved_grid(g, d), turns_before(d)) == rotated_n(g, turns_before(d)));
            assert forall|r: int| 0 <= r < 4 implies #[trigger] s[r].len() == 4 by {}
            assert(rotated_n(moved_grid(g, d), turns_before(d)) =~~= s);
            assert(false);
        }
    }
}

proof fn lemma_row_sum_short(t: Seq<int>)
    requires
        t.len() <= 4,
    ensures
        row_sum(t) == (if t.len() > 0 { t[0] } else { 0 }) + (if t.len() > 1 { t[1] } else { 0 }) + (
        if t.len() > 2 { t[2] } else { 0 }) + (if t.len() > 3 { t[3] } else { 0 }),
    decreases t.len(),
{
    if t.len() > 0 {
        lemma_row_sum_short(t.drop_last());
    }
}

pub(crate) proof fn lemma_merge_keeps_sum(s: Seq<int>)
    ensures
        row_sum(merge_prefix(s).tiles) == row_sum(s),
    decreases s.len(),
{
    if s.len() > 0 {
        lemma_merge_keeps_sum(s.drop_last());
        let m = merge_prefix(s.drop_last());
        let x = s.last();
        if x != 0 {
            if merges_into(m, x) {
                let t = m.tiles.update(m.tiles.len() - 1, 2 * x);
                assert(t.drop_last() =~= m.tiles.drop_last());
            } else {
                assert(m.tiles.push(x).drop_last() =~= m.tiles);
            }
        }
    }
}

proof fn lemma_slid_row_sum(s: Seq<int>)
    requires
        s.len() == 4,
    ensures
        row_sum(slid_row(s)) == row_sum(s),
{
    let t = merge_prefix(s).tiles;
    lemma_merge_wf(s);
    lemma_merge_keeps_sum(s);
    lemma_row_sum_short(t);
    lemma_row_sum_short(slid_row(s));
}

proof fn lemma_turn_keeps_sum(g: Seq<Seq<int>>)
    requires
        is_grid(g),
    ensures
        grid_sum(rotated(g)) == grid_sum(g),
{
    let h = rotated(g);
    lemma_row_sum_short(g[0]);
    lemma_row_sum_short(g[1]);
    lemma_row_sum_short(g[2]);
    lemma_row_sum_short(g[3]);
    lemma_row_sum_short(h[0]);
    lemma_row_sum_short(h[1]);
    lemma_row_sum_short(h[2]);
    lemma_row_sum_short(h[3]);
}

pub(crate) proof fn lemma_turns_keep_sum(g: Seq<Seq<int>>, n: nat)
    requires
        is_grid(g),
    ensures
        is_grid(rotated_n(g, n)),
        grid_sum(rotated_n(g, n)) == grid_sum(g),
    decreases n,
{
    if n > 0 {
        lemma_turns_keep_sum(g, (n - 1) as nat);
        lemma_turn_keeps_sum(rotated_n(g, (n - 1) as nat));
    }
}

/// Every move keeps the sum of all tiles: merging two equal tiles makes one
/// tile of their sum.
pub proof fn law_move_keeps_tile_sum(g: Seq<Seq<int>>, d: Direction)
    requires
        is_grid(g),
    ensures
        grid_sum(moved_grid(g, d)) == grid_sum(g),
{
    let f = facing(g, d);
    lemma_turns_keep_sum(g, turns_before(d));
    let s = slide_left(f);
    lemma_slid_row_sum(f[0]);
    lemma_slid_row_sum(f[1]);
    lemma_slid_row_sum(f[2]);
    lemma_slid_row_sum(f[3]);
    assert(is_grid(s));
    lemma_turns_keep_sum(s, turns_after(d));
}

proof fn lemma_merges_use_up_tiles(s: Seq<int>)
    ensures
        merge_prefix(s).tiles.len() <= occupied(s),
        merge_prefix(s).tiles.len() == occupied(s) ==> merge_prefix(s).gained == 0,
    decreases s.len(),
{
    if s.len() > 0 {
        lemma_merges_use_up_tiles(s.drop_last());
    }
}

proof fn lemma_occupied_short(t: Seq<int>)
    requires
        t.len() <= 4,
    ensures
        occupied(t) == (if t.len() > 0 && t[0] != 0 { 1int } else { 0 }) + (if t.len() > 1 && t[1]
            != 0 { 1int } else { 0 }) + (if t.len() > 2 && t[2] != 0 { 1int } else { 0 }) + (if t.len()
            > 3 && t[3] != 0 { 1int } else { 0 }),
    decreases t.len(),
{
    if t.len() > 0 {
        lemma_occupied_short(t.drop_last());
    }
}

proof fn lemma_still_row_gains_nothing(s: Seq<int>)
    requires
        s.len() == 4,
        slid_row(s) == s,
    ensures
        merge_prefix(s).gained == 0,
{
    let t = merge_prefix(s).tiles;
    lemma_merge_wf(s);
    lemma_merges_use_up_tiles(s);
    lemma_occupied_short(t);
    lemma_occupied_short(s);
    lemma_occupied_short(slid_row(s));
}

/// A move that changes nothing gains no points.
pub proof fn law_still_move_gains_nothing(g: Seq<Seq<int>>, d: Direction)
    requires
        is_grid(g),
        !move_changes(g, d),
    ensures
        move_gain(g, d) == 0,
{
    let f = facing(g, d);
    lemma_turns_keep_sum(g, turns_before(d));
    assert(slide_left(f) == f);
    assert forall|r: int| 0 <= r < 4 implies merge_prefix(#[trigger] f[r]).gained == 0 by {
        assert(slide_left(f)[r] == f[r]);
        lemma_still_row_gains_nothing(f[r]);
    }
    assert(merge_prefix(f[0]).gained == 0);
    assert(merge_prefix(f[1]).gained == 0);
    assert(merge_prefix(f[2]).gained == 0);
    assert(merge_prefix(f[3]).gained == 0);
    reveal_with_fuel(gain_before, 5);
}

/// After a slide to the left every row is packed: no tile has an empty cell to its left.
pub proof fn law_slide_packs_rows(g: Seq<Seq<int>>, r: int, c: int, c2: int)
    requires
        is_grid(g),
        0 <= r < 4,
        0 <= c < c2 < 4,
        slide_left(g)[r][c] == 0,
    ensures
        slide_left(g)[r][c2] == 0,
{
    lemma_merge_wf(g[r]);
}

/// A new tile lands on exactly one cell, which was empty, and holds 2 or 4
/// there; every other cell stays as it was.
pub proof fn law_spawn_fills_one_empty_cell(g: Seq<Seq<int>>, v: int, pick: int)
    requires
        is_grid(g),
        v == 2 || v == 4,
        0 <= pick < empty_spots(g).len(),
    ensures
        ({
            let p = empty_spots(g)[pick];
            let h = spawn_result(g, v, pick);
            &&& 0 <= p.0 < 4 && 0 <= p.1 < 4
            &&& g[p.0][p.1] == 0
            &&& h[p.0][p.1] == 2 || h[p.0][p.1] == 4
            &&& forall|r: int, c: int|
                0 <= r < 4 && 0 <= c < 4 && (r, c) != p ==> h[r][c] == g[r][c]
        }),
{
    lemma_empty_spots_are_empty(g, 16);
}

proof fn lemma_still_line_packed(s: Seq<int>, a: int, b: int)
    requires
        s.len() == 4,
        slid_row(s) == s,
        0 <= a < b < 4,
        s[a] == 0,
    ensures
        s[b] == 0,
{
    lemma_merge_wf(s);
    assert(slid_row(s)[a] == 0);
}

/// A grid that has both an empty cell and a tile has a move that changes it.
pub proof fn law_mixed_grid_has_a_move(g: Seq<Seq<int>>, zr: int, zc: int, nr: int, nc: int)
    requires
        is_grid(g),
        0 <= zr < 4 && 0 <= zc < 4 && 0 <= nr < 4 && 0 <= nc < 4,
        g[zr][zc] == 0,
        g[nr][nc] != 0,
    ensures
        can_move(g),
{
    if !can_move(g) {
        law_moves_slide_lines(g);
        law_move_changes_iff_grid_differs(g, Direction::Left);
        law_move_changes_iff_grid_differs(g, Direction::Right);
        law_move_changes_iff_grid_differs(g, Direction::Up);
        law_move_changes_iff_grid_differs(g, Direction::Down);
        // along row zr, from column zc to column nc
        let row = g[zr];
        if zc < nc {
            assert(moved_grid(g, Direction::Left)[zr] == row);
            lemma_still_line_packed(row, zc, nc);
        } else if zc > nc {
            let rev = row.reverse();
            assert(moved_grid(g, Direction::Right)[zr] == row);
            assert(slid_row(rev).reverse().reverse() =~= slid_row(rev));
            assert(row.reverse() =~= rev);
            lemma_still_line_packed(rev, 3 - zc, 3 - nc);
        }
        assert(g[zr][nc] == 0);
        // along column nc, from row zr to row nr
        let col = column(g, nc);
        if zr < nr {
            assert forall|r: int| 0 <= r < 4 implies slid_row(col)[r] == col[r] by {
                assert(moved_grid(g, Direction::Up)[r][nc] == g[r][nc]);
            }
            assert(slid_row(col) =~= col);
            lemma_still_line_packed(col, zr, nr);
        } else if zr > nr {
            let rev = col.reverse();
            assert forall|k: int| 0 <= k < 4 implies slid_row(rev)[k] == rev[k] by {
                assert(moved_grid(g, Direction::Down)[3 - k][nc] == g[3 - k][nc]);
            }
            assert(slid_row(rev) =~= rev);
            lemma_still_line_packed(rev, 3 - zr, 3 - nr);
        }
        assert(g[nr][nc] == 0);
    }
}

/// A new tile leaves a move: always when at least two cells were empty, and
/// when it fills the last empty cell, whenever either value, 2 or 4, would.
pub proof fn law_spawn_leaves_a_move(g: Seq<Seq<int>>, v: int, pick: int)
    requires
        is_grid(g),
        v == 2 || v == 4,
        0 <= pick < empty_spots(g).len(),
        empty_spots(g).len() >= 2 || can_move(put(g, empty_spots(g)[0], 2)) || can_move(
            put(g, empty_spots(g)[0], 4),
        ),
    ensures
        can_move(spawn_result(g, v, pick)),
{
    let e = empty_spots(g);
    if e.len() >= 2 {
        lemma_empty_spots_are_empty(g, 16);
        let other = if pick == 0 { 1int } else { 0 };
        let p = e[pick];
        let q = e[other];
        assert(p != q);
        let h = put(g, p, v);
        assert(is_grid(h));
        law_mixed_grid_has_a_move(h, q.0, q.1, p.0, p.1);
    }
}

/// The sum of the tiles that merges created: the cells flagged as merged.
pub open spec fn merged_total(tiles: Seq<int>, merged: Seq<bool>) -> int
    decreases tiles.len(),
{
    if tiles.len() == 0 {
        0
    } else {
        merged_total(tiles.drop_last(), merged.drop_last()) + if merged.last() {
            tiles.last()
        } else {
            0
        }
    }
}

/// The points a slide of a row gains are the sum of the tiles its merges
/// create: each merge of two tiles `x` scores `2x`, the new tile.
pub proof fn law_gain_is_sum_of_merged_tiles(s: Seq<int>)
    ensures
        merge_prefix(s).gained == merged_total(merge_prefix(s).tiles, merge_prefix(s).merged),
    decreases s.len(),
{
    lemma_merge_wf(s);
    if s.len() > 0 {
        law_gain_is_sum_of_merged_tiles(s.drop_last());
        lemma_merge_wf(s.drop_last());
        let m = merge_prefix(s.drop_last());
        let x = s.last();
        if x != 0 {
            if merges_into(m, x) {
                let t = m.tiles.update(m.tiles.len() - 1, 2 * x);
                let f = m.merged.update(m.merged.len() - 1, true);
                assert(t.drop_last() =~= m.tiles.drop_last());
                assert(f.drop_last() =~= m.merged.drop_last());
            } else {
                assert(m.tiles.push(x).drop_last() =~= m.tiles);
                assert(m.merged.push(false).drop_last() =~= m.merged);
            }
        }
    }
}

/// Two equal tiles `x` side by side at the left of an otherwise empty row
/// merge into one tile `2x` at the left edge, and the slide gains `2x`.
pub proof fn law_pair_merges_to_double(x: int)
    requires
        x != 0,
    ensures
        slid_row(seq![x, x, 0, 0]) == seq![2 * x, 0, 0, 0],
        merge_prefix(seq![x, x, 0, 0]).gained == 2 * x,
{
    let s = seq![x, x, 0, 0];
    assert(s.drop_last() =~= seq![x, x, 0]);
    assert(s.drop_last().drop_last() =~= seq![x, x]);
    assert(s.drop_last().drop_last().drop_last() =~= seq![x]);
    assert(s.drop_last().drop_last().drop_last().drop_last() =~= Seq::<int>::empty());
    reveal_with_fuel(merge_prefix, 5);
    assert(merge_prefix(seq![x]).tiles =~= seq![x]);
    assert(merge_prefix(seq![x, x]).tiles =~= seq![2 * x]);
    assert(slid_row(s) =~= seq![2 * x, 0, 0, 0]);
}

/// The points a move gains are the sum, over its lines, of the tiles its merges create.
pub proof fn law_move_gain_is_sum_of_merged_tiles(g: Seq<Seq<int>>, d: Direction)
    ensures
        ({
            let f = facing(g, d);
            move_gain(g, d) == merged_total(merge_prefix(f[0]).tiles, merge_prefix(f[0]).merged)
                + merged_total(merge_prefix(f[1]).tiles, merge_prefix(f[1]).merged) + merged_total(
                merge_prefix(f[2]).tiles,
                merge_prefix(f[2]).merged,
            ) + merged_total(merge_prefix(f[3]).tiles, merge_prefix(f[3]).merged)
        }),
{
    let f = facing(g, d);
    law_gain_is_sum_of_merged_tiles(f[0]);
    law_gain_is_sum_of_merged_tiles(f[1]);
    law_gain_is_sum_of_merged_tiles(f[2]);
    law_gain_is_sum_of_merged_tiles(f[3]);
    reveal_with_fuel(gain_before, 5);
}

/// Where a game stands, cell by cell: lost when no move changes the board;
/// otherwise won when any of the sixteen cells holds 2048, and going on when none does.
pub proof fn law_standing_by_cells(g: Seq<Seq<int>>)
    ensures
        !can_move(g) ==> standing(g) == State::Loss,
        forall|r: int, c: int|
            0 <= r < 4 && 0 <= c < 4 && can_move(g) && #[trigger] g[r][c] == 2048 ==> standing(g)
                == State::Win,
        can_move(g) && (forall|r: int, c: int| 0 <= r < 4 && 0 <= c < 4 ==> #[trigger] g[r][c]
            != 2048) ==> standing(g) == State::MidGame,
{
}

/// A new tile is a 2 for each draw from 0 to 9 and a 4 for the draw 10: on a
/// board with at least two empty cells, the picked cell holds exactly that.
pub proof fn law_new_tile_value(g: Seq<Seq<int>>, roll: int, pick: int)
    requires
        is_grid(g),
        0 <= roll <= 10,
        0 <= pick < empty_spots(g).len(),
        empty_spots(g).len() >= 2,
    ensures
        0 <= roll <= 9 ==> spawn_result(g, spawn_value(roll), pick)[empty_spots(g)[pick].0][empty_spots(
            g,
        )[pick].1] == 2,
        roll == 10 ==> spawn_result(g, spawn_value(roll), pick)[empty_spots(g)[pick].0][empty_spots(
            g,
        )[pick].1] == 4,
        forall|k: int| 0 <= k <= 9 ==> #[trigger] spawn_value(k) == 2,
        spawn_value(10) == 4,
{
    lemma_empty_spots_are_empty(g, 16);
}

/// The tiles of a row that are not empty, in order.
pub open spec fn occupied_cells(s: Seq<int>) -> Seq<int>
    decreases s.len(),
{
    if s.len() == 0 {
        Seq::empty()
    } else if s.last() != 0 {
        occupied_cells(s.drop_last()).push(s.last())
    } else {
        occupied_cells(s.drop_last())
    }
}

/// The packed tiles with every merged tile split back into its two halves.
pub open spec fn unmerged(tiles: Seq<int>, merged: Seq<bool>) -> Seq<int>
    decreases tiles.len(),
{
    if tiles.len() == 0 {
        Seq::empty()
    } else if merged.last() {
        unmerged(tiles.drop_last(), merged.drop_last()).push(tiles.last() / 2).push(tiles.last() / 2)
    } else {
        unmerged(tiles.drop_last(), merged.drop_last()).push(tiles.last())
    }
}

/// The value that a packed tile shows to the tile on its left when merging is
/// decided: the tile itself, or the first of its halves when it came from a merge.
pub open spec fn first_piece(tiles: Seq<int>, merged: Seq<bool>, c: int) -> int {
    if merged[c] {
        tiles[c] / 2
    } else {
        tiles[c]
    }
}

/// What sliding a row does, without the slide's own steps: the packed tiles
/// are the row's tiles in order, each pair of equal neighbours that merged
/// standing as one tile of twice the value; and merges go from the left, so
/// a tile that did not merge differs from what follows it.
pub proof fn law_slide_merges_from_the_left(s: Seq<int>)
    ensures
        ({
            let m = merge_prefix(s);
            &&& unmerged(m.tiles, m.merged) == occupied_cells(s)
            &&& forall|c: int|
                0 <= c < m.tiles.len() && #[trigger] m.merged[c] ==> m.tiles[c] % 2 == 0 && m.tiles[c] != 0
            &&& forall|c: int|
                0 <= c && c + 1 < m.tiles.len() && !#[trigger] m.merged[c] ==> m.tiles[c]
                    != first_piece(m.tiles, m.merged, c + 1)
        }),
    decreases s.len(),
{
    lemma_merge_wf(s);
    if s.len() > 0 {
        law_slide_merges_from_the_left(s.drop_last());
        lemma_merge_wf(s.drop_last());
        let m = merge_prefix(s.drop_last());
        let x = s.last();
        let n = merge_prefix(s);
        if x != 0 {
            if merges_into(m, x) {
                assert(n.tiles.drop_last() =~= m.tiles.drop_last());
                assert(n.merged.drop_last() =~= m.merged.drop_last());
                assert((2 * x) / 2 == x);
                assert forall|c: int| 0 <= c < n.tiles.len() && #[trigger] n.merged[c] implies n.tiles[c] % 2
                    == 0 && n.tiles[c] != 0 by {
                    if c < n.tiles.len() - 1 {
                        assert(n.tiles[c] == m.tiles[c] && n.merged[c] == m.merged[c]);
                    } else {
                        assert((2 * x) % 2 == 0);
                    }
                }
                assert forall|c: int| 0 <= c && c + 1 < n.tiles.len() && !#[trigger] n.merged[c] implies n.tiles[c]
                    != first_piece(n.tiles, n.merged, c + 1) by {
                    assert(n.tiles[c] == m.tiles[c] && n.merged[c] == m.merged[c]);
                    if c + 1 < n.tiles.len() - 1 {
                        assert(n.tiles[c + 1] == m.tiles[c + 1] && n.merged[c + 1] == m.merged[c + 1]);
                    } else {
                        assert(first_piece(n.tiles, n.merged, c + 1) == x);
                        assert(first_piece(m.tiles, m.merged, c + 1) == x);
                    }
                }
            } else {
                assert(n.tiles.drop_last() =~= m.tiles);
                assert(n.merged.drop_last() =~= m.merged);
                assert forall|c: int| 0 <= c < n.tiles.len() && #[trigger] n.merged[c] implies n.tiles[c] % 2
                    == 0 && n.tiles[c] != 0 by {
                    assert(c < m.tiles.len());
                    assert(n.tiles[c] == m.tiles[c] && n.merged[c] == m.merged[c]);
                }
                assert forall|c: int| 0 <= c && c + 1 < n.tiles.len() && !#[trigger] n.merged[c] implies n.tiles[c]
                    != first_piece(n.tiles, n.merged, c + 1) by {
                    assert(n.tiles[c] == m.tiles[c] && n.merged[c] == m.merged[c]);
                    if c + 1 < m.tiles.len() {
                        assert(n.tiles[c + 1] == m.tiles[c + 1] && n.merged[c + 1] == m.merged[c + 1]);
                    }
                }
            }
        }
    }
}

/// A grid can move exactly when some direction changes it.
pub proof fn law_can_move_iff_some_direction(g: Seq<Seq<int>>)
    ensures
        can_move(g) <==> exists|d: Direction| #[trigger] move_changes(g, d),
{
    if can_move(g) {
        if move_changes(g, Direction::Up) {
            assert(move_changes(g, Direction::Up));
        } else if move_changes(g, Direction::Left) {
            assert(move_changes(g, Direction::Left));
        } else if move_changes(g, Direction::Down) {
            assert(move_changes(g, Direction::Down));
        } else {
            assert(move_changes(g, Direction::Right));
        }
    }
}

/// When the new tile fills the last empty cell: a value that leaves a move
/// stays, and a value that leaves no move is replaced by the other one, 4 for
/// 2 and 2 for 4; no other cell changes.
pub proof fn law_last_cell_swap(g: Seq<Seq<int>>, v: int)
    requires
        is_grid(g),
        v == 2 || v == 4,
        empty_spots(g).len() == 1,
    ensures
        ({
            let p = empty_spots(g)[0];
            let h = spawn_result(g, v, 0);
            &&& can_move(put(g, p, v)) ==> h[p.0][p.1] == v
            &&& !can_move(put(g, p, v)) && v == 2 ==> h[p.0][p.1] == 4
            &&& !can_move(put(g, p, v)) && v == 4 ==> h[p.0][p.1] == 2
            &&& forall|r: int, c: int| 0 <= r < 4 && 0 <= c < 4 && (r, c) != p ==> h[r][c] == g[r][c]
        }),
{
    lemma_empty_spots_are_empty(g, 16);
}

proof fn lemma_empties_upto_complete(g: Seq<Seq<int>>, n: int)
    requires
        0 <= n <= 16,
    ensures
        forall|r: int, c: int|
            0 <= r < 4 && 0 <= c < 4 && 4 * r + c < n && #[trigger] g[r][c] == 0 ==> exists|k: int|
                0 <= k < empties_upto(g, n).len() && empties_upto(g, n)[k] == (r, c),
    decreases n,
{
    if n > 0 {
        lemma_empties_upto_complete(g, n - 1);
        let prev = empties_upto(g, n - 1);
        let cur = empties_upto(g, n);
        assert forall|r: int, c: int|
            0 <= r < 4 && 0 <= c < 4 && 4 * r + c < n && #[trigger] g[r][c] == 0 implies exists|k: int|
                0 <= k < cur.len() && cur[k] == (r, c) by {
            if 4 * r + c < n - 1 {
                let k = choose|k: int| 0 <= k < prev.len() && prev[k] == (r, c);
                assert(cur[k] == prev[k]);
            } else {
                assert((n - 1) / 4 == r && (n - 1) % 4 == c) by (nonlinear_arith)
                    requires
                        4 * r + c == n - 1,
                        0 <= c < 4,
                ;
                assert(cur[prev.len() as int] == (r, c));
            }
        }
    }
}

/// Every empty cell of the grid is among its listed empty cells.
pub proof fn law_every_empty_cell_is_listed(g: Seq<Seq<int>>, r: int, c: int)
    requires
        is_grid(g),
        0 <= r < 4 && 0 <= c < 4,
        g[r][c] == 0,
    ensures
        exists|k: int| 0 <= k < empty_spots(g).len() && empty_spots(g)[k] == (r, c),
{
    lemma_empties_upto_complete(g, 16);
    assert(4 * r + c < 16);
    assert(g[r][c] == 0);
    let k = choose|k: int| 0 <= k < empties_upto(g, 16).len() && empties_upto(g, 16)[k] == (r, c);
    assert(empty_spots(g)[k] == (r, c));
}

} // verus!
