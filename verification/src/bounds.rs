use vstd::prelude::*;
use crate::board::{
    is_grid, rotated_n, slide_left, slide_fits, slide_gain, gain_before, merge_fits, merge_prefix,
    merges_into, occupied, moved_grid, facing, move_fits, move_gain, probe_fits, turns_before,
    turns_after, lemma_merge_wf, put, empty_spots, spawn_result, lemma_empty_spots_are_empty,
};
use crate::game::Direction;
use crate::board::{row_sum, grid_sum, merge_wf};
use crate::laws::{lemma_merge_keeps_sum, lemma_turns_keep_sum};

verus! {

/// Every cell of the grid lies within `-b..=b`.
pub open spec fn bounded(g: Seq<Seq<int>>, b: int) -> bool {
    forall|r: int, c: int| 0 <= r < 4 && 0 <= c < 4 ==> -b <= #[trigger] g[r][c] <= b
}

pub open spec fn row_bounded(s: Seq<int>, b: int) -> bool {
    forall|c: int| 0 <= c < s.len() ==> -b <= #[trigger] s[c] <= b
}

proof fn lemma_merge_bounds(s: Seq<int>, b: int)
    requires
        b >= 0,
        row_bounded(s, b),
    ensures
        row_bounded(merge_prefix(s).tiles, 2 * b),
        merge_prefix(s).tiles.len() <= occupied(s) <= s.len(),
        -2 * b * (occupied(s) - merge_prefix(s).tiles.len()) <= merge_prefix(s).gained
            <= 2 * b * (occupied(s) - merge_prefix(s).tiles.len()),
    decreases s.len(),
{
    if s.len() > 0 {
        lemma_merge_bounds(s.drop_last(), b);
        let m = merge_prefix(s.drop_last());
        let x = s.last();
        let t = merge_prefix(s).tiles;
        let k = occupied(s.drop_last()) - m.tiles.len();
        let k2 = occupied(s) - t.len();
        assert(2 * b * (k + 1) == 2 * b * k + 2 * b) by (nonlinear_arith);
        assert(-2 * b * (k + 1) == -2 * b * k - 2 * b) by (nonlinear_arith);
        assert(-b <= x <= b);
        if x == 0 {
            assert(k2 == k);
        } else if merges_into(m, x) {
            assert(k2 == k + 1);
        } else {
            assert(k2 == k);
        }
        assert forall|c: int| 0 <= c < t.len() implies -2 * b <= #[trigger] t[c] <= 2 * b by {
            if c < m.tiles.len() && !(merges_into(m, x) && c == m.tiles.len() - 1) {
                assert(t[c] == m.tiles[c]);
            }
        }
    }
}

proof fn lemma_bounded_merge_fits(s: Seq<int>, b: int, base: int)
    requires
        b >= 0,
        row_bounded(s, b),
        s.len() <= 4,
        -0x7fff_ffff <= base - 8 * b,
        base + 8 * b <= 0x7fff_ffff,
    ensures
        merge_fits(s, base),
    decreases s.len(),
{
    if s.len() > 0 {
        lemma_bounded_merge_fits(s.drop_last(), b, base);
        lemma_merge_bounds(s.drop_last(), b);
        lemma_merge_wf(s.drop_last());
        let m = merge_prefix(s.drop_last());
        let k = occupied(s.drop_last()) - m.tiles.len();
        if merges_into(m, s.last()) {
            assert(0 <= k <= 3);
            assert(2 * b * k <= 6 * b && -6 * b <= -2 * b * k) by (nonlinear_arith)
                requires
                    0 <= k <= 3,
                    b >= 0,
            ;
        }
    }
}

proof fn lemma_row_gain_bound(s: Seq<int>, b: int)
    requires
        b >= 0,
        row_bounded(s, b),
        s.len() <= 4,
    ensures
        -8 * b <= merge_prefix(s).gained <= 8 * b,
{
    lemma_merge_bounds(s, b);
    let k = occupied(s) - merge_prefix(s).tiles.len();
    assert(2 * b * k <= 8 * b && -8 * b <= -2 * b * k) by (nonlinear_arith)
        requires
            0 <= k <= 4,
            b >= 0,
    ;
}

/// Sliding a grid whose cells lie within `-b..=b`, for `b` up to 2^25, stays
/// within `i32`, gains at most `32 * b` points either way, and leaves cells
/// within `-2b..=2b`.
pub proof fn lemma_bounded_slide(g: Seq<Seq<int>>, b: int)
    requires
        is_grid(g),
        0 <= b <= 0x200_0000,
        bounded(g, b),
    ensures
        slide_fits(g),
        -32 * b <= slide_gain(g) <= 32 * b,
        bounded(slide_left(g), 2 * b),
{
    assert forall|r: int| 0 <= r < 4 implies row_bounded(#[trigger] g[r], b) by {
        assert forall|c: int| 0 <= c < g[r].len() implies -b <= #[trigger] g[r][c] <= b by {}
    }
    assert forall|n: int| 0 <= n <= 4 implies -8 * b * n <= #[trigger] gain_before(g, n) <= 8 * b * n by {
        lemma_gain_before_bound(g, b, n);
    }
    assert forall|r: int| 0 <= r < 4 implies #[trigger] merge_fits(g[r], gain_before(g, r)) by {
        assert(-8 * b * r <= gain_before(g, r) <= 8 * b * r);
        assert(8 * b * r <= 24 * b && -24 * b <= -8 * b * r) by (nonlinear_arith)
            requires
                0 <= r < 4,
                b >= 0,
        ;
        lemma_bounded_merge_fits(g[r], b, gain_before(g, r));
    }
    assert forall|r: int, c: int| 0 <= r < 4 && 0 <= c < 4 implies -2 * b <= #[trigger] slide_left(
        g,
    )[r][c] <= 2 * b by {
        lemma_merge_bounds(g[r], b);
    }
}

proof fn lemma_gain_before_bound(g: Seq<Seq<int>>, b: int, n: int)
    requires
        is_grid(g),
        b >= 0,
        0 <= n <= 4,
        forall|r: int| 0 <= r < 4 ==> row_bounded(#[trigger] g[r], b),
    ensures
        -8 * b * n <= gain_before(g, n) <= 8 * b * n,
    decreases n,
{
    if n > 0 {
        lemma_gain_before_bound(g, b, n - 1);
        lemma_row_gain_bound(g[n - 1], b);
        assert(8 * b * n == 8 * b * (n - 1) + 8 * b) by (nonlinear_arith);
        assert(-8 * b * n == -8 * b * (n - 1) - 8 * b) by (nonlinear_arith);
    }
}

proof fn lemma_turns_keep_bound(g: Seq<Seq<int>>, b: int, n: nat)
    requires
        is_grid(g),
        bounded(g, b),
    ensures
        is_grid(rotated_n(g, n)),
        bounded(rotated_n(g, n), b),
    decreases n,
{
    if n > 0 {
        lemma_turns_keep_bound(g, b, (n - 1) as nat);
    }
}

/// A move on a grid whose cells lie within `-b..=b`, for `b` up to 2^25,
/// stays within `i32`, gains at most `32 * b` points either way, and leaves
/// cells within `-2b..=2b`.
pub proof fn lemma_bounded_move(g: Seq<Seq<int>>, b: int, d: Direction)
    requires
        is_grid(g),
        0 <= b <= 0x200_0000,
        bounded(g, b),
    ensures
        move_fits(g, d),
        -32 * b <= move_gain(g, d) <= 32 * b,
        is_grid(moved_grid(g, d)),
        bounded(moved_grid(g, d), 2 * b),
{
    lemma_turns_keep_bound(g, b, turns_before(d));
    lemma_bounded_slide(facing(g, d), b);
    lemma_turns_keep_bound(slide_left(facing(g, d)), 2 * b, turns_after(d));
}

/// Trying the four moves on a grid whose cells lie within `-b..=b`, for `b`
/// up to 2^25, stays within `i32`.
pub proof fn lemma_bounded_probe(g: Seq<Seq<int>>, b: int)
    requires
        is_grid(g),
        0 <= b <= 0x200_0000,
        bounded(g, b),
    ensures
        probe_fits(g),
{
    lemma_bounded_move(g, b, Direction::Up);
    lemma_bounded_move(g, b, Direction::Left);
    lemma_bounded_move(g, b, Direction::Down);
    lemma_bounded_move(g, b, Direction::Right);
}

/// Putting 2 or 4 on an empty cell keeps a grid whose cells lie within `-b..=b`, for `b` of at least 4, within those bounds.
pub proof fn lemma_bounded_put(g: Seq<Seq<int>>, b: int, v: int, pick: int)
    requires
        is_grid(g),
        4 <= b,
        bounded(g, b),
        v == 2 || v == 4,
        0 <= pick < empty_spots(g).len(),
    ensures
        is_grid(put(g, empty_spots(g)[pick], v)),
        bounded(put(g, empty_spots(g)[pick], v), b),
{
    lemma_empty_spots_are_empty(g, 16);
}

/// A new tile keeps a grid whose cells lie within `-b..=b`, for `b` of at least 4, within those bounds.
pub proof fn lemma_bounded_spawn(g: Seq<Seq<int>>, b: int, v: int, pick: int)
    requires
        is_grid(g),
        4 <= b,
        bounded(g, b),
        v == 2 || v == 4,
        empty_spots(g).len() > 0 ==> 0 <= pick < empty_spots(g).len(),
    ensures
        is_grid(spawn_result(g, v, pick)),
        bounded(spawn_result(g, v, pick), b),
{
    lemma_empty_spots_are_empty(g, 16);
}

/// No cell of the grid is negative.
pub open spec fn nonnegative(g: Seq<Seq<int>>) -> bool {
    forall|r: int, c: int| 0 <= r < 4 && 0 <= c < 4 ==> 0 <= #[trigger] g[r][c]
}

proof fn lemma_nonnegative_merge(s: Seq<int>)
    requires
        forall|c: int| 0 <= c < s.len() ==> 0 <= #[trigger] s[c],
    ensures
        forall|c: int| 0 <= c < merge_prefix(s).tiles.len() ==> 0 <= #[trigger] merge_prefix(s).tiles[c],
        0 <= merge_prefix(s).gained,
        merge_prefix(s).gained + (if merge_prefix(s).tiles.len() > 0 && !merge_prefix(s).merged.last() {
            merge_prefix(s).tiles.last()
        } else {
            0
        }) <= row_sum(merge_prefix(s).tiles),
    decreases s.len(),
{
    lemma_merge_wf(s);
    if s.len() > 0 {
        lemma_nonnegative_merge(s.drop_last());
        lemma_merge_wf(s.drop_last());
        let m = merge_prefix(s.drop_last());
        let x = s.last();
        let t = merge_prefix(s).tiles;
        if x != 0 {
            if merges_into(m, x) {
                assert(t.drop_last() =~= m.tiles.drop_last());
                assert forall|c: int| 0 <= c < t.len() implies 0 <= #[trigger] t[c] by {
                    if c < t.len() - 1 {
                        assert(t[c] == m.tiles[c]);
                    }
                }
            } else {
                assert(m.tiles.push(x).drop_last() =~= m.tiles);
                assert forall|c: int| 0 <= c < t.len() implies 0 <= #[trigger] t[c] by {
                    if c < t.len() - 1 {
                        assert(t[c] == m.tiles[c]);
                    }
                }
            }
        }
    }
}

proof fn lemma_nonnegative_merge_fits(s: Seq<int>, base: int)
    requires
        forall|c: int| 0 <= c < s.len() ==> 0 <= #[trigger] s[c],
        0 <= base,
        base + row_sum(s) <= i32::MAX,
    ensures
        merge_fits(s, base),
        0 <= row_sum(s),
    decreases s.len(),
{
    if s.len() > 0 {
        let p = s.drop_last();
        lemma_nonnegative_merge_fits(p, base);
        lemma_nonnegative_merge(p);
        lemma_merge_keeps_sum(p);
        lemma_merge_wf(p);
    }
}

/// Moves on a grid without negative cells whose cells add up to at most
/// `i32::MAX` stay within `i32`, and so does trying them in turn.
pub proof fn lemma_nonnegative_moves_fit(g: Seq<Seq<int>>)
    requires
        is_grid(g),
        nonnegative(g),
        grid_sum(g) <= i32::MAX,
    ensures
        forall|d: Direction| #[trigger] move_fits(g, d),
        probe_fits(g),
{
    assert forall|d: Direction| #[trigger] move_fits(g, d) by {
        let f = facing(g, d);
        lemma_turns_keep_sum(g, turns_before(d));
        lemma_turns_keep_nonnegative(g, turns_before(d));
        lemma_nonnegative_slide_fits(f);
    }
    assert(move_fits(g, Direction::Up));
    assert(move_fits(g, Direction::Left));
    assert(move_fits(g, Direction::Down));
    assert(move_fits(g, Direction::Right));
}

proof fn lemma_turns_keep_nonnegative(g: Seq<Seq<int>>, n: nat)
    requires
        is_grid(g),
        nonnegative(g),
    ensures
        nonnegative(rotated_n(g, n)),
    decreases n,
{
    if n > 0 {
        lemma_turns_keep_nonnegative(g, (n - 1) as nat);
        lemma_turns_keep_sum(g, (n - 1) as nat);
    }
}

proof fn lemma_row_sum_nonnegative(s: Seq<int>)
    requires
        forall|c: int| 0 <= c < s.len() ==> 0 <= #[trigger] s[c],
    ensures
        0 <= row_sum(s),
    decreases s.len(),
{
    if s.len() > 0 {
        lemma_row_sum_nonnegative(s.drop_last());
    }
}

proof fn lemma_nonnegative_slide_fits(g: Seq<Seq<int>>)
    requires
        is_grid(g),
        nonnegative(g),
        grid_sum(g) <= i32::MAX,
    ensures
        slide_fits(g),
{
    assert forall|r: int| 0 <= r < 4 implies 0 <= row_sum(#[trigger] g[r]) by {
        assert(forall|c: int| 0 <= c < g[r].len() ==> 0 <= #[trigger] g[r][c]);
        lemma_row_sum_nonnegative(g[r]);
    }
    assert(0 <= row_sum(g[0]) && 0 <= row_sum(g[1]) && 0 <= row_sum(g[2]) && 0 <= row_sum(g[3]));
    assert forall|r: int| 0 <= r < 4 implies 0 <= merge_prefix(#[trigger] g[r]).gained <= row_sum(g[r]) && 0 <= row_sum(g[r]) by {
        lemma_nonnegative_merge(g[r]);
        lemma_nonnegative_merge_fits(g[r], 0);
        lemma_merge_keeps_sum(g[r]);
        lemma_merge_wf(g[r]);
    }
    assert(0 <= merge_prefix(g[0]).gained <= row_sum(g[0]));
    assert(0 <= merge_prefix(g[1]).gained <= row_sum(g[1]));
    assert(0 <= merge_prefix(g[2]).gained <= row_sum(g[2]));
    assert(0 <= merge_prefix(g[3]).gained <= row_sum(g[3]));
    reveal_with_fuel(gain_before, 5);
    assert forall|r: int| 0 <= r < 4 implies #[trigger] merge_fits(g[r], gain_before(g, r)) by {
        assert(forall|c: int| 0 <= c < g[r].len() ==> 0 <= #[trigger] g[r][c]);
        lemma_nonnegative_merge_fits(g[r], gain_before(g, r));
    }
}

} // verus!
