use vstd::prelude::*;
use std::collections::HashMap;
use crate::bounds::{
    bounded, lemma_bounded_move, lemma_bounded_probe, lemma_bounded_put, lemma_bounded_spawn,
};
use crate::text::{
    spaces, repeat, left_padding_text, line_padding_text, top_padding_text, cell_text, cells_text,
    tile_line, tile_lines, row_block, rows_text, header_text, screen_text, end_text, left_aligned,
    centered,
};
use crate::board::{
    Board, grid, transposed, rotated, rotated_n, slide_fits, slide_left, slide_gain, gain_before,
    merge_fits, merge_prefix, merge_wf, merge_step, merges_into, fits_i32, lemma_merge_fits_take,
    lemma_merge_wf, facing, moved_grid, move_changes, move_gain, move_fits, can_move, probe_fits,
    empties_upto, empty_spots, put, spawn_value, spawn_result, spawn_fits,
    lemma_empty_spots_are_empty, standing, after_tick, tick_fits,
};

verus! {

broadcast use vstd::std_specs::hash::group_hash_axioms;

/// A direction in which all tiles slide.
#[derive(Clone, Copy, Debug, PartialEq, Eq, Structural)]
pub enum Direction {
    Up,
    Down,
    Left,
    Right,
}

/// Where a game stands.
#[derive(Clone, Copy, Debug, PartialEq, Eq, Structural)]
pub enum State {
    Win,
    Loss,
    MidGame,
}

/// Terminal escape sequences used to draw the board.
struct Colors {
    backgrounds: HashMap<i32, String>,
    default: String,
    black_fg: String,
}

/// A game of 2048: the board, the score, the number of moves made, and how it is drawn.
pub struct Game {
    pub board: Board,
    corner_padding: i32,
    colors: Colors,
    score: i32,
    moves: i32,
}

/// The board a game starts from.
pub const EMPTY_BOARD: Board = [[0, 0, 0, 0], [0, 0, 0, 0], [0, 0, 0, 0], [0, 0, 0, 0]];

/// A board with its large tiles lined up in the top row, for trying out the end of a game.
pub const WIN_BOARD: Board = [[1024, 512, 256, 128], [8, 16, 32, 64], [4, 2, 2, 0], [0, 0, 0, 0]];

/// A board with one empty cell on which a new tile must leave a move.
pub const VMR_TEST: Board = [[8, 16, 8, 16], [16, 8, 16, 8], [8, 16, 8, 16], [16, 8, 4, 0]];

/// A board with two empty cells on which a new tile must leave a move.
pub const LOSS_BOARD: Board = [
    [128, 64, 128, 64],
    [64, 128, 64, 128],
    [256, 1024, 256, 1024],
    [64, 128, 0, 0],
];

/// A small board for trying out merges.
pub const DEBUG_BOARD: Board = [[0, 2, 2, 4], [2, 2, 2, 2], [0, 0, 0, 0], [0, 0, 0, 0]];

/// The background drawn behind each tile value; -1 is the frame around the tiles.
pub open spec fn background_codes() -> Map<i32, Seq<char>> {
    map![
        -1i32 => "\x1B[48;2;194;180;169m"@,
        0i32 => "\x1B[48;2;208;193;185m"@,
        2i32 => "\x1B[48;2;245;235;225m"@,
        4i32 => "\x1B[48;2;236;224;200m"@,
        8i32 => "\x1B[48;2;246;148;99m"@,
        16i32 => "\x1B[48;2;245;148;103m"@,
        32i32 => "\x1B[48;2;245;124;93m"@,
        64i32 => "\x1B[48;2;244;95;53m"@,
        128i32 => "\x1B[48;2;240;205;113m"@,
        256i32 => "\x1B[48;2;238;202;105m"@,
        512i32 => "\x1B[48;2;237;200;80m"@,
        1024i32 => "\x1B[48;2;237;197;63m"@,
        2048i32 => "\x1B[48;2;237;194;46m"@
    ]
}

/// Resets all colours.
pub open spec fn reset_code() -> Seq<char> {
    "\x1B[0m"@
}

/// Black text.
pub open spec fn black_text_code() -> Seq<char> {
    "\x1B[38;2;0;0;0m"@
}

/// The cells of a row in the opposite order.
fn reverse_row(row: &mut [i32; 4])
    ensures
        final(row)@ == old(row)@.reverse(),
{
    *row = [row[3], row[2], row[1], row[0]];
    assert(row@ =~= old(row)@.reverse());
}

/// Draws with `rand::random_range(0..n)`. The contract states only that the
/// number is below `n`: which one comes is chance. `n` must be positive, since
/// the call panics on an empty range.
#[verifier::external_body]
fn random_below(n: usize) -> (r: usize)
    requires
        n > 0,
    ensures
        r < n,
{
    rand::random_range(0..n)
}

/// Whether every tile of `board` lies within -2^24..=2^24: then each move
/// on it, and trying the moves in turn, stays within `i32`.
pub fn tiles_within_limits(board: Board) -> (ok: bool)
    ensures
        ok == bounded(grid(board), 0x100_0000),
        ok ==> probe_fits(grid(board)),
        ok ==> forall|d: Direction| #[trigger] move_fits(grid(board), d),
{
    let ghost g = grid(board);
    let mut ok = true;
    let mut r: usize = 0;
    while r < 4
        invariant
            r <= 4,
            g == grid(board),
            ok == forall|a: int, c: int| 0 <= a < r && 0 <= c < 4 ==> -0x100_0000 <= #[trigger] g[a][c] <= 0x100_0000,
        decreases 4 - r,
    {
        let mut c: usize = 0;
        while c < 4
            invariant
                r < 4,
                c <= 4,
                g == grid(board),
                ok == ((forall|a: int, b: int| 0 <= a < r && 0 <= b < 4 ==> -0x100_0000 <= #[trigger] g[a][b] <= 0x100_0000)
                    && forall|b: int| 0 <= b < c ==> -0x100_0000 <= #[trigger] g[r as int][b] <= 0x100_0000),
            decreases 4 - c,
        {
            let v = board[r][c];
            assert(g[r as int][c as int] == v as int);
            if v < -0x100_0000 || v > 0x100_0000 {
                ok = false;
            }
            c += 1;
        }
        r += 1;
    }
    proof {
        if ok {
            lemma_bounded_probe(g, 0x100_0000);
            assert forall|d: Direction| #[trigger] move_fits(g, d) by {
                lemma_bounded_move(g, 0x100_0000, d);
            }
        } else if bounded(g, 0x100_0000) {
            assert(forall|a: int, c: int| 0 <= a < 4 && 0 <= c < 4 ==> -0x100_0000 <= #[trigger] g[a][c] <= 0x100_0000);
        }
    }
    ok
}

impl Game {
    /// The tiles on the board.
    pub closed spec fn tiles(&self) -> Board {
        self.board
    }

    /// The points scored so far.
    pub closed spec fn points(&self) -> int {
        self.score as int
    }

    /// The number of moves made so far.
    pub closed spec fn move_count(&self) -> int {
        self.moves as int
    }

    /// The width of the margin drawn around the board.
    pub closed spec fn padding(&self) -> int {
        self.corner_padding as int
    }

    /// The background drawn behind each tile value.
    pub closed spec fn palette(&self) -> Map<i32, Seq<char>> {
        self.colors.backgrounds@.map_values(|s: String| s@)
    }

    /// The code that resets all colours.
    pub closed spec fn reset(&self) -> Seq<char> {
        self.colors.default@
    }

    /// The code for black text.
    pub closed spec fn black_text(&self) -> Seq<char> {
        self.colors.black_fg@
    }

    pub fn new() -> (game: Self)
        ensures
            game.tiles() == EMPTY_BOARD,
            game.points() == 0,
            game.move_count() == 0,
            game.padding() == 4,
            game.palette() == background_codes(),
            game.reset() == reset_code(),
            game.black_text() == black_text_code(),
    {
        let mut backgrounds: HashMap<i32, String> = HashMap::new();
        backgrounds.insert(-1, "\x1B[48;2;194;180;169m".to_owned());
        backgrounds.insert(0, "\x1B[48;2;208;193;185m".to_owned());
        backgrounds.insert(2, "\x1B[48;2;245;235;225m".to_owned());
        backgrounds.insert(4, "\x1B[48;2;236;224;200m".to_owned());
        backgrounds.insert(8, "\x1B[48;2;246;148;99m".to_owned());
        backgrounds.insert(16, "\x1B[48;2;245;148;103m".to_owned());
        backgrounds.insert(32, "\x1B[48;2;245;124;93m".to_owned());
        backgrounds.insert(64, "\x1B[48;2;244;95;53m".to_owned());
        backgrounds.insert(128, "\x1B[48;2;240;205;113m".to_owned());
        backgrounds.insert(256, "\x1B[48;2;238;202;105m".to_owned());
        backgrounds.insert(512, "\x1B[48;2;237;200;80m".to_owned());
        backgrounds.insert(1024, "\x1B[48;2;237;197;63m".to_owned());
        backgrounds.insert(2048, "\x1B[48;2;237;194;46m".to_owned());

        let colors = Colors {
            backgrounds,
            default: "\x1B[0m".to_owned(),
            black_fg: "\x1B[38;2;0;0;0m".to_owned(),
        };

        let game = Game { corner_padding: 4, colors, board: EMPTY_BOARD, score: 0, moves: 0 };
        assert(game.palette() =~= background_codes());
        game
    }

    /// The tiles on the board.
    pub fn get_board(&self) -> (b: Board)
        ensures
            b == self.tiles(),
    {
        self.board
    }

    /// The points scored so far.
    pub fn get_score(&self) -> (s: i32)
        ensures
            s == self.points(),
    {
        self.score
    }

    /// The number of moves made so far.
    pub fn get_moves(&self) -> (m: i32)
        ensures
            m == self.move_count(),
    {
        self.moves
    }

    pub fn set_board(&mut self, board: Board)
        ensures
            final(self).tiles() == board,
            final(self).points() == old(self).points(),
            final(self).move_count() == old(self).move_count(),
            final(self).padding() == old(self).padding(),
            final(self).palette() == old(self).palette(),
            final(self).reset() == old(self).reset(),
            final(self).black_text() == old(self).black_text(),
    {
        self.board = board;
    }

    /// The board mirrored along its main diagonal.
    pub fn transpose(&self, board: Board) -> (out: Board)
        ensures
            grid(out) == transposed(grid(board)),
    {
        let mut out = board;
        let mut y: usize = 0;
        while y < 4
            invariant
                y <= 4,
                forall|a: int, c: int|
                    0 <= a < 4 && 0 <= c < 4 ==> (if a < y || c < y {
                        out[a][c] == board[c][a]
                    } else {
                        out[a][c] == board[a][c]
                    }),
            decreases 4 - y,
        {
            let mut x: usize = y + 1;
            while x < 4
                invariant
                    y < 4,
                    y + 1 <= x <= 4,
                    forall|a: int, c: int|
                        0 <= a < 4 && 0 <= c < 4 ==> (if a < y || c < y || (a == y && y < c < x) || (
                        c == y && y < a < x) {
                            out[a][c] == board[c][a]
                        } else {
                            out[a][c] == board[a][c]
                        }),
                decreases 4 - x,
            {
                let tmp = out[x][y];
                out[x][y] = out[y][x];
                out[y][x] = tmp;
                x += 1;
            }
            y += 1;
        }
        assert(grid(out) =~~= transposed(grid(board)));
        out
    }

    /// The board turned a quarter turn clockwise.
    pub fn rotate_clockwise(&self, board: Board) -> (out: Board)
        ensures
            grid(out) == rotated(grid(board)),
    {
        let mut out = self.transpose(board);
        let ghost t = out;
        let mut i: usize = 0;
        while i < 4
            invariant
                i <= 4,
                grid(t) == transposed(grid(board)),
                forall|r: int, c: int| 0 <= r < i && 0 <= c < 4 ==> out[r][c] == t[r][3 - c],
                forall|r: int, c: int| i <= r < 4 && 0 <= c < 4 ==> out[r][c] == t[r][c],
            decreases 4 - i,
        {
            let mut tmp = out[i];
            reverse_row(&mut tmp);
            out[i] = tmp;
            i += 1;
        }
        assert forall|r: int, c: int| 0 <= r < 4 && 0 <= c < 4 implies out[r][c] == board[3 - c][r] by {
            assert(grid(t)[r][3 - c] == transposed(grid(board))[r][3 - c]);
        }
        assert(grid(out) =~~= rotated(grid(board)));
        out
    }

    pub fn left(&mut self, state: Board) -> (res: (Board, i32, bool))
        requires
            slide_fits(grid(state)),
        ensures
            grid(res.0) == slide_left(grid(state)),
            res.2 == (slide_left(grid(state)) != grid(state)),
            res.1 == (if res.2 { slide_gain(grid(state)) } else { 0 }),
            *final(self) == *old(self),
    {
        let ghost g = grid(state);
        let mut out = state;
        let mut matches: Vec<(usize, usize)> = Vec::new();
        let mut moved: bool = false;
        let mut score: i32 = 0;
        let mut i: usize = 0;
        while i < 4
            invariant
                i <= 4,
                g == grid(state),
                slide_fits(g),
                forall|r: int, c: int| 0 <= r < i && 0 <= c < 4 ==> out[r][c] == slide_left(g)[r][c],
                forall|r: int, c: int| i <= r < 4 && 0 <= c < 4 ==> out[r][c] == state[r][c],
                forall|q: int| 0 <= q < matches@.len() ==> matches@[q].0 < i,
                score == gain_before(g, i as int),
                moved <==> exists|r: int, c: int| 0 <= r < i && 0 <= c < 4 && out[r][c] != state[r][c],
            decreases 4 - i,
        {
            let ghost s = g[i as int];
            proof {
                lemma_merge_fits_take(s, gain_before(g, i as int));
                assert(s.take(1) =~= seq![s[0]]);
                assert(s.take(1).drop_last() =~= Seq::<int>::empty());
            }
            let ghost mut cur = merge_prefix(s.take(1));
            let mut j: usize = 1;
            while j < 4
                invariant
                    1 <= j <= 4,
                    0 <= i < 4,
                    g == grid(state),
                    slide_fits(g),
                    s == g[i as int],
                    forall|n: int| 0 <= n <= 4 ==> merge_fits(#[trigger] s.take(n), gain_before(g, i as int)),
                    forall|r: int, c: int| 0 <= r < i && 0 <= c < 4 ==> out[r][c] == slide_left(g)[r][c],
                    forall|r: int, c: int| i < r < 4 && 0 <= c < 4 ==> out[r][c] == state[r][c],
                    cur == merge_prefix(s.take(j as int)),
                    merge_wf(cur, j as int),
                    forall|c: int| 0 <= c < cur.tiles.len() ==>
                        out[i as int][c] == cur.tiles[c],
                    forall|c: int| cur.tiles.len() <= c < j ==> out[i as int][c] == 0,
                    forall|c: int| j <= c < 4 ==> out[i as int][c] == state[i as int][c],
                    forall|q: int| 0 <= q < matches@.len() ==> matches@[q].0 <= i,
                    forall|q: int| 0 <= q < matches@.len() && matches@[q].0 == i ==>
                        matches@[q].1 < cur.tiles.len()
                        && cur.merged[matches@[q].1 as int],
                    forall|c: int| 0 <= c < cur.tiles.len()
                        && cur.merged[c] ==>
                        exists|q: int| 0 <= q < matches@.len() && matches@[q] == (i, c as usize),
                    (exists|c: int| 0 <= c < cur.tiles.len()
                        && cur.merged[c]) ==> moved,
                    score == gain_before(g, i as int) + cur.gained,
                    moved <==> exists|r: int, c: int| (0 <= r < i && 0 <= c < 4 || r == i && 0 <= c < j)
                        && out[r][c] != state[r][c],
                decreases 4 - j,
            {
                let ghost m = cur;
                let ghost x = s[j as int];
                let ghost m2 = merge_prefix(s.take(j + 1));
                let ghost old_matches = matches@;
                let ghost old_out = out;
                proof {
                    assert(s.take(j + 1).drop_last() =~= s.take(j as int));
                    assert(s.take(j + 1).last() == x);
                    assert(m2 == merge_step(m, x));
                    assert(x == state[i as int][j as int]);
                    lemma_merge_wf(s.take(j + 1));
                }
                if out[i][j] != 0 {
                    let mut k: usize = j - 1;
                    while out[i][k] == 0 && k > 0
                        invariant
                            i < 4,
                            j < 4,
                            k < j,
                            k + 1 >= m.tiles.len(),
                            forall|c: int| 0 <= c < m.tiles.len() ==> out[i as int][c] == m.tiles[c],
                            forall|c: int| m.tiles.len() <= c < j ==> out[i as int][c] == 0,
                            merge_wf(m, j as int),
                        decreases k,
                    {
                        proof {
                            if k < m.tiles.len() {
                                assert(out[i as int][k as int] == m.tiles[k as int]);
                            }
                        }
                        k -= 1;
                    }
                    if k == 0 && out[i][0] == 0 {
                        proof {
                            if m.tiles.len() == 1 {
                                assert(out[i as int][0] == m.tiles[0]);
                            }
                        }
                        assert(m.tiles.len() == 0);
                        assert(!merges_into(m, x));
                        assert(m2.tiles =~= seq![x]);
                        out[i][0] = out[i][j];
                        out[i][j] = 0;
                        moved = true;
                        assert(m2.merged =~= seq![false]);
                        assert(forall|c: int| 0 <= c < m2.tiles.len() ==> out[i as int][c] == m2.tiles[c]);
                    } else if out[i][k] == out[i][j] {
                        assert(k + 1 == m.tiles.len());
                        let mut found = false;
                        let mut idx: usize = 0;
                        while idx < matches.len()
                            invariant
                                idx <= matches@.len(),
                                found <==> exists|q: int| 0 <= q < idx && matches@[q] == (i, k),
                            decreases matches@.len() - idx,
                        {
                            if matches[idx].0 == i && matches[idx].1 == k {
                                found = true;
                            }
                            idx += 1;
                        }
                        if found {
                            assert(m.merged[k as int]);
                            assert(k + 1 < j);
                            assert(!merges_into(m, x));
                            assert(m2.tiles =~= m.tiles.push(x));
                            assert(m2.merged =~= m.merged.push(false));
                            out[i][k + 1] = out[i][j];
                            out[i][j] = 0;
                            assert(forall|c: int| 0 <= c < m2.tiles.len() ==> out[i as int][c] == m2.tiles[c]);
                        } else {
                            assert(!m.merged[k as int]);
                            assert(merges_into(m, x));
                            assert(m2.tiles =~= m.tiles.update(k as int, 2 * x));
                            assert(m2.merged =~= m.merged.update(k as int, true));
                            matches.push((i, k));
                            assert(out[i as int][k as int] == x);
                            assert(fits_i32(2 * x));
                            out[i][k] *= 2;
                            assert(out[i as int][k as int] == 2 * x);
                            out[i][j] = 0;
                            score += out[i][k];
                            moved = true;
                            assert(forall|c: int| 0 <= c < m2.tiles.len() ==> out[i as int][c] == m2.tiles[c]);
                            proof {
                                assert forall|c: int| 0 <= c < m2.tiles.len() && m2.merged[c] implies
                                    exists|q: int| 0 <= q < matches@.len() && matches@[q] == (i, c as usize) by {
                                    if c != k {
                                        let q = choose|q: int| 0 <= q < old_matches.len() && old_matches[q] == (i, c as usize);
                                        assert(matches@[q] == old_matches[q]);
                                    } else {
                                        assert(matches@[old_matches.len() as int] == (i, c as usize));
                                    }
                                }
                            }
                        }
                    } else if k + 1 != j {
                        assert(k + 1 == m.tiles.len());
                        assert(!merges_into(m, x));
                        assert(m2.tiles =~= m.tiles.push(x));
                        assert(m2.merged =~= m.merged.push(false));
                        out[i][k + 1] = out[i][j];
                        out[i][j] = 0;
                        moved = true;
                    } else {
                        assert(k + 1 == m.tiles.len());
                        assert(!merges_into(m, x));
                        assert(m2.tiles =~= m.tiles.push(x));
                        assert(m2.merged =~= m.merged.push(false));
                    }
                } else {
                    assert(m2 == m);
                }
                proof {
                    cur = m2;
                }
                j += 1;
            }
            proof {
                assert(s.take(4) =~= s);
            }
            i += 1;
        }
        proof {
            assert(grid(out) =~~= slide_left(g));
            if moved {
                let (r, c) = choose|r: int, c: int| 0 <= r < 4 && 0 <= c < 4 && out[r][c] != state[r][c];
                assert(grid(out)[r][c] != g[r][c]);
            } else {
                assert(grid(out) =~~= g);
            }
        }
        if moved {
            (out, score, moved)
        } else {
            (out, 0, moved)
        }
    }

    /// Slides every tile of `state` toward `direction`. With `change_state` the
    /// result becomes the game's board, the points gained are added to the
    /// score and a move that changed the board is counted; without it the game
    /// is left as it was. Returns whether the board changed, and the new board.
    pub fn move_tiles(&mut self, state: Board, direction: Direction, change_state: bool) -> (res: (
        bool,
        Board,
    ))
        requires
            move_fits(grid(state), direction),
            change_state ==> fits_i32(
                old(self).points() + (if move_changes(grid(state), direction) {
                    move_gain(grid(state), direction)
                } else {
                    0
                }),
            ),
            change_state && move_changes(grid(state), direction) ==> old(self).move_count()
                < i32::MAX,
        ensures
            res.0 == move_changes(grid(state), direction),
            grid(res.1) == moved_grid(grid(state), direction),
            change_state ==> {
                &&& final(self).tiles() == res.1
                &&& final(self).points() == old(self).points() + (if res.0 {
                    move_gain(grid(state), direction)
                } else {
                    0
                })
                &&& final(self).move_count() == old(self).move_count() + (if res.0 {
                    1int
                } else {
                    0
                })
                &&& final(self).padding() == old(self).padding()
                &&& final(self).palette() == old(self).palette()
                &&& final(self).reset() == old(self).reset()
                &&& final(self).black_text() == old(self).black_text()
            },
            !change_state ==> *final(self) == *old(self),
    {
        let ghost g = grid(state);
        let mut buffer = state;
        let score;
        let moved;
        proof {
            reveal_with_fuel(rotated_n, 4);
        }
        match direction {
            Direction::Up => {
                buffer = self.rotate_clockwise(buffer);
                buffer = self.rotate_clockwise(buffer);
                buffer = self.rotate_clockwise(buffer);
                assert(grid(buffer) == facing(g, direction));
                let (b, s, m) = self.left(buffer);
                buffer = b;
                score = s;
                moved = m;
                buffer = self.rotate_clockwise(buffer);
            },
            Direction::Left => {
                assert(grid(buffer) == facing(g, direction));
                let (b, s, m) = self.left(buffer);
                buffer = b;
                score = s;
                moved = m;
            },
            Direction::Down => {
                buffer = self.rotate_clockwise(buffer);
                assert(grid(buffer) == facing(g, direction));
                let (b, s, m) = self.left(buffer);
                buffer = b;
                score = s;
                moved = m;
                buffer = self.rotate_clockwise(buffer);
                buffer = self.rotate_clockwise(buffer);
                buffer = self.rotate_clockwise(buffer);
            },
            Direction::Right => {
                buffer = self.rotate_clockwise(buffer);
                buffer = self.rotate_clockwise(buffer);
                assert(grid(buffer) == facing(g, direction));
                let (b, s, m) = self.left(buffer);
                buffer = b;
                score = s;
                moved = m;
                buffer = self.rotate_clockwise(buffer);
                buffer = self.rotate_clockwise(buffer);
            },
        }
        if change_state {
            self.score += score;
            self.moves += moved as i32;
            self.board = buffer;
        }
        (moved, buffer)
    }

    /// Whether any move changes `state`; moves are tried up, left, down, right.
    pub fn valid_state(&mut self, state: Board) -> (res: bool)
        requires
            probe_fits(grid(state)),
        ensures
            res == can_move(grid(state)),
            *final(self) == *old(self),
    {
        let moves: [Direction; 4] = [Direction::Up, Direction::Left, Direction::Down, Direction::Right];
        let mut n: usize = 0;
        while n < 4
            invariant
                n <= 4,
                *self == *old(self),
                probe_fits(grid(state)),
                moves@ == seq![Direction::Up, Direction::Left, Direction::Down, Direction::Right],
                forall|p: int| 0 <= p < n ==> !move_changes(grid(state), #[trigger] moves@[p]),
            decreases 4 - n,
        {
            let (moved, _) = self.move_tiles(state, moves[n], false);
            if moved {
                return true;
            }
            n += 1;
        }
        assert(!move_changes(grid(state), moves@[0]));
        assert(!move_changes(grid(state), moves@[1]));
        assert(!move_changes(grid(state), moves@[2]));
        assert(!move_changes(grid(state), moves@[3]));
        return false;
    }

    /// A loss when no move changes the board, otherwise a win when some tile is
    /// 2048, otherwise the game goes on.
    pub fn get_state(&mut self) -> (res: State)
        requires
            probe_fits(grid(old(self).tiles())),
        ensures
            *final(self) == *old(self),
            res == standing(grid(old(self).tiles())),
    {
        if !self.valid_state(self.board) {
            return State::Loss;
        }
        let ghost g = grid(self.board);
        let mut r: usize = 0;
        while r < 4
            invariant
                r <= 4,
                *self == *old(self),
                can_move(g),
                g == grid(self.board),
                forall|a: int, c: int| 0 <= a < r && 0 <= c < 4 ==> g[a][c] != 2048,
            decreases 4 - r,
        {
            let row = self.board[r];
            let mut c: usize = 0;
            while c < 4
                invariant
                    r < 4,
                    c <= 4,
                    row == self.board[r as int],
                    *self == *old(self),
                    can_move(g),
                    g == grid(self.board),
                    forall|a: int, b: int| 0 <= a < r && 0 <= b < 4 ==> g[a][b] != 2048,
                    forall|b: int| 0 <= b < c ==> g[r as int][b] != 2048,
                decreases 4 - c,
            {
                if row[c] == 2048 {
                    assert(g[r as int][c as int] == 2048);
                    return State::Win;
                }
                c += 1;
            }
            r += 1;
        }
        return State::MidGame;
    }

    /// The empty cells of the board, row by row.
    pub fn empty_spaces(&self) -> (res: Vec<(usize, usize)>)
        ensures
            res@.len() == empty_spots(grid(self.tiles())).len(),
            forall|n: int| 0 <= n < res@.len() ==> (res@[n].0 as int, res@[n].1 as int) == #[trigger] empty_spots(grid(self.tiles()))[n],
    {
        let ghost g = grid(self.board);
        let mut empty_spaces: Vec<(usize, usize)> = Vec::new();
        let mut i: usize = 0;
        while i < 4
            invariant
                i <= 4,
                g == grid(self.board),
                empty_spaces@.len() == empties_upto(g, 4 * i).len(),
                forall|n: int| 0 <= n < empty_spaces@.len() ==> (empty_spaces@[n].0 as int, empty_spaces@[n].1 as int) == #[trigger] empties_upto(g, 4 * i)[n],
            decreases 4 - i,
        {
            let mut j: usize = 0;
            while j < 4
                invariant
                    i < 4,
                    j <= 4,
                    g == grid(self.board),
                    empty_spaces@.len() == empties_upto(g, 4 * i + j).len(),
                    forall|n: int| 0 <= n < empty_spaces@.len() ==> (empty_spaces@[n].0 as int, empty_spaces@[n].1 as int) == #[trigger] empties_upto(g, 4 * i + j)[n],
                decreases 4 - j,
            {
                assert((4 * i + j) / 4 == i && (4 * i + j) % 4 == j) by (nonlinear_arith)
                    requires
                        j < 4,
                ;
                assert(empties_upto(g, 4 * i + j + 1) == if g[i as int][j as int] == 0 {
                    empties_upto(g, 4 * i + j).push((i as int, j as int))
                } else {
                    empties_upto(g, 4 * i + j)
                });
                if self.board[i][j] == 0 {
                    empty_spaces.push((i, j));
                }
                j += 1;
            }
            i += 1;
        }
        empty_spaces
    }

    /// Puts a new tile at the empty cell numbered `index`: a 4 for the draw
    /// `roll` 10, a 2 for any other draw below 11. When it fills the last
    /// empty cell and leaves no move, the other value takes its place.
    pub fn place_block(&mut self, roll: usize, empty_spaces: Vec<(usize, usize)>, index: usize)
        requires
            roll < 11,
            index < empty_spaces@.len(),
            empty_spaces@.len() == empty_spots(grid(old(self).tiles())).len(),
            forall|n: int| 0 <= n < empty_spaces@.len() ==> (empty_spaces@[n].0 as int, empty_spaces@[n].1 as int) == #[trigger] empty_spots(grid(old(self).tiles()))[n],
            spawn_fits(grid(old(self).tiles()), spawn_value(roll as int)),
        ensures
            grid(final(self).tiles()) == spawn_result(
                grid(old(self).tiles()),
                spawn_value(roll as int),
                index as int,
            ),
            final(self).points() == old(self).points(),
            final(self).move_count() == old(self).move_count(),
            final(self).padding() == old(self).padding(),
            final(self).palette() == old(self).palette(),
            final(self).reset() == old(self).reset(),
            final(self).black_text() == old(self).black_text(),
    {
        let val = match roll {
            10 => 4,
            _ => 2,
        };
        let ghost g = grid(self.board);
        let (i, j) = empty_spaces[index];
        assert(i < 4 && j < 4) by {
            lemma_empty_spots_are_empty(g, 16);
            assert((i as int, j as int) == empty_spots(g)[index as int]);
        }
        self.board[i][j] = val;
        assert(grid(self.board) =~~= put(g, empty_spots(g)[index as int], val as int));

        if empty_spaces.len() == 1 {
            if self.valid_state(self.board) {
                return;
            }

            let new_val = if val == 2 { 4 } else { 2 };

            self.board[i][j] = new_val;
            assert(grid(self.board) =~~= put(g, empty_spots(g)[index as int], 6 - val));
        }
    }

    /// Puts a new tile, 2 with chance 10 in 11 and 4 otherwise, into an empty
    /// cell drawn at random; see `place_block` for the last empty cell. A full
    /// board stays as it is.
    pub fn spawn_block(&mut self)
        requires
            spawn_fits(grid(old(self).tiles()), 2),
            spawn_fits(grid(old(self).tiles()), 4),
        ensures
            exists|roll: int, pick: int|
                0 <= roll < 11 && (empty_spots(grid(old(self).tiles())).len() > 0 ==> 0 <= pick < empty_spots(grid(old(self).tiles())).len())
                && grid(final(self).tiles()) == spawn_result(grid(old(self).tiles()), spawn_value(roll), pick),
            final(self).points() == old(self).points(),
            final(self).move_count() == old(self).move_count(),
            final(self).padding() == old(self).padding(),
            final(self).palette() == old(self).palette(),
            final(self).reset() == old(self).reset(),
            final(self).black_text() == old(self).black_text(),
    {
        let roll = random_below(11);

        let empty_spaces = self.empty_spaces();

        if empty_spaces.len() == 0 {
            assert(grid(self.tiles()) == spawn_result(grid(self.tiles()), spawn_value(roll as int), 0));
            return;
        }

        let index = random_below(empty_spaces.len());
        let ghost g = grid(self.tiles());
        self.place_block(roll, empty_spaces, index);
        assert(grid(self.tiles()) == spawn_result(g, spawn_value(roll as int), index as int));
    }

    /// The left margin: the colours reset, then one space per cell of margin.
    pub fn get_left_padding(&self) -> (out: String)
        ensures
            out@ == left_padding_text(self.reset(), self.padding()),
    {
        let mut out: String = "".to_owned();
        proof {
            reveal_strlit("");
            reveal_strlit(" ");
        }
        out.append(self.colors.default.as_str());
        let mut k: i32 = 0;
        while k < self.corner_padding
            invariant
                0 <= k,
                k <= self.corner_padding || k == 0,
                out@ == self.reset() + spaces(k as int),
            decreases self.corner_padding - k,
        {
            proof {
                reveal_strlit(" ");
            }
            out.append(" ");
            k += 1;
            assert(out@ =~= self.reset() + spaces(k as int));
        }
        assert(out@ =~= self.reset() + spaces(self.padding()));
        return out;
    }

    /// One empty line as wide as the board and its margin.
    pub fn get_line_padding(&self) -> (line: String)
        ensures
            line@ == line_padding_text(),
    {
        let mut line = "".to_owned();
        proof {
            reveal_strlit("");
        }
        let mut k: usize = 0;
        while k < 4
            invariant
                k <= 4,
                line@ == repeat("         "@, k as nat),
            decreases 4 - k,
        {
            line.append("         ");
            k += 1;
        }
        line.append("  ");
        line.append("\n\r");
        return line;
    }

    /// The empty lines above the board: one for every two cells of margin.
    pub fn get_top_padding(&self) -> (lines: String)
        ensures
            lines@ == top_padding_text(self.reset(), self.padding()),
    {
        let mut lines = "".to_owned();
        proof {
            reveal_strlit("");
        }
        let n = self.corner_padding / 2;
        let mut k: i32 = 0;
        while k < n
            invariant
                0 <= k,
                k <= n || k == 0,
                self.corner_padding > 0 ==> n as int == self.padding() / 2,
                self.corner_padding <= 0 ==> n <= 0,
                lines@ == repeat(left_padding_text(self.reset(), self.padding()) + line_padding_text(), k as nat),
            decreases n - k,
        {
            lines.append(self.get_left_padding().as_str());
            lines.append(self.get_line_padding().as_str());
            k += 1;
            assert(lines@ =~= repeat(left_padding_text(self.reset(), self.padding()) + line_padding_text(), k as nat));
        }
        assert(k as nat == if self.padding() > 0 { (self.padding() / 2) as nat } else { 0 });
        return lines;
    }

    /// The background for the tile value `v`.
    fn background(&self, v: i32) -> (s: &String)
        requires
            self.palette().contains_key(v),
        ensures
            s@ == self.palette()[v],
    {
        self.colors.backgrounds.get(&v).unwrap()
    }

    /// The whole screen showing the game: the screen cleared, the score and
    /// the number of moves, then the board, each tile three lines high with
    /// its value on the middle line.
    pub fn board_text(&self) -> (out: String)
        requires
            self.palette().contains_key(-1i32),
            forall|r: int, c: int|
                0 <= r < 4 && 0 <= c < 4 ==> self.palette().contains_key(#[trigger] self.tiles()[r][c]),
        ensures
            out@ == screen_text(
                self.palette(),
                self.black_text(),
                self.reset(),
                self.padding(),
                self.points(),
                self.move_count(),
                self.tiles(),
            ),
    {
        let ghost p = self.palette();
        let ghost black = self.black_text();
        let ghost reset = self.reset();
        let ghost padding = self.padding();
        let mut line = "".to_owned();
        proof {
            reveal_strlit("");
        }
        line.append(self.colors.default.as_str());
        line.append("\x1B[2J\x1B[1;1H");
        line.append(self.get_top_padding().as_str());
        line.append("        ");
        line.append("Score: ");
        line.append(left_aligned(self.score, 10).as_str());
        line.append("    ");
        line.append("Moves: ");
        line.append(left_aligned(self.moves, 6).as_str());
        line.append("\n\r");
        line.append(self.get_left_padding().as_str());
        line.append(self.background(-1).as_str());
        line.append(self.get_line_padding().as_str());
        let ghost head = line@;
        assert(head =~= header_text(p, reset, padding, self.points(), self.move_count()));

        let mut r: usize = 0;
        while r < 4
            invariant
                r <= 4,
                p == self.palette(),
                black == self.black_text(),
                reset == self.reset(),
                padding == self.padding(),
                p.contains_key(-1i32),
                forall|a: int, c: int| 0 <= a < 4 && 0 <= c < 4 ==> p.contains_key(#[trigger] self.tiles()[a][c]),
                line@ == head + rows_text(p, black, reset, padding, self.tiles(), r as nat),
            decreases 4 - r,
        {
            let row = self.board[r];
            let mut block = "".to_owned();
            proof {
                reveal_strlit("");
            }
            let mut i: usize = 0;
            while i < 3
                invariant
                    r < 4,
                    i <= 3,
                    row == self.tiles()[r as int],
                    p == self.palette(),
                    black == self.black_text(),
                    reset == self.reset(),
                    padding == self.padding(),
                    p.contains_key(-1i32),
                    forall|a: int, c: int| 0 <= a < 4 && 0 <= c < 4 ==> p.contains_key(#[trigger] self.tiles()[a][c]),
                    block@ == tile_lines(p, black, reset, padding, row@, i as nat),
                decreases 3 - i,
            {
                let mut text = "".to_owned();
                proof {
                    reveal_strlit("");
                }
                text.append(self.get_left_padding().as_str());
                text.append(self.background(-1).as_str());
                text.append("  ");
                let ghost start = text@;
                let mut c: usize = 0;
                while c < 4
                    invariant
                        r < 4,
                        i < 3,
                        c <= 4,
                        row == self.tiles()[r as int],
                        p == self.palette(),
                        black == self.black_text(),
                        reset == self.reset(),
                        p.contains_key(-1i32),
                        forall|a: int, b: int| 0 <= a < 4 && 0 <= b < 4 ==> p.contains_key(#[trigger] self.tiles()[a][b]),
                        text@ == start + cells_text(p, black, reset, row@, i as int, c as nat),
                    decreases 4 - c,
                {
                    let col = row[c];
                    assert(p.contains_key(self.tiles()[r as int][c as int]));
                    let mut cell = "".to_owned();
                    proof {
                        reveal_strlit("");
                    }
                    cell.append(self.background(col).as_str());
                    if i == 1 && col > 0 {
                        cell.append(self.colors.black_fg.as_str());
                        cell.append(centered(col, 7).as_str());
                    } else {
                        cell.append("       ");
                    }
                    cell.append(self.background(-1).as_str());
                    cell.append("  ");
                    cell.append(self.colors.default.as_str());
                    assert(cell@ =~= cell_text(p, black, reset, col, i as int));
                    let ghost before = text@;
                    text.append(cell.as_str());
                    c += 1;
                    assert(text@ =~= start + cells_text(p, black, reset, row@, i as int, c as nat));
                }
                text.append("\n\r");
                assert(text@ =~= tile_line(p, black, reset, padding, row@, i as int));
                block.append(text.as_str());
                i += 1;
                assert(block@ =~= tile_lines(p, black, reset, padding, row@, i as nat));
            }
            block.append(self.get_left_padding().as_str());
            block.append(self.background(-1).as_str());
            block.append(self.get_line_padding().as_str());
            assert(block@ =~= row_block(p, black, reset, padding, row@));
            line.append(block.as_str());
            r += 1;
            assert(line@ =~= head + rows_text(p, black, reset, padding, self.tiles(), r as nat));
        }
        line
    }

    /// The message at the end of a won game.
    pub fn win_text(&self) -> (out: String)
        ensures
            out@ == end_text(self.reset(), self.padding(), "     You win! Final score: "@, self.points()),
    {
        self.end_message("     You win! Final score: ")
    }

    /// The message at the end of a lost game.
    pub fn loss_text(&self) -> (out: String)
        ensures
            out@ == end_text(self.reset(), self.padding(), "     Game over! Final score: "@, self.points()),
    {
        self.end_message("     Game over! Final score: ")
    }

    fn end_message(&self, words: &str) -> (out: String)
        ensures
            out@ == end_text(self.reset(), self.padding(), words@, self.points()),
    {
        let mut out = "".to_owned();
        proof {
            reveal_strlit("");
        }
        out.append(self.colors.default.as_str());
        out.append(self.get_left_padding().as_str());
        out.append(words);
        out.append(left_aligned(self.score, 0).as_str());
        out.append("\r\n");
        out.append("\r\n");
        assert(out@ =~= end_text(self.reset(), self.padding(), words@, self.points()));
        out
    }

    /// One turn toward `direction`: the tiles slide, and when anything moved a
    /// new tile appears. Returns where the game then stands.
    pub fn tick(&mut self, direction: Direction) -> (res: State)
        requires
            tick_fits(grid(old(self).tiles()), direction, old(self).points(), old(self).move_count()),
        ensures
            exists|roll: int, pick: int|
                0 <= roll < 11 && 0 <= pick && (move_changes(grid(old(self).tiles()), direction)
                    && empty_spots(moved_grid(grid(old(self).tiles()), direction)).len() > 0 ==> pick
                    < empty_spots(moved_grid(grid(old(self).tiles()), direction)).len())
                    && grid(final(self).tiles()) == after_tick(
                    grid(old(self).tiles()),
                    direction,
                    spawn_value(roll),
                    pick,
                ),
            final(self).points() == old(self).points() + (if move_changes(grid(old(self).tiles()), direction) {
                move_gain(grid(old(self).tiles()), direction)
            } else {
                0
            }),
            final(self).move_count() == old(self).move_count() + (if move_changes(grid(old(self).tiles()), direction) {
                1int
            } else {
                0
            }),
            final(self).padding() == old(self).padding(),
            final(self).palette() == old(self).palette(),
            final(self).reset() == old(self).reset(),
            final(self).black_text() == old(self).black_text(),
            res == standing(grid(final(self).tiles())),
    {
        let ghost g = grid(self.board);
        let (moved, _) = self.move_tiles(self.board, direction, true);
        if moved {
            let ghost h = grid(self.board);
            self.spawn_block();
            proof {
                let (roll, pick) = choose|roll: int, pick: int|
                    0 <= roll < 11 && (empty_spots(h).len() > 0 ==> 0 <= pick < empty_spots(h).len())
                    && grid(self.tiles()) == spawn_result(h, spawn_value(roll), pick);
                assert(probe_fits(spawn_result(h, spawn_value(roll), pick)));
                if empty_spots(h).len() == 0 {
                    assert(grid(self.tiles()) == after_tick(g, direction, spawn_value(roll), 0));
                } else {
                    assert(grid(self.tiles()) == after_tick(g, direction, spawn_value(roll), pick));
                }
            }
        } else {
            proof {
                crate::laws::law_move_changes_iff_grid_differs(g, direction);
                assert(grid(self.tiles()) == after_tick(g, direction, spawn_value(0), 0));
            }
        }
        self.get_state()
    }

    /// Whether every tile lies within -2^24..=2^24, the score within
    /// -2^30..=2^30, and the move count below `i32::MAX`: then a turn in any
    /// direction stays within `i32`, and so does looking for a move.
    pub fn within_limits(&self) -> (ok: bool)
        ensures
            ok == (bounded(grid(self.tiles()), 0x100_0000) && -0x4000_0000 <= self.points()
                <= 0x4000_0000 && self.move_count() < i32::MAX),
            ok ==> probe_fits(grid(self.tiles())),
            ok ==> forall|d: Direction|
                tick_fits(grid(self.tiles()), d, self.points(), self.move_count()),
    {
        let tiles_ok = tiles_within_limits(self.board);
        let ok = tiles_ok && -0x4000_0000 <= self.score && self.score <= 0x4000_0000 && self.moves
            < i32::MAX;
        proof {
            let g = grid(self.board);
            if ok {
                assert forall|d: Direction| tick_fits(g, d, self.points(), self.move_count()) by {
                    lemma_bounded_move(g, 0x100_0000, d);
                    lemma_bounded_probe(g, 0x100_0000);
                    let h = moved_grid(g, d);
                    if empty_spots(h).len() == 1 {
                        lemma_bounded_put(h, 0x200_0000, 2, 0);
                        lemma_bounded_put(h, 0x200_0000, 4, 0);
                        lemma_bounded_probe(put(h, empty_spots(h)[0], 2), 0x200_0000);
                        lemma_bounded_probe(put(h, empty_spots(h)[0], 4), 0x200_0000);
                    }
                    assert forall|v: int, pick: int|
                        (v == 2 || v == 4) && (empty_spots(h).len() > 0 ==> 0 <= pick < empty_spots(h).len())
                        implies probe_fits(#[trigger] spawn_result(h, v, pick)) by {
                        lemma_bounded_spawn(h, 0x200_0000, v, pick);
                        lemma_bounded_probe(spawn_result(h, v, pick), 0x200_0000);
                    }
                }
            }
        }
        ok
    }

    /// Whether the frame and every tile on the board have a colour to be drawn with.
    pub fn drawable(&self) -> (ok: bool)
        ensures
            ok == (self.palette().contains_key(-1i32) && forall|r: int, c: int|
                0 <= r < 4 && 0 <= c < 4 ==> self.palette().contains_key(#[trigger] self.tiles()[r][c])),
    {
        let mut ok = self.colors.backgrounds.contains_key(&-1);
        assert(self.palette().dom() =~= self.colors.backgrounds@.dom());
        let mut r: usize = 0;
        while r < 4
            invariant
                r <= 4,
                ok == (self.palette().contains_key(-1i32) && forall|a: int, c: int|
                    0 <= a < r && 0 <= c < 4 ==> self.palette().contains_key(#[trigger] self.tiles()[a][c])),
            decreases 4 - r,
        {
            let mut c: usize = 0;
            while c < 4
                invariant
                    r < 4,
                    c <= 4,
                    ok == (self.palette().contains_key(-1i32) && (forall|a: int, b: int|
                        0 <= a < r && 0 <= b < 4 ==> self.palette().contains_key(#[trigger] self.tiles()[a][b]))
                        && forall|b: int| 0 <= b < c ==> self.palette().contains_key(#[trigger] self.tiles()[r as int][b])),
                decreases 4 - c,
            {
                let v = self.board[r][c];
                let known = self.colors.backgrounds.contains_key(&v);
                proof {
                    assert(self.palette().dom() =~= self.colors.backgrounds@.dom());
                    assert(known == self.palette().contains_key(self.tiles()[r as int][c as int]));
                }
                if !known {
                    ok = false;
                }
                c += 1;
            }
            r += 1;
        }
        ok
    }
}

} // verus!
