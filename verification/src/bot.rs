use vstd::prelude::*;
use crate::board::{
    Board, grid, moved_grid, move_changes, move_fits, can_move, probe_fits, empties_upto,
    empty_spots,
};
use crate::game::{Direction, Game, State, EMPTY_BOARD, background_codes, reset_code, black_text_code};

verus! {

/// The moves the player tries, in this order.
pub const ACTIONS: [Direction; 4] = [Direction::Up, Direction::Down, Direction::Left, Direction::Right];

/// The weight of each cell in the judgement of a board: big tiles belong in
/// the top row, ordered from the left corner, and the bottom row is best empty.
pub open spec fn weight(r: int, c: int) -> int {
    seq![
        seq![2048int, 1024, 512, 256],
        seq![16int, 32, 64, 128],
        seq![8int, 4, 2, 2],
        seq![-8int, -4, -2, 0],
    ][r][c]
}

/// The weighted sum of the first `n` cells, read row by row.
pub open spec fn weighted_upto(g: Seq<Seq<int>>, n: int) -> int
    decreases n,
{
    if n <= 0 {
        0
    } else {
        weighted_upto(g, n - 1) + g[(n - 1) / 4][(n - 1) % 4] * weight((n - 1) / 4, (n - 1) % 4)
    }
}

/// How good a board looks: the weighted sum of its cells and 12 for each empty cell.
pub open spec fn heuristic(g: Seq<Seq<int>>) -> int {
    weighted_upto(g, 16) + 12 * empty_spots(g).len()
}

/// Each of the four moves stays within `i32`.
pub open spec fn moves_fit(g: Seq<Seq<int>>) -> bool {
    &&& move_fits(g, Direction::Up)
    &&& move_fits(g, Direction::Down)
    &&& move_fits(g, Direction::Left)
    &&& move_fits(g, Direction::Right)
}

/// A player that chooses its moves by looking ahead.
pub struct Bot {
    game: Game,
}

impl Bot {
    /// The game the player plays.
    pub closed spec fn playing(&self) -> Game {
        self.game
    }

    pub fn new() -> (bot: Self)
        ensures
            bot.playing().tiles() == EMPTY_BOARD,
            bot.playing().points() == 0,
            bot.playing().move_count() == 0,
            bot.playing().padding() == 4,
            bot.playing().palette() == background_codes(),
            bot.playing().reset() == reset_code(),
            bot.playing().black_text() == black_text_code(),
    {
        Self { game: Game::new() }
    }

    /// The board of the game being played.
    pub fn board(&self) -> (b: Board)
        ensures
            b == self.playing().tiles(),
    {
        self.game.get_board()
    }

    /// The game being played, to make moves in.
    pub fn game_mut(&mut self) -> (game: &mut Game)
        ensures
            *game == old(self).playing(),
            final(self).playing() == *final(game),
    {
        &mut self.game
    }

    /// Each action in turn tried on `state`: whether it changes the board, the
    /// board after it, and the action.
    pub fn make_moves(&mut self, state: Board) -> (res: Vec<(bool, Board, Direction)>)
        requires
            moves_fit(grid(state)),
        ensures
            *final(self) == *old(self),
            res@.len() == 4,
            forall|n: int|
                0 <= n < 4 ==> {
                    &&& (#[trigger] res@[n]).2 == ACTIONS@[n]
                    &&& res@[n].0 == move_changes(grid(state), ACTIONS@[n])
                    &&& grid(res@[n].1) == moved_grid(grid(state), ACTIONS@[n])
                },
    {
        let mut res: Vec<(bool, Board, Direction)> = Vec::new();
        let mut n: usize = 0;
        while n < 4
            invariant
                n <= 4,
                *self == *old(self),
                moves_fit(grid(state)),
                res@.len() == n,
                forall|p: int|
                    0 <= p < n ==> {
                        &&& (#[trigger] res@[p]).2 == ACTIONS@[p]
                        &&& res@[p].0 == move_changes(grid(state), ACTIONS@[p])
                        &&& grid(res@[p].1) == moved_grid(grid(state), ACTIONS@[p])
                    },
            decreases 4 - n,
        {
            let x = ACTIONS[n];
            let (moved, board) = self.game.move_tiles(state, x, false);
            res.push((moved, board, x));
            n += 1;
        }
        res
    }

    /// How good `state` looks; -9999 when the game being played is lost.
    pub fn score(&mut self, state: Board) -> (res: i64)
        requires
            probe_fits(grid(old(self).playing().tiles())),
        ensures
            *final(self) == *old(self),
            res == (if !can_move(grid(old(self).playing().tiles())) {
                -9999
            } else {
                heuristic(grid(state))
            }),
    {
        if self.game.get_state() == State::Loss {
            return -9999;
        }

        let score_matrix: [[i64; 4]; 4] = [
            [2048, 1024, 512, 256],
            [16, 32, 64, 128],
            [8, 4, 2, 2],
            [-8, -4, -2, 0],
        ];
        let ghost g = grid(state);

        let mut score: i64 = 0;
        let mut x: usize = 0;
        while x < 4
            invariant
                x <= 4,
                g == grid(state),
                forall|r: int, c: int| 0 <= r < 4 && 0 <= c < 4 ==> score_matrix[r][c] == weight(r, c),
                forall|r: int, c: int| 0 <= r < 4 && 0 <= c < 4 ==> -2048 <= #[trigger] score_matrix[r][c] <= 2048,
                score == weighted_upto(g, 4 * x),
                -(4 * x) * 0x1000_0000_0000 <= score <= (4 * x) * 0x1000_0000_0000,
            decreases 4 - x,
        {
            let mut y: usize = 0;
            while y < 4
                invariant
                    x < 4,
                    y <= 4,
                    g == grid(state),
                    forall|r: int, c: int| 0 <= r < 4 && 0 <= c < 4 ==> score_matrix[r][c] == weight(r, c),
                    forall|r: int, c: int| 0 <= r < 4 && 0 <= c < 4 ==> -2048 <= #[trigger] score_matrix[r][c] <= 2048,
                    score == weighted_upto(g, 4 * x + y),
                    -(4 * x + y) * 0x1000_0000_0000 <= score <= (4 * x + y) * 0x1000_0000_0000,
                decreases 4 - y,
            {
                assert((4 * x + y) / 4 == x && (4 * x + y) % 4 == y) by (nonlinear_arith)
                    requires
                        y < 4,
                ;
                let cell = state[x][y] as i64;
                let w = score_matrix[x][y];
                assert(-2048 <= w <= 2048) by {
                    assert(-2048 <= score_matrix[x as int][y as int] <= 2048);
                }
                assert(-0x1000_0000_0000 <= cell * w <= 0x1000_0000_0000) by (nonlinear_arith)
                    requires
                        -0x8000_0000 <= cell <= 0x8000_0000,
                        -2048 <= w <= 2048,
                ;
                score += cell * w;
                y += 1;
            }
            x += 1;
        }

        let mut empty: i64 = 0;
        let mut r: usize = 0;
        while r < 4
            invariant
                r <= 4,
                g == grid(state),
                empty == empties_upto(g, 4 * r).len(),
                empty <= 4 * r,
            decreases 4 - r,
        {
            let row = state[r];
            let mut c: usize = 0;
            while c < 4
                invariant
                    r < 4,
                    c <= 4,
                    g == grid(state),
                    row == state[r as int],
                    empty == empties_upto(g, 4 * r + c).len(),
                    empty <= 4 * r + c,
                decreases 4 - c,
            {
                assert((4 * r + c) / 4 == r && (4 * r + c) % 4 == c) by (nonlinear_arith)
                    requires
                        c < 4,
                ;
                if row[c] == 0 {
                    empty += 1;
                }
                c += 1;
            }
            r += 1;
        }

        score += empty * 12;
        return score;
    }
}

/// How a board is judged, cell by cell: the top row weighs 2048, 1024, 512
/// and 256, the second row 16, 32, 64 and 128, the third 8, 4, 2 and 2, the
/// bottom row -8, -4, -2 and 0, and each empty cell adds 12.
pub proof fn law_heuristic_weights(g: Seq<Seq<int>>)
    ensures
        heuristic(g) == 2048 * g[0][0] + 1024 * g[0][1] + 512 * g[0][2] + 256 * g[0][3] + 16 * g[1][0]
            + 32 * g[1][1] + 64 * g[1][2] + 128 * g[1][3] + 8 * g[2][0] + 4 * g[2][1] + 2 * g[2][2]
            + 2 * g[2][3] - 8 * g[3][0] - 4 * g[3][1] - 2 * g[3][2] + 0 * g[3][3] + 12 * empty_spots(
            g,
        ).len(),
{
    assert(weight(0, 0) == 2048);
    assert(weight(0, 1) == 1024);
    assert(weight(0, 2) == 512);
    assert(weight(0, 3) == 256);
    assert(weight(1, 0) == 16);
    assert(weight(1, 1) == 32);
    assert(weight(1, 2) == 64);
    assert(weight(1, 3) == 128);
    assert(weight(2, 0) == 8);
    assert(weight(2, 1) == 4);
    assert(weight(2, 2) == 2);
    assert(weight(2, 3) == 2);
    assert(weight(3, 0) == -8);
    assert(weight(3, 1) == -4);
    assert(weight(3, 2) == -2);
    assert(weight(3, 3) == 0);
    assert((1 - 1) / 4 == 0 && (1 - 1) % 4 == 0);
    assert(weighted_upto(g, 1) == weighted_upto(g, 0) + g[0][0] * 2048);
    assert((2 - 1) / 4 == 0 && (2 - 1) % 4 == 1);
    assert(weighted_upto(g, 2) == weighted_upto(g, 1) + g[0][1] * 1024);
    assert((3 - 1) / 4 == 0 && (3 - 1) % 4 == 2);
    assert(weighted_upto(g, 3) == weighted_upto(g, 2) + g[0][2] * 512);
    assert((4 - 1) / 4 == 0 && (4 - 1) % 4 == 3);
    assert(weighted_upto(g, 4) == weighted_upto(g, 3) + g[0][3] * 256);
    assert((5 - 1) / 4 == 1 && (5 - 1) % 4 == 0);
    assert(weighted_upto(g, 5) == weighted_upto(g, 4) + g[1][0] * 16);
    assert((6 - 1) / 4 == 1 && (6 - 1) % 4 == 1);
    assert(weighted_upto(g, 6) == weighted_upto(g, 5) + g[1][1] * 32);
    assert((7 - 1) / 4 == 1 && (7 - 1) % 4 == 2);
    assert(weighted_upto(g, 7) == weighted_upto(g, 6) + g[1][2] * 64);
    assert((8 - 1) / 4 == 1 && (8 - 1) % 4 == 3);
    assert(weighted_upto(g, 8) == weighted_upto(g, 7) + g[1][3] * 128);
    assert((9 - 1) / 4 == 2 && (9 - 1) % 4 == 0);
    assert(weighted_upto(g, 9) == weighted_upto(g, 8) + g[2][0] * 8);
    assert((10 - 1) / 4 == 2 && (10 - 1) % 4 == 1);
    assert(weighted_upto(g, 10) == weighted_upto(g, 9) + g[2][1] * 4);
    assert((11 - 1) / 4 == 2 && (11 - 1) % 4 == 2);
    assert(weighted_upto(g, 11) == weighted_upto(g, 10) + g[2][2] * 2);
    assert((12 - 1) / 4 == 2 && (12 - 1) % 4 == 3);
    assert(weighted_upto(g, 12) == weighted_upto(g, 11) + g[2][3] * 2);
    assert((13 - 1) / 4 == 3 && (13 - 1) % 4 == 0);
    assert(weighted_upto(g, 13) == weighted_upto(g, 12) + g[3][0] * -8);
    assert((14 - 1) / 4 == 3 && (14 - 1) % 4 == 1);
    assert(weighted_upto(g, 14) == weighted_upto(g, 13) + g[3][1] * -4);
    assert((15 - 1) / 4 == 3 && (15 - 1) % 4 == 2);
    assert(weighted_upto(g, 15) == weighted_upto(g, 14) + g[3][2] * -2);
    assert((16 - 1) / 4 == 3 && (16 - 1) % 4 == 3);
    assert(weighted_upto(g, 16) == weighted_upto(g, 15) + g[3][3] * 0);
}

} // verus!
