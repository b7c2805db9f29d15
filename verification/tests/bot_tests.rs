use game2048::bot::{Bot, ACTIONS};
use game2048::game::{Direction, DEBUG_BOARD, EMPTY_BOARD, WIN_BOARD};

#[test]
fn actions_are_up_down_left_right() {
    assert_eq!(ACTIONS, [Direction::Up, Direction::Down, Direction::Left, Direction::Right]);
}

#[test]
fn make_moves_tries_each_action() {
    let mut bot = Bot::new();
    let moves = bot.make_moves(DEBUG_BOARD);
    assert_eq!(moves.len(), 4);
    assert_eq!(moves[0], (true, [[2, 4, 4, 4], [0, 0, 0, 2], [0, 0, 0, 0], [0, 0, 0, 0]], Direction::Up));
    assert_eq!(
        moves[1],
        (true, [[0, 0, 0, 0], [0, 0, 0, 0], [0, 0, 0, 4], [2, 4, 4, 2]], Direction::Down)
    );
    assert_eq!(
        moves[2],
        (true, [[4, 4, 0, 0], [4, 4, 0, 0], [0, 0, 0, 0], [0, 0, 0, 0]], Direction::Left)
    );
    assert_eq!(
        moves[3],
        (true, [[0, 0, 4, 4], [0, 0, 4, 4], [0, 0, 0, 0], [0, 0, 0, 0]], Direction::Right)
    );
    assert_eq!(bot.board(), EMPTY_BOARD);
}

#[test]
fn score_of_a_lost_game_is_minus_9999() {
    // the game of a new player is empty, so no move is possible
    let mut bot = Bot::new();
    assert_eq!(bot.score(WIN_BOARD), -9999);
}

#[test]
fn score_weighs_tiles_and_empty_cells() {
    let mut bot = Bot::new();
    bot.game_mut().set_board(DEBUG_BOARD);
    // 2*1024 + 2*512 + 4*256 + 2*16 + 2*32 + 2*64 + 2*128 + 12 * 9 empty cells
    assert_eq!(bot.score(DEBUG_BOARD), 2048 + 1024 + 1024 + 32 + 64 + 128 + 256 + 108);
    assert_eq!(bot.score(EMPTY_BOARD), 12 * 16);
    let bottom = [[0, 0, 0, 0], [0, 0, 0, 0], [0, 0, 0, 0], [2, 4, 8, 16]];
    assert_eq!(bot.score(bottom), -16 - 16 - 16 + 12 * 12);
}
