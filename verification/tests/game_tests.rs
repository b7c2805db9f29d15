use game2048::game::{Direction, Game, State, DEBUG_BOARD, EMPTY_BOARD, LOSS_BOARD, VMR_TEST, WIN_BOARD};

fn row_board(row: [i32; 4]) -> [[i32; 4]; 4] {
    [row, [0, 0, 0, 0], [0, 0, 0, 0], [0, 0, 0, 0]]
}

fn slide_row(row: [i32; 4]) -> ([i32; 4], i32, bool) {
    let mut game = Game::new();
    let (out, score, moved) = game.left(row_board(row));
    (out[0], score, moved)
}

#[test]
fn left_merges_debug_board() {
    let mut game = Game::new();
    let (out, score, moved) = game.left(DEBUG_BOARD);
    assert_eq!(out, [[4, 4, 0, 0], [4, 4, 0, 0], [0, 0, 0, 0], [0, 0, 0, 0]]);
    assert_eq!(score, 12);
    assert!(moved);
}

#[test]
fn left_merges_each_tile_once() {
    assert_eq!(slide_row([2, 2, 2, 2]), ([4, 4, 0, 0], 8, true));
    assert_eq!(slide_row([2, 2, 4, 4]), ([4, 8, 0, 0], 12, true));
    assert_eq!(slide_row([2, 2, 4, 0]), ([4, 4, 0, 0], 4, true));
    assert_eq!(slide_row([2, 2, 2, 0]), ([4, 2, 0, 0], 4, true));
    assert_eq!(slide_row([4, 4, 8, 0]), ([8, 8, 0, 0], 8, true));
}

#[test]
fn left_packs_over_gaps() {
    assert_eq!(slide_row([0, 0, 0, 2]), ([2, 0, 0, 0], 0, true));
    assert_eq!(slide_row([4, 0, 2, 2]), ([4, 4, 0, 0], 4, true));
    assert_eq!(slide_row([2, 0, 2, 0]), ([4, 0, 0, 0], 4, true));
    assert_eq!(slide_row([2, 0, 4, 0]), ([2, 4, 0, 0], 0, true));
    assert_eq!(slide_row([0, 8, 0, 8]), ([16, 0, 0, 0], 16, true));
}

#[test]
fn left_without_change_gains_nothing() {
    assert_eq!(slide_row([2, 4, 8, 16]), ([2, 4, 8, 16], 0, false));
    assert_eq!(slide_row([2, 4, 0, 0]), ([2, 4, 0, 0], 0, false));
    assert_eq!(slide_row([0, 0, 0, 0]), ([0, 0, 0, 0], 0, false));
    let mut game = Game::new();
    let (out, score, moved) = game.left(EMPTY_BOARD);
    assert_eq!(out, EMPTY_BOARD);
    assert_eq!(score, 0);
    assert!(!moved);
}

#[test]
fn left_with_negative_tiles() {
    assert_eq!(slide_row([-2, -2, 0, 3]), ([-4, 3, 0, 0], -4, true));
}

#[test]
fn move_tiles_in_each_direction() {
    let board = [[2, 0, 0, 2], [0, 4, 0, 0], [2, 0, 0, 0], [0, 0, 0, 8]];
    let mut game = Game::new();
    assert_eq!(
        game.move_tiles(board, Direction::Left, false),
        (true, [[4, 0, 0, 0], [4, 0, 0, 0], [2, 0, 0, 0], [8, 0, 0, 0]])
    );
    assert_eq!(
        game.move_tiles(board, Direction::Right, false),
        (true, [[0, 0, 0, 4], [0, 0, 0, 4], [0, 0, 0, 2], [0, 0, 0, 8]])
    );
    assert_eq!(
        game.move_tiles(board, Direction::Up, false),
        (true, [[4, 4, 0, 2], [0, 0, 0, 8], [0, 0, 0, 0], [0, 0, 0, 0]])
    );
    assert_eq!(
        game.move_tiles(board, Direction::Down, false),
        (true, [[0, 0, 0, 0], [0, 0, 0, 0], [0, 0, 0, 2], [4, 4, 0, 8]])
    );
    assert_eq!(game.get_board(), EMPTY_BOARD);
    assert_eq!(game.get_score(), 0);
    assert_eq!(game.get_moves(), 0);
}

#[test]
fn move_tiles_changes_the_game_when_asked() {
    let mut game = Game::new();
    let (moved, board) = game.move_tiles(DEBUG_BOARD, Direction::Left, true);
    assert!(moved);
    assert_eq!(board, [[4, 4, 0, 0], [4, 4, 0, 0], [0, 0, 0, 0], [0, 0, 0, 0]]);
    assert_eq!(game.get_board(), board);
    assert_eq!(game.get_score(), 12);
    assert_eq!(game.get_moves(), 1);

    let (moved, board) = game.move_tiles(board, Direction::Left, true);
    assert!(moved);
    assert_eq!(board, [[8, 0, 0, 0], [8, 0, 0, 0], [0, 0, 0, 0], [0, 0, 0, 0]]);
    assert_eq!(game.get_score(), 28);
    assert_eq!(game.get_moves(), 2);

    let (moved, board2) = game.move_tiles(board, Direction::Left, true);
    assert!(!moved);
    assert_eq!(board2, board);
    assert_eq!(game.get_score(), 28);
    assert_eq!(game.get_moves(), 2);
}

#[test]
fn moves_keep_the_tile_sum() {
    let mut game = Game::new();
    let sum = |b: [[i32; 4]; 4]| -> i32 { b.iter().map(|r| r.iter().sum::<i32>()).sum() };
    for d in [Direction::Up, Direction::Down, Direction::Left, Direction::Right] {
        for b in [DEBUG_BOARD, WIN_BOARD, VMR_TEST, LOSS_BOARD] {
            let (_, out) = game.move_tiles(b, d, false);
            assert_eq!(sum(out), sum(b));
        }
    }
}

#[test]
fn four_moves_on_a_full_board_change_nothing() {
    let mut game = Game::new();
    let full = [[2, 4, 2, 4], [4, 2, 4, 2], [2, 4, 2, 4], [4, 2, 4, 2]];
    for d in [Direction::Up, Direction::Down, Direction::Left, Direction::Right] {
        assert_eq!(game.move_tiles(full, d, false), (false, full));
    }
}

#[test]
fn get_state_reports_loss_win_and_midgame() {
    let mut game = Game::new();
    game.set_board([[2, 4, 2, 4], [4, 2, 4, 2], [2, 4, 2, 4], [4, 2, 4, 2]]);
    assert_eq!(game.get_state(), State::Loss);
    game.set_board([[2048, 4, 0, 0], [0, 0, 0, 0], [0, 0, 0, 0], [0, 0, 0, 0]]);
    assert_eq!(game.get_state(), State::Win);
    game.set_board(WIN_BOARD);
    assert_eq!(game.get_state(), State::MidGame);
    game.set_board(EMPTY_BOARD);
    assert_eq!(game.get_state(), State::Loss);
    // a 2048 tile on a board without moves is still a loss
    game.set_board([[2048, 4, 2, 4], [4, 2, 4, 2], [2, 4, 2, 4], [4, 2, 4, 2]]);
    assert_eq!(game.get_state(), State::Loss);
}

#[test]
fn spawn_block_fills_one_empty_cell() {
    for _ in 0..50 {
        let mut game = Game::new();
        game.spawn_block();
        let tiles: Vec<i32> = game.get_board().iter().flatten().copied().filter(|&v| v != 0).collect();
        assert_eq!(tiles.len(), 1);
        assert!(tiles[0] == 2 || tiles[0] == 4);
    }
}

#[test]
fn spawn_block_on_a_full_board_changes_nothing() {
    let full = [[2, 4, 2, 4], [4, 2, 4, 2], [2, 4, 2, 4], [4, 2, 4, 2]];
    let mut game = Game::new();
    game.set_board(full);
    game.spawn_block();
    assert_eq!(game.get_board(), full);
}

#[test]
fn spawn_block_keeps_a_move_on_vmr_test() {
    for _ in 0..50 {
        let mut game = Game::new();
        game.set_board(VMR_TEST);
        game.spawn_block();
        assert_ne!(game.get_state(), State::Loss);
        let b = game.get_board();
        assert!(b[3][3] == 2 || b[3][3] == 4);
    }
}

#[test]
fn spawn_block_keeps_a_move_on_loss_board() {
    for _ in 0..50 {
        let mut game = Game::new();
        game.set_board(LOSS_BOARD);
        game.spawn_block();
        assert_ne!(game.get_state(), State::Loss);
    }
}

#[test]
fn place_block_swaps_a_value_that_leaves_no_move() {
    let mut game = Game::new();
    game.set_board(VMR_TEST);
    let spaces = game.empty_spaces();
    assert_eq!(spaces, vec![(3, 3)]);
    // a draw below 10 asks for a 2, which would leave no move
    game.place_block(0, spaces, 0);
    assert_eq!(game.get_board()[3][3], 4);

    let mut game = Game::new();
    game.set_board(VMR_TEST);
    let spaces = game.empty_spaces();
    game.place_block(10, spaces, 0);
    assert_eq!(game.get_board()[3][3], 4);
}

#[test]
fn place_block_puts_the_value_where_asked() {
    let mut game = Game::new();
    game.set_board(LOSS_BOARD);
    let spaces = game.empty_spaces();
    assert_eq!(spaces, vec![(3, 2), (3, 3)]);
    game.place_block(3, spaces, 1);
    let mut expected = LOSS_BOARD;
    expected[3][3] = 2;
    assert_eq!(game.get_board(), expected);

    let mut game = Game::new();
    game.set_board(LOSS_BOARD);
    let spaces = game.empty_spaces();
    game.place_block(10, spaces, 0);
    let mut expected = LOSS_BOARD;
    expected[3][2] = 4;
    assert_eq!(game.get_board(), expected);
}

#[test]
fn empty_spaces_in_reading_order() {
    let mut game = Game::new();
    game.set_board(DEBUG_BOARD);
    let spaces = game.empty_spaces();
    assert_eq!(spaces.len(), 9);
    assert_eq!(spaces[0], (0, 0));
    assert_eq!(spaces[1], (2, 0));
    assert_eq!(spaces[8], (3, 3));
}

#[test]
fn tick_slides_and_adds_a_tile() {
    let mut game = Game::new();
    game.set_board(DEBUG_BOARD);
    assert!(game.within_limits());
    let state = game.tick(Direction::Left);
    assert_eq!(state, State::MidGame);
    let b = game.get_board();
    let added: Vec<i32> = (0..4)
        .flat_map(|r| (0..4).map(move |c| (r, c)))
        .filter(|&(r, c)| (r, c) != (0, 0) && (r, c) != (0, 1) && (r, c) != (1, 0) && (r, c) != (1, 1))
        .map(|(r, c)| b[r][c])
        .filter(|&v| v != 0)
        .collect();
    assert_eq!(&b[0][..2], &[4, 4]);
    assert_eq!(&b[1][..2], &[4, 4]);
    assert_eq!(added.len(), 1);
    assert!(added[0] == 2 || added[0] == 4);
    assert_eq!(game.get_score(), 12);
    assert_eq!(game.get_moves(), 1);
}

#[test]
fn tick_without_change_adds_nothing() {
    let mut game = Game::new();
    let board = [[2, 4, 0, 0], [0, 0, 0, 0], [0, 0, 0, 0], [0, 0, 0, 0]];
    game.set_board(board);
    assert_eq!(game.tick(Direction::Left), State::MidGame);
    assert_eq!(game.get_board(), board);
    assert_eq!(game.get_moves(), 0);
}

#[test]
fn tick_reports_a_win() {
    let mut game = Game::new();
    game.set_board([[1024, 1024, 0, 0], [0, 0, 0, 0], [0, 0, 0, 0], [0, 0, 0, 0]]);
    assert_eq!(game.tick(Direction::Left), State::Win);
    assert_eq!(game.get_board()[0][0], 2048);
    assert_eq!(game.get_score(), 2048);
}

#[test]
fn within_limits_refuses_huge_tiles() {
    let mut game = Game::new();
    assert!(game.within_limits());
    game.set_board([[1 << 25, 0, 0, 0], [0, 0, 0, 0], [0, 0, 0, 0], [0, 0, 0, 0]]);
    assert!(!game.within_limits());
}

#[test]
fn transpose_twice_and_four_quarter_turns_give_the_board_back() {
    let game = Game::new();
    for b in [DEBUG_BOARD, WIN_BOARD, VMR_TEST, LOSS_BOARD] {
        assert_eq!(game.transpose(game.transpose(b)), b);
        let once = game.rotate_clockwise(b);
        assert_ne!(once, b);
        assert_eq!(game.rotate_clockwise(game.rotate_clockwise(game.rotate_clockwise(once))), b);
    }
    assert_eq!(
        game.rotate_clockwise([[1, 2, 3, 4], [5, 6, 7, 8], [9, 10, 11, 12], [13, 14, 15, 16]]),
        [[13, 9, 5, 1], [14, 10, 6, 2], [15, 11, 7, 3], [16, 12, 8, 4]]
    );
    assert_eq!(
        game.transpose([[1, 2, 3, 4], [5, 6, 7, 8], [9, 10, 11, 12], [13, 14, 15, 16]]),
        [[1, 5, 9, 13], [2, 6, 10, 14], [3, 7, 11, 15], [4, 8, 12, 16]]
    );
}

#[test]
fn valid_state_tries_the_four_moves() {
    let mut game = Game::new();
    let full = [[2, 4, 2, 4], [4, 2, 4, 2], [2, 4, 2, 4], [4, 2, 4, 2]];
    assert!(!game.valid_state(full));
    assert!(!game.valid_state(EMPTY_BOARD));
    assert!(game.valid_state(VMR_TEST));
    let mut merge_only = full;
    merge_only[3][3] = 4;
    assert!(game.valid_state(merge_only));
}

#[test]
fn a_new_tile_on_a_board_with_two_empty_cells_leaves_a_move() {
    for _ in 0..50 {
        let mut game = Game::new();
        let mut board = [[2, 4, 2, 4], [4, 2, 4, 2], [2, 4, 2, 4], [4, 2, 4, 2]];
        board[0][0] = 0;
        board[3][3] = 0;
        game.set_board(board);
        game.spawn_block();
        assert_ne!(game.get_state(), State::Loss);
    }
}

#[test]
fn drawable_boards() {
    let mut game = Game::new();
    assert!(game.drawable());
    game.set_board(WIN_BOARD);
    assert!(game.drawable());
    game.set_board([[-1, 0, 0, 0], [0, 0, 0, 0], [0, 0, 0, 0], [0, 0, 0, 0]]);
    assert!(game.drawable());
    game.set_board([[4096, 0, 0, 0], [0, 0, 0, 0], [0, 0, 0, 0], [0, 0, 0, 0]]);
    assert!(!game.drawable());
    game.set_board([[3, 0, 0, 0], [0, 0, 0, 0], [0, 0, 0, 0], [0, 0, 0, 0]]);
    assert!(!game.drawable());
}
