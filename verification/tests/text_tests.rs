use game2048::game::{Game, WIN_BOARD};

const RESET: &str = "\x1B[0m";
const FRAME: &str = "\x1B[48;2;194;180;169m";

fn line() -> String {
    format!("{}\n\r", " ".repeat(38))
}

#[test]
fn paddings() {
    let game = Game::new();
    assert_eq!(game.get_left_padding(), format!("{RESET}    "));
    assert_eq!(game.get_line_padding(), line());
    assert_eq!(game.get_line_padding().len(), 40);
    let left = format!("{RESET}    ");
    assert_eq!(game.get_top_padding(), format!("{left}{LINE}{left}{LINE}", LINE = line()));
}

#[test]
fn end_messages() {
    let game = Game::new();
    let left = format!("{RESET}{}", " ".repeat(4));
    assert_eq!(game.win_text(), format!("{RESET}{left}     You win! Final score: 0\r\n\r\n"));
    assert_eq!(game.loss_text(), format!("{RESET}{left}     Game over! Final score: 0\r\n\r\n"));
}

#[test]
fn board_text_of_a_new_game() {
    let game = Game::new();
    let text = game.board_text();
    let left = format!("{RESET}    ");
    let top = format!("{left}{LINE}{left}{LINE}", LINE = line());
    let header = format!(
        "{RESET}\x1B[2J\x1B[1;1H{top}        Score: {:<10}    Moves: {:<6}\n\r{left}{FRAME}{LINE}",
        0,
        0,
        LINE = line()
    );
    assert!(text.starts_with(&header));
    let empty = "\x1B[48;2;208;193;185m";
    let cell = format!("{empty}       {FRAME}  {RESET}");
    let tile_line = format!("{left}{FRAME}  {cell}{cell}{cell}{cell}\n\r");
    let block = format!("{tile_line}{tile_line}{tile_line}{left}{FRAME}{LINE}", LINE = line());
    assert_eq!(text, format!("{header}{block}{block}{block}{block}"));
}

#[test]
fn board_text_shows_tile_values_on_the_middle_line() {
    let mut game = Game::new();
    game.set_board(WIN_BOARD);
    let text = game.board_text();
    let black = "\x1B[38;2;0;0;0m";
    assert!(text.contains(&format!("\x1B[48;2;237;197;63m{black} 1024  {FRAME}  {RESET}")));
    assert!(text.contains(&format!("\x1B[48;2;245;235;225m{black}   2   {FRAME}  {RESET}")));
    assert!(text.contains(&format!("\x1B[48;2;245;148;103m{black}  16   {FRAME}  {RESET}")));
    assert_eq!(text.matches(black).count(), 11);
}
