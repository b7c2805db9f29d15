use game2048::cli::{direction_for, parse_args, quits, ArgError, Key, Mode};
use game2048::game::Direction;

fn args(words: &[&str]) -> Vec<String> {
    words.iter().map(|w| w.to_string()).collect()
}

#[test]
fn no_arguments_is_a_normal_game() {
    assert_eq!(parse_args(&args(&["2048"])), Ok((Mode::Normal, 0, 0)));
}

#[test]
fn bot_with_defaults() {
    assert_eq!(parse_args(&args(&["2048", "bot"])), Ok((Mode::Bot, 2, 20)));
    assert_eq!(parse_args(&args(&["2048", "BoT"])), Ok((Mode::Bot, 2, 20)));
}

#[test]
fn depth_and_delay() {
    assert_eq!(parse_args(&args(&["2048", "bot", "depth=3", "delay=5"])), Ok((Mode::Bot, 3, 5)));
    assert_eq!(parse_args(&args(&["2048", "depth=4"])), Ok((Mode::Endless, 4, 20)));
    assert_eq!(parse_args(&args(&["2048", "depth=-1"])), Ok((Mode::Endless, -1, 20)));
    assert_eq!(parse_args(&args(&["2048", "depth=+7", "delay=0"])), Ok((Mode::Endless, 7, 0)));
    assert_eq!(parse_args(&args(&["2048", "depth=1=2"])), Ok((Mode::Endless, 1, 20)));
    assert_eq!(parse_args(&args(&["2048", "delay=1", "delay=9"])), Ok((Mode::Endless, 2, 9)));
}

#[test]
fn refused_arguments() {
    assert_eq!(parse_args(&args(&["2048", "depth"])), Err(ArgError::BadForm));
    assert_eq!(parse_args(&args(&["2048", "depth=x"])), Err(ArgError::NotAnInteger));
    assert_eq!(parse_args(&args(&["2048", "depth="])), Err(ArgError::NotAnInteger));
    assert_eq!(parse_args(&args(&["2048", "delay=-1"])), Err(ArgError::NotAnInteger));
    assert_eq!(parse_args(&args(&["2048", "depth=99999999999"])), Err(ArgError::NotAnInteger));
    assert_eq!(parse_args(&args(&["2048", "speed=1"])), Err(ArgError::UnknownArgument));
    assert_eq!(parse_args(&args(&["2048", "Depth=1"])), Err(ArgError::UnknownArgument));
    assert_eq!(parse_args(&args(&["2048", "depth", "speed=1"])), Err(ArgError::BadForm));
}

#[test]
fn error_messages() {
    assert_eq!(ArgError::BadForm.message(), "expected arguement form [variable]=[value].");
    assert_eq!(ArgError::NotAnInteger.message(), "expected integer on rhs of arguement");
    assert_eq!(ArgError::UnknownArgument.message(), "unexpected arguement");
}

#[test]
fn keys_to_directions() {
    for (k, d) in [
        (Key::Char('w'), Direction::Up),
        (Key::Char('k'), Direction::Up),
        (Key::Up, Direction::Up),
        (Key::Char('s'), Direction::Down),
        (Key::Char('j'), Direction::Down),
        (Key::Down, Direction::Down),
        (Key::Char('a'), Direction::Left),
        (Key::Char('h'), Direction::Left),
        (Key::Left, Direction::Left),
        (Key::Char('d'), Direction::Right),
        (Key::Char('l'), Direction::Right),
        (Key::Right, Direction::Right),
    ] {
        assert_eq!(direction_for(k), Some(d));
    }
    assert_eq!(direction_for(Key::Char('W')), None);
    assert_eq!(direction_for(Key::Esc), None);
    assert_eq!(direction_for(Key::Other), None);
}

#[test]
fn quitting_keys() {
    assert!(quits(Key::Esc, false));
    assert!(quits(Key::Char('c'), true));
    assert!(!quits(Key::Char('c'), false));
    assert!(!quits(Key::Char('q'), true));
}
