use vstd::prelude::*;

verus! {

/// The character of the decimal digit `d`.
pub open spec fn digit_char(d: int) -> char {
    (48 + d) as char
}

/// The decimal digits of `n`, without leading zeros.
pub open spec fn digits(n: nat) -> Seq<char>
    decreases n,
{
    if n < 10 {
        seq![digit_char(n as int)]
    } else {
        digits(n / 10).push(digit_char((n % 10) as int))
    }
}

/// `n` written in decimal, with a leading `-` when negative.
pub open spec fn decimal(n: int) -> Seq<char> {
    if n < 0 {
        seq!['-'] + digits((-n) as nat)
    } else {
        digits(n as nat)
    }
}

/// `n` spaces; none when `n` is not positive.
pub open spec fn spaces(n: int) -> Seq<char> {
    Seq::new(if n > 0 { n as nat } else { 0 }, |i: int| ' ')
}

/// `s` written `n` times.
pub open spec fn repeat(s: Seq<char>, n: nat) -> Seq<char>
    decreases n,
{
    if n == 0 {
        Seq::empty()
    } else {
        repeat(s, (n - 1) as nat) + s
    }
}

/// `s` followed by spaces up to `width` characters.
pub open spec fn pad_right(s: Seq<char>, width: int) -> Seq<char> {
    s + spaces(width - s.len())
}

/// `s` between spaces up to `width` characters; an odd space goes to the right.
pub open spec fn center(s: Seq<char>, width: int) -> Seq<char> {
    let room = width - s.len();
    if room > 0 {
        spaces(room / 2) + s + spaces(room - room / 2)
    } else {
        s
    }
}

/// The left margin: the colours reset, then `padding` spaces.
pub open spec fn left_padding_text(reset: Seq<char>, padding: int) -> Seq<char> {
    reset + spaces(padding)
}

/// One empty line as wide as the board and its margin.
pub open spec fn line_padding_text() -> Seq<char> {
    repeat("         "@, 4) + "  "@ + "\n\r"@
}

/// The empty lines above the board: one for every two cells of margin.
pub open spec fn top_padding_text(reset: Seq<char>, padding: int) -> Seq<char> {
    repeat(
        left_padding_text(reset, padding) + line_padding_text(),
        if padding > 0 {
            (padding / 2) as nat
        } else {
            0
        },
    )
}

/// One cell on line `i` of the three lines a row of tiles takes: the tile's
/// background, its value in black on the middle line of a non-empty tile,
/// then the frame colour between tiles.
pub open spec fn cell_text(p: Map<i32, Seq<char>>, black: Seq<char>, reset: Seq<char>, v: i32, i: int) -> Seq<char> {
    p[v] + (if i == 1 && v > 0 {
        black + center(decimal(v as int), 7)
    } else {
        "       "@
    }) + p[-1i32] + "  "@ + reset
}

/// The first `n` cells of a row on line `i`.
pub open spec fn cells_text(
    p: Map<i32, Seq<char>>,
    black: Seq<char>,
    reset: Seq<char>,
    row: Seq<i32>,
    i: int,
    n: nat,
) -> Seq<char>
    decreases n,
{
    if n == 0 {
        Seq::empty()
    } else {
        cells_text(p, black, reset, row, i, (n - 1) as nat) + cell_text(p, black, reset, row[n - 1], i)
    }
}

/// Line `i` of a row of tiles, margin and frame included.
pub open spec fn tile_line(
    p: Map<i32, Seq<char>>,
    black: Seq<char>,
    reset: Seq<char>,
    padding: int,
    row: Seq<i32>,
    i: int,
) -> Seq<char> {
    left_padding_text(reset, padding) + p[-1i32] + "  "@ + cells_text(p, black, reset, row, i, 4) + "\n\r"@
}

/// The first `n` lines of a row of tiles.
pub open spec fn tile_lines(
    p: Map<i32, Seq<char>>,
    black: Seq<char>,
    reset: Seq<char>,
    padding: int,
    row: Seq<i32>,
    n: nat,
) -> Seq<char>
    decreases n,
{
    if n == 0 {
        Seq::empty()
    } else {
        tile_lines(p, black, reset, padding, row, (n - 1) as nat) + tile_line(
            p,
            black,
            reset,
            padding,
            row,
            n - 1,
        )
    }
}

/// A row of tiles: three lines, then a line of frame below it.
pub open spec fn row_block(
    p: Map<i32, Seq<char>>,
    black: Seq<char>,
    reset: Seq<char>,
    padding: int,
    row: Seq<i32>,
) -> Seq<char> {
    tile_lines(p, black, reset, padding, row, 3) + left_padding_text(reset, padding) + p[-1i32]
        + line_padding_text()
}

/// The first `n` rows of the board.
pub open spec fn rows_text(
    p: Map<i32, Seq<char>>,
    black: Seq<char>,
    reset: Seq<char>,
    padding: int,
    board: [[i32; 4]; 4],
    n: nat,
) -> Seq<char>
    decreases n,
{
    if n == 0 {
        Seq::empty()
    } else {
        rows_text(p, black, reset, padding, board, (n - 1) as nat) + row_block(
            p,
            black,
            reset,
            padding,
            board[n - 1]@,
        )
    }
}

/// The screen cleared, the empty lines above the board, the score and the
/// number of moves, and the line of frame above the tiles.
pub open spec fn header_text(
    p: Map<i32, Seq<char>>,
    reset: Seq<char>,
    padding: int,
    score: int,
    moves: int,
) -> Seq<char> {
    reset + "\x1B[2J\x1B[1;1H"@ + top_padding_text(reset, padding) + "        "@ + "Score: "@ + pad_right(
        decimal(score),
        10,
    ) + "    "@ + "Moves: "@ + pad_right(decimal(moves), 6) + "\n\r"@ + left_padding_text(reset, padding)
        + p[-1i32] + line_padding_text()
}

/// The whole screen showing a game.
pub open spec fn screen_text(
    p: Map<i32, Seq<char>>,
    black: Seq<char>,
    reset: Seq<char>,
    padding: int,
    score: int,
    moves: int,
    board: [[i32; 4]; 4],
) -> Seq<char> {
    header_text(p, reset, padding, score, moves) + rows_text(p, black, reset, padding, board, 4)
}

/// The message at the end of a game: the colours reset, the margin, `words`,
/// the final score, and an empty line.
pub open spec fn end_text(reset: Seq<char>, padding: int, words: Seq<char>, score: int) -> Seq<char> {
    reset + left_padding_text(reset, padding) + words + decimal(score) + "\r\n"@ + "\r\n"@
}

/// `format!("{:<width$}", n)`: `n` in decimal, padded with spaces on the right
/// to `width` characters.
#[verifier::external_body]
pub(crate) fn left_aligned(n: i32, width: usize) -> (s: String)
    ensures
        s@ == pad_right(decimal(n as int), width as int),
{
    format!("{:<width$}", n)
}

/// `format!("{:^width$}", n)`: `n` in decimal, centred between spaces in
/// `width` characters, an odd space to the right.
#[verifier::external_body]
pub(crate) fn centered(n: i32, width: usize) -> (s: String)
    ensures
        s@ == center(decimal(n as int), width as int),
{
    format!("{:^width$}", n)
}

/// The screen begins with the colours reset, the screen cleared and the empty
/// lines above the board, then shows `Score: ` followed by the score in
/// decimal, padded to ten characters, then `Moves: ` followed by the number of
/// moves in decimal, padded to six, and ends that line.
pub proof fn law_screen_shows_score_then_moves(
    p: Map<i32, Seq<char>>,
    black: Seq<char>,
    reset: Seq<char>,
    padding: int,
    score: int,
    moves: int,
    board: [[i32; 4]; 4],
)
    ensures
        (reset + "\x1B[2J\x1B[1;1H"@ + top_padding_text(reset, padding) + "        "@ + "Score: "@
            + decimal(score) + spaces(10 - decimal(score).len()) + "    "@ + "Moves: "@ + decimal(
            moves,
        ) + spaces(6 - decimal(moves).len()) + "\n\r"@).is_prefix_of(
            screen_text(p, black, reset, padding, score, moves, board),
        ),
{
    let head = reset + "\x1B[2J\x1B[1;1H"@ + top_padding_text(reset, padding) + "        "@ + "Score: "@
        + decimal(score) + spaces(10 - decimal(score).len()) + "    "@ + "Moves: "@ + decimal(moves)
        + spaces(6 - decimal(moves).len()) + "\n\r"@;
    let rest = left_padding_text(reset, padding) + p[-1i32] + line_padding_text() + rows_text(
        p,
        black,
        reset,
        padding,
        board,
        4,
    );
    let screen = screen_text(p, black, reset, padding, score, moves, board);
    assert(screen =~= head + rest);
    assert(head =~= screen.subrange(0, head.len() as int));
}

/// The message at the end of a game ends with the final score in decimal and
/// an empty line.
pub proof fn law_end_text_ends_with_score(reset: Seq<char>, padding: int, words: Seq<char>, score: int)
    ensures
        (words + decimal(score) + "\r\n\r\n"@).is_suffix_of(end_text(reset, padding, words, score)),
{
    reveal_strlit("\r\n");
    reveal_strlit("\r\n\r\n");
    let start = reset + left_padding_text(reset, padding);
    let tail = words + decimal(score) + "\r\n\r\n"@;
    let whole = end_text(reset, padding, words, score);
    assert(whole =~= start + tail);
    assert(tail =~= whole.subrange(whole.len() - tail.len(), whole.len() as int));
}

/// An empty line of the board is 38 spaces and the line break.
pub proof fn law_line_padding_is_38_spaces()
    ensures
        line_padding_text() == spaces(38) + "\n\r"@,
{
    reveal_strlit("         ");
    reveal_strlit("  ");
    reveal_with_fuel(repeat, 5);
    assert(line_padding_text() =~= spaces(38) + "\n\r"@);
}

/// A tile shows its value, in black and centred in seven characters, on the
/// middle of its three lines, and only when it is not empty; otherwise its
/// colour is followed by seven spaces.
pub proof fn law_tile_value_on_middle_line(
    p: Map<i32, Seq<char>>,
    black: Seq<char>,
    reset: Seq<char>,
    v: i32,
    i: int,
)
    ensures
        i == 1 && v > 0 ==> (p[v] + black + center(decimal(v as int), 7)).is_prefix_of(
            cell_text(p, black, reset, v, i),
        ),
        i != 1 || v <= 0 ==> (p[v] + spaces(7)).is_prefix_of(cell_text(p, black, reset, v, i)),
{
    reveal_strlit("       ");
    let cell = cell_text(p, black, reset, v, i);
    let tail = p[-1i32] + "  "@ + reset;
    if i == 1 && v > 0 {
        let head = p[v] + black + center(decimal(v as int), 7);
        assert(cell =~= head + tail);
        assert(head =~= cell.subrange(0, head.len() as int));
    } else {
        let head = p[v] + spaces(7);
        assert("       "@ =~= spaces(7));
        assert(cell =~= head + tail);
        assert(head =~= cell.subrange(0, head.len() as int));
    }
}

} // verus!
