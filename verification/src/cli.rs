use vstd::prelude::*;
use crate::game::Direction;
use crate::text::{decimal, digits, digit_char};

verus! {

/// How the program runs.
#[derive(Clone, Copy, Debug, PartialEq, Eq, Structural)]
pub enum Mode {
    Normal,
    Endless,
    Bot,
}

/// Why the command line was refused.
#[derive(Clone, Copy, Debug, PartialEq, Eq, Structural)]
pub enum ArgError {
    /// An argument other than `bot` without `=`.
    BadForm,
    /// A `depth` or `delay` whose value is not an integer of its type.
    NotAnInteger,
    /// A `name=value` argument whose name is neither `depth` nor `delay`.
    UnknownArgument,
}

impl ArgError {
    /// The words the program stops with.
    pub fn message(&self) -> (m: &'static str)
        ensures
            m@ == match self {
                ArgError::BadForm => "expected arguement form [variable]=[value]."@,
                ArgError::NotAnInteger => "expected integer on rhs of arguement"@,
                ArgError::UnknownArgument => "unexpected arguement"@,
            },
    {
        match self {
            ArgError::BadForm => "expected arguement form [variable]=[value].",
            ArgError::NotAnInteger => "expected integer on rhs of arguement",
            ArgError::UnknownArgument => "unexpected arguement",
        }
    }
}

/// `c` in lower case when it is an ASCII capital letter.
pub open spec fn lower_char(c: char) -> char {
    if 'A' <= c <= 'Z' {
        ((c as int) + 32) as char
    } else {
        c
    }
}

/// `s` with its ASCII capital letters in lower case.
pub open spec fn lowercase(s: Seq<char>) -> Seq<char> {
    s.map_values(|c: char| lower_char(c))
}

/// The pieces of `s` between the characters `sep`; as many pieces as
/// separators plus one.
pub open spec fn split_on(s: Seq<char>, sep: char) -> Seq<Seq<char>>
    decreases s.len(),
{
    if s.len() == 0 {
        seq![Seq::empty()]
    } else {
        let prev = split_on(s.drop_last(), sep);
        if s.last() == sep {
            prev.push(Seq::empty())
        } else {
            prev.update(prev.len() - 1, prev.last().push(s.last()))
        }
    }
}

pub open spec fn is_digit(c: char) -> bool {
    '0' <= c <= '9'
}

/// The value of a string of decimal digits.
pub open spec fn digits_value(s: Seq<char>) -> int
    decreases s.len(),
{
    if s.len() == 0 {
        0
    } else {
        digits_value(s.drop_last()) * 10 + (s.last() as int - 48)
    }
}

/// One or more decimal digits.
pub open spec fn all_digits(s: Seq<char>) -> bool {
    s.len() > 0 && forall|i: int| 0 <= i < s.len() ==> is_digit(#[trigger] s[i])
}

/// `s` without its leading sign: `+`, or `-` when `signed`.
pub open spec fn unsigned_part(s: Seq<char>, signed: bool) -> Seq<char> {
    if s.len() > 0 && (s[0] == '+' || (signed && s[0] == '-')) {
        s.drop_first()
    } else {
        s
    }
}

/// The integer that `s` writes: an optional sign (`-` only when `signed`)
/// followed by one or more decimal digits; `None` for anything else.
pub open spec fn integer_text(s: Seq<char>, signed: bool) -> Option<int> {
    let negative = signed && s.len() > 0 && s[0] == '-';
    let body = unsigned_part(s, signed);
    if all_digits(body) {
        Some(if negative { -digits_value(body) } else { digits_value(body) })
    } else {
        None
    }
}

/// `str::parse::<i32>`: the integer `s` writes, when it is an `i32`.
pub open spec fn i32_text(s: Seq<char>) -> Option<int> {
    match integer_text(s, true) {
        Some(v) => if i32::MIN <= v <= i32::MAX {
            Some(v)
        } else {
            None
        },
        None => None,
    }
}

/// `str::parse::<u64>`: the integer `s` writes, when it is a `u64`.
pub open spec fn u64_text(s: Seq<char>) -> Option<int> {
    match integer_text(s, false) {
        Some(v) => if v <= u64::MAX {
            Some(v)
        } else {
            None
        },
        None => None,
    }
}

/// The settings after one more argument.
pub open spec fn apply_arg(st: (Mode, int, int), a: Seq<char>) -> Result<(Mode, int, int), ArgError> {
    if lowercase(a) == "bot"@ {
        Ok((Mode::Bot, st.1, st.2))
    } else {
        let p = split_on(a, '=');
        if p.len() == 1 {
            Err(ArgError::BadForm)
        } else if p[0] == "depth"@ {
            match i32_text(p[1]) {
                Some(v) => Ok((st.0, v, st.2)),
                None => Err(ArgError::NotAnInteger),
            }
        } else if p[0] == "delay"@ {
            match u64_text(p[1]) {
                Some(v) => Ok((st.0, st.1, v)),
                None => Err(ArgError::NotAnInteger),
            }
        } else {
            Err(ArgError::UnknownArgument)
        }
    }
}

/// The settings after the arguments `args[1..n]`: bot mode, the search
/// depth and the delay between moves, starting from endless mode, depth 2
/// and 20 ms; the first refused argument stops.
pub open spec fn args_upto(args: Seq<Seq<char>>, n: int) -> Result<(Mode, int, int), ArgError>
    decreases n,
{
    if n <= 1 {
        Ok((Mode::Endless, 2, 20))
    } else {
        match args_upto(args, n - 1) {
            Ok(st) => apply_arg(st, args[n - 1]),
            Err(e) => Err(e),
        }
    }
}

/// The settings the command line `args` (the program's name first) asks for:
/// a normal game when there is nothing after the name.
pub open spec fn command_line(args: Seq<Seq<char>>) -> Result<(Mode, int, int), ArgError> {
    if args.len() == 1 {
        Ok((Mode::Normal, 0, 0))
    } else {
        args_upto(args, args.len() as int)
    }
}

proof fn lemma_split_nonempty(s: Seq<char>, sep: char)
    ensures
        split_on(s, sep).len() >= 1,
    decreases s.len(),
{
    if s.len() > 0 {
        lemma_split_nonempty(s.drop_last(), sep);
    }
}

proof fn lemma_refusal_stops(args: Seq<Seq<char>>, n: int, m: int)
    requires
        n <= m,
        args_upto(args, n) is Err,
    ensures
        args_upto(args, m) == args_upto(args, n),
    decreases m - n,
{
    if n < m {
        lemma_refusal_stops(args, n, m - 1);
    }
}

/// `str::to_ascii_lowercase`: the text with ASCII capitals in lower case.
#[verifier::external_body]
fn ascii_lowercase(s: &str) -> (r: String)
    ensures
        r@ == lowercase(s@),
{
    s.to_ascii_lowercase()
}

/// `str::split("=")`: the pieces of `s` between the `=` signs, in order.
#[verifier::external_body]
fn split_at_equals<'a>(s: &'a str) -> (r: Vec<&'a str>)
    ensures
        r@.len() == split_on(s@, '=').len(),
        forall|i: int| 0 <= i < r@.len() ==> (#[trigger] r@[i])@ == split_on(s@, '=')[i],
{
    s.split("=").collect()
}

/// `str::parse::<i32>`, `None` for an error.
#[verifier::external_body]
fn parse_i32(s: &str) -> (r: Option<i32>)
    ensures
        match r {
            Some(v) => i32_text(s@) == Some(v as int),
            None => i32_text(s@) is None,
        },
{
    s.parse::<i32>().ok()
}

/// `str::parse::<u64>`, `None` for an error.
#[verifier::external_body]
fn parse_u64(s: &str) -> (r: Option<u64>)
    ensures
        match r {
            Some(v) => u64_text(s@) == Some(v as int),
            None => u64_text(s@) is None,
        },
{
    s.parse::<u64>().ok()
}

/// Reads the command line, the program's name first: `bot` plays by itself,
/// `depth=N` and `delay=N` set how far it looks ahead and how many
/// milliseconds it waits between moves; without arguments a normal game.
pub fn parse_args(args: &Vec<String>) -> (res: Result<(Mode, i32, u64), ArgError>)
    ensures
        match res {
            Ok((mode, depth, delay)) => command_line(args@.map_values(|s: String| s@)) == Ok::<
                (Mode, int, int),
                ArgError,
            >((mode, depth as int, delay as int)),
            Err(e) => command_line(args@.map_values(|s: String| s@)) == Err::<
                (Mode, int, int),
                ArgError,
            >(e),
        },
{
    let ghost words = args@.map_values(|s: String| s@);
    if args.len() == 1 {
        return Ok((Mode::Normal, 0, 0));
    }
    let mut depth: i32 = 2;
    let mut delay: u64 = 20;
    let mut mode = Mode::Endless;
    let bot_word = "bot".to_owned();
    let depth_word = "depth".to_owned();
    let delay_word = "delay".to_owned();
    let mut n: usize = 1;
    while n < args.len()
        invariant
            1 <= n <= args@.len() || (n == 1 && args@.len() == 0),
            words == args@.map_values(|s: String| s@),
            bot_word@ == "bot"@,
            depth_word@ == "depth"@,
            delay_word@ == "delay"@,
            args_upto(words, n as int) == Ok::<(Mode, int, int), ArgError>(
                (mode, depth as int, delay as int),
            ),
        decreases args@.len() - n,
    {
        let arg = &args[n];
        assert(words[n as int] == arg@);
        if ascii_lowercase(arg.as_str()) == bot_word {
            mode = Mode::Bot;
        } else {
            let a = split_at_equals(arg.as_str());
            proof {
                lemma_split_nonempty(arg@, '=');
            }

            if a.len() == 1 {
                proof {
                    lemma_refusal_stops(words, n + 1, words.len() as int);
                }
                return Err(ArgError::BadForm);
            }
            assert(a@[0]@ == split_on(arg@, '=')[0]);
            assert(a@[1]@ == split_on(arg@, '=')[1]);
            let name = a[0].to_owned();
            if name == depth_word {
                match parse_i32(a[1]) {
                    Some(v) => depth = v,
                    None => {
                        proof {
                            lemma_refusal_stops(words, n + 1, words.len() as int);
                        }
                        return Err(ArgError::NotAnInteger);
                    },
                }
            } else if name == delay_word {
                match parse_u64(a[1]) {
                    Some(v) => delay = v,
                    None => {
                        proof {
                            lemma_refusal_stops(words, n + 1, words.len() as int);
                        }
                        return Err(ArgError::NotAnInteger);
                    },
                }
            } else {
                proof {
                    lemma_refusal_stops(words, n + 1, words.len() as int);
                }
                return Err(ArgError::UnknownArgument);
            }
        }
        n += 1;
    }
    Ok((mode, depth, delay))
}

/// A key as the game reads it.
#[derive(Clone, Copy, Debug, PartialEq, Eq, Structural)]
pub enum Key {
    Char(char),
    Up,
    Down,
    Left,
    Right,
    Esc,
    Other,
}

/// The move a key asks for: w, k or the up arrow up; s, j or the down arrow
/// down; a, h or the left arrow left; d, l or the right arrow right.
pub open spec fn key_direction(key: Key) -> Option<Direction> {
    match key {
        Key::Char('w') | Key::Up | Key::Char('k') => Some(Direction::Up),
        Key::Char('s') | Key::Down | Key::Char('j') => Some(Direction::Down),
        Key::Char('a') | Key::Left | Key::Char('h') => Some(Direction::Left),
        Key::Char('d') | Key::Right | Key::Char('l') => Some(Direction::Right),
        _ => None,
    }
}

/// The move a key asks for, if any.
pub fn direction_for(key: Key) -> (res: Option<Direction>)
    ensures
        res == key_direction(key),
{
    match key {
        Key::Char('w') | Key::Up | Key::Char('k') => Some(Direction::Up),
        Key::Char('s') | Key::Down | Key::Char('j') => Some(Direction::Down),
        Key::Char('a') | Key::Left | Key::Char('h') => Some(Direction::Left),
        Key::Char('d') | Key::Right | Key::Char('l') => Some(Direction::Right),
        _ => None,
    }
}

/// Whether a key ends the game: control-c, or escape.
pub fn quits(key: Key, control: bool) -> (res: bool)
    ensures
        res == (key == Key::Char('c') && control || key == Key::Esc),
{
    key == Key::Char('c') && control || key == Key::Esc
}

/// The word `bot`, in any mix of cases, only switches to bot mode: the depth
/// and delay set before it stay.
pub proof fn law_bot_keeps_settings(st: (Mode, int, int), a: Seq<char>)
    requires
        lowercase(a) == "bot"@,
    ensures
        apply_arg(st, a) == Ok::<(Mode, int, int), ArgError>((Mode::Bot, st.1, st.2)),
{
}

/// `bot` itself only switches to bot mode, whatever the depth and delay so far.
pub proof fn law_bot_word_keeps_settings(st: (Mode, int, int))
    ensures
        apply_arg(st, "bot"@) == Ok::<(Mode, int, int), ArgError>((Mode::Bot, st.1, st.2)),
{
    reveal_strlit("bot");
    assert(lowercase("bot"@) =~= "bot"@);
}

proof fn lemma_more_args_same_prefix(args: Seq<Seq<char>>, a: Seq<char>, n: int)
    requires
        n <= args.len(),
    ensures
        args_upto(args.push(a), n) == args_upto(args, n),
    decreases n,
{
    if n > 1 {
        lemma_more_args_same_prefix(args, a, n - 1);
        assert(args.push(a)[n - 1] == args[n - 1]);
    }
}

/// Adding `bot` at the end of a command line that has arguments keeps the
/// depth and delay it sets, or the refusal it gets.
pub proof fn law_bot_appended(args: Seq<Seq<char>>, a: Seq<char>)
    requires
        args.len() >= 2,
        lowercase(a) == "bot"@,
    ensures
        command_line(args) is Err ==> command_line(args.push(a)) == command_line(args),
        command_line(args) is Ok ==> command_line(args.push(a)) == Ok::<(Mode, int, int), ArgError>(
            (Mode::Bot, command_line(args)->Ok_0.1, command_line(args)->Ok_0.2),
        ),
{
    lemma_more_args_same_prefix(args, a, args.len() as int);
    assert(args.push(a)[args.len() as int] == a);
}

proof fn lemma_split_plain_tail(a: Seq<char>, s: Seq<char>, sep: char)
    requires
        forall|i: int| 0 <= i < s.len() ==> #[trigger] s[i] != sep,
    ensures
        split_on(a + s, sep) == split_on(a, sep).update(
            split_on(a, sep).len() - 1,
            split_on(a, sep).last() + s,
        ),
    decreases s.len(),
{
    lemma_split_nonempty(a, sep);
    if s.len() == 0 {
        assert(a + s =~= a);
        assert(split_on(a, sep).last() + s =~= split_on(a, sep).last());
        assert(split_on(a, sep).update(split_on(a, sep).len() - 1, split_on(a, sep).last()) =~= split_on(
            a,
            sep,
        ));
    } else {
        lemma_split_plain_tail(a, s.drop_last(), sep);
        assert((a + s).drop_last() =~= a + s.drop_last());
        assert((a + s).last() == s.last());
        let p = split_on(a, sep);
        let prev = split_on(a + s.drop_last(), sep);
        assert(prev == p.update(p.len() - 1, p.last() + s.drop_last()));
        assert(s.last() != sep);
        assert(split_on(a + s, sep) == prev.update(prev.len() - 1, prev.last().push(s.last())));
        assert(prev.last() == p.last() + s.drop_last());
        assert((p.last() + s.drop_last()).push(s.last()) =~= p.last() + s);
        assert(split_on(a + s, sep) =~= p.update(p.len() - 1, p.last() + s));
    }
}

proof fn lemma_number_has_no_equals(s: Seq<char>, signed: bool)
    requires
        integer_text(s, signed) is Some,
    ensures
        forall|i: int| 0 <= i < s.len() ==> #[trigger] s[i] != '=',
{
    let body = unsigned_part(s, signed);
    assert(all_digits(body));
    assert forall|i: int| 0 <= i < s.len() implies #[trigger] s[i] != '=' by {
        if s.len() > 0 && (s[0] == '+' || (signed && s[0] == '-')) {
            if i > 0 {
                assert(s[i] == body[i - 1]);
                assert(is_digit(body[i - 1]));
            }
        } else {
            assert(is_digit(body[i]));
        }
    }
}

/// `depth=N`, for `N` an `i32` in decimal, sets the depth to `N` and keeps the mode and the delay.
pub proof fn law_depth_argument(st: (Mode, int, int), s: Seq<char>, v: int)
    requires
        i32_text(s) == Some(v),
    ensures
        apply_arg(st, "depth="@ + s) == Ok::<(Mode, int, int), ArgError>((st.0, v, st.2)),
{
    reveal_strlit("depth=");
    reveal_strlit("depth");
    reveal_strlit("bot");
    lemma_number_has_no_equals(s, true);
    let a = "depth="@;
    let w = "depth"@;
    assert(a =~= w.push('='));
    assert(forall|i: int| 0 <= i < w.len() ==> #[trigger] w[i] != '=');
    lemma_split_plain_tail(Seq::empty(), w, '=');
    assert(Seq::<char>::empty() + w =~= w);
    assert(split_on(w, '=') =~= seq![w]);
    assert(a.drop_last() =~= w);
    assert(split_on(a, '=') == split_on(w, '=').push(Seq::empty()));
    lemma_split_plain_tail(a, s, '=');
    assert(split_on(a, '=') =~= seq![w, Seq::empty()]);
    assert(split_on(a, '=').last() + s =~= s);
    assert(lowercase(a + s).len() != "bot"@.len());
}

/// `delay=N`, for `N` a `u64` in decimal, sets the delay to `N` and keeps the mode and the depth.
pub proof fn law_delay_argument(st: (Mode, int, int), s: Seq<char>, v: int)
    requires
        u64_text(s) == Some(v),
    ensures
        apply_arg(st, "delay="@ + s) == Ok::<(Mode, int, int), ArgError>((st.0, st.1, v)),
{
    reveal_strlit("delay=");
    reveal_strlit("delay");
    reveal_strlit("depth");
    reveal_strlit("bot");
    lemma_number_has_no_equals(s, false);
    let a = "delay="@;
    let w = "delay"@;
    assert(a =~= w.push('='));
    assert(forall|i: int| 0 <= i < w.len() ==> #[trigger] w[i] != '=');
    lemma_split_plain_tail(Seq::empty(), w, '=');
    assert(Seq::<char>::empty() + w =~= w);
    assert(split_on(w, '=') =~= seq![w]);
    assert(a.drop_last() =~= w);
    assert(split_on(a, '=') == split_on(w, '=').push(Seq::empty()));
    lemma_split_plain_tail(a, s, '=');
    assert(split_on(a, '=') =~= seq![w, Seq::empty()]);
    assert(split_on(a, '=').last() + s =~= s);
    assert(lowercase(a + s).len() != "bot"@.len());
    assert("delay"@ != "depth"@) by {
        assert("delay"@[2] != "depth"@[2]);
    }
}

proof fn lemma_digits_read_back(n: nat)
    ensures
        all_digits(digits(n)),
        digits_value(digits(n)) == n,
        digits(n)[0] != '-' && digits(n)[0] != '+',
    decreases n,
{
    if n >= 10 {
        lemma_digits_read_back(n / 10);
        let d = digits(n / 10);
        let x = digits(n);
        assert(x.drop_last() =~= d);
        assert(x[0] == d[0]);
        assert forall|i: int| 0 <= i < x.len() implies is_digit(#[trigger] x[i]) by {
            if i < d.len() {
                assert(x[i] == d[i]);
            }
        }
    }
    assert(digit_char((n % 10) as int) as int == 48 + n % 10);
    let x = digits(n);
    if n < 10 {
        assert(x.drop_last() =~= Seq::<char>::empty());
        assert(n % 10 == n);
        assert(x.last() == digit_char(n as int));
        assert(digits_value(x) == digits_value(x.drop_last()) * 10 + (x.last() as int - 48));
    } else {
        assert(n == (n / 10) * 10 + n % 10) by (nonlinear_arith);
        assert(x.drop_last() =~= digits(n / 10));
        assert(x.last() == digit_char((n % 10) as int));
        assert(digits_value(x) == digits_value(x.drop_last()) * 10 + (x.last() as int - 48));
    }
}

/// Reading back a number written in decimal gives the number: what the
/// screen writes and what the command line reads agree.
pub proof fn law_decimal_reads_back(n: int)
    ensures
        integer_text(decimal(n), true) == Some(n),
        n >= 0 ==> integer_text(decimal(n), false) == Some(n),
{
    if n < 0 {
        lemma_digits_read_back((-n) as nat);
        assert((seq!['-'] + digits((-n) as nat)).drop_first() =~= digits((-n) as nat));
    } else {
        lemma_digits_read_back(n as nat);
    }
}

} // verus!
