//! Reading one line of player input: trimming the line end and parsing the
//! whole numbers that commands carry.

use vstd::prelude::*;
use vstd::string::{StrSliceExecFns, StringExecFns};

verus! {

/// Why a command line was turned down.
#[derive(Debug)]
pub enum MSError {
    /// The first word is no command.
    InvalidCmdErr(String),
    /// A word that should be a number is none.
    ParseNumErr(String),
    /// The command lacks an argument; the text names it.
    MissingArg(String),
    /// A whole number lies outside the range given by the two bounds.
    IntRangeErr(String, i32, i32),
}

/// The line without its line end: without a final `"\r\n"`, or else without
/// a final `"\n"`. At most one line end is taken off.
pub open spec fn without_line_end(s: Seq<char>) -> Seq<char> {
    let n = s.len() as int;
    if n >= 2 && s[n - 2] == '\r' && s[n - 1] == '\n' {
        s.take(n - 2)
    } else if n >= 1 && s[n - 1] == '\n' {
        s.take(n - 1)
    } else {
        s
    }
}

pub open spec fn is_digit(c: char) -> bool {
    '0' <= c <= '9'
}

/// The value of a decimal digit.
pub open spec fn digit_value(c: char) -> int {
    c as int - '0' as int
}

pub open spec fn all_digits(s: Seq<char>) -> bool {
    forall|k: int| 0 <= k < s.len() ==> is_digit(#[trigger] s[k])
}

/// The number that a run of decimal digits writes; `0` for the empty run.
pub open spec fn digits_value(s: Seq<char>) -> int
    decreases s.len(),
{
    if s.len() == 0 {
        0
    } else {
        digits_value(s.drop_last()) * 10 + digit_value(s.last())
    }
}

/// Whether the text opens with a sign.
pub open spec fn has_sign(s: Seq<char>) -> bool {
    s.len() > 0 && (s[0] == '-' || s[0] == '+')
}

/// The text after its sign, if it has one.
pub open spec fn unsigned_part(s: Seq<char>) -> Seq<char> {
    if has_sign(s) {
        s.skip(1)
    } else {
        s
    }
}

/// The integer that the text writes in decimal: an optional `+` or `-`, then
/// at least one digit and nothing else.
pub open spec fn decimal_value(s: Seq<char>) -> int {
    if s.len() > 0 && s[0] == '-' {
        -digits_value(unsigned_part(s))
    } else {
        digits_value(unsigned_part(s))
    }
}

/// What the text parses to as an `i32`: `None` when it is no decimal integer
/// or when the integer does not fit.
pub open spec fn parsed_i32(s: Seq<char>) -> Option<i32> {
    if unsigned_part(s).len() > 0 && all_digits(unsigned_part(s)) && i32::MIN <= decimal_value(s)
        <= i32::MAX {
        Some(decimal_value(s) as i32)
    } else {
        None
    }
}

/// Takes the line end off a line of input.
pub fn strip_trailing_newline(input: &str) -> (line: &str)
    ensures
        line@ == without_line_end(input@),
{
    let n: usize = input.unicode_len();
    if n >= 2 && input.get_char(n - 2) == '\r' && input.get_char(n - 1) == '\n' {
        let line = input.substring_char(0, n - 2);
        assert(line@ =~= input@.take(n - 2));
        line
    } else if n >= 1 && input.get_char(n - 1) == '\n' {
        let line = input.substring_char(0, n - 1);
        assert(line@ =~= input@.take(n - 1));
        line
    } else {
        input
    }
}

/// Appending a digit never makes the value of a run of digits smaller.
proof fn lemma_digits_value_grows(s: Seq<char>, k: int)
    requires
        all_digits(s),
        0 <= k <= s.len(),
    ensures
        0 <= digits_value(s.take(k)) <= digits_value(s),
    decreases s.len() - k,
{
    lemma_digits_value_nonnegative(s.take(k));
    if k == s.len() {
        assert(s.take(k) =~= s);
    } else {
        lemma_digits_value_grows(s, k + 1);
        assert(s.take(k + 1).drop_last() =~= s.take(k));
        assert(is_digit(s[k]));
        assert(s.take(k + 1).last() == s[k]);
    }
}

proof fn lemma_digits_value_nonnegative(s: Seq<char>)
    requires
        all_digits(s),
    ensures
        0 <= digits_value(s),
    decreases s.len(),
{
    if s.len() > 0 {
        lemma_digits_value_nonnegative(s.drop_last());
        assert(is_digit(s.last()));
    }
}

/// The value of a decimal digit character, or `None` for any other character.
fn digit_of(c: char) -> (d: Option<i64>)
    ensures
        d == if is_digit(c) {
            Some(digit_value(c) as i64)
        } else {
            None
        },
{
    match c {
        '0' => Some(0),
        '1' => Some(1),
        '2' => Some(2),
        '3' => Some(3),
        '4' => Some(4),
        '5' => Some(5),
        '6' => Some(6),
        '7' => Some(7),
        '8' => Some(8),
        '9' => Some(9),
        _ => None,
    }
}

/// Parses a decimal `i32`, with the text itself as the error.
pub fn parse_int(str: &str) -> (r: Result<i32, MSError>)
    ensures
        match parsed_i32(str@) {
            Some(v) => r == Ok::<i32, MSError>(v),
            None => r matches Err(MSError::ParseNumErr(text)) && text@ == str@,
        },
{
    let n: usize = str.unicode_len();
    let mut start: usize = 0;
    let mut negative = false;
    if n > 0 {
        let first = str.get_char(0);
        if first == '-' {
            negative = true;
            start = 1;
        } else if first == '+' {
            start = 1;
        }
    }
    let ghost digits = unsigned_part(str@);
    assert(digits =~= str@.skip(start as int));
    if start == n {
        return Err(MSError::ParseNumErr(str.to_owned()));
    }
    let mut value: i64 = 0;
    let mut k: usize = start;
    while k < n
        invariant
            start <= k <= n,
            n == str@.len(),
            digits == str@.skip(start as int),
            digits == unsigned_part(str@),
            all_digits(digits.take(k - start)),
            value == digits_value(digits.take(k - start)),
            0 <= value <= 0x8000_0000,
        decreases n - k,
    {
        let c = str.get_char(k);
        assert(digits[k - start] == c);
        let ghost longer = digits.take(k - start + 1);
        assert(longer.drop_last() =~= digits.take(k - start));
        assert(longer.last() == c);
        match digit_of(c) {
            None => {
                assert(!all_digits(digits));
                return Err(MSError::ParseNumErr(str.to_owned()));
            },
            Some(d) => {
                value = value * 10 + d;
                assert(all_digits(longer)) by {
                    assert forall|j: int| 0 <= j < longer.len() implies is_digit(
                        #[trigger] longer[j],
                    ) by {
                        if j < k - start {
                            assert(digits.take(k - start)[j] == longer[j]);
                        }
                    }
                }
                if value > 0x8000_0000 {
                    proof {
                        if all_digits(digits) {
                            lemma_digits_value_grows(digits, k - start + 1);
                        }
                    }
                    return Err(MSError::ParseNumErr(str.to_owned()));
                }
            },
        }
        k = k + 1;
    }
    assert(digits.take(n - start) =~= digits);
    if negative {
        Ok((-value) as i32)
    } else if value > 0x7fff_ffff {
        Err(MSError::ParseNumErr(str.to_owned()))
    } else {
        Ok(value as i32)
    }
}

/// What a line of input asks for. Coordinates and numbers are as typed.
#[derive(Debug)]
pub enum Command {
    /// The line holds no word.
    Nothing,
    /// Leave the game.
    Exit,
    /// Seed the random source.
    Seed(i32),
    /// Sweep the cell in the column and row given, both counted from one, the
    /// rows from the bottom.
    Sweep(i32, i32),
    /// Toggle the flag of the cell, addressed as for a sweep.
    Flag(i32, i32),
    /// Set the mine density; the text of the number, still to be read.
    Density(String),
    /// Set the mine count, which lies between zero and the area.
    Count(i32),
    /// Cover the field again.
    Reset,
}

/// The words of a line, as `str::split_whitespace` yields them: the pieces
/// between runs of white space.
pub uninterp spec fn whitespace_words(line: Seq<char>) -> Seq<Seq<char>>;

/// The text in lower case, as `str::to_lowercase` yields it.
pub uninterp spec fn lowercase(text: Seq<char>) -> Seq<char>;

/// The texts that a vector of strings holds.
pub open spec fn texts(words: Seq<String>) -> Seq<Seq<char>> {
    Seq::new(words.len(), |i: int| words[i]@)
}

/// The area as the upper bound of a mine count, capped at `i32::MAX`.
pub open spec fn count_limit(area: nat) -> int {
    if area > i32::MAX {
        i32::MAX as int
    } else {
        area as int
    }
}

/// Whether `r` is what a line with the given words asks for, `verb` being
/// the first word in lower case. The verbs are `exit`, `seed`, `sweep` or
/// `s`, `flag` or `f`, `density` or `d`, `count` or `c`, and `reset` or `r`.
/// Arguments are read from left to right and the first fault decides.
pub open spec fn interprets(
    verb: Seq<char>,
    words: Seq<Seq<char>>,
    area: nat,
    r: Result<Command, MSError>,
) -> bool {
    if words.len() == 0 {
        r matches Ok(Command::Nothing)
    } else if verb == "exit"@ {
        r matches Ok(Command::Exit)
    } else if verb == "seed"@ {
        if words.len() < 2 {
            r matches Err(MSError::MissingArg(text)) && text@ == "seed <int>"@
        } else {
            match parsed_i32(words[1]) {
                Some(seed) => r matches Ok(Command::Seed(s)) && s == seed,
                None => r matches Err(MSError::ParseNumErr(text)) && text@ == words[1],
            }
        }
    } else if verb == "s"@ || verb == "sweep"@ || verb == "f"@ || verb == "flag"@ {
        if words.len() < 2 {
            r matches Err(MSError::MissingArg(text)) && text@ == words[0] + " <x> <y>"@
        } else {
            match parsed_i32(words[1]) {
                None => r matches Err(MSError::ParseNumErr(text)) && text@ == words[1],
                Some(x) => if words.len() < 3 {
                    r matches Err(MSError::MissingArg(text)) && text@ == words[0] + " "@ + words[1]
                        + " <y>"@
                } else {
                    match parsed_i32(words[2]) {
                        None => r matches Err(MSError::ParseNumErr(text)) && text@ == words[2],
                        Some(y) => if verb == "s"@ || verb == "sweep"@ {
                            r matches Ok(Command::Sweep(cx, cy)) && cx == x && cy == y
                        } else {
                            r matches Ok(Command::Flag(cx, cy)) && cx == x && cy == y
                        },
                    }
                },
            }
        }
    } else if verb == "d"@ || verb == "density"@ {
        if words.len() < 2 {
            r matches Err(MSError::MissingArg(text)) && text@ == "density <d>"@
        } else {
            r matches Ok(Command::Density(text)) && text@ == words[1]
        }
    } else if verb == "c"@ || verb == "count"@ {
        if words.len() < 2 {
            r matches Err(MSError::MissingArg(text)) && text@ == "count <c>"@
        } else {
            match parsed_i32(words[1]) {
                None => r matches Err(MSError::ParseNumErr(text)) && text@ == words[1],
                Some(count) => if 0 <= count <= area {
                    r matches Ok(Command::Count(c)) && c == count
                } else {
                    r matches Err(MSError::IntRangeErr(text, low, high)) && text@ == "<c>"@ && low
                        == 0 && high == count_limit(area)
                },
            }
        }
    } else if verb == "r"@ || verb == "reset"@ {
        r matches Ok(Command::Reset)
    } else {
        r matches Err(MSError::InvalidCmdErr(text)) && text@ == words[0]
    }
}

/// Calls `str::split_whitespace` and collects the words it yields, in order,
/// each as a string of its own. The contract gives the words a name and
/// claims nothing else of them.
#[verifier::external_body]
fn split_words(line: &str) -> (words: Vec<String>)
    ensures
        texts(words@) == whitespace_words(line@),
{
    line.split_whitespace().map(|word| word.to_string()).collect()
}

/// Calls `str::to_lowercase`. The contract gives the result a name and
/// claims nothing else of it.
#[verifier::external_body]
fn to_lowercase(text: &str) -> (lower: String)
    ensures
        lower@ == lowercase(text@),
{
    text.to_lowercase()
}

/// Whether two texts hold the same characters.
fn same_text(a: &str, b: &str) -> (same: bool)
    ensures
        same == (a@ == b@),
{
    let n: usize = a.unicode_len();
    if n != b.unicode_len() {
        return false;
    }
    let mut k: usize = 0;
    while k < n
        invariant
            k <= n,
            n == a@.len(),
            n == b@.len(),
            forall|j: int| 0 <= j < k ==> a@[j] == b@[j],
        decreases n - k,
    {
        if a.get_char(k) != b.get_char(k) {
            return false;
        }
        k = k + 1;
    }
    assert(a@ =~= b@);
    true
}

/// What the words of a line ask for. `verb` is the first word in lower case;
/// where there is no word it is not looked at.
pub fn command_from_words(verb: &str, words: &Vec<String>, area: usize) -> (r: Result<
    Command,
    MSError,
>)
    ensures
        interprets(verb@, texts(words@), area as nat, r),
{
    if words.len() == 0 {
        return Ok(Command::Nothing);
    }
    assert(texts(words@)[0] == words@[0]@);
    if same_text(verb, "exit") {
        Ok(Command::Exit)
    } else if same_text(verb, "seed") {
        if words.len() < 2 {
            return Err(MSError::MissingArg(String::from_str("seed <int>")));
        }
        assert(texts(words@)[1] == words@[1]@);
        match parse_int(words[1].as_str()) {
            Ok(seed) => Ok(Command::Seed(seed)),
            Err(e) => Err(e),
        }
    } else if same_text(verb, "s") || same_text(verb, "sweep") || same_text(verb, "f")
        || same_text(verb, "flag") {
        if words.len() < 2 {
            let text = words[0].clone().concat(" <x> <y>");
            return Err(MSError::MissingArg(text));
        }
        assert(texts(words@)[1] == words@[1]@);
        let x: i32 = match parse_int(words[1].as_str()) {
            Ok(x) => x,
            Err(e) => {
                return Err(e);
            },
        };
        if words.len() < 3 {
            let text = words[0].clone().concat(" ").concat(words[1].as_str()).concat(" <y>");
            return Err(MSError::MissingArg(text));
        }
        assert(texts(words@)[2] == words@[2]@);
        let y: i32 = match parse_int(words[2].as_str()) {
            Ok(y) => y,
            Err(e) => {
                return Err(e);
            },
        };
        if same_text(verb, "s") || same_text(verb, "sweep") {
            Ok(Command::Sweep(x, y))
        } else {
            Ok(Command::Flag(x, y))
        }
    } else if same_text(verb, "d") || same_text(verb, "density") {
        if words.len() < 2 {
            return Err(MSError::MissingArg(String::from_str("density <d>")));
        }
        assert(texts(words@)[1] == words@[1]@);
        Ok(Command::Density(words[1].clone()))
    } else if same_text(verb, "c") || same_text(verb, "count") {
        if words.len() < 2 {
            return Err(MSError::MissingArg(String::from_str("count <c>")));
        }
        assert(texts(words@)[1] == words@[1]@);
        let count: i32 = match parse_int(words[1].as_str()) {
            Ok(count) => count,
            Err(e) => {
                return Err(e);
            },
        };
        let limit: i32 = if area > i32::MAX as usize {
            i32::MAX
        } else {
            area as i32
        };
        if count < 0 || count > limit {
            return Err(MSError::IntRangeErr(String::from_str("<c>"), 0, limit));
        }
        Ok(Command::Count(count))
    } else if same_text(verb, "r") || same_text(verb, "reset") {
        Ok(Command::Reset)
    } else {
        Err(MSError::InvalidCmdErr(words[0].clone()))
    }
}

/// What a line of input asks for: its words are split at white space and the
/// first is matched in lower case.
pub fn parse_command(line: &str, area: usize) -> (r: Result<Command, MSError>)
    ensures
        interprets(
            if whitespace_words(line@).len() > 0 {
                lowercase(whitespace_words(line@)[0])
            } else {
                Seq::empty()
            },
            whitespace_words(line@),
            area as nat,
            r,
        ),
{
    let words = split_words(line);
    if words.len() == 0 {
        return command_from_words("", &words, area);
    }
    assert(texts(words@)[0] == words@[0]@);
    let verb = to_lowercase(words[0].as_str());
    command_from_words(verb.as_str(), &words, area)
}

/// The cell that a player means by column `x_input` and row `y_input`:
/// columns are counted from one at the left, rows from one at the bottom.
/// `None` when the grid has no such cell.
pub open spec fn addressed_cell(width: nat, height: nat, x_input: int, y_input: int) -> Option<
    (usize, usize),
> {
    if 1 <= x_input <= width && 1 <= y_input <= height {
        Some(((x_input - 1) as usize, (height - y_input) as usize))
    } else {
        None
    }
}

/// Turns the coordinates a player typed into those of a cell of a grid of
/// `width` by `height`.
pub fn translate_coordinates(width: usize, height: usize, x_input: i32, y_input: i32) -> (cell:
    Option<(usize, usize)>)
    ensures
        cell == addressed_cell(width as nat, height as nat, x_input as int, y_input as int),
{
    if x_input < 1 || y_input < 1 {
        return None;
    }
    let x: usize = (x_input - 1) as usize;
    let down: usize = y_input as usize;
    if x >= width || down > height {
        return None;
    }
    Some((x, height - down))
}

} // verus!
