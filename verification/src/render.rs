//! The text form of a field: a counter line, one line per row with its row
//! number, a rule, and a ruler of column numbers written digit by digit.

use vstd::prelude::*;
use vstd::string::StringExecFns;
use crate::field::MineField;
use crate::symbols::TileSymbols;
use crate::tile::{BOMB, EMPTY, FLAGGED};
use crate::view::FieldView;

verus! {

/// `String::push`, taken on trust: it appends the character to the end of
/// the string.
pub assume_specification[ String::push ](s: &mut String, c: char)
    ensures
        final(s)@ == old(s)@.push(c),
;

/// The character of a single decimal digit.
pub open spec fn digit_char(d: int) -> char {
    if d == 0 {
        '0'
    } else if d == 1 {
        '1'
    } else if d == 2 {
        '2'
    } else if d == 3 {
        '3'
    } else if d == 4 {
        '4'
    } else if d == 5 {
        '5'
    } else if d == 6 {
        '6'
    } else if d == 7 {
        '7'
    } else if d == 8 {
        '8'
    } else {
        '9'
    }
}

/// The decimal digits of `n`, most significant first, without leading zeros.
pub open spec fn decimal(n: nat) -> Seq<char>
    decreases n,
{
    if n < 10 {
        seq![digit_char(n as int)]
    } else {
        decimal(n / 10).push(digit_char((n % 10) as int))
    }
}

/// The decimal form of an integer, with a minus sign when it is negative.
pub open spec fn signed_decimal(i: int) -> Seq<char> {
    if i < 0 {
        seq!['-'] + decimal((-i) as nat)
    } else {
        decimal(i as nat)
    }
}

/// `n` copies of `c`; none when `n` is not positive.
pub open spec fn repeat(c: char, n: int) -> Seq<char> {
    Seq::new(
        if n > 0 {
            n as nat
        } else {
            0
        },
        |k: int| c,
    )
}

/// `text` moved to the right edge of a column `width` wide. Text wider than
/// the column is kept whole.
pub open spec fn pad_left(text: Seq<char>, width: int) -> Seq<char> {
    repeat(' ', width - text.len()) + text
}

/// The glyph that stands for a cell byte.
pub open spec fn glyph(v: u8, symbols: TileSymbols) -> char {
    if v == 0 {
        symbols.empty
    } else if v < 9 {
        digit_char(v as int)
    } else if v == 9 {
        symbols.bomb
    } else if v < 20 {
        symbols.tile_up
    } else {
        symbols.flagged
    }
}

impl FieldView {
    /// Width of the column that holds the row numbers.
    pub open spec fn row_label_width(self) -> int {
        decimal(self.height).len() as int
    }

    /// Number of lines in the column ruler.
    pub open spec fn ruler_lines(self) -> int {
        decimal(self.width).len() as int
    }

    /// The first `n` glyphs of row `y`, each followed by a space, or by a line
    /// break after the last column.
    pub open spec fn row_glyphs(self, y: int, n: int) -> Seq<char>
        decreases n,
    {
        if n <= 0 {
            Seq::empty()
        } else {
            self.row_glyphs(y, n - 1).push(glyph(self.cell(n - 1, y), self.symbols)).push(
                if n == self.width {
                    '\n'
                } else {
                    ' '
                },
            )
        }
    }

    /// The line of row `y`: its number counted down from the height, a bar,
    /// and its glyphs.
    pub open spec fn row_line(self, y: int) -> Seq<char> {
        pad_left(decimal((self.height - y) as nat), self.row_label_width()).push('|')
            + self.row_glyphs(y, self.width as int)
    }

    /// The lines of the first `n` rows.
    pub open spec fn row_lines(self, n: int) -> Seq<char>
        decreases n,
    {
        if n <= 0 {
            Seq::empty()
        } else {
            self.row_lines(n - 1) + self.row_line(n - 1)
        }
    }

    /// The rule under the rows.
    pub open spec fn rule_line(self) -> Seq<char> {
        (repeat(' ', self.row_label_width() + 1) + repeat('-', 2 * self.width - 1)).push('\n')
    }

    /// What line `i` of the ruler shows for column number `j`: the digit of
    /// `j` at place `i` from the left, blank where `j` has no such digit.
    pub open spec fn ruler_mark(i: int, j: nat) -> char {
        if i < decimal(j).len() {
            decimal(j)[i]
        } else {
            ' '
        }
    }

    /// The marks of ruler line `i` for the column numbers `1..=n`, each
    /// followed by a space.
    pub open spec fn ruler_marks(i: int, n: int) -> Seq<char>
        decreases n,
    {
        if n <= 0 {
            Seq::empty()
        } else {
            Self::ruler_marks(i, n - 1).push(Self::ruler_mark(i, n as nat)).push(' ')
        }
    }

    /// Line `i` of the ruler.
    pub open spec fn ruler_line(self, i: int) -> Seq<char> {
        (repeat(' ', self.row_label_width() + 1) + Self::ruler_marks(i, self.width as int)).push(
            '\n',
        )
    }

    /// The first `n` lines of the ruler.
    pub open spec fn ruler(self, n: int) -> Seq<char>
        decreases n,
    {
        if n <= 0 {
            Seq::empty()
        } else {
            self.ruler(n - 1) + self.ruler_line(n - 1)
        }
    }

    /// The counter line.
    pub open spec fn counter_line(self) -> Seq<char> {
        ("Bombs left: "@ + signed_decimal(self.bombs_left)).push('\n')
    }

    /// The whole text of the field.
    pub open spec fn render(self) -> Seq<char> {
        self.counter_line() + self.row_lines(self.height as int) + self.rule_line() + self.ruler(
            self.ruler_lines(),
        )
    }
}

/// The character of the digit `d`.
fn digit(d: u8) -> (c: char)
    requires
        d < 10,
    ensures
        c == digit_char(d as int),
{
    match d {
        0 => '0',
        1 => '1',
        2 => '2',
        3 => '3',
        4 => '4',
        5 => '5',
        6 => '6',
        7 => '7',
        8 => '8',
        _ => '9',
    }
}

/// The decimal digits of `n`.
fn decimal_digits(n: u64) -> (digits: Vec<char>)
    ensures
        digits@ == decimal(n as nat),
    decreases n,
{
    if n < 10 {
        let mut digits: Vec<char> = Vec::new();
        digits.push(digit(n as u8));
        assert(digits@ =~= decimal(n as nat));
        digits
    } else {
        let mut digits = decimal_digits(n / 10);
        digits.push(digit((n % 10) as u8));
        digits
    }
}

/// Appends every character of `text`.
fn push_chars(s: &mut String, text: &Vec<char>)
    ensures
        final(s)@ == old(s)@ + text@,
{
    let mut k: usize = 0;
    while k < text.len()
        invariant
            k <= text.len(),
            s@ == old(s)@ + text@.take(k as int),
        decreases text.len() - k,
    {
        s.push(text[k]);
        k = k + 1;
        assert(s@ =~= old(s)@ + text@.take(k as int));
    }
    assert(text@.take(text.len() as int) =~= text@);
}

/// Appends `n` copies of `c`.
fn push_repeated(s: &mut String, c: char, n: usize)
    ensures
        final(s)@ == old(s)@ + repeat(c, n as int),
{
    let mut k: usize = 0;
    while k < n
        invariant
            k <= n,
            s@ == old(s)@ + repeat(c, k as int),
        decreases n - k,
    {
        s.push(c);
        k = k + 1;
        assert(s@ =~= old(s)@ + repeat(c, k as int));
    }
}

/// Appends `text` at the right edge of a column `width` wide.
fn push_padded(s: &mut String, text: &Vec<char>, width: usize)
    ensures
        final(s)@ == old(s)@ + pad_left(text@, width as int),
{
    if width > text.len() {
        push_repeated(s, ' ', width - text.len());
    }
    push_chars(s, text);
    assert(s@ =~= old(s)@ + pad_left(text@, width as int));
}

/// Appends the decimal form of `i`.
fn push_signed(s: &mut String, i: i32)
    ensures
        final(s)@ == old(s)@ + signed_decimal(i as int),
{
    if i < 0 {
        s.push('-');
        let magnitude: u64 = (-(i as i64)) as u64;
        let digits = decimal_digits(magnitude);
        push_chars(s, &digits);
        assert(s@ =~= old(s)@ + signed_decimal(i as int));
    } else {
        let digits = decimal_digits(i as u64);
        push_chars(s, &digits);
    }
}

impl MineField {
    /// The glyph of a cell byte under the field's symbol table.
    fn glyph_of(&self, num: u8) -> (c: char)
        ensures
            c == glyph(num, self@.symbols),
    {
        if num == EMPTY {
            self.tile_symbols.empty
        } else if num < BOMB {
            digit(num)
        } else if num == BOMB {
            self.tile_symbols.bomb
        } else if num < FLAGGED {
            self.tile_symbols.tile_up
        } else {
            self.tile_symbols.flagged
        }
    }

    /// Appends the glyphs of row `y`.
    fn push_row_glyphs(&self, s: &mut String, y: usize)
        requires
            self.wf(),
            y < self@.height,
        ensures
            final(s)@ == old(s)@ + self@.row_glyphs(y as int, self@.width as int),
    {
        let mut x: usize = 0;
        while x < self.width
            invariant
                self.wf(),
                y < self@.height,
                x <= self.width,
                s@ == old(s)@ + self@.row_glyphs(y as int, x as int),
            decreases self.width - x,
        {
            let num: u8 = self.get_value(x, y);
            s.push(self.glyph_of(num));
            if x == self.width - 1 {
                s.push('\n');
            } else {
                s.push(' ');
            }
            x = x + 1;
            assert(s@ =~= old(s)@ + self@.row_glyphs(y as int, x as int));
        }
    }

    /// Appends the marks of ruler line `i`.
    fn push_ruler_marks(&self, s: &mut String, i: usize)
        ensures
            final(s)@ == old(s)@ + FieldView::ruler_marks(i as int, self@.width as int),
    {
        let mut j: usize = 0;
        while j < self.width
            invariant
                j <= self.width,
                s@ == old(s)@ + FieldView::ruler_marks(i as int, j as int),
            decreases self.width - j,
        {
            j = j + 1;
            let digits = decimal_digits(j as u64);
            if i < digits.len() {
                s.push(digits[i]);
            } else {
                s.push(' ');
            }
            s.push(' ');
            assert(s@ =~= old(s)@ + FieldView::ruler_marks(i as int, j as int));
        }
    }

    /// The field as text.
    pub fn to_string(&self) -> (text: String)
        requires
            self.wf(),
        ensures
            text@ == self@.render(),
    {
        let mut s = String::new();
        let x_padding: usize = decimal_digits(self.width as u64).len();
        let y_padding: usize = decimal_digits(self.height as u64).len();

        s.append("Bombs left: ");
        push_signed(&mut s, self.bombs_left);
        s.push('\n');
        assert(s@ =~= self@.counter_line());

        let mut y: usize = 0;
        while y < self.height
            invariant
                self.wf(),
                y <= self.height,
                y_padding == self@.row_label_width(),
                s@ == self@.counter_line() + self@.row_lines(y as int),
            decreases self.height - y,
        {
            let ghost before = s@;
            let label = decimal_digits((self.height - y) as u64);
            push_padded(&mut s, &label, y_padding);
            s.push('|');
            self.push_row_glyphs(&mut s, y);
            assert(s@ =~= before + self@.row_line(y as int));
            y = y + 1;
            assert(s@ =~= self@.counter_line() + self@.row_lines(y as int));
        }

        let ghost rows = s@;
        assert(y_padding < usize::MAX) by {
            lemma_decimal_len(self.height as nat);
        }
        push_repeated(&mut s, ' ', y_padding + 1);
        push_repeated(&mut s, '-', self.width);
        push_repeated(&mut s, '-', self.width - 1);
        s.push('\n');
        assert(s@ =~= rows + self@.rule_line());

        let ghost ruled = s@;
        let mut i: usize = 0;
        while i < x_padding
            invariant
                i <= x_padding,
                y_padding < usize::MAX,
                y_padding == self@.row_label_width(),
                s@ == ruled + self@.ruler(i as int),
            decreases x_padding - i,
        {
            let ghost before = s@;
            push_repeated(&mut s, ' ', y_padding + 1);
            self.push_ruler_marks(&mut s, i);
            s.push('\n');
            assert(s@ =~= before + self@.ruler_line(i as int));
            i = i + 1;
            assert(s@ =~= ruled + self@.ruler(i as int));
        }
        assert(s@ =~= self@.render());
        s
    }
}

/// A number below `2^64` has at most twenty decimal digits.
pub proof fn lemma_decimal_len(n: nat)
    requires
        n <= u64::MAX,
    ensures
        1 <= decimal(n).len() <= 20,
{
    reveal_with_fuel(decimal, 21);
}

} // verus!
