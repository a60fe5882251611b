//! The layout of the text on the terminal: line numbers, where lines wrap,
//! and where the cursor is put.
use vstd::prelude::*;

use crate::cursor::{min_int, CursorPosition};
use crate::encoding::{byte_count, byte_len};
use vstd::arithmetic::power::pow;
use crate::editor::Editor;
use crate::piece_table::lines_in_range;
use crate::text::{chars_of, string_of, views};

verus! {

/// The number of decimal digits of `n`.
pub open spec fn decimal_digits(n: nat) -> nat
    decreases n,
{
    if n < 10 {
        1
    } else {
        1 + decimal_digits(n / 10)
    }
}

/// The character of a decimal digit.
pub open spec fn digit_char(d: nat) -> char {
    ((48 + d) as u8) as char
}

/// The decimal writing of `n`.
pub open spec fn decimal_string(n: nat) -> Seq<char>
    decreases n,
{
    if n < 10 {
        seq![digit_char(n)]
    } else {
        decimal_string(n / 10).push(digit_char(n % 10))
    }
}

/// The decimal writing of `n` has as many characters as `n` has digits.
pub proof fn lemma_decimal_string_len(n: nat)
    ensures
        decimal_string(n).len() == decimal_digits(n),
    decreases n,
{
    if n >= 10 {
        lemma_decimal_string_len(n / 10);
    }
}

/// A `u16` has at most five digits.
pub proof fn lemma_u16_digits(n: nat)
    requires
        n <= u16::MAX,
    ensures
        1 <= decimal_digits(n) <= 5,
{
    reveal_with_fuel(decimal_digits, 6);
}

/// The number of characters in the decimal writing of `num`.
pub fn get_number_of_chars_of_u16(num: u16) -> (r: u16)
    ensures
        r == decimal_digits(num as nat),
{
    proof {
        lemma_u16_digits(num as nat);
    }
    let mut n = num;
    let mut count: u16 = 1;
    while n >= 10
        invariant
            count + decimal_digits(n as nat) == decimal_digits(num as nat) + 1,
            count <= 5,
            decimal_digits(num as nat) <= 5,
        decreases n,
    {
        n = n / 10;
        count = count + 1;
    }
    count
}

/// The decimal writing of `n`.
fn decimal_chars(n: u16) -> (r: Vec<char>)
    ensures
        r@ == decimal_string(n as nat),
    decreases n,
{
    let digit = ((48 + n % 10) as u8) as char;
    if n < 10 {
        let mut v: Vec<char> = Vec::new();
        v.push(digit);
        v
    } else {
        let mut v = decimal_chars(n / 10);
        v.push(digit);
        v
    }
}

/// The line number `line_nb`, right-aligned on `left_pad` columns with
/// spaces before it.
pub fn render_line_nb(left_pad: u16, line_nb: u16) -> (r: String)
    requires
        left_pad >= decimal_digits(line_nb as nat),
    ensures
        r@ == line_number_chars(left_pad as int, line_nb as nat),
        r@.len() == left_pad,
{
    let nb_of_blanks_before_line_nb = left_pad - get_number_of_chars_of_u16(line_nb);
    let mut chars: Vec<char> = Vec::new();
    let mut k: u16 = 0;
    while k < nb_of_blanks_before_line_nb
        invariant
            k <= nb_of_blanks_before_line_nb,
            chars@ == Seq::new(k as nat, |i: int| ' '),
        decreases nb_of_blanks_before_line_nb - k,
    {
        chars.push(' ');
        assert(chars@ =~= Seq::new((k + 1) as nat, |i: int| ' '));
        k += 1;
    }
    let digits = decimal_chars(line_nb);
    crate::text::append_chars(&mut chars, &digits);
    proof {
        lemma_decimal_string_len(line_nb as nat);
    }
    string_of(chars.as_slice())
}

/// Whether the rows taken by a line of `len` bytes can be counted: the
/// line's length taken as a `u16`, plus the margin, fits in a `u16`, and
/// when that is as wide as the terminal, the terminal has a width and the
/// count fits in a `u16`.
pub open spec fn rows_defined(len: int, left_pad: int, terminal_width: int) -> bool {
    let w = (len as u16) + left_pad;
    &&& w <= u16::MAX
    &&& w >= terminal_width ==> terminal_width > 0 && (w - terminal_width) / terminal_width + 2
        <= u16::MAX
}

/// The number of terminal rows a line of `len` bytes takes with
/// `left_pad` columns of line number before it: one when the line's length
/// taken as a `u16`, plus the margin, is narrower than the terminal, else
/// two more than the whole widths that the excess covers.
pub open spec fn rows_taken(len: int, left_pad: int, terminal_width: int) -> int {
    let w = (len as u16) + left_pad;
    if w < terminal_width {
        1
    } else {
        (w - terminal_width) / terminal_width + 2
    }
}

/// The number of terminal rows a text line takes with `left_pad` columns
/// of line number before it.
pub fn get_number_of_lines_under_which_the_text_line_should_be_displayed(
    line: &str,
    left_pad: u16,
    terminal_width: u16,
) -> (r: u16)
    requires
        rows_defined(line.len() as int, left_pad as int, terminal_width as int),
    ensures
        r == rows_taken(line.len() as int, left_pad as int, terminal_width as int),
{
    let len = line.len() as u16;
    if len + left_pad < terminal_width {
        return 1;
    }
    (len + left_pad - terminal_width) / terminal_width + 2
}

/// Whether the position after a printed line can be computed in `u16`.
pub open spec fn position_defined(
    len: int,
    left_pad: int,
    cursor: CursorPosition,
    y_prev_line_offset: int,
    terminal_width: int,
) -> bool {
    let w = (len as u16) + left_pad;
    &&& len + left_pad <= usize::MAX
    &&& len + left_pad > terminal_width ==> {
        &&& w <= u16::MAX
        &&& w >= terminal_width
        &&& terminal_width > 0
        &&& cursor.y + y_prev_line_offset + (w - terminal_width) / terminal_width + 1 <= u16::MAX
        &&& (w - terminal_width) % terminal_width + 3 <= u16::MAX
    }
    &&& len + left_pad <= terminal_width ==> {
        &&& cursor.x + left_pad + 2 <= u16::MAX
        &&& cursor.y + y_prev_line_offset <= u16::MAX
    }
}

/// Where the terminal cursor goes after a line of `len` bytes is printed
/// with `left_pad` columns of line number before it and
/// `y_prev_line_offset` rows taken above: after a line wider than the
/// terminal, the pair computed from the excess of its length taken as a
/// `u16`; else the cursor's column past the line number, on the cursor's
/// row.
pub open spec fn position(
    len: int,
    left_pad: int,
    cursor: CursorPosition,
    y_prev_line_offset: int,
    terminal_width: int,
) -> (int, int) {
    if len + left_pad > terminal_width {
        let rest = (len as u16) + left_pad - terminal_width;
        (
            cursor.y + y_prev_line_offset + rest / terminal_width + 1,
            rest % terminal_width + 3,
        )
    } else {
        (cursor.x + left_pad + 2, cursor.y + y_prev_line_offset)
    }
}

/// Where the terminal cursor goes after a text line of `content_len`
/// bytes is printed.
pub fn print_line_position(
    content_len: usize,
    left_pad: u16,
    cursor: &CursorPosition,
    y_prev_line_offset: u16,
    terminal_width: u16,
) -> (r: (u16, u16))
    requires
        position_defined(
            content_len as int,
            left_pad as int,
            *cursor,
            y_prev_line_offset as int,
            terminal_width as int,
        ),
    ensures
        (r.0 as int, r.1 as int) == position(
            content_len as int,
            left_pad as int,
            *cursor,
            y_prev_line_offset as int,
            terminal_width as int,
        ),
        content_len + left_pad <= terminal_width ==> r.0 == cursor.x + left_pad + 2 && r.1
            == cursor.y + y_prev_line_offset,
{
    if content_len + left_pad as usize > terminal_width as usize {
        let rest = content_len as u16 + left_pad - terminal_width;
        (cursor.y + y_prev_line_offset + rest / terminal_width + 1, rest % terminal_width + 3)
    } else {
        (cursor.x + left_pad + 2, cursor.y + y_prev_line_offset)
    }
}

/// The number of spaces that pad a printed line from column `x` to the
/// width of the terminal.
pub open spec fn padding(x: int, terminal_width: int) -> int {
    if terminal_width > x - 1 {
        terminal_width - (x - 1)
    } else {
        0
    }
}

/// The number of spaces that pad a printed line from column `x` to the
/// width of the terminal.
pub fn padding_len(x: u16, terminal_width: u16) -> (r: u16)
    requires
        x >= 1,
    ensures
        r == padding(x as int, terminal_width as int),
{
    if terminal_width > x - 1 {
        terminal_width - (x - 1)
    } else {
        0
    }
}

/// The row blanked below the text, when the text ends above the last two
/// rows of the terminal: the row after its `number_of_lines` lines and the
/// `y_line_offset` rows the last line took.
pub fn blank_row(number_of_lines: u16, y_line_offset: u16, terminal_height: u16) -> (r: Option<
    u16,
>)
    requires
        number_of_lines + y_line_offset <= u16::MAX,
        terminal_height >= 1,
    ensures
        number_of_lines + y_line_offset < terminal_height - 1 ==> r == Some(
            (number_of_lines + y_line_offset + 1) as u16,
        ),
        !(number_of_lines + y_line_offset < terminal_height - 1) ==> r is None,
{
    if number_of_lines + y_line_offset < terminal_height - 1 {
        Some(number_of_lines + y_line_offset + 1)
    } else {
        None
    }
}

/// The line number `nb` right-aligned on `left_pad` columns.
pub open spec fn line_number_chars(left_pad: int, nb: nat) -> Seq<char> {
    Seq::new((left_pad - decimal_digits(nb)) as nat, |i: int| ' ') + decimal_string(nb)
}

/// What the screen shows of a text line.
pub struct LineView {
    /// The line.
    pub text: String,
    /// The terminal row where the line starts.
    pub row: u16,
    /// The line number, right-aligned on the margin.
    pub line_nb: String,
    /// The number of spaces after the line.
    pub padding: u16,
    /// Where the terminal cursor goes after the line: column, then row.
    pub cursor: (u16, u16),
}

/// What the screen shows of the editor.
pub struct ScreenView {
    /// The lines shown, from the top.
    pub lines: Vec<LineView>,
    /// Where the terminal cursor is left: column, then row.
    pub cursor: (u16, u16),
    /// The row blanked below the text, when there is one.
    pub blank_row: Option<u16>,
}

/// The lines shown on a terminal of `terminal_height` rows: the row at the
/// top holds the title.
pub open spec fn shown_lines(editor: Editor, terminal_height: int) -> Seq<Seq<char>> {
    lines_in_range(
        editor.lines(),
        editor.cursor.y_offset as int,
        min_int(editor.lines().len() as int, terminal_height - 1 + editor.cursor.y_offset),
    )
}

/// The width of the margin: the number of digits of the number of lines
/// taken as a `u16`.
pub open spec fn margin(editor: Editor) -> int {
    decimal_digits((editor.lines().len() as u16) as nat) as int
}

/// The rows taken by the line above the shown line at `i` (one above the
/// first): only the line just above counts.
pub open spec fn offset_before(shown: Seq<Seq<char>>, i: int, left_pad: int, terminal_width: int) -> int {
    if i == 0 {
        1
    } else {
        rows_taken(byte_len(shown[i - 1]), left_pad, terminal_width)
    }
}

/// Whether the shown line at `i` can be laid out: its numbers fit in a
/// `u16`, the margin is wide enough for its line number, and its position
/// and its rows can be computed.
pub open spec fn line_view_defined(
    shown: Seq<Seq<char>>,
    i: int,
    left_pad: int,
    cursor: CursorPosition,
    terminal_width: int,
) -> bool {
    let off = offset_before(shown, i, left_pad, terminal_width);
    &&& i + 1 + cursor.y_offset <= u16::MAX
    &&& left_pad >= decimal_digits((i + 1 + cursor.y_offset) as nat)
    &&& position_defined(byte_len(shown[i]), left_pad, cursor, off, terminal_width)
    &&& i + 1 + off <= u16::MAX
    &&& rows_defined(byte_len(shown[i]), left_pad, terminal_width)
}

/// What `screen_view` asks: a well-formed text that can be counted, a
/// terminal with a row, every shown line laid out, and room in a `u16` for
/// the row below the text.
pub open spec fn screen_defined(editor: Editor, terminal_width: u16, terminal_height: u16) -> bool {
    let shown = shown_lines(editor, terminal_height as int);
    let left_pad = margin(editor);
    &&& editor.piece_table.wf()
    &&& editor.piece_table@.len() < usize::MAX
    &&& terminal_height >= 1
    &&& forall|i: int|
        0 <= i < shown.len() ==> #[trigger] line_view_defined(
            shown,
            i,
            left_pad,
            editor.cursor,
            terminal_width as int,
        )
    &&& (editor.lines().len() as u16) + offset_before(
        shown,
        shown.len() as int,
        left_pad,
        terminal_width as int,
    ) <= u16::MAX
}

/// The shown line at `i` is laid out as `v`.
pub open spec fn line_view_of(
    v: LineView,
    shown: Seq<Seq<char>>,
    i: int,
    left_pad: int,
    cursor: CursorPosition,
    terminal_width: int,
) -> bool {
    let off = offset_before(shown, i, left_pad, terminal_width);
    let p = position(byte_len(shown[i]), left_pad, cursor, off, terminal_width);
    &&& v.text@ == shown[i]
    &&& v.row == i + 1 + off
    &&& v.line_nb@ == line_number_chars(left_pad, (i + 1 + cursor.y_offset) as nat)
    &&& v.cursor.0 == p.0
    &&& v.cursor.1 == p.1
    &&& v.padding == padding(p.0, terminal_width)
}


// ---------------------------------------------------------------------
// Laws of the layout
// ---------------------------------------------------------------------

/// The number written by a sequence of decimal digits.
pub open spec fn decimal_value(s: Seq<char>) -> int
    decreases s.len(),
{
    if s.len() == 0 {
        0
    } else {
        decimal_value(s.drop_last()) * 10 + (s.last() as int - 48)
    }
}

/// The decimal writing of `n` is made of digits and writes `n`.
pub proof fn law_decimal_string(n: nat)
    ensures
        decimal_value(decimal_string(n)) == n,
        forall|i: int|
            0 <= i < decimal_string(n).len() ==> 48 <= #[trigger] (decimal_string(n)[i] as int)
                <= 57,
        decimal_string(n).len() == decimal_digits(n),
    decreases n,
{
    lemma_decimal_string_len(n);
    let d = (n % 10) as nat;
    assert(((48 + d) as u8) as char as int == 48 + d) by {
        let b: u8 = (48 + d) as u8;
        assert(b as int == 48 + d);
        assert((b as char) as u32 == b as u32);
    }
    if n >= 10 {
        law_decimal_string(n / 10);
        let s = decimal_string(n);
        assert(s.drop_last() =~= decimal_string(n / 10));
        assert(s.last() == digit_char(d));
        vstd::arithmetic::div_mod::lemma_fundamental_div_mod(n as int, 10);
        assert(s.last() as int - 48 == d);
        assert(decimal_value(s) == decimal_value(s.drop_last()) * 10 + (s.last() as int - 48));
        assert(decimal_value(s) == (n / 10) * 10 + d);
        assert forall|i: int| 0 <= i < s.len() implies 48 <= #[trigger] (s[i] as int) <= 57 by {
            if i < s.len() - 1 {
                assert(s[i] == decimal_string(n / 10)[i]);
            }
        }
    } else {
        let s = decimal_string(n);
        assert(s =~= seq![digit_char(n)]);
        assert(s.drop_last() =~= Seq::<char>::empty());
        assert(decimal_value(s.drop_last()) == 0);
        assert(d == n);
        assert(s.last() as int - 48 == d);
        assert(decimal_value(s) == decimal_value(s.drop_last()) * 10 + (s.last() as int - 48));
    }
}

/// A line number fills its margin exactly: spaces, then the decimal
/// writing of the number, which ends the margin.
pub proof fn law_line_number(left_pad: int, nb: nat)
    requires
        left_pad >= decimal_digits(nb),
    ensures
        line_number_chars(left_pad, nb).len() == left_pad,
        line_number_chars(left_pad, nb).skip(left_pad - decimal_digits(nb)) == decimal_string(nb),
        forall|i: int|
            0 <= i < left_pad - decimal_digits(nb) ==> #[trigger] line_number_chars(
                left_pad,
                nb,
            )[i] == ' ',
        decimal_value(line_number_chars(left_pad, nb).skip(left_pad - decimal_digits(nb))) == nb,
{
    law_decimal_string(nb);
    let l = line_number_chars(left_pad, nb);
    assert(l.skip(left_pad - decimal_digits(nb)) =~= decimal_string(nb));
}

/// The rows a line takes: one when the line and its margin are narrower
/// than the terminal; else at least two, and one more than the whole
/// widths that the part past the first width covers, the rest of that part
/// less than a width.
pub proof fn law_rows_taken(len: int, left_pad: int, terminal_width: int)
    requires
        rows_defined(len, left_pad, terminal_width),
        left_pad >= 0,
    ensures
        ({
            let w = (len as u16) + left_pad;
            let k = rows_taken(len, left_pad, terminal_width);
            &&& w < terminal_width ==> k == 1
            &&& w >= terminal_width ==> k >= 2 && (k - 2) * terminal_width <= w - terminal_width
                < (k - 1) * terminal_width
        }),
{
    let w = (len as u16) + left_pad;
    if w >= terminal_width {
        let d = w - terminal_width;
        let q = d / terminal_width;
        vstd::arithmetic::div_mod::lemma_fundamental_div_mod(d, terminal_width);
        vstd::arithmetic::div_mod::lemma_mod_pos_bound(d, terminal_width);
        assert(q >= 0) by {
            vstd::arithmetic::div_mod::lemma_div_pos_is_pos(d, terminal_width);
        }
        assert((q + 1) * terminal_width == q * terminal_width + terminal_width) by (nonlinear_arith);
        assert(q * terminal_width == terminal_width * q) by (nonlinear_arith);
    }
}

/// Where the terminal cursor goes after a line: after a line that fits,
/// the cursor's column past the margin and its separator, on the cursor's
/// row moved down by the rows taken above; after a line wider than the
/// terminal, a column at least 3 and below the width plus 3, on a row
/// below the cursor's row moved down by the rows taken above. One more row
/// taken above moves that row one down and keeps the column.
pub proof fn law_position(
    len: int,
    left_pad: int,
    cursor: CursorPosition,
    y_prev_line_offset: int,
    terminal_width: int,
)
    requires
        position_defined(len, left_pad, cursor, y_prev_line_offset, terminal_width),
        len >= 0,
        left_pad >= 0,
    ensures
        ({
            let p = position(len, left_pad, cursor, y_prev_line_offset, terminal_width);
            let q = position(len, left_pad, cursor, y_prev_line_offset + 1, terminal_width);
            &&& len + left_pad <= terminal_width ==> p.0 == cursor.x + left_pad + 2 && p.1
                == cursor.y + y_prev_line_offset
            &&& len + left_pad <= terminal_width ==> q.0 == p.0 && q.1 == p.1 + 1
            &&& len + left_pad > terminal_width ==> 3 <= p.1 < terminal_width + 3 && p.0
                >= cursor.y + y_prev_line_offset + 1
            &&& len + left_pad > terminal_width ==> q.0 == p.0 + 1 && q.1 == p.1
        }),
{
    if len + left_pad > terminal_width {
        let rest = (len as u16) + left_pad - terminal_width;
        vstd::arithmetic::div_mod::lemma_mod_pos_bound(rest, terminal_width);
        vstd::arithmetic::div_mod::lemma_div_pos_is_pos(rest, terminal_width);
    }
}

/// `n` has `decimal_digits(n)` digits: it is below 10 to that power, and,
/// with more than one digit, at least 10 to one less.
pub proof fn law_decimal_digits(n: nat)
    ensures
        decimal_digits(n) >= 1,
        n < pow(10, decimal_digits(n)),
        decimal_digits(n) > 1 ==> pow(10, (decimal_digits(n) - 1) as nat) <= n,
    decreases n,
{
    reveal(pow);
    if n >= 10 {
        law_decimal_digits(n / 10);
        let k = decimal_digits(n / 10);
        vstd::arithmetic::div_mod::lemma_fundamental_div_mod(n as int, 10);
        vstd::arithmetic::div_mod::lemma_mod_pos_bound(n as int, 10);
        assert(pow(10, k + 1) == 10 * pow(10, k));
        if k > 1 {
            assert(pow(10, k) == 10 * pow(10, (k - 1) as nat));
        } else {
            assert(pow(10, (k - 1) as nat) == 1);
            assert(pow(10, k) == 10) by {
                assert(pow(10, 1) == 10 * pow(10, 0));
            }
        }
        assert(n / 10 + 1 <= pow(10, k));
        assert(10 * (n / 10) + 10 <= 10 * pow(10, k)) by (nonlinear_arith)
            requires
                n / 10 + 1 <= pow(10, k),
        ;
    } else {
        assert(pow(10, 1) == 10 * pow(10, 0));
    }
}

/// The margin is as wide as the number of lines, taken as a `u16`, has
/// digits.
pub proof fn law_margin(editor: Editor)
    ensures
        ({
            let m = margin(editor);
            let k = (editor.lines().len() as u16) as nat;
            &&& m >= 1
            &&& k < pow(10, m as nat)
            &&& m > 1 ==> pow(10, (m - 1) as nat) <= k
        }),
{
    law_decimal_digits((editor.lines().len() as u16) as nat);
}

/// A line is padded with spaces up to the width of the terminal: the
/// columns before `x` and the padding fill the width, or nothing is added
/// past it.
pub proof fn law_padding(x: int, terminal_width: int)
    requires
        x >= 1,
        terminal_width >= 0,
    ensures
        padding(x, terminal_width) >= 0,
        x - 1 < terminal_width ==> (x - 1) + padding(x, terminal_width) == terminal_width,
        x - 1 >= terminal_width ==> padding(x, terminal_width) == 0,
{
}

/// The lines shown are those of the text from the first below the
/// scrolled ones, in order, at most one fewer than the terminal has rows.
pub proof fn law_shown_lines(editor: Editor, terminal_height: int)
    requires
        terminal_height >= 1,
    ensures
        ({
            let shown = shown_lines(editor, terminal_height);
            let all = editor.lines();
            let off = editor.cursor.y_offset as int;
            &&& shown.len() <= terminal_height - 1
            &&& off < all.len() ==> shown.len() == min_int(all.len() - off, terminal_height - 1)
            &&& off >= all.len() ==> shown.len() == 0
            &&& forall|j: int| 0 <= j < shown.len() ==> #[trigger] shown[j] == all[off + j]
        }),
{
}

/// A laid-out line prints the whole of its text line, whatever its width;
/// the first line starts on the row below the title, and each other on the
/// row after its index plus the rows the line shown just above it takes;
/// its number is the line's number in the file; and the terminal cursor
/// goes where it goes after a line of that length with those rows above.
pub proof fn law_line_view(
    v: LineView,
    shown: Seq<Seq<char>>,
    i: int,
    left_pad: int,
    cursor: CursorPosition,
    terminal_width: int,
)
    requires
        0 <= i < shown.len(),
        line_view_of(v, shown, i, left_pad, cursor, terminal_width),
    ensures
        v.text@ == shown[i],
        i == 0 ==> v.row == 2,
        i > 0 ==> v.row == i + 1 + rows_taken(byte_len(shown[i - 1]), left_pad, terminal_width),
        v.line_nb@ == line_number_chars(left_pad, (i + 1 + cursor.y_offset) as nat),
        i == 0 ==> (v.cursor.0 as int, v.cursor.1 as int) == position(
            byte_len(shown[i]),
            left_pad,
            cursor,
            1,
            terminal_width,
        ),
        i > 0 ==> (v.cursor.0 as int, v.cursor.1 as int) == position(
            byte_len(shown[i]),
            left_pad,
            cursor,
            rows_taken(byte_len(shown[i - 1]), left_pad, terminal_width),
            terminal_width,
        ),
        v.padding == padding(v.cursor.0 as int, terminal_width),
{
}

/// What the editor shows on a terminal of `terminal_width` columns and
/// `terminal_height` rows, below the title row: each shown line on the row
/// after the rows the line above it took, with its number right-aligned on
/// a margin as wide as the number of lines has digits, padded with spaces
/// to the width of the terminal; the terminal cursor where the last line
/// leaves it; and, when the text ends above the last two rows, the row
/// below it to blank.
pub fn screen_view(editor: &Editor, terminal_width: u16, terminal_height: u16) -> (r: ScreenView)
    requires
        screen_defined(*editor, terminal_width, terminal_height),
    ensures
        ({
            let shown = shown_lines(*editor, terminal_height as int);
            let left_pad = margin(*editor);
            let last_off = if shown.len() == 0 {
                1
            } else {
                rows_taken(byte_len(shown[shown.len() - 1]), left_pad, terminal_width as int)
            };
            let n = (editor.lines().len() as u16) as int;
            &&& r.lines@.len() == shown.len()
            &&& forall|i: int|
                0 <= i < shown.len() ==> line_view_of(
                    #[trigger] r.lines@[i],
                    shown,
                    i,
                    left_pad,
                    editor.cursor,
                    terminal_width as int,
                )
            &&& forall|i: int| 0 <= i < shown.len() ==> (#[trigger] r.lines@[i]).text@ == shown[i]
            &&& shown.len() > 0 ==> r.lines@[0].row == 2
            &&& forall|i: int|
                0 < i < shown.len() ==> (#[trigger] r.lines@[i]).row == i + 1 + rows_taken(
                    byte_len(shown[i - 1]),
                    left_pad,
                    terminal_width as int,
                )
            &&& shown.len() == 0 ==> r.cursor == (1u16, 1u16)
            &&& shown.len() > 0 ==> r.cursor == r.lines@[shown.len() - 1].cursor
            &&& n + last_off < terminal_height - 1 ==> r.blank_row == Some((n + last_off + 1) as u16)
            &&& !(n + last_off < terminal_height - 1) ==> r.blank_row is None
        }),
{
    let ghost shown = shown_lines(*editor, terminal_height as int);
    let number_of_lines = editor.get_number_of_lines();
    let left_pad = get_number_of_chars_of_u16(number_of_lines as u16);
    let editor_lines = editor.get_editor_lines(terminal_height as usize - 1);
    assert(views(editor_lines@) == shown);
    let mut views_out: Vec<LineView> = Vec::new();
    let mut y_line_offset: u16 = 1;
    let mut x_current_line: u16 = 1;
    let mut y_current_line: u16 = 1;
    let mut index: usize = 0;
    while index < editor_lines.len()
        invariant
            screen_defined(*editor, terminal_width, terminal_height),
            shown == shown_lines(*editor, terminal_height as int),
            views(editor_lines@) == shown,
            left_pad == margin(*editor),
            index <= editor_lines.len(),
            views_out@.len() == index,
            y_line_offset == offset_before(shown, index as int, left_pad as int, terminal_width as int),
            forall|i: int|
                0 <= i < index ==> line_view_of(
                    #[trigger] views_out@[i],
                    shown,
                    i,
                    left_pad as int,
                    editor.cursor,
                    terminal_width as int,
                ),
            index == 0 ==> x_current_line == 1 && y_current_line == 1,
            index > 0 ==> (x_current_line, y_current_line) == views_out@[index - 1].cursor,
        decreases editor_lines.len() - index,
    {
        let ghost i = index as int;
        assert(line_view_defined(shown, i, left_pad as int, editor.cursor, terminal_width as int));
        let line = &editor_lines[index];
        assert(line@ == shown[i]);
        let len = byte_count(line.as_str());
        let file_line_nb = index as u16 + 1 + editor.cursor.y_offset;
        let line_nb = render_line_nb(left_pad, file_line_nb);
        let (x, y) = print_line_position(len, left_pad, &editor.cursor, y_line_offset, terminal_width);
        let pad = padding_len(x, terminal_width);
        let row = index as u16 + 1 + y_line_offset;
        let text = string_of(chars_of(line.as_str()).as_slice());
        views_out.push(LineView { text, row, line_nb, padding: pad, cursor: (x, y) });
        x_current_line = x;
        y_current_line = y;
        y_line_offset = get_number_of_lines_under_which_the_text_line_should_be_displayed(
            line.as_str(),
            left_pad,
            terminal_width,
        );
        index += 1;
    }
    let blank = blank_row(number_of_lines as u16, y_line_offset, terminal_height);
    ScreenView { lines: views_out, cursor: (x_current_line, y_current_line), blank_row: blank }
}

/// Whether `screen_view` may be called.
pub fn screen_is_defined(editor: &Editor, terminal_width: u16, terminal_height: u16) -> (r: bool)
    ensures
        r == screen_defined(*editor, terminal_width, terminal_height),
{
    if !editor.piece_table.is_well_formed() || terminal_height < 1 {
        return false;
    }
    if editor.piece_table.text_len() == usize::MAX {
        return false;
    }
    let ghost shown = shown_lines(*editor, terminal_height as int);
    let number_of_lines = editor.get_number_of_lines();
    let left_pad = get_number_of_chars_of_u16(number_of_lines as u16);
    let editor_lines = editor.get_editor_lines(terminal_height as usize - 1);
    assert(views(editor_lines@) == shown);
    let mut y_line_offset: u16 = 1;
    let mut index: usize = 0;
    while index < editor_lines.len()
        invariant
            editor.piece_table.wf(),
            shown == shown_lines(*editor, terminal_height as int),
            views(editor_lines@) == shown,
            left_pad == margin(*editor),
            index <= editor_lines.len(),
            y_line_offset == offset_before(shown, index as int, left_pad as int, terminal_width as int),
            forall|i: int|
                0 <= i < index ==> #[trigger] line_view_defined(
                    shown,
                    i,
                    left_pad as int,
                    editor.cursor,
                    terminal_width as int,
                ),
        decreases editor_lines.len() - index,
    {
        let ghost i = index as int;
        let line = &editor_lines[index];
        assert(line@ == shown[i]);
        let len = byte_count(line.as_str());
        assert(len == byte_len(shown[i]));
        let max: u64 = 65535;
        if index >= 65535 || index as u64 + 1 + editor.cursor.y_offset as u64 > max {
            assert(!line_view_defined(shown, i, left_pad as int, editor.cursor, terminal_width as int));
            return false;
        }
        let file_line_nb = index as u16 + 1 + editor.cursor.y_offset;
        if left_pad < get_number_of_chars_of_u16(file_line_nb) {
            assert(!line_view_defined(shown, i, left_pad as int, editor.cursor, terminal_width as int));
            return false;
        }
        if !position_is_defined(len, left_pad, &editor.cursor, y_line_offset, terminal_width) {
            assert(!line_view_defined(shown, i, left_pad as int, editor.cursor, terminal_width as int));
            return false;
        }
        if index as u64 + 1 + y_line_offset as u64 > max {
            assert(!line_view_defined(shown, i, left_pad as int, editor.cursor, terminal_width as int));
            return false;
        }
        if !rows_are_defined(len, left_pad, terminal_width) {
            assert(!line_view_defined(shown, i, left_pad as int, editor.cursor, terminal_width as int));
            return false;
        }
        assert(line_view_defined(shown, i, left_pad as int, editor.cursor, terminal_width as int));
        y_line_offset = get_number_of_lines_under_which_the_text_line_should_be_displayed(
            line.as_str(),
            left_pad,
            terminal_width,
        );
        index += 1;
    }
    (number_of_lines as u16) as u64 + y_line_offset as u64 <= 65535
}

/// Whether `position_defined` holds.
fn position_is_defined(
    len: usize,
    left_pad: u16,
    cursor: &CursorPosition,
    y_prev_line_offset: u16,
    terminal_width: u16,
) -> (r: bool)
    ensures
        r == position_defined(
            len as int,
            left_pad as int,
            *cursor,
            y_prev_line_offset as int,
            terminal_width as int,
        ),
{
    if len > usize::MAX - left_pad as usize {
        return false;
    }
    let max: u64 = 65535;
    let tw = terminal_width as u64;
    if len + left_pad as usize > terminal_width as usize {
        let w = (len as u16) as u64 + left_pad as u64;
        if w > max || w < tw || tw == 0 {
            return false;
        }
        let rest = w - tw;
        cursor.y as u64 + y_prev_line_offset as u64 + rest / tw + 1 <= max && rest % tw + 3 <= max
    } else {
        cursor.x as u64 + left_pad as u64 + 2 <= max && cursor.y as u64 + y_prev_line_offset as u64
            <= max
    }
}

/// Whether `rows_defined` holds.
fn rows_are_defined(len: usize, left_pad: u16, terminal_width: u16) -> (r: bool)
    ensures
        r == rows_defined(len as int, left_pad as int, terminal_width as int),
{
    let w = (len as u16) as u64 + left_pad as u64;
    let tw = terminal_width as u64;
    if w > 65535 {
        return false;
    }
    if w >= tw {
        tw > 0 && (w - tw) / tw + 2 <= 65535
    } else {
        true
    }
}

} // verus!
