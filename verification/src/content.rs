//! The editor that keeps its text as a list of lines.
use vstd::prelude::*;

use crate::cursor::{
    down_defined, max_int, moved_down, moved_left, moved_right, moved_up, up_defined, CursorPosition,
};
use crate::keys::{Key, KeyAction};
use crate::file::file_content;
use crate::encoding::{
    byte_count, byte_len, byte_pos, char_pos, char_position, is_char_pos, lemma_byte_len_concat,
    lemma_byte_pos_mono, lemma_char_pos, lemma_char_pos_order,
};
use crate::text::{chars_of, join_lines, string_of, sub_chars, views};

verus! {

/// An editor: the lines of the text, and the cursor in them.
#[derive(Debug)]
pub struct Editor {
    pub lines: Vec<String>,
    pub cursor: CursorPosition,
}

/// The lines once a line break is typed at column `x` of line `line`,
/// columns counting bytes from 1: the line keeps the characters before
/// byte `x - 1`, and a new line below it gets those from there up to byte
/// `nb`, where `nb` is the line's byte length taken as a `u16`.
pub open spec fn lines_after_new_line(lines: Seq<Seq<char>>, line: int, x: int) -> Seq<Seq<char>> {
    let l = lines[line - 1];
    let nb = (byte_len(l) as u16) as int;
    let a = char_pos(l, x - 1);
    lines.update(line - 1, l.take(a)).insert(line, l.subrange(a, char_pos(l, nb)))
}

/// The lines once `c` is typed at byte column `x` of line `line`: `c` goes
/// in where byte `x - 1` of the line starts.
pub open spec fn lines_after_char(lines: Seq<Seq<char>>, line: int, x: int, c: char) -> Seq<
    Seq<char>,
> {
    lines.update(line - 1, lines[line - 1].insert(char_pos(lines[line - 1], x - 1), c))
}

/// The lines once the character that starts at byte `x - 2` of line
/// `line` is removed.
pub open spec fn lines_after_removed_char(lines: Seq<Seq<char>>, line: int, x: int) -> Seq<
    Seq<char>,
> {
    lines.update(line - 1, lines[line - 1].remove(char_pos(lines[line - 1], x - 2)))
}

/// The lines once line `line` joins the line above it.
pub open spec fn lines_after_joined_line(lines: Seq<Seq<char>>, line: int) -> Seq<Seq<char>> {
    lines.update(line - 2, lines[line - 2] + lines[line - 1]).remove(line - 1)
}

/// The editor `new` is `old` after typing `c` on a terminal of
/// `terminal_height` rows: a line break cuts the cursor's line and the
/// cursor goes to the start of the new line (the view scrolling when the
/// cursor is on the row before the last); another character goes in before
/// the cursor, which moves one column right.
pub open spec fn typed(old: Editor, new: Editor, c: char, terminal_height: u16) -> bool {
    let line = old.cursor.line_in_file();
    &&& c == '\n' ==> new.text_lines() == lines_after_new_line(
        old.text_lines(),
        line,
        old.cursor.x as int,
    )
    &&& c == '\n' && old.cursor.y == terminal_height - 1 ==> new.cursor == (CursorPosition {
        x: 1,
        y: old.cursor.y,
        y_offset: (old.cursor.y_offset + 1) as u16,
    })
    &&& c == '\n' && old.cursor.y != terminal_height - 1 ==> new.cursor == (CursorPosition {
        x: 1,
        y: (old.cursor.y + 1) as u16,
        y_offset: old.cursor.y_offset,
    })
    &&& c != '\n' ==> new.text_lines() == lines_after_char(
        old.text_lines(),
        line,
        old.cursor.x as int,
        c,
    )
    &&& c != '\n' ==> new.cursor == (CursorPosition {
        x: (old.cursor.x + 1) as u16,
        y: old.cursor.y,
        y_offset: old.cursor.y_offset,
    })
}

/// Where the cursor goes up before the line it starts joins the line
/// above: as `move_up` takes it, the view scrolling up one line on the
/// first row with lines scrolled.
pub open spec fn up_rows(c: CursorPosition) -> (int, int) {
    if c.y == 1 && c.y_offset >= 1 {
        (c.y as int, c.y_offset - 1)
    } else {
        (max_int(2, c.y as int) - 1, c.y_offset as int)
    }
}

/// Whether, after the line the cursor starts joins the line above and `n`
/// lines are left, the view scrolls back one line: when, once the cursor
/// has gone up, lines are scrolled and fewer lines than the terminal has
/// rows are left below them.
pub open spec fn scrolls_back(c: CursorPosition, n: int, terminal_height: u16) -> bool {
    let up_off = up_rows(c).1;
    &&& up_off > 0
    &&& ((n as u16) - up_off) < terminal_height
}

/// The editor `new` is `old` after backspace on a terminal of
/// `terminal_height` rows: past the first column, the character before
/// the cursor goes and the cursor moves one column left; at the start of a
/// line below the first, the cursor goes up (one row, or the view scrolls
/// when it is on the first row), to the end of the line it reaches, the
/// line joins the one above, then, when the view scrolls back, the cursor
/// keeps its row; at the start of the first line nothing changes.
pub open spec fn backspaced(old: Editor, new: Editor, terminal_height: u16) -> bool {
    let line = old.cursor.line_in_file();
    let up = up_rows(old.cursor);
    let scrolls = scrolls_back(old.cursor, old.lines@.len() - 1, terminal_height);
    &&& old.cursor.x > 1 ==> {
        &&& new.text_lines() == lines_after_removed_char(
            old.text_lines(),
            line,
            old.cursor.x as int,
        )
        &&& new.cursor == (CursorPosition {
            x: (old.cursor.x - 1) as u16,
            y: old.cursor.y,
            y_offset: old.cursor.y_offset,
        })
    }
    &&& old.cursor.x <= 1 && line > 1 ==> {
        &&& new.text_lines() == lines_after_joined_line(old.text_lines(), line)
        &&& new.cursor.x == (byte_len(old.text_lines()[up.0 + up.1 - 1]) as u16) + 1
        &&& scrolls ==> new.cursor.y == old.cursor.y && new.cursor.y_offset == up.1 - 1
        &&& !scrolls ==> new.cursor.y == up.0 && new.cursor.y_offset == up.1
    }
    &&& old.cursor.x <= 1 && line <= 1 ==> new == old
}

/// Backspace right after typing undoes the typing: the backspace is
/// allowed, and it gives back the lines there were before and the cursor's
/// column. For a line break this holds when the cut line has at most
/// `u16::MAX` bytes (a longer line loses, on the new line, the characters
/// past its byte length taken as a `u16`), there are fewer than `u16::MAX`
/// lines, and the cursor does not stay on row 0 (which it does on a
/// one-row terminal).
pub proof fn law_backspace_undoes_typing(before: Editor, after: Editor, c: char, h: u16)
    requires
        before.insert_defined(c, h),
        typed(before, after, c, h),
        c == '\n' ==> byte_len(before.current_line()) <= u16::MAX,
        c == '\n' ==> before.lines@.len() < u16::MAX,
        c == '\n' && before.cursor.y == 0 ==> h != 1,
    ensures
        after.remove_defined(),
        c != '\n' ==> after.cursor.x > 1 && lines_after_removed_char(
            after.text_lines(),
            after.cursor.line_in_file(),
            after.cursor.x as int,
        ) == before.text_lines() && after.cursor.x - 1 == before.cursor.x,
        c == '\n' ==> after.cursor.x <= 1 && after.cursor.line_in_file() > 1
            && lines_after_joined_line(after.text_lines(), after.cursor.line_in_file())
            == before.text_lines() && (byte_len(
            after.text_lines()[after.cursor.line_in_file() - 2],
        ) as u16) + 1 == before.cursor.x,
{
    let lines = before.text_lines();
    let line = before.cursor.line_in_file();
    let x = before.cursor.x as int;
    let l = lines[line - 1];
    lemma_char_pos_order(l, x - 1, x - 1);
    let k = char_pos(l, x - 1);
    lemma_byte_pos_mono(l, 0, l.len() as int);
    assert(l.take(l.len() as int) =~= l);
    assert(byte_pos(l, k) == x - 1);
    assert(after.lines@.len() == after.text_lines().len());
    assert(before.lines@.len() == lines.len());
    if c != '\n' {
        let l2 = l.insert(k, c);
        assert(after.text_lines()[line - 1] == l2);
        assert(l2.take(k) =~= l.take(k));
        assert(l2.take(k + 1) =~= l.take(k) + seq![c]);
        lemma_byte_len_concat(l.take(k), seq![c]);
        crate::encoding::lemma_char_width(c);
        assert(byte_pos(l2, k) == x - 1);
        lemma_char_pos(l2, k);
        lemma_byte_pos_mono(l2, k, k + 1);
        lemma_byte_pos_mono(l2, k + 1, l2.len() as int);
        assert(l2.take(l2.len() as int) =~= l2);
        assert(l2.remove(k) =~= l);
        assert(lines_after_removed_char(after.text_lines(), line, x + 1) =~= lines);
    } else {
        let nb = (byte_len(l) as u16) as int;
        assert(nb == byte_len(l));
        assert(char_pos(l, nb) == l.len());
        let after_lines = after.text_lines();
        assert(after_lines[line - 1] == l.take(k));
        assert(after_lines[line] == l.subrange(k, l.len() as int));
        assert(l.take(k) + l.subrange(k, l.len() as int) =~= l);
        assert(lines_after_joined_line(after_lines, line + 1) =~= lines);
        assert(after.cursor.line_in_file() == line + 1);
        assert(byte_len(after_lines[line - 1]) == x - 1);
        assert(l.subrange(k, l.len() as int).take(0) =~= Seq::<char>::empty());
        assert(after_lines[line].take(0) =~= Seq::<char>::empty());
        assert(byte_pos(after_lines[line], 0) == 0) by {
            lemma_byte_pos_mono(after_lines[line], 0, 0);
            crate::encoding::lemma_byte_len_bounds(after_lines[line].take(0));
        }
    }
}

impl Editor {
    /// The lines as character sequences.
    pub open spec fn text_lines(self) -> Seq<Seq<char>> {
        views(self.lines@)
    }

    /// The cursor stands on one of the lines, at a column and a row from 1.
    pub open spec fn cursor_in_lines(self) -> bool {
        &&& self.cursor.x >= 1
        &&& 1 <= self.cursor.line_in_file() <= self.lines@.len()
        &&& self.cursor.line_in_file() <= u16::MAX
    }

    /// The cursor stands on a line and on a terminal row below the title:
    /// rows `1` to `terminal_height - 1`.
    pub open spec fn cursor_on_screen(self, terminal_height: u16) -> bool {
        &&& self.cursor_in_lines()
        &&& 1 <= self.cursor.y < terminal_height
    }

    /// The line the cursor stands on.
    pub open spec fn current_line(self) -> Seq<char> {
        self.text_lines()[self.cursor.line_in_file() - 1]
    }

    /// What `insert` asks: a cursor on a line, whose column counts bytes
    /// and falls where a character of the line starts or at its end; for a
    /// line break, a column within the line's byte length taken as a `u16`,
    /// which also falls where a character starts or at the end, a terminal
    /// row, and room for the cursor to go down; for another character, room
    /// for the cursor to go right.
    pub open spec fn insert_defined(self, c: char, terminal_height: u16) -> bool {
        &&& self.cursor_in_lines()
        &&& is_char_pos(self.current_line(), self.cursor.x - 1)
        &&& c == '\n' ==> {
            &&& self.cursor.x - 1 <= (byte_len(self.current_line()) as u16)
            &&& is_char_pos(self.current_line(), (byte_len(self.current_line()) as u16) as int)
            &&& terminal_height >= 1
            &&& self.cursor.y == terminal_height - 1 ==> self.cursor.y_offset < u16::MAX
            &&& self.cursor.y != terminal_height - 1 ==> self.cursor.y < u16::MAX
        }
        &&& c != '\n' ==> self.cursor.x < u16::MAX
    }

    /// What `remove` asks: a cursor on a line; a character before the
    /// cursor when its column is past the first; at the start of a line
    /// below the first, a line above and a line where the cursor goes up to
    /// short enough for a column, and, where the view may scroll back, a
    /// scroll offset no larger than the number of lines left.
    pub open spec fn remove_defined(self) -> bool {
        let line = self.cursor.line_in_file();
        let up = up_rows(self.cursor);
        &&& self.cursor_in_lines()
        &&& self.cursor.x > 1 ==> self.cursor.x - 2 < byte_len(self.current_line()) && is_char_pos(
            self.current_line(),
            self.cursor.x - 2,
        )
        &&& (self.cursor.x <= 1 && line > 1) ==> {
            &&& (byte_len(self.text_lines()[line - 2]) as u16) < u16::MAX
            &&& up.0 + up.1 <= self.lines@.len()
            &&& up.0 + up.1 <= u16::MAX
            &&& (byte_len(self.text_lines()[up.0 + up.1 - 1]) as u16) < u16::MAX
            &&& up.1 > 0 ==> ((self.lines@.len() - 1) as u16) >= up.1
        }
    }

    /// An editor with one empty line, the cursor at its start.
    pub fn new() -> (r: Editor)
        ensures
            r.text_lines() == seq![Seq::<char>::empty()],
            r.cursor == (CursorPosition { x: 1, y: 1, y_offset: 0 }),
    {
        let mut lines: Vec<String> = Vec::new();
        lines.push(String::new());
        let r = Editor { lines, cursor: CursorPosition { x: 1, y: 1, y_offset: 0 } };
        assert(r.text_lines() =~= seq![Seq::<char>::empty()]);
        r
    }

    /// An editor with the given lines, the cursor at the start.
    pub fn from(lines: Vec<String>) -> (r: Editor)
        ensures
            r.lines == lines,
            r.cursor == (CursorPosition { x: 1, y: 1, y_offset: 0 }),
    {
        Editor { lines, cursor: CursorPosition::new() }
    }

    /// Types `c` at the cursor: a line break cuts the line in two and moves
    /// the cursor to the start of the new line (scrolling on the last
    /// terminal row); another character goes in before the cursor, which
    /// moves right.
    pub fn insert(&mut self, c: char, terminal_height: u16)
        requires
            old(self).insert_defined(c, terminal_height),
        ensures
            typed(*old(self), *final(self), c, terminal_height),
    {
        if c == '\n' {
            self.insert_new_line(terminal_height);
        } else {
            self.insert_char(c);
        }
    }

    fn insert_new_line(&mut self, terminal_height: u16)
        requires
            old(self).insert_defined('\n', terminal_height),
        ensures
            typed(*old(self), *final(self), '\n', terminal_height),
    {
        let ghost old_lines = self.text_lines();
        let y_position_in_file = self.cursor.get_y_position_in_file() as usize;
        let current_line = chars_of(self.lines[y_position_in_file - 1].as_str());
        let nb_char_in_current_line = byte_count(self.lines[y_position_in_file - 1].as_str()) as u16;
        proof {
            lemma_char_pos_order(
                current_line@,
                self.cursor.x - 1,
                nb_char_in_current_line as int,
            );
        }
        let cut = match char_position(&current_line, self.cursor.x as u64 - 1) {
            Some(k) => k,
            None => 0,
        };
        let end = match char_position(&current_line, nb_char_in_current_line as u64) {
            Some(k) => k,
            None => 0,
        };
        let end_of_line = string_of(sub_chars(&current_line, cut, end).as_slice());
        let start_of_line = string_of(sub_chars(&current_line, 0, cut).as_slice());
        let ghost before = self.lines@;
        self.lines.insert(y_position_in_file, end_of_line);
        self.lines.set(y_position_in_file - 1, start_of_line);
        proof {
            let l = old_lines[y_position_in_file - 1];
            assert(current_line@ == l);
            assert(self.lines@ == before.insert(y_position_in_file as int, end_of_line).update(
                y_position_in_file - 1,
                start_of_line,
            ));
            assert(self.text_lines() =~= lines_after_new_line(
                old_lines,
                y_position_in_file as int,
                self.cursor.x as int,
            ));
        }
        if self.cursor.y == terminal_height - 1 {
            self.cursor.x = 1;
            self.cursor.y_offset = self.cursor.y_offset + 1;
        } else {
            self.cursor.x = 1;
            self.cursor.y = self.cursor.y + 1;
        }
    }

    fn insert_char(&mut self, c: char)
        requires
            old(self).insert_defined(c, 1),
            c != '\n',
        ensures
            final(self).text_lines() == lines_after_char(
                old(self).text_lines(),
                old(self).cursor.line_in_file(),
                old(self).cursor.x as int,
                c,
            ),
            final(self).cursor == (CursorPosition {
                x: (old(self).cursor.x + 1) as u16,
                y: old(self).cursor.y,
                y_offset: old(self).cursor.y_offset,
            }),
    {
        let ghost old_lines = self.text_lines();
        let y_position_in_file = self.cursor.get_y_position_in_file() as usize;
        let current_line = chars_of(self.lines[y_position_in_file - 1].as_str());
        proof {
            lemma_char_pos_order(current_line@, self.cursor.x - 1, self.cursor.x - 1);
        }
        let at = match char_position(&current_line, self.cursor.x as u64 - 1) {
            Some(k) => k,
            None => 0,
        };
        let mut changed = sub_chars(&current_line, 0, at);
        changed.push(c);
        let rest = sub_chars(&current_line, at, current_line.len());
        crate::text::append_chars(&mut changed, &rest);
        let ghost before = self.lines@;
        self.lines.set(y_position_in_file - 1, string_of(changed.as_slice()));
        proof {
            let l = old_lines[y_position_in_file - 1];
            assert(current_line@ == l);
            assert(changed@ =~= l.insert(at as int, c));
            assert(self.text_lines() =~= lines_after_char(
                old_lines,
                y_position_in_file as int,
                self.cursor.x as int,
                c,
            ));
        }
        self.cursor.x = self.cursor.x + 1;
    }

    /// Backspace: removes the character before the cursor; at the start of
    /// a line below the first, the line joins the one above and the cursor
    /// goes to where they meet.
    pub fn remove(&mut self, terminal_height: u16)
        requires
            old(self).remove_defined(),
        ensures
            backspaced(*old(self), *final(self), terminal_height),
    {
        let y_position_in_file = self.cursor.get_y_position_in_file() as usize;
        if self.cursor.x > 1 {
            self.remove_char();
        } else if y_position_in_file > 1 {
            self.remove_line(terminal_height);
        }
    }

    fn remove_char(&mut self)
        requires
            old(self).remove_defined(),
            old(self).cursor.x > 1,
        ensures
            final(self).text_lines() == lines_after_removed_char(
                old(self).text_lines(),
                old(self).cursor.line_in_file(),
                old(self).cursor.x as int,
            ),
            final(self).cursor == (CursorPosition {
                x: (old(self).cursor.x - 1) as u16,
                y: old(self).cursor.y,
                y_offset: old(self).cursor.y_offset,
            }),
    {
        let ghost old_lines = self.text_lines();
        let y_position_in_file = self.cursor.get_y_position_in_file() as usize;
        let current_line = chars_of(self.lines[y_position_in_file - 1].as_str());
        proof {
            lemma_char_pos_order(current_line@, self.cursor.x - 2, self.cursor.x - 2);
            let k = char_pos(current_line@, self.cursor.x - 2);
            if k >= current_line@.len() {
                lemma_byte_pos_mono(current_line@, k, current_line@.len() as int);
            }
        }
        let at = match char_position(&current_line, self.cursor.x as u64 - 2) {
            Some(k) => k,
            None => 0,
        };
        let mut changed = sub_chars(&current_line, 0, at);
        let rest = sub_chars(&current_line, at + 1, current_line.len());
        crate::text::append_chars(&mut changed, &rest);
        self.lines.set(y_position_in_file - 1, string_of(changed.as_slice()));
        proof {
            let l = old_lines[y_position_in_file - 1];
            assert(current_line@ == l);
            assert(changed@ =~= l.remove(at as int));
            assert(self.text_lines() =~= lines_after_removed_char(
                old_lines,
                y_position_in_file as int,
                self.cursor.x as int,
            ));
        }
        self.cursor.move_left();
    }

    fn remove_line(&mut self, terminal_height: u16)
        requires
            old(self).remove_defined(),
            old(self).cursor.x <= 1,
            old(self).cursor.line_in_file() > 1,
        ensures
            backspaced(*old(self), *final(self), terminal_height),
    {
        let ghost old_lines = self.text_lines();
        let cursor_before = self.cursor;
        let y_position_in_file = cursor_before.get_y_position_in_file() as usize;
        assert(self.lines@[y_position_in_file - 2]@ == old_lines[y_position_in_file - 2]);
        self.cursor.move_up(&self.lines);
        self.cursor.move_to_end_of_line(&self.lines);
        let current_line = chars_of(self.lines[y_position_in_file - 1].as_str());
        let mut previous_line = chars_of(self.lines[y_position_in_file - 2].as_str());
        crate::text::append_chars(&mut previous_line, &current_line);
        let ghost before = self.lines@;
        self.lines.set(y_position_in_file - 2, string_of(previous_line.as_slice()));
        self.lines.remove(y_position_in_file - 1);
        proof {
            assert(self.text_lines() =~= lines_after_joined_line(
                old_lines,
                y_position_in_file as int,
            ));
        }
        if self.cursor.y_offset > 0 && (self.lines.len() as u16) - self.cursor.y_offset
            < terminal_height {
            self.cursor.y_offset = self.cursor.y_offset - 1;
            self.cursor.y = cursor_before.y;
        }
    }

    /// Whether the cursor stands on one of the lines.
    pub fn cursor_is_in_lines(&self) -> (r: bool)
        ensures
            r == self.cursor_in_lines(),
    {
        let line: u32 = self.cursor.y as u32 + self.cursor.y_offset as u32;
        self.cursor.x >= 1 && line >= 1 && line <= 65535 && (line as usize)
            <= self.lines.len()
    }

    /// The number of bytes of the line the cursor stands on.
    fn current_line_len(&self) -> (r: usize)
        requires
            self.cursor_in_lines(),
        ensures
            r == byte_len(self.current_line()),
    {
        let line = self.cursor.get_y_position_in_file() as usize;
        assert(self.lines@[line - 1]@ == self.current_line());
        byte_count(self.lines[line - 1].as_str())
    }

    /// Whether `insert` may be called for `c`.
    pub fn insert_is_defined(&self, c: char, terminal_height: u16) -> (r: bool)
        ensures
            r == self.insert_defined(c, terminal_height),
    {
        if !self.cursor_is_in_lines() {
            return false;
        }
        let len = self.current_line_len();
        let line = self.cursor.get_y_position_in_file() as usize;
        assert(self.lines@[line - 1]@ == self.current_line());
        let chars = chars_of(self.lines[line - 1].as_str());
        proof {
            let l = self.current_line();
            lemma_byte_pos_mono(l, 0, l.len() as int);
            lemma_char_pos_order(l, 0, 0);
            assert(l.take(0) =~= Seq::<char>::empty());
            if self.cursor.x - 1 > len {
                lemma_char_pos_order(l, len as int, len as int);
                if is_char_pos(l, self.cursor.x - 1) {
                    lemma_char_pos_order(l, self.cursor.x - 1, self.cursor.x - 1);
                }
            }
            assert(byte_pos(l, l.len() as int) == len);
        }
        if (self.cursor.x as usize - 1) > len {
            return false;
        }
        if char_position(&chars, self.cursor.x as u64 - 1).is_none() {
            return false;
        }
        if c == '\n' {
            if (self.cursor.x - 1) > len as u16 || terminal_height < 1 {
                return false;
            }
            if char_position(&chars, (len as u16) as u64).is_none() {
                return false;
            }
            if self.cursor.y == terminal_height - 1 {
                self.cursor.y_offset < u16::MAX
            } else {
                self.cursor.y < u16::MAX
            }
        } else {
            self.cursor.x < u16::MAX
        }
    }

    /// Whether `remove` may be called.
    pub fn remove_is_defined(&self) -> (r: bool)
        ensures
            r == self.remove_defined(),
    {
        if !self.cursor_is_in_lines() {
            return false;
        }
        let line = self.cursor.get_y_position_in_file() as usize;
        if self.cursor.x > 1 {
            if (self.cursor.x as usize - 2) >= self.current_line_len() {
                return false;
            }
            assert(self.lines@[line - 1]@ == self.current_line());
            let chars = chars_of(self.lines[line - 1].as_str());
            return char_position(&chars, self.cursor.x as u64 - 2).is_some();
        }
        if line <= 1 {
            return true;
        }
        assert(self.lines@[line - 2]@ == self.text_lines()[line - 2]);
        if byte_count(self.lines[line - 2].as_str()) as u16 == u16::MAX {
            return false;
        }
        let scrolled = self.cursor.y == 1 && self.cursor.y_offset >= 1;
        let up_y: u16 = if scrolled {
            self.cursor.y
        } else if self.cursor.y < 2 {
            1
        } else {
            self.cursor.y - 1
        };
        let up_off: u16 = if scrolled {
            self.cursor.y_offset - 1
        } else {
            self.cursor.y_offset
        };
        let up_line: u32 = up_y as u32 + up_off as u32;
        if up_line as usize > self.lines.len() || up_line > 65535 {
            return false;
        }
        assert(self.lines@[up_line - 1]@ == self.text_lines()[up_line - 1]);
        if byte_count(self.lines[up_line as usize - 1].as_str()) as u16 == u16::MAX {
            return false;
        }
        up_off == 0 || ((self.lines.len() - 1) as u16) >= up_off
    }

    /// Whether `handle_key_press` may be called for `key`.
    pub fn key_press_is_defined(&self, key: Key, terminal_height: u16) -> (r: bool)
        ensures
            r == self.key_press_defined(key, terminal_height),
    {
        match key {
            Key::Char(c) => self.insert_is_defined(c, terminal_height),
            Key::Backspace => self.remove_is_defined(),
            Key::Left => self.cursor.x >= 1,
            Key::Right => {
                self.cursor_is_in_lines() && self.cursor.x < u16::MAX
                    && (self.current_line_len() as u16) < u16::MAX
            },
            Key::Up => {
                let line: u32 = self.cursor.y as u32 + self.cursor.y_offset as u32;
                if line > 65535 {
                    return false;
                }
                if line <= 1 {
                    return true;
                }
                let i = (line - 2) as usize;
                if i >= self.lines.len() {
                    return false;
                }
                (byte_count(self.lines[i].as_str()) as u16) < u16::MAX
            },
            Key::Down => {
                let line: u32 = self.cursor.y as u32 + self.cursor.y_offset as u32;
                if line > 65535 || terminal_height < 1 {
                    return false;
                }
                let line = line as usize;
                if line == self.lines.len() {
                    return true;
                }
                if self.cursor.y != terminal_height - 1 {
                    if line >= self.lines.len() || self.cursor.y == u16::MAX {
                        return false;
                    }
                    (byte_count(self.lines[line].as_str()) as u16) < u16::MAX
                } else {
                    self.cursor.y_offset < u16::MAX
                }
            },
            _ => true,
        }
    }

    /// What `handle_key_press` asks for `key`: what the function that the
    /// key leads to asks.
    pub open spec fn key_press_defined(self, key: Key, terminal_height: u16) -> bool {
        let line = self.cursor.line_in_file();
        match key {
            Key::Char(c) => self.insert_defined(c, terminal_height),
            Key::Backspace => self.remove_defined(),
            Key::Left => self.cursor.x >= 1,
            Key::Right => {
                &&& self.cursor_in_lines()
                &&& self.cursor.x < u16::MAX
                &&& (byte_len(self.current_line()) as u16) < u16::MAX
            },
            Key::Up => up_defined(self.cursor, self.text_lines()),
            Key::Down => down_defined(self.cursor, self.text_lines(), terminal_height as int),
            _ => true,
        }
    }
}

/// The editor `new` is `old` after a press of `key` on a terminal of
/// `terminal_height` rows: a character is typed, backspace removes, the
/// arrows move the cursor over the same text, and any other key changes
/// nothing.
pub open spec fn key_pressed(old: Editor, new: Editor, key: Key, terminal_height: u16) -> bool {
    match key {
        Key::Char(c) => typed(old, new, c, terminal_height),
        Key::Backspace => backspaced(old, new, terminal_height),
        Key::Left => new.lines == old.lines && moved_left(
            old.cursor,
            new.cursor,
        ),
        Key::Right => new.lines == old.lines && moved_right(
            old.cursor,
            new.cursor,
            (byte_len(old.current_line()) as u16) as int,
        ),
        Key::Up => new.lines == old.lines && moved_up(
            old.cursor,
            new.cursor,
            old.text_lines(),
        ),
        Key::Down => new.lines == old.lines && moved_down(
            old.cursor,
            new.cursor,
            old.text_lines(),
            terminal_height as int,
        ),
        _ => new.lines == old.lines && new.cursor == old.cursor,
    }
}

/// Every allowed key press keeps the cursor on a line and on a terminal
/// row below the title, except where the key takes it past line
/// `u16::MAX`: a line break typed, or the cursor moved down, on that line
/// when it is not the last.
pub proof fn law_key_press_keeps_cursor_on_screen(before: Editor, after: Editor, key: Key, h: u16)
    requires
        before.cursor_on_screen(h),
        before.key_press_defined(key, h),
        key_pressed(before, after, key, h),
        key == Key::Char('\n') ==> before.cursor.line_in_file() < u16::MAX,
        key == Key::Down && before.cursor.line_in_file() != before.lines@.len()
            ==> before.cursor.line_in_file() < u16::MAX,
    ensures
        after.cursor_on_screen(h),
{
    assert(before.lines@.len() == before.text_lines().len());
    assert(after.lines@.len() == after.text_lines().len());
}

/// Reacts to a key: a character is typed, backspace removes, the arrows
/// move the cursor, Ctrl-S asks to save the lines, joined by `'\n'`, to the
/// file when there is one, and Esc asks to stop.
pub fn handle_key_press(
    key: Key,
    editor: &mut Editor,
    file_name_option: Option<&String>,
    terminal_height: u16,
) -> (r: KeyAction)
    requires
        old(editor).key_press_defined(key, terminal_height),
    ensures
        key == Key::Esc <==> r is Quit,
        r is Save <==> (key == Key::Ctrl('s') && file_name_option is Some),
        r matches KeyAction::Save { file_name, content } ==> file_name@ == file_name_option->0@
            && content@ == join_lines(old(editor).text_lines()),
        key_pressed(*old(editor), *final(editor), key, terminal_height),
{
    match key {
        Key::Char(c) => {
            editor.insert(c, terminal_height);
        },
        Key::Backspace => {
            editor.remove(terminal_height);
        },
        Key::Left => {
            editor.cursor.move_left();
        },
        Key::Right => {
            let line = editor.cursor.get_y_position_in_file() as usize;
            let nb_char_in_current_line = byte_count(editor.lines[line - 1].as_str()) as u16;
            editor.cursor.move_right(nb_char_in_current_line);
        },
        Key::Up => {
            editor.cursor.move_up(&editor.lines);
        },
        Key::Ctrl('s') => {
            if let Some(file_name) = file_name_option {
                return KeyAction::Save {
                    file_name: file_name.clone(),
                    content: file_content(&editor.lines),
                };
            }
        },
        Key::Down => {
            editor.cursor.move_down(&editor.lines, terminal_height);
        },
        Key::Esc => {
            return KeyAction::Quit;
        },
        _ => {},
    }
    KeyAction::Continue
}

} // verus!
