//! The cursor of the editor: a column `x` and a terminal row `y`, both
//! counted from 1, and `y_offset`, the number of lines of the file scrolled
//! above the first terminal row.
use vstd::prelude::*;

use crate::encoding::{byte_count, byte_len};
use crate::text::views;

verus! {

/// Where the cursor stands.
#[derive(Clone, Copy, Debug, PartialEq, Eq, Structural)]
pub struct CursorPosition {
    pub x: u16,
    pub y: u16,
    pub y_offset: u16,
}

/// The smaller of two integers.
pub open spec fn min_int(a: int, b: int) -> int {
    if a <= b {
        a
    } else {
        b
    }
}

/// The larger of two integers.
pub open spec fn max_int(a: int, b: int) -> int {
    if a >= b {
        a
    } else {
        b
    }
}

/// The cursor after `move_left`.
pub open spec fn moved_left(old: CursorPosition, new: CursorPosition) -> bool {
    &&& new.x == max_int(1, old.x - 1)
    &&& new.y == old.y
    &&& new.y_offset == old.y_offset
}

/// The cursor after `move_right` on a line of `nb` characters.
pub open spec fn moved_right(old: CursorPosition, new: CursorPosition, nb: int) -> bool {
    &&& new.x == min_int(old.x + 1, nb + 1)
    &&& new.y == old.y
    &&& new.y_offset == old.y_offset
}

/// What `move_up` asks: a line above, when there is one, whose length
/// taken as a `u16` leaves room for the column after it.
pub open spec fn up_defined(c: CursorPosition, lines: Seq<Seq<char>>) -> bool {
    let pos = c.line_in_file();
    &&& pos <= u16::MAX
    &&& pos > 1 ==> pos - 2 < lines.len() && (byte_len(lines[pos - 2]) as u16) < u16::MAX
}

/// The cursor after `move_up`: its column kept within the line above, and
/// one row up, or the view scrolled one line when it is on the first row.
pub open spec fn moved_up(old: CursorPosition, new: CursorPosition, lines: Seq<Seq<char>>) -> bool {
    let pos = old.line_in_file();
    &&& new.x == (if pos > 1 {
        min_int(old.x as int, (byte_len(lines[pos - 2]) as u16) + 1)
    } else {
        old.x as int
    })
    &&& old.y == 1 && old.y_offset >= 1 ==> new.y == old.y && new.y_offset == old.y_offset - 1
    &&& !(old.y == 1 && old.y_offset >= 1) ==> new.y == max_int(2, old.y as int) - 1
        && new.y_offset == old.y_offset
}

/// What `move_down` asks: a terminal of at least one row; unless the
/// cursor is on the last line, a line below short enough for a column and
/// room for the row to grow, or, on the last terminal row, for the view to
/// scroll.
pub open spec fn down_defined(c: CursorPosition, lines: Seq<Seq<char>>, terminal_height: int) -> bool {
    let pos = c.line_in_file();
    &&& pos <= u16::MAX
    &&& terminal_height >= 1
    &&& pos != lines.len() ==> {
        &&& c.y != terminal_height - 1 ==> {
            &&& pos < lines.len()
            &&& (byte_len(lines[pos]) as u16) < u16::MAX
            &&& c.y < u16::MAX
        }
        &&& c.y == terminal_height - 1 ==> c.y_offset < u16::MAX
    }
}

/// The cursor after `move_down`: unchanged on the last line of the file;
/// else on the last terminal row the view scrolls one line, and elsewhere
/// the column is kept within the line below and the row goes one down, no
/// lower than the last terminal row.
pub open spec fn moved_down(
    old: CursorPosition,
    new: CursorPosition,
    lines: Seq<Seq<char>>,
    terminal_height: int,
) -> bool {
    let pos = old.line_in_file();
    if pos == lines.len() {
        new == old
    } else {
        &&& new.x == (if old.y != terminal_height - 1 {
            min_int(old.x as int, (byte_len(lines[pos]) as u16) + 1)
        } else {
            old.x as int
        })
        &&& old.y == terminal_height - 1 ==> new.y == old.y && new.y_offset == old.y_offset + 1
        &&& old.y != terminal_height - 1 ==> new.y == min_int(terminal_height - 1, old.y + 1)
            && new.y_offset == old.y_offset
    }
}

impl CursorPosition {
    /// The line of the file the cursor stands on, counted from 1.
    pub open spec fn line_in_file(self) -> int {
        self.y + self.y_offset
    }

    /// The cursor at the first column of the first line.
    pub fn new() -> (r: CursorPosition)
        ensures
            r == (CursorPosition { x: 1, y: 1, y_offset: 0 }),
    {
        CursorPosition { x: 1, y: 1, y_offset: 0 }
    }

    /// One column to the left, not before the first.
    pub fn move_left(&mut self)
        requires
            old(self).x >= 1,
        ensures
            moved_left(*old(self), *final(self)),
    {
        let left = self.x - 1;
        self.x = if left > 1 { left } else { 1 };
    }

    /// One column to the right, not past the column after the last
    /// character of a line of `nb_char_in_current_line` characters.
    pub fn move_right(&mut self, nb_char_in_current_line: u16)
        requires
            old(self).x < u16::MAX,
            nb_char_in_current_line < u16::MAX,
        ensures
            moved_right(*old(self), *final(self), nb_char_in_current_line as int),
    {
        let right = self.x + 1;
        let end = nb_char_in_current_line + 1;
        self.x = if right < end { right } else { end };
    }

    /// The line of the file the cursor stands on, counted from 1.
    pub fn get_y_position_in_file(&self) -> (r: u16)
        requires
            self.y + self.y_offset <= u16::MAX,
        ensures
            r == self.line_in_file(),
    {
        self.y + self.y_offset
    }

    /// One line up. On the first terminal row the view scrolls instead,
    /// when it can; the column is kept within the line above.
    pub fn move_up(&mut self, lines: &Vec<String>)
        requires
            up_defined(*old(self), views(lines@)),
        ensures
            moved_up(*old(self), *final(self), views(lines@)),
    {
        let position_in_file = self.get_y_position_in_file();
        if position_in_file > 1 {
            assert(views(lines@)[position_in_file - 2] == lines@[position_in_file - 2]@);
            let nb_char_in_previous_line = byte_count(lines[position_in_file as usize - 2].as_str())
                as u16;
            let bound = nb_char_in_previous_line + 1;
            if bound < self.x {
                self.x = bound;
            }
        }
        if self.y == 1 && self.y_offset >= 1 {
            self.y_offset = self.y_offset - 1;
        } else {
            let y = if self.y > 2 { self.y } else { 2 };
            self.y = y - 1;
        }
    }

    /// One line down, unless the cursor is on the last line of the file.
    /// On the last terminal row the view scrolls instead; elsewhere the
    /// column is kept within the line below.
    pub fn move_down(&mut self, lines: &Vec<String>, terminal_height: u16)
        requires
            down_defined(*old(self), views(lines@), terminal_height as int),
        ensures
            moved_down(*old(self), *final(self), views(lines@), terminal_height as int),
    {
        let y_position_in_file = self.get_y_position_in_file() as usize;
        if y_position_in_file == lines.len() {
            return;
        }
        if self.y != terminal_height - 1 {
            assert(views(lines@)[y_position_in_file as int] == lines@[y_position_in_file as int]@);
            let nb_char_in_next_line = byte_count(lines[y_position_in_file].as_str()) as u16;
            let bound = nb_char_in_next_line + 1;
            if bound < self.x {
                self.x = bound;
            }
        }
        if self.y == terminal_height - 1 {
            self.y_offset = self.y_offset + 1;
        } else {
            let below = self.y + 1;
            let last_row = terminal_height - 1;
            self.y = if last_row < below { last_row } else { below };
        }
    }

    /// The column after the last character of the line the cursor stands
    /// on.
    pub fn move_to_end_of_line(&mut self, lines: &Vec<String>)
        requires
            1 <= old(self).line_in_file() <= lines@.len(),
            old(self).line_in_file() <= u16::MAX,
            (byte_len(views(lines@)[old(self).line_in_file() - 1]) as u16) < u16::MAX,
        ensures
            final(self).x == (byte_len(views(lines@)[old(self).line_in_file() - 1]) as u16) + 1,
            final(self).y == old(self).y,
            final(self).y_offset == old(self).y_offset,
    {
        let y_position_in_file = self.get_y_position_in_file() as usize;
        assert(views(lines@)[y_position_in_file - 1] == lines@[y_position_in_file - 1]@);
        let nb_char_in_line = byte_count(lines[y_position_in_file - 1].as_str()) as u16;
        self.x = nb_char_in_line + 1;
    }
}

} // verus!
