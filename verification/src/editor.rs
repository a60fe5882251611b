//! The editor that keeps its text in a piece table.
use vstd::prelude::*;
use vstd::utf8::encode_utf8;

use crate::cursor::{
    down_defined, min_int, moved_down, moved_left, moved_right, moved_up, up_defined,
    CursorPosition,
};
use crate::encoding::{
    byte_count, byte_len, byte_pos, bytes_of, char_pos, char_position, lemma_byte_len_concat,
    lemma_byte_pos_mono, lemma_byte_pos_succ, lemma_char_pos,
};
use crate::keys::{Key, KeyAction};
use crate::piece_table::{
    delete_range, insert_nodes, lines_in_range, removed_nodes, PieceTable,
};
use crate::text::{
    chars_of, join_lines, join_with_newlines, lemma_join_mid, lemma_join_split,
    lemma_join_take_len, lemma_join_update_last_len, lemma_split_join,
    lemma_split_lines_no_newline, no_newline, split_lines, string_of, sub_chars, text_after,
    text_before, views,
};

verus! {

/// An editor: the text, and the cursor in it.
#[derive(Debug)]
pub struct Editor {
    pub piece_table: PieceTable,
    pub cursor: CursorPosition,
}

/// The number of characters before column `x` of line `line` (both counted
/// from 1) in the text made of `lines`: the lines above, each with its
/// `'\n'`, and the first `x - 1` characters of the line, or all of them
/// when it is shorter.
pub open spec fn offset_in_lines(lines: Seq<Seq<char>>, line: int, x: int) -> int {
    let last = lines[line - 1];
    join_lines(
        lines.take(line).update(line - 1, last.take(min_int(x - 1, last.len() as int))),
    ).len() as int
}

/// The cursor offset is a position in the text.
pub proof fn lemma_offset_in_text(s: Seq<char>, line: int, x: int)
    requires
        1 <= line <= split_lines(s).len(),
        x >= 1,
    ensures
        0 <= offset_in_lines(split_lines(s), line, x) <= s.len(),
        line > 1 ==> offset_in_lines(split_lines(s), line, x) >= 1,
{
    let lines = split_lines(s);
    let t = lines.take(line);
    let last = lines[line - 1];
    let w = last.take(min_int(x - 1, last.len() as int));
    assert(t.last() == last);
    lemma_join_update_last_len(t, w);
    lemma_join_take_len(lines, line);
    crate::text::lemma_join_split(s);
    if line > 1 {
        let u = t.update(line - 1, w);
        assert(join_lines(u) == join_lines(u.drop_last()) + seq!['\n'] + u.last());
    }
}

/// The lines above the cursor and its line up to the cursor, joined, are
/// the text up to the cursor offset.
pub proof fn lemma_offset_prefix(s: Seq<char>, line: int, x: int)
    requires
        1 <= line <= split_lines(s).len(),
        x >= 1,
    ensures
        ({
            let lines = split_lines(s);
            let l = lines[line - 1];
            &&& join_lines(
                lines.take(line).update(line - 1, l.take(min_int(x - 1, l.len() as int))),
            ) == s.take(offset_in_lines(lines, line, x))
            &&& x <= 1 && line > 1 ==> offset_in_lines(lines, line, x) >= 1 && s[offset_in_lines(
                lines,
                line,
                x,
            ) - 1] == '\n'
        }),
{
    let lines = split_lines(s);
    let i = line - 1;
    let l = lines[i];
    let x2 = min_int(x - 1, l.len() as int);
    let above = lines.take(i);
    let below = lines.skip(i + 1);
    lemma_join_split(s);
    assert(lines == above + seq![l] + below);
    lemma_join_mid(above, l, below);
    assert(lines.take(line).update(i, l.take(x2)) == above + seq![l.take(x2)] + Seq::<
        Seq<char>,
    >::empty());
    lemma_join_mid(above, l.take(x2), Seq::<Seq<char>>::empty());
    let pre = text_before(above);
    assert(s == pre + l + text_after(below));
    assert(s.take(pre.len() + x2) =~= pre + l.take(x2));
    if x <= 1 && line > 1 {
        assert(x2 == 0);
        assert(pre.len() >= 1 && pre[pre.len() - 1] == '\n');
        assert(s[pre.len() - 1] == pre[pre.len() - 1]);
    }
}

/// The bytes of `lines`, each followed by its `'\n'`.
pub open spec fn line_bytes_with_breaks(lines: Seq<Seq<char>>) -> int
    decreases lines.len(),
{
    if lines.len() == 0 {
        0
    } else {
        line_bytes_with_breaks(lines.drop_last()) + byte_len(lines.last()) + 1
    }
}

/// The text before lines below `above` has the bytes of `above`, each
/// with its `'\n'`.
pub proof fn lemma_text_before_bytes(above: Seq<Seq<char>>)
    ensures
        byte_len(text_before(above)) == line_bytes_with_breaks(above),
    decreases above.len(),
{
    crate::encoding::lemma_char_width('\n');
    if above.len() == 0 {
        assert(encode_utf8(Seq::<char>::empty()) =~= Seq::<u8>::empty());
    } else {
        let p = above.drop_last();
        let last = above.last();
        lemma_text_before_bytes(p);
        lemma_byte_len_concat(join_lines(above), seq!['\n']);
        if p.len() == 0 {
            assert(join_lines(above) == last);
        } else {
            assert(join_lines(above) == join_lines(p) + seq!['\n'] + last);
            assert(text_before(above) =~= text_before(p) + last + seq!['\n']);
            lemma_byte_len_concat(text_before(p), last);
            lemma_byte_len_concat(text_before(p) + last, seq!['\n']);
            lemma_byte_len_concat(join_lines(p), seq!['\n']);
        }
    }
}

/// The byte position of the cursor counts, for each line above it, its
/// bytes and its `'\n'`, then the bytes of the characters before the
/// cursor on its line (all of them when the line is shorter).
pub proof fn law_cursor_position_sums_lines(s: Seq<char>, line: int, x: int)
    requires
        1 <= line <= split_lines(s).len(),
        x >= 1,
    ensures
        ({
            let lines = split_lines(s);
            let l = lines[line - 1];
            byte_pos(s, offset_in_lines(lines, line, x)) == line_bytes_with_breaks(
                lines.take(line - 1),
            ) + byte_len(l.take(min_int(x - 1, l.len() as int)))
        }),
{
    let lines = split_lines(s);
    let i = line - 1;
    let l = lines[i];
    let x2 = min_int(x - 1, l.len() as int);
    let above = lines.take(i);
    lemma_offset_prefix(s, line, x);
    assert(lines.take(line).update(i, l.take(x2)) == above + seq![l.take(x2)] + Seq::<
        Seq<char>,
    >::empty());
    lemma_join_mid(above, l.take(x2), Seq::<Seq<char>>::empty());
    assert(text_after(Seq::<Seq<char>>::empty()) =~= Seq::<char>::empty());
    assert(text_before(above) + l.take(x2) + text_after(Seq::<Seq<char>>::empty()) =~= text_before(
        above,
    ) + l.take(x2));
    lemma_byte_len_concat(text_before(above), l.take(x2));
    lemma_text_before_bytes(above);
}

/// Typing `c` makes the encoding of the text longer by that of `c`.
pub proof fn lemma_byte_len_typed(s: Seq<char>, p: int, c: char)
    requires
        0 <= p <= s.len(),
    ensures
        byte_len(s.take(p) + seq![c] + s.skip(p)) == byte_len(s) + byte_len(seq![c]),
        byte_len(s.take(p) + seq![c] + s.skip(p)) <= byte_len(s) + 4,
{
    assert(s =~= s.take(p) + s.skip(p));
    lemma_byte_len_concat(s.take(p), s.skip(p));
    lemma_byte_len_concat(s.take(p), seq![c]);
    lemma_byte_len_concat(s.take(p) + seq![c], s.skip(p));
    crate::encoding::lemma_char_width(c);
}

/// Removing characters does not make the encoding of the text longer.
pub proof fn lemma_byte_len_deleted(s: Seq<char>, a: int, b: int)
    requires
        0 <= a <= b,
    ensures
        byte_len(delete_range(s, a, b)) <= byte_len(s),
{
    let lo = if a < s.len() { a } else { s.len() as int };
    let hi = if b < s.len() { b } else { s.len() as int };
    assert(s =~= s.subrange(0, lo) + s.subrange(lo, hi) + s.subrange(hi, s.len() as int));
    lemma_byte_len_concat(s.subrange(0, lo), s.subrange(lo, hi));
    lemma_byte_len_concat(s.subrange(0, lo) + s.subrange(lo, hi), s.subrange(hi, s.len() as int));
    lemma_byte_len_concat(s.subrange(0, lo), s.subrange(hi, s.len() as int));
    crate::encoding::lemma_byte_len_bounds(s.subrange(lo, hi));
}

/// The editor `new` is `old` after typing `c` on a terminal of
/// `terminal_height` rows: `c` is in the text at the cursor offset, the
/// pieces are those of the piece table's insertion, and the cursor is one
/// column on, or at the start of the next line (the view scrolling when
/// the cursor is on the row before the last).
pub open spec fn typed(old: Editor, new: Editor, c: char, terminal_height: u16) -> bool {
    &&& new.piece_table.wf()
    &&& new.piece_table@ == old.piece_table@.take(old.cursor_offset()) + seq![c]
        + old.piece_table@.skip(old.cursor_offset())
    &&& new.piece_table.original_chars() == old.piece_table.original_chars()
    &&& new.piece_table.added_chars() == old.piece_table.added_chars().push(c)
    &&& new.piece_table.node_list() == insert_nodes(
        old.piece_table.node_list(),
        old.cursor_offset(),
        old.piece_table.added_chars().len() as int,
        1,
    )
    &&& c == '\n' && old.cursor.y == terminal_height - 1 ==> new.cursor == (CursorPosition {
        x: 1,
        y: old.cursor.y,
        y_offset: (old.cursor.y_offset + 1) as u16,
    })
    &&& c == '\n' && old.cursor.y != terminal_height - 1 ==> new.cursor == (CursorPosition {
        x: 1,
        y: (old.cursor.y + 1) as u16,
        y_offset: old.cursor.y_offset,
    })
    &&& c != '\n' ==> new.cursor == (CursorPosition {
        x: (old.cursor.x + 1) as u16,
        y: old.cursor.y,
        y_offset: old.cursor.y_offset,
    })
}

/// The editor `new` is `old` after backspace on a terminal of
/// `terminal_height` rows: past the first column, the character before
/// the cursor is removed and the cursor goes one column left; at the start
/// of a line below the first, the `'\n'` before it is removed and the
/// cursor goes to the end of the line above and one row up (to row 0 from
/// the first row), or stays on its row while the view scrolls back one
/// line when, with lines scrolled, fewer lines than the terminal has rows
/// are left below them; at the start of the first line nothing changes.
pub open spec fn backspaced(old: Editor, new: Editor, terminal_height: u16) -> bool {
    let off = old.cursor_offset();
    let line = old.cursor.line_in_file();
    &&& new.piece_table.wf()
    &&& new.piece_table.original_chars() == old.piece_table.original_chars()
    &&& new.piece_table.added_chars() == old.piece_table.added_chars()
    &&& old.cursor.x > 1 || line > 1 ==> {
        &&& new.piece_table.node_list() == removed_nodes(old.piece_table.node_list(), off - 1, off)
        &&& new.piece_table@ == old.text_after_backspace()
    }
    &&& old.cursor.x > 1 ==> new.cursor == (CursorPosition {
        x: (old.cursor.x - 1) as u16,
        y: old.cursor.y,
        y_offset: old.cursor.y_offset,
    })
    &&& old.cursor.x <= 1 && line > 1 ==> {
        &&& new.cursor.x == (byte_len(old.lines()[line - 2]) as u16) + 1
        &&& (new.cursor.y, new.cursor.y_offset) == rows_after_join(
            old.cursor,
            split_lines(old.text_after_backspace()).len() as int,
            terminal_height,
        )
    }
    &&& old.cursor.x <= 1 && line <= 1 ==> new == old
}

/// The cursor's row and scroll offset after the line it starts joins the
/// line above, `n` lines being left, on a terminal of `terminal_height`
/// rows: the cursor goes one row up (to row 0 from the first row), or stays
/// on its row while the view scrolls back one line when, with lines
/// scrolled, fewer lines than the terminal has rows are left below them.
pub open spec fn rows_after_join(c: CursorPosition, n: int, terminal_height: u16) -> (u16, u16) {
    if c.y_offset > 0 && ((n as u16) - c.y_offset) < terminal_height {
        (c.y, (c.y_offset - 1) as u16)
    } else {
        ((c.y - 1) as u16, c.y_offset)
    }
}

/// Typing `c` at column `x` of line `line` of the text `s`: the text made
/// of the lines with `c` at the cursor is `s` with `c` at the cursor
/// offset; after a character other than a line break the lines are those
/// of `s` with `c` in the cursor's line, after a line break that line is
/// cut in two; either way the cursor offset one column, or one line, on is
/// one more.
pub proof fn lemma_typed_lines(s: Seq<char>, line: int, x: int, c: char)
    requires
        1 <= line <= split_lines(s).len(),
        x >= 1,
    ensures
        ({
            let lines = split_lines(s);
            let p = offset_in_lines(lines, line, x);
            let l = lines[line - 1];
            let x2 = min_int(x - 1, l.len() as int);
            let t = s.take(p) + seq![c] + s.skip(p);
            &&& c != '\n' ==> split_lines(t) == lines.update(line - 1, l.insert(x2, c))
                && offset_in_lines(split_lines(t), line, x + 1) == p + 1
            &&& c == '\n' ==> split_lines(t) == lines.take(line - 1) + seq![
                l.take(x2),
                l.skip(x2),
            ] + lines.skip(line) && offset_in_lines(split_lines(t), line + 1, 1) == p + 1
        }),
{
    let lines = split_lines(s);
    let i = line - 1;
    let l = lines[i];
    let x2 = min_int(x - 1, l.len() as int);
    let above = lines.take(i);
    let below = lines.skip(i + 1);
    let p = offset_in_lines(lines, line, x);
    let t = s.take(p) + seq![c] + s.skip(p);
    lemma_split_lines_no_newline(s);
    lemma_join_split(s);
    assert(lines == above + seq![l] + below);
    lemma_join_mid(above, l, below);
    assert(lines.take(line).update(i, l.take(x2)) == above + seq![l.take(x2)] + Seq::<
        Seq<char>,
    >::empty());
    lemma_join_mid(above, l.take(x2), Seq::<Seq<char>>::empty());
    let pre = text_before(above);
    assert(p == pre.len() + x2);
    assert(s == pre + l + text_after(below));
    assert(s.take(p) =~= pre + l.take(x2));
    assert(s.skip(p) =~= l.skip(x2) + text_after(below));
    assert(forall|k: int| 0 <= k < lines.len() ==> no_newline(#[trigger] lines[k]));
    if c != '\n' {
        let l2 = l.insert(x2, c);
        assert(l2 =~= l.take(x2) + seq![c] + l.skip(x2));
        let lines2 = above + seq![l2] + below;
        assert(lines2 == lines.update(i, l2));
        lemma_join_mid(above, l2, below);
        assert(join_lines(lines2) =~= t);
        assert(no_newline(l2)) by {
            assert forall|k: int| 0 <= k < l2.len() implies l2[k] != '\n' by {
                if k < x2 {
                    assert(l2[k] == l[k]);
                } else if k > x2 {
                    assert(l2[k] == l[k - 1]);
                }
            }
        }
        assert forall|k: int| 0 <= k < lines2.len() implies no_newline(#[trigger] lines2[k]) by {
            if k != i {
                assert(lines2[k] == lines[k]);
            }
        }
        lemma_split_join(lines2);
        let w = l2.take(min_int(x, l2.len() as int));
        assert(w =~= l.take(x2) + seq![c]);
        assert(lines2.take(line).update(i, w) == above + seq![w] + Seq::<Seq<char>>::empty());
        lemma_join_mid(above, w, Seq::<Seq<char>>::empty());
    } else {
        let a = l.take(x2);
        let b = l.skip(x2);
        let lines2 = above + seq![a, b] + below;
        assert(lines2 == (above + seq![a]) + seq![b] + below);
        lemma_join_mid(above + seq![a], b, below);
        lemma_join_mid(above, a, Seq::<Seq<char>>::empty());
        assert(above + seq![a] + Seq::<Seq<char>>::empty() == above + seq![a]);
        assert(join_lines(lines2) =~= t);
        assert(no_newline(a)) by {
            assert forall|k: int| 0 <= k < a.len() implies a[k] != '\n' by {
                assert(a[k] == l[k]);
            }
        }
        assert(no_newline(b)) by {
            assert forall|k: int| 0 <= k < b.len() implies b[k] != '\n' by {
                assert(b[k] == l[k + x2]);
            }
        }
        assert forall|k: int| 0 <= k < lines2.len() implies no_newline(#[trigger] lines2[k]) by {
            if k < i {
                assert(lines2[k] == lines[k]);
            } else if k > i + 1 {
                assert(lines2[k] == lines[k - 1]);
            }
        }
        lemma_split_join(lines2);
        assert(b.take(0) =~= Seq::<char>::empty());
        assert(lines2.take(line + 1).update(line, b.take(0)) =~= (above + seq![a]) + seq![
            Seq::<char>::empty(),
        ] + Seq::<Seq<char>>::empty());
        lemma_join_mid(above + seq![a], Seq::<char>::empty(), Seq::<Seq<char>>::empty());
    }
}

/// Backspace at column `x` of line `line` of the text `s`, when it takes
/// out just the character before the cursor offset: past the first column
/// (with a character before the cursor) the lines are those of `s` without
/// that character; at the start of a line below the first, the line joins
/// the one above.
pub proof fn lemma_backspaced_lines(s: Seq<char>, line: int, x: int)
    requires
        1 <= line <= split_lines(s).len(),
        x >= 1,
        x > 1 ==> x - 2 < split_lines(s)[line - 1].len(),
        x <= 1 ==> line > 1,
    ensures
        ({
            let lines = split_lines(s);
            let p = offset_in_lines(lines, line, x);
            let t = delete_range(s, p - 1, p);
            &&& 1 <= p <= s.len()
            &&& x > 1 ==> split_lines(t) == lines.update(line - 1, lines[line - 1].remove(x - 2))
            &&& x <= 1 ==> split_lines(t) == lines.update(
                line - 2,
                lines[line - 2] + lines[line - 1],
            ).remove(line - 1)
        }),
{
    let lines = split_lines(s);
    let i = line - 1;
    let l = lines[i];
    let x2 = min_int(x - 1, l.len() as int);
    let above = lines.take(i);
    let below = lines.skip(i + 1);
    let p = offset_in_lines(lines, line, x);
    let t = delete_range(s, p - 1, p);
    lemma_split_lines_no_newline(s);
    lemma_join_split(s);
    assert(lines == above + seq![l] + below);
    lemma_join_mid(above, l, below);
    assert(lines.take(line).update(i, l.take(x2)) == above + seq![l.take(x2)] + Seq::<
        Seq<char>,
    >::empty());
    lemma_join_mid(above, l.take(x2), Seq::<Seq<char>>::empty());
    let pre = text_before(above);
    assert(p == pre.len() + x2);
    assert(s == pre + l + text_after(below));
    assert(forall|k: int| 0 <= k < lines.len() ==> no_newline(#[trigger] lines[k]));
    if x > 1 {
        assert(x2 == x - 1);
        let l2 = l.remove(x - 2);
        assert(l2 =~= l.take(x - 2) + l.skip(x - 1));
        assert(t =~= pre + l2 + text_after(below));
        let lines2 = above + seq![l2] + below;
        assert(lines2 == lines.update(i, l2));
        lemma_join_mid(above, l2, below);
        assert(no_newline(l2)) by {
            assert forall|k: int| 0 <= k < l2.len() implies l2[k] != '\n' by {
                if k < x - 2 {
                    assert(l2[k] == l[k]);
                } else {
                    assert(l2[k] == l[k + 1]);
                }
            }
        }
        assert forall|k: int| 0 <= k < lines2.len() implies no_newline(#[trigger] lines2[k]) by {
            if k != i {
                assert(lines2[k] == lines[k]);
            }
        }
        lemma_split_join(lines2);
    } else {
        assert(x2 == 0);
        let a = lines[i - 1];
        let above2 = lines.take(i - 1);
        assert(above == above2 + seq![a] + Seq::<Seq<char>>::empty());
        lemma_join_mid(above2, a, Seq::<Seq<char>>::empty());
        assert(join_lines(above) == text_before(above2) + a);
        assert(t =~= text_before(above2) + (a + l) + text_after(below));
        let lines2 = above2 + seq![a + l] + below;
        assert(lines2 =~= lines.update(i - 1, a + l).remove(i));
        lemma_join_mid(above2, a + l, below);
        assert(no_newline(a + l)) by {
            assert forall|k: int| 0 <= k < (a + l).len() implies (a + l)[k] != '\n' by {
                if k < a.len() {
                    assert((a + l)[k] == a[k]);
                } else {
                    assert((a + l)[k] == l[k - a.len()]);
                }
            }
        }
        assert forall|k: int| 0 <= k < lines2.len() implies no_newline(#[trigger] lines2[k]) by {
            if k < i - 1 {
                assert(lines2[k] == lines[k]);
            } else if k > i - 1 {
                assert(lines2[k] == lines[k + 1]);
            }
        }
        lemma_split_join(lines2);
    }
}

/// Backspace right after typing undoes the typing: the cursor offset is
/// one more than before, and removing the character before it gives back
/// the text there was before. After a character of one byte other than a
/// line break the backspace is allowed (backspace removes one byte, so
/// after a wider character it is not); after a line break too, when the
/// cursor row is at least 1, the number of lines is below `u16::MAX`, and
/// the cut line's first part has a byte length that, taken as a `u16`, is
/// below `u16::MAX`.
pub proof fn law_backspace_undoes_typing(before: Editor, after: Editor, c: char, h: u16)
    requires
        before.insert_defined(c, h),
        typed(before, after, c, h),
    ensures
        after.cursor_offset() == before.cursor_offset() + 1,
        after.text_after_backspace() == before.piece_table@,
        c != '\n' && (c as u32) < 0x80 ==> after.remove_defined(),
        c == '\n' && before.cursor.y >= 1 && before.lines().len() < u16::MAX && (byte_len(
            after.lines()[before.cursor.line_in_file() - 1],
        ) as u16) < u16::MAX ==> after.remove_defined(),
{
    let s = before.piece_table@;
    let line = before.cursor.line_in_file();
    let p = before.cursor_offset();
    lemma_offset_in_text(s, line, before.cursor.x as int);
    lemma_typed_lines(s, line, before.cursor.x as int, c);
    lemma_byte_len_typed(s, p, c);
    crate::encoding::lemma_char_width(c);
    assert(delete_range(s.take(p) + seq![c] + s.skip(p), p, p + 1) =~= s);
    assert((s.take(p) + seq![c] + s.skip(p))[p] == c);
    assert(after.lines() == split_lines(s.take(p) + seq![c] + s.skip(p)));
    if c == '\n' {
        lemma_offset_in_text(after.piece_table@, after.cursor.line_in_file(), 1);
        let l = before.lines()[line - 1];
        let x2 = min_int(before.cursor.x - 1, l.len() as int);
        assert(after.lines()[line - 1] == l.take(x2));
        assert(after.lines().len() == before.lines().len() + 1);
        assert(split_lines(after.text_after_backspace()) == before.lines());
    } else {
        lemma_offset_in_text(
            after.piece_table@,
            after.cursor.line_in_file(),
            after.cursor.x as int,
        );
    }
}

/// The two editors agree on typing: when the piece-table editor holds the
/// lines of the line editor and the two cursors are the same, typing `c`
/// where both allow it leaves them with the same lines and the same
/// cursor, provided the two put `c` at the same character of the line: the
/// line editor counts its column in bytes, the piece-table editor in
/// characters, so they do when the characters before the column are one
/// byte each. For a line break this also needs the cut line to have at
/// most `u16::MAX` bytes (past that, the line editor keeps on the new line
/// only the characters up to the line's byte length taken as a `u16`).
pub proof fn law_typing_agrees_with_line_editor(
    before: Editor,
    after: Editor,
    line_before: crate::content::Editor,
    line_after: crate::content::Editor,
    c: char,
    h: u16,
)
    requires
        before.insert_defined(c, h),
        line_before.insert_defined(c, h),
        before.lines() == line_before.text_lines(),
        before.cursor == line_before.cursor,
        char_pos(line_before.current_line(), before.cursor.x - 1) == min_int(
            before.cursor.x - 1,
            line_before.current_line().len() as int,
        ),
        c == '\n' ==> byte_len(line_before.current_line()) <= u16::MAX,
        typed(before, after, c, h),
        crate::content::typed(line_before, line_after, c, h),
    ensures
        after.lines() == line_after.text_lines(),
        after.cursor == line_after.cursor,
{
    let s = before.piece_table@;
    let line = before.cursor.line_in_file();
    let x = before.cursor.x as int;
    lemma_typed_lines(s, line, x, c);
    let lines = split_lines(s);
    let l = lines[line - 1];
    let x2 = min_int(x - 1, l.len() as int);
    if c == '\n' {
        let nb = (byte_len(l) as u16) as int;
        crate::encoding::lemma_char_pos_order(l, nb, nb);
        assert(l.subrange(x2, l.len() as int) =~= l.skip(x2));
        assert(lines.take(line - 1) + seq![l.take(x2), l.skip(x2)] + lines.skip(line)
            =~= crate::content::lines_after_new_line(lines, line, x));
    }
}

/// The two editors agree on backspace: when the piece-table editor holds
/// the lines of the line editor, the two cursors are the same, and both
/// allow backspace, they are left with the same lines and the same cursor,
/// provided, past the first column, the two remove the same character
/// (the line editor removes the one that starts at byte column `x - 2`,
/// the piece-table editor the one before its character column). At the
/// start of a line on the first row with lines scrolled, the line editor
/// scrolls up where the piece-table editor moves the cursor to row 0, then
/// each may scroll back; there they agree only when the piece-table
/// editor's view scrolls back and the line editor's does not.
pub proof fn law_backspace_agrees_with_line_editor(
    before: Editor,
    after: Editor,
    line_before: crate::content::Editor,
    line_after: crate::content::Editor,
    h: u16,
)
    requires
        before.remove_defined(),
        line_before.remove_defined(),
        before.lines() == line_before.text_lines(),
        before.cursor == line_before.cursor,
        before.cursor.x > 1 ==> char_pos(line_before.current_line(), before.cursor.x - 2)
            == min_int(before.cursor.x - 1, line_before.current_line().len() as int) - 1,
        before.cursor.x <= 1 && before.cursor.line_in_file() > 1 && before.cursor.y == 1
            && before.cursor.y_offset >= 1 ==> {
            let n = (line_before.lines@.len() - 1) as u16;
            &&& n - before.cursor.y_offset < h
            &&& !(before.cursor.y_offset - 1 > 0 && n - (before.cursor.y_offset - 1) < h)
        },
        backspaced(before, after, h),
        crate::content::backspaced(line_before, line_after, h),
    ensures
        after.lines() == line_after.text_lines(),
        after.cursor == line_after.cursor,
{
    let s = before.piece_table@;
    let line = before.cursor.line_in_file();
    let x = before.cursor.x as int;
    assert(line_before.lines@.len() == line_before.text_lines().len());
    let l = before.lines()[line - 1];
    if x > 1 {
        crate::encoding::lemma_char_pos_order(l, x - 2, x - 2);
        crate::encoding::lemma_byte_pos_mono(l, 0, l.len() as int);
        if char_pos(l, x - 2) >= l.len() {
            crate::encoding::lemma_byte_pos_mono(l, char_pos(l, x - 2), l.len() as int);
        }
        if x - 2 < l.len() {
            lemma_backspaced_lines(s, line, x);
        } else {
            lemma_backspaced_lines(s, line, l.len() + 1int);
        }
    } else if line > 1 {
        lemma_backspaced_lines(s, line, x);
    }
}

/// The lines shown are a window on the text: from the first line below the
/// scrolled ones, the next `terminal_height` lines, or as many as there are,
/// in order; none when no line is left below the scrolled ones.
pub proof fn law_editor_lines_window(e: Editor, terminal_height: int)
    requires
        terminal_height >= 0,
    ensures
        ({
            let all = e.lines();
            let off = e.cursor.y_offset as int;
            let stop = min_int(all.len() as int, terminal_height + off);
            &&& off < stop ==> lines_in_range(all, off, stop) == all.subrange(off, stop)
                && lines_in_range(all, off, stop).len() <= terminal_height
            &&& off >= stop ==> lines_in_range(all, off, stop) == Seq::<Seq<char>>::empty()
        }),
{
}

impl Editor {
    /// The lines of the text.
    pub open spec fn lines(self) -> Seq<Seq<char>> {
        split_lines(self.piece_table@)
    }

    /// The text is well formed, within the sizes the positions can count,
    /// and the cursor stands on one of its lines.
    pub open spec fn cursor_in_text(self) -> bool {
        &&& self.piece_table.wf()
        &&& self.piece_table.fits_u32(0)
        &&& self.cursor.x >= 1
        &&& 1 <= self.cursor.line_in_file() <= self.lines().len()
        &&& self.cursor.line_in_file() <= u16::MAX
    }

    /// The cursor stands on a line of the text and on a terminal row below
    /// the title: rows `1` to `terminal_height - 1`.
    pub open spec fn cursor_on_screen(self, terminal_height: u16) -> bool {
        &&& self.cursor_in_text()
        &&& 1 <= self.cursor.y < terminal_height
    }

    /// The text position of the cursor.
    pub open spec fn cursor_offset(self) -> int {
        offset_in_lines(self.lines(), self.cursor.line_in_file(), self.cursor.x as int)
    }

    /// The text once the character before the cursor is removed.
    pub open spec fn text_after_backspace(self) -> Seq<char> {
        delete_range(self.piece_table@, self.cursor_offset() - 1, self.cursor_offset())
    }

    /// What `insert` asks: a cursor in the text, room for one more
    /// character, a piece to insert into, and room for the cursor to move.
    pub open spec fn insert_defined(self, c: char, terminal_height: u16) -> bool {
        &&& self.cursor_in_text()
        &&& self.piece_table.fits_u32(1)
        &&& self.piece_table.node_list().len() > 0
        &&& c == '\n' ==> {
            &&& terminal_height >= 1
            &&& self.cursor.y == terminal_height - 1 ==> self.cursor.y_offset < u16::MAX
            &&& self.cursor.y != terminal_height - 1 ==> self.cursor.y < u16::MAX
        }
        &&& c != '\n' ==> self.cursor.x < u16::MAX
    }

    /// What `remove` asks: a cursor in the text; when its column is past
    /// the first, a character of one byte before it in the text (the
    /// removal takes out one byte); when the cursor is at
    /// the start of a line below the first, a row to move up from, a line
    /// above short enough for a column, a text whose lines can be counted,
    /// and, where the view may scroll back, a scroll offset no larger than
    /// the number of lines left.
    pub open spec fn remove_defined(self) -> bool {
        let off = self.cursor_offset();
        let line = self.cursor.line_in_file();
        &&& self.cursor_in_text()
        &&& self.cursor.x > 1 ==> off >= 1 && byte_len(seq![self.piece_table@[off - 1]]) == 1
        &&& (self.cursor.x <= 1 && line > 1) ==> {
            &&& self.cursor.y >= 1
            &&& (byte_len(self.lines()[line - 2]) as u16) < u16::MAX
            &&& self.text_after_backspace().len() < usize::MAX
            &&& self.cursor.y_offset > 0 ==> (split_lines(self.text_after_backspace()).len() as u16)
                >= self.cursor.y_offset
        }
    }

    /// An editor whose text is the lines joined by `'\n'`, with the cursor
    /// at the start.
    pub fn from(lines: Vec<String>) -> (r: Editor)
        ensures
            r.piece_table.wf(),
            r.piece_table@ == join_lines(views(lines@)),
            r.piece_table.original_chars() == join_lines(views(lines@)),
            r.piece_table.node_list().len() == 1,
            r.piece_table.added_chars().len() == 0,
            r.cursor == (CursorPosition { x: 1, y: 1, y_offset: 0 }),
    {
        let text = join_with_newlines(&lines);
        Editor {
            piece_table: PieceTable::new(string_of(text.as_slice())),
            cursor: CursorPosition::new(),
        }
    }

    /// The lines shown on a terminal of `terminal_height` rows: from the
    /// first line below the scrolled ones, at most `terminal_height` of
    /// them.
    pub fn get_editor_lines(&self, terminal_height: usize) -> (r: Vec<String>)
        requires
            self.piece_table.wf(),
            self.piece_table@.len() < usize::MAX,
            terminal_height + self.cursor.y_offset <= usize::MAX,
        ensures
            views(r@) == lines_in_range(
                self.lines(),
                self.cursor.y_offset as int,
                min_int(self.lines().len() as int, terminal_height + self.cursor.y_offset),
            ),
    {
        let y_offset = self.cursor.y_offset as usize;
        let number_of_lines = self.get_number_of_lines();
        let max_line: usize = Editor::compute_max_line_of_editor(
            number_of_lines,
            terminal_height,
            y_offset,
        );
        self.get_range_lines(y_offset, max_line)
    }

    /// The index after the last line shown: `terminal_height` lines from
    /// `y_offset` on, but no more than there are.
    fn compute_max_line_of_editor(number_of_lines: usize, terminal_height: usize, y_offset: usize) -> (r:
        usize)
        requires
            terminal_height + y_offset <= usize::MAX,
        ensures
            r == min_int(number_of_lines as int, terminal_height + y_offset),
    {
        let last = terminal_height + y_offset;
        if number_of_lines < last {
            number_of_lines
        } else {
            last
        }
    }

    /// The lines of the text with an index in `start..stop`.
    pub fn get_range_lines(&self, start: usize, stop: usize) -> (r: Vec<String>)
        requires
            self.piece_table.wf(),
        ensures
            views(r@) == lines_in_range(self.lines(), start as int, stop as int),
    {
        self.piece_table.get_range_lines(start, stop)
    }

    /// The lines of the text.
    pub fn get_all_lines(&self) -> (r: Vec<String>)
        requires
            self.piece_table.wf(),
        ensures
            views(r@) == self.lines(),
    {
        self.piece_table.get_all_lines()
    }

    /// The number of lines of the text.
    pub fn get_number_of_lines(&self) -> (r: usize)
        requires
            self.piece_table.wf(),
            self.piece_table@.len() < usize::MAX,
        ensures
            r == self.lines().len(),
    {
        self.piece_table.get_number_of_lines()
    }

    /// Types `c` at the cursor.
    pub fn insert(&mut self, c: char, terminal_height: u16)
        requires
            old(self).insert_defined(c, terminal_height),
        ensures
            typed(*old(self), *final(self), c, terminal_height),
    {
        self.insert_in_piece_table(c, terminal_height);
    }

    /// Types `c` at the cursor: the character goes into the text at the
    /// cursor offset, and the cursor moves after it.
    pub fn insert_in_piece_table(&mut self, c: char, terminal_height: u16)
        requires
            old(self).insert_defined(c, terminal_height),
        ensures
            typed(*old(self), *final(self), c, terminal_height),
    {
        let position = self.get_cursor_position_in_file();
        proof {
            lemma_offset_in_text(
                self.piece_table@,
                self.cursor.line_in_file(),
                self.cursor.x as int,
            );
            lemma_char_pos(self.piece_table@, self.cursor_offset());
            lemma_byte_len_typed(self.piece_table@, self.cursor_offset(), c);
        }
        let mut one: Vec<char> = Vec::new();
        one.push(c);
        let text = string_of(one.as_slice());
        assert(one@ == seq![c]);
        self.piece_table.insert(position, text);
        assert(self.piece_table.added_chars() =~= old(self).piece_table.added_chars().push(c));
        if c == '\n' && self.cursor.y == terminal_height - 1 {
            self.cursor.x = 1;
            self.cursor.y_offset += 1;
        } else if c == '\n' {
            self.cursor.x = 1;
            self.cursor.y += 1;
        } else {
            self.cursor.x += 1;
        }
    }

    /// Backspace: removes the character before the cursor. At the start of
    /// a line below the first, the line joins the one above, and the
    /// cursor goes to where they meet.
    pub fn remove(&mut self, terminal_height: u16)
        requires
            old(self).remove_defined(),
        ensures
            backspaced(*old(self), *final(self), terminal_height),
    {
        proof {
            lemma_offset_in_text(
                self.piece_table@,
                self.cursor.line_in_file(),
                self.cursor.x as int,
            );
        }
        let y_position_in_file = self.cursor.get_y_position_in_file() as usize;
        let start_index = self.get_cursor_position_in_file();
        let ghost s = self.piece_table@;
        let ghost p = self.cursor_offset();
        proof {
            lemma_offset_prefix(s, self.cursor.line_in_file(), self.cursor.x as int);
            if self.cursor.x > 1 || y_position_in_file > 1 {
                lemma_byte_pos_succ(s, p - 1);
                lemma_char_pos(s, p - 1);
                lemma_char_pos(s, p);
                lemma_byte_pos_mono(s, p, s.len() as int);
                crate::encoding::lemma_char_width('\n');
            }
        }
        if self.cursor.x > 1 {
            self.piece_table.remove(start_index - 1, 1);
            self.cursor.x -= 1;
        } else if y_position_in_file > 1 {
            let lines = self.get_all_lines();
            assert(lines@[y_position_in_file - 2]@ == self.lines()[y_position_in_file - 2]);
            self.piece_table.remove(start_index - 1, 1);
            self.cursor.x = byte_count(lines[y_position_in_file - 2].as_str()) as u16 + 1;
            self.cursor.y -= 1;
            if self.cursor.y_offset > 0 && (self.get_number_of_lines() as u16)
                - self.cursor.y_offset < terminal_height {
                self.cursor.y_offset -= 1;
                self.cursor.y += 1;
            }
        }
    }

    /// The byte position of the cursor in the text: the bytes of the lines
    /// above, each with its `'\n'`, and those of the characters before the
    /// cursor on its line.
    pub fn get_cursor_position_in_file(&self) -> (r: u32)
        requires
            self.cursor_in_text(),
        ensures
            r == byte_pos(self.piece_table@, self.cursor_offset()),
            r <= byte_len(self.piece_table@),
    {
        proof {
            lemma_offset_in_text(
                self.piece_table@,
                self.cursor.line_in_file(),
                self.cursor.x as int,
            );
        }
        let length = self.cursor.get_y_position_in_file() as usize;
        let mut lines = self.get_range_lines(0, length);
        let ghost all = self.lines();
        assert(views(lines@) == all.subrange(0, length as int));
        let last_chars = chars_of(lines[length - 1].as_str());
        let wanted = self.cursor.x as usize - 1;
        let kept = if wanted < last_chars.len() { wanted } else { last_chars.len() };
        let last_line = string_of(sub_chars(&last_chars, 0, kept).as_slice());
        let ghost before_set = lines@;
        lines.set(length - 1, last_line);
        proof {
            let last = all[length - 1];
            assert(lines@ == before_set.update(length - 1, last_line));
            assert(views(before_set)[length - 1] == before_set[length - 1]@);
            assert(last_chars@ == last);
            assert(views(lines@) =~= views(before_set).update(length - 1, last_line@));
            assert(views(lines@) =~= all.take(length as int).update(
                length - 1,
                last.take(min_int(self.cursor.x - 1, last.len() as int)),
            ));
        }
        let joined = join_with_newlines(&lines);
        proof {
            lemma_offset_prefix(self.piece_table@, length as int, self.cursor.x as int);
            lemma_byte_pos_mono(
                self.piece_table@,
                self.cursor_offset(),
                self.piece_table@.len() as int,
            );
        }
        bytes_of(&joined) as u32
    }

    /// Whether the text is well formed, within the sizes the positions can
    /// count, and the cursor stands on one of its lines.
    pub fn cursor_is_in_text(&self) -> (r: bool)
        ensures
            r == self.cursor_in_text(),
    {
        if !self.piece_table.is_well_formed() {
            return false;
        }
        if !self.piece_table.fits_u32_with(0) {
            return false;
        }
        let line: u32 = self.cursor.y as u32 + self.cursor.y_offset as u32;
        if self.cursor.x < 1 || line < 1 || line > 65535 {
            return false;
        }
        let n = self.get_all_lines().len();
        line as usize <= n
    }

    /// Whether `insert` may be called for `c`.
    pub fn insert_is_defined(&self, c: char, terminal_height: u16) -> (r: bool)
        ensures
            r == self.insert_defined(c, terminal_height),
    {
        if !self.cursor_is_in_text() {
            return false;
        }
        if !self.piece_table.fits_u32_with(1) {
            return false;
        }
        if self.piece_table.nodes().len() == 0 {
            return false;
        }
        if c == '\n' {
            if terminal_height < 1 {
                return false;
            }
            if self.cursor.y == terminal_height - 1 {
                self.cursor.y_offset < u16::MAX
            } else {
                self.cursor.y < u16::MAX
            }
        } else {
            self.cursor.x < u16::MAX
        }
    }

    /// Whether `remove` may be called.
    pub fn remove_is_defined(&self) -> (r: bool)
        ensures
            r == self.remove_defined(),
    {
        if !self.cursor_is_in_text() {
            return false;
        }
        proof {
            lemma_offset_in_text(
                self.piece_table@,
                self.cursor.line_in_file(),
                self.cursor.x as int,
            );
        }
        let off = self.get_cursor_position_in_file();
        let line = self.cursor.get_y_position_in_file() as usize;
        let ghost s = self.piece_table@;
        let ghost p = self.cursor_offset();
        proof {
            lemma_offset_prefix(s, self.cursor.line_in_file(), self.cursor.x as int);
            lemma_char_pos(s, p);
            lemma_byte_pos_mono(s, p, s.len() as int);
        }
        if self.cursor.x > 1 {
            let chars = chars_of(self.piece_table.get_text().as_str());
            let k = match char_position(&chars, off as u64) {
                Some(k) => k,
                None => {
                    return false;
                },
            };
            if k < 1 {
                return false;
            }
            return crate::encoding::char_width(chars[k - 1]) == 1;
        }
        proof {
            if line > 1 {
                lemma_byte_pos_succ(s, p - 1);
                lemma_char_pos(s, p - 1);
                crate::encoding::lemma_char_width('\n');
            }
        }
        if line <= 1 {
            return true;
        }
        if self.cursor.y < 1 {
            return false;
        }
        let lines = self.get_all_lines();
        assert(lines@[line - 2]@ == self.lines()[line - 2]);
        if byte_count(lines[line - 2].as_str()) as u16 == u16::MAX {
            return false;
        }
        let mut after = self.piece_table.duplicate();
        after.remove(off - 1, 1);
        assert(after@ == self.text_after_backspace());
        let len = after.text_len();
        if len == usize::MAX {
            return false;
        }
        if self.cursor.y_offset > 0 {
            (after.get_number_of_lines() as u16) >= self.cursor.y_offset
        } else {
            true
        }
    }

    /// Whether `handle_key_press` may be called for `key`.
    pub fn key_press_is_defined(&self, key: Key, terminal_height: u16) -> (r: bool)
        ensures
            r == self.key_press_defined(key, terminal_height),
    {
        match key {
            Key::Char(c) => self.insert_is_defined(c, terminal_height),
            Key::Backspace => self.remove_is_defined(),
            Key::Left => self.cursor.x >= 1,
            Key::Right => {
                if !self.cursor_is_in_text() || self.cursor.x == u16::MAX {
                    return false;
                }
                let lines = self.get_all_lines();
                let line = self.cursor.get_y_position_in_file() as usize;
                assert(lines@[line - 1]@ == self.lines()[line - 1]);
                (byte_count(lines[line - 1].as_str()) as u16) < u16::MAX
            },
            Key::Up => {
                if !self.piece_table.is_well_formed() {
                    return false;
                }
                let line: u32 = self.cursor.y as u32 + self.cursor.y_offset as u32;
                if line > 65535 {
                    return false;
                }
                if line <= 1 {
                    return true;
                }
                let lines = self.get_all_lines();
                let i = (line - 2) as usize;
                if i >= lines.len() {
                    return false;
                }
                assert(lines@[i as int]@ == self.lines()[i as int]);
                (byte_count(lines[i].as_str()) as u16) < u16::MAX
            },
            Key::Down => {
                if !self.piece_table.is_well_formed() || terminal_height < 1 {
                    return false;
                }
                let line: u32 = self.cursor.y as u32 + self.cursor.y_offset as u32;
                if line > 65535 {
                    return false;
                }
                let lines = self.get_all_lines();
                let line = line as usize;
                if line == lines.len() {
                    return true;
                }
                if self.cursor.y != terminal_height - 1 {
                    if line >= lines.len() || self.cursor.y == u16::MAX {
                        return false;
                    }
                    assert(lines@[line as int]@ == self.lines()[line as int]);
                    (byte_count(lines[line].as_str()) as u16) < u16::MAX
                } else {
                    self.cursor.y_offset < u16::MAX
                }
            },
            Key::Ctrl('s') => self.piece_table.is_well_formed(),
            _ => true,
        }
    }

    /// What `handle_key_press` asks for `key`: what the function that the
    /// key leads to asks.
    pub open spec fn key_press_defined(self, key: Key, terminal_height: u16) -> bool {
        let line = self.cursor.line_in_file();
        match key {
            Key::Char(c) => self.insert_defined(c, terminal_height),
            Key::Backspace => self.remove_defined(),
            Key::Left => self.cursor.x >= 1,
            Key::Right => {
                &&& self.cursor_in_text()
                &&& self.cursor.x < u16::MAX
                &&& (byte_len(self.lines()[line - 1]) as u16) < u16::MAX
            },
            Key::Up => self.piece_table.wf() && up_defined(self.cursor, self.lines()),
            Key::Down => self.piece_table.wf() && down_defined(
                self.cursor,
                self.lines(),
                terminal_height as int,
            ),
            Key::Ctrl('s') => self.piece_table.wf(),
            _ => true,
        }
    }
}

/// The editor `new` is `old` after a press of `key` on a terminal of
/// `terminal_height` rows: a character is typed, backspace removes, the
/// arrows move the cursor over the same text, and any other key changes
/// nothing.
pub open spec fn key_pressed(old: Editor, new: Editor, key: Key, terminal_height: u16) -> bool {
    match key {
        Key::Char(c) => typed(old, new, c, terminal_height),
        Key::Backspace => backspaced(old, new, terminal_height),
        Key::Left => new.piece_table == old.piece_table && moved_left(
            old.cursor,
            new.cursor,
        ),
        Key::Right => new.piece_table == old.piece_table && moved_right(
            old.cursor,
            new.cursor,
            (byte_len(old.lines()[old.cursor.line_in_file() - 1]) as u16) as int,
        ),
        Key::Up => new.piece_table == old.piece_table && moved_up(
            old.cursor,
            new.cursor,
            old.lines(),
        ),
        Key::Down => new.piece_table == old.piece_table && moved_down(
            old.cursor,
            new.cursor,
            old.lines(),
            terminal_height as int,
        ),
        _ => new == old,
    }
}

/// Every allowed key press keeps the cursor on a line of the text and on
/// a terminal row below the title, except where the key itself takes it
/// off: a line break typed, or the cursor moved down, on line `u16::MAX`
/// when it is not the last line; a backspace past the first column of an
/// empty last line, which removes the line break before it and leaves the
/// cursor below the text; and a backspace at the start of a line on the
/// first row when the view does not scroll back, which puts the cursor on
/// row 0.
pub proof fn law_key_press_keeps_cursor_on_screen(before: Editor, after: Editor, key: Key, h: u16)
    requires
        before.cursor_on_screen(h),
        before.key_press_defined(key, h),
        key_pressed(before, after, key, h),
        key == Key::Char('\n') ==> before.cursor.line_in_file() < u16::MAX,
        key == Key::Down && before.cursor.line_in_file() != before.lines().len()
            ==> before.cursor.line_in_file() < u16::MAX,
        key == Key::Backspace && before.cursor.x > 1 && before.lines()[before.cursor.line_in_file()
            - 1].len() == 0 ==> before.cursor.line_in_file() < before.lines().len(),
        key == Key::Backspace && before.cursor.x <= 1 && before.cursor.line_in_file() > 1
            && before.cursor.y == 1 ==> before.cursor.y_offset > 0 && ((split_lines(
            before.text_after_backspace(),
        ).len() as u16) - before.cursor.y_offset) < h,
    ensures
        after.cursor_on_screen(h),
{
    let s = before.piece_table@;
    let line = before.cursor.line_in_file();
    let x = before.cursor.x as int;
    match key {
        Key::Char(c) => {
            lemma_offset_in_text(s, line, x);
            lemma_typed_lines(s, line, x, c);
            lemma_byte_len_typed(s, before.cursor_offset(), c);
        },
        Key::Backspace => {
            lemma_offset_in_text(s, line, x);
            if x > 1 || line > 1 {
                lemma_byte_len_deleted(s, before.cursor_offset() - 1, before.cursor_offset());
            }
            let l = before.lines()[line - 1];
            if x > 1 && x - 2 < l.len() {
                lemma_backspaced_lines(s, line, x);
            } else if x > 1 && l.len() > 0 {
                lemma_backspaced_lines(s, line, l.len() + 1int);
            } else if line > 1 {
                lemma_backspaced_lines(s, line, 1);
            }
        },
        _ => {},
    }
}

/// Reacts to a key: a character is typed, backspace removes, the arrows
/// move the cursor, Ctrl-S asks to save the text to the file when there is
/// one, and Esc asks to stop.
pub fn handle_key_press(
    key: Key,
    editor: &mut Editor,
    file_name_option: Option<&String>,
    terminal_height: u16,
) -> (r: KeyAction)
    requires
        old(editor).key_press_defined(key, terminal_height),
    ensures
        key == Key::Esc <==> r is Quit,
        r is Save <==> (key == Key::Ctrl('s') && file_name_option is Some),
        r matches KeyAction::Save { file_name, content } ==> file_name@ == file_name_option->0@
            && content@ == old(editor).piece_table@,
        key_pressed(*old(editor), *final(editor), key, terminal_height),
{
    match key {
        Key::Char(c) => {
            editor.insert(c, terminal_height);
        },
        Key::Backspace => {
            editor.remove(terminal_height);
        },
        Key::Left => {
            editor.cursor.move_left();
        },
        Key::Right => {
            let lines = editor.get_all_lines();
            let line = editor.cursor.get_y_position_in_file() as usize;
            assert(lines@[line - 1]@ == editor.lines()[line - 1]);
            let nb_char_in_current_line = byte_count(lines[line - 1].as_str()) as u16;
            editor.cursor.move_right(nb_char_in_current_line);
        },
        Key::Up => {
            let lines = editor.get_all_lines();
            editor.cursor.move_up(&lines);
        },
        Key::Ctrl('s') => {
            if let Some(file_name) = file_name_option {
                return KeyAction::Save {
                    file_name: file_name.clone(),
                    content: editor.piece_table.get_text(),
                };
            }
        },
        Key::Down => {
            let lines = editor.get_all_lines();
            editor.cursor.move_down(&lines, terminal_height);
        },
        Key::Esc => {
            return KeyAction::Quit;
        },
        _ => {},
    }
    KeyAction::Continue
}

} // verus!
