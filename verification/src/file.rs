//! The lines an editor starts with, and the text written back to a file.
use vstd::prelude::*;

use crate::text::{join_lines, join_with_newlines, string_of, views};

verus! {

/// The lines to edit: those read from the file, or one empty line when
/// there is no file, it could not be read, or it holds no line.
pub fn init_lines(lines_in_file: Option<Vec<String>>) -> (r: Vec<String>)
    ensures
        lines_in_file is Some && lines_in_file->0@.len() > 0 ==> r@ == lines_in_file->0@,
        !(lines_in_file is Some && lines_in_file->0@.len() > 0) ==> views(r@) == seq![
            Seq::<char>::empty(),
        ],
{
    let mut lines: Vec<String> = match lines_in_file {
        Some(lines) => lines,
        None => Vec::new(),
    };
    if lines.len() == 0 {
        lines.push(String::new());
        assert(views(lines@) =~= seq![Seq::<char>::empty()]);
    }
    lines
}

/// The text a file gets for the given lines: the lines joined by `'\n'`.
pub fn file_content(lines: &Vec<String>) -> (r: String)
    ensures
        r@ == join_lines(views(lines@)),
{
    let chars = join_with_newlines(lines);
    string_of(chars.as_slice())
}

/// The name of the file to edit: the first argument after the program's
/// name, when there is one.
pub fn get_file_name(args: &[String]) -> (r: Option<&String>)
    requires
        args@.len() >= 1,
    ensures
        args@.len() == 1 ==> r is None,
        args@.len() > 1 ==> r == Some(&args@[1]),
{
    if args.len() == 1 {
        return None;
    }
    Some(&args[1])
}

} // verus!
