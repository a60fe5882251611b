pub mod text;
pub mod encoding;
pub mod piece_table;
pub mod cursor;
pub mod keys;
pub mod editor;
pub mod content;
pub mod window;
pub mod file;
