//! A command-line text emitter's core: locating backslash commands in a
//! token and replacing each with the control character it stands for.

pub mod escape;
pub mod scanner;
pub mod substitutor;
pub mod text;
pub mod options;
pub mod line;
pub mod theorems;
