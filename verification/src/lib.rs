//! A colorized, printf-style formatter for terminals.
//!
//! A template such as `"{} is {%1#r,bold}"` is parsed into a sequence of
//! literal and placeholder parts, and then rendered against a list of
//! arguments into one string that carries ANSI color and style codes.

pub mod cprintf;
pub mod model;
pub mod parser;
pub mod renderer;
pub mod text;
