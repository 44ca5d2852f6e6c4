//! A small regular-expression engine: patterns are parsed into a syntax
//! tree, compiled to a flat bytecode program, and run by a Thompson-style
//! simulation that tracks every live program counter at once.
pub mod inst;
pub mod parse;
pub mod compile;
pub mod re;
