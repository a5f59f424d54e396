//! Translation of the eight-instruction tape language into C, with a
//! verified local optimiser that turns the flat instruction stream into a
//! tree of coalesced and pattern-classified statements, and the name
//! resolver of the C-like front end.
pub mod cast;
pub mod display;
pub mod emit;
pub mod laws;
pub mod localop;
pub mod model;
pub mod renamer;
pub mod semantics;
pub mod symbol;
