//! Brick-stack settlement and support analysis, with the grid geometry it
//! rests on; beside it, smaller solvers over the same kind of text input:
//! difference tables, boat races, camel cards, scratch cards, coloured
//! cubes, lens boxes, id mappings and calibration digits.

pub mod almanac;
pub mod ascii_hash;
pub mod brick;
pub mod calibration;
pub mod camel;
pub mod cubes;
pub mod cards;
pub mod grid;
pub mod laws;
pub mod lenses;
pub mod parse;
pub mod races;
pub mod sequences;
pub mod settle;
pub mod surface;
