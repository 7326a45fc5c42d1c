//! Parsing and brute-force solving of small integer equations such as
//! `13a + 7b + 1 = 245`.

pub mod assignment;
pub mod combinations;
pub mod expression;
pub mod parser;
pub mod pow;
pub mod solver;
pub mod token;
