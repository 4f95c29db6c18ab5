//! A small computer-algebra library: symbolic expressions over an exact
//! coefficient type, monomials and polynomials, determinants, a text-canvas
//! printer and an interpreter for a line-oriented expression language.

pub mod coef;
pub mod collect;
pub mod convert;
pub mod depth;
pub mod display;
pub mod expand;
pub mod expr;
pub mod interpreter;
pub mod matrix;
pub mod names;
pub mod natural;
pub mod ops;
pub mod polynomial;
pub mod print;
pub mod rational;
pub mod sorted_map;
pub mod symbol;
pub mod syntax;
pub mod term;
pub mod text;
