//! An exact-rational Simplex tableau engine.
//!
//! The library owns a matrix of exact rationals (lowest terms, positive
//! denominator), parses user-entered cell text into rationals, performs
//! Gauss-Jordan pivot steps, supports structural edits, and keeps an undo
//! history of tableau snapshots.  Every function is verified: contracts state
//! exactly which inputs succeed, which error each failing input produces, and
//! how each operation transforms the tableau.

pub mod arith;
pub mod rational;
pub mod tableau;
pub mod text;
