//! A collection of small verified routines: integer factorisation with a
//! Miller–Rabin primality test and Pollard's rho at its centre, and beside it
//! a binary heap, matrix rotation, calendar arithmetic, base conversion,
//! change making and a few number exercises.
//!
//! Every function states in its contract what it gives, and Verus proves that
//! it does.

pub mod calendar;
pub mod calendar_laws;
pub mod calendar_order;
pub mod change;
pub mod converter;
pub mod factor;
pub mod fermat;
pub mod fibonacci;
pub mod goldbach;
pub mod heap;
pub mod matrix;
pub mod modular;
pub mod primality;
pub mod provinces;
pub mod retirement;
pub mod rho;
pub mod swap;
pub mod text;
pub mod time_report;
