//! Array utilities in the style of NumPy's ufuncs, set routines and datetime
//! helpers, with their integer logic verified.
//!
//! - `number_theory`: element-wise gcd and lcm.
//! - `sets`: sorted distinct values, intersection, union and difference.
//! - `dates`: calendar dates as day numbers, date ranges, shifting, day
//!   differences and business-day filtering.
//! - `pipelines`: the machine-learning pipeline entry points.

pub mod number_theory;
pub mod sets;
pub mod dates;
pub mod pipelines;
pub mod text_table;
