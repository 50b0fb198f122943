//! The linear algebra of the F4 engine: one sparse matrix per batch,
//! reduced against its pivot rows.

pub mod basis;
pub mod kernel;
pub mod matrix;
pub mod span;
pub mod trace;
