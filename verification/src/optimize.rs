//! Root finders.

pub mod bracket_laws;
pub mod brent;
pub mod crossings;
pub mod laws;
pub mod newton;
pub mod path_laws;
pub mod ratio_laws;
