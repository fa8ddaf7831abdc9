//! Named binary tags: compounds and their errors.
pub mod compound;
pub mod error;
