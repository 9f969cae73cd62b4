pub mod error;
pub mod grammar;
pub mod read;
pub mod write;
pub mod laws;
pub mod columns;
