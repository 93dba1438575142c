//! What holds of the operations together.
//!
//! Each law is a public proof function over the states that the contracts of
//! the executable functions speak of.

pub mod contexts;
pub mod diamond;
pub mod generations;
pub mod graph;
pub mod marking;
pub mod operations;
pub mod ownership;
pub mod places;
pub mod requests;
pub mod runtimes;
pub mod settling;
pub mod tracking;
pub mod upstream;
