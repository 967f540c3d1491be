//! Policy-driven password generation with a verified class scheduler,
//! case-insensitive uniqueness tracking and an adaptive retry bound.

pub mod classes;
pub mod generator;
pub mod schedule;
pub mod success;
pub mod uniqueness;

pub use classes::CharClass;
pub use generator::{Generator, GeneratorError};
pub use uniqueness::{Backend, UniqueSet};
