//! The OpenStep/GNUStep text codec: one parser and one generator serving
//! both dialects.

pub mod generator;
pub mod grammar;
pub mod parser;
pub mod readback;
