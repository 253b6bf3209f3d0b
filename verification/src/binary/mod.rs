//! The binary (`bplist00`) property-list codec: a fully buffered,
//! bounds-checked parser and a preorder-flattening generator with object
//! uniquing.

pub mod generator;

pub mod parser;

pub mod readback;
