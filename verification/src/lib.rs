//! Apple property lists in four dialects (XML, binary `bplist00`, OpenStep
//! and GNUStep), with every codec written against byte-level contracts.

#![allow(unused_imports)]

pub mod binary;
pub mod bridge;
pub mod date;
pub mod de;
pub mod depth;
pub mod error;
pub mod format;
pub mod integer;
pub mod reals;
pub mod scalar;
pub mod ser;

pub mod strings;
pub mod tables;
pub mod text;
pub mod uid;
pub mod value;
pub mod xml;

pub use crate::date::Date;
pub use crate::de::{detect, Decoder};
pub use crate::depth::MAX_PARSE_DEPTH;
pub use crate::error::Error;
pub use crate::format::Format;
pub use crate::integer::Integer;
pub use crate::reals::Real;
pub use crate::ser::Encoder;

pub use crate::uid::Uid;
pub use crate::value::{Dictionary, Value};
