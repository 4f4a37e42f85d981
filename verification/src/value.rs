//! A small model of decoded configuration text.
//!
//! The structural decoders of this crate consume values of this shape; the
//! surrounding program parses whatever textual format it favours (JSON, say)
//! into `Value` before handing it to the library.

use vstd::prelude::*;

verus! {

/// One key/value pair of a configuration record.
pub struct Field {
    pub key: String,
    pub value: Value,
}

/// A configuration value: a string, an ordered list, or a record of
/// key/value pairs.
pub enum Value {
    Str(String),
    List(Vec<Value>),
    Record(Vec<Field>),
}

} // verus!
