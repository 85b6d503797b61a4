//! A decoder for a line-oriented, length-prefixed wire format of nested
//! values. Each line ends with a carriage return and a line feed; the first
//! character of a line says which kind of value it opens.

pub mod bytes;
pub mod encode;
pub mod error;
pub mod number;
pub mod parser;
pub mod text;
pub mod value;

use vstd::prelude::*;
use crate::text::{trim, trimmed};
use crate::value::{stub, Value};

verus! {

/// Reads one line after trimming the white space around it, and gives
/// nothing where the line is refused.
pub fn parse_type<'a>(s: &'a str) -> (r: Option<Value<'a>>)
    ensures
        match stub(trimmed(s@)) {
            Ok(t) => r matches Some(v) && v@ == t,
            Err(_) => r is None,
        },
{
    match Value::init(trim(s)) {
        Ok(v) => Some(v),
        Err(_) => None,
    }
}

} // verus!
