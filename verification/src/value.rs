//! The error for a field value that can't be read as its declared type.
use vstd::prelude::*;
use vstd::string::StringExecFns;
use crate::text::{decimal_text, push_decimal};

verus! {

/// A field value whose bytes can't be read as the field's declared data type.
#[derive(Clone, Copy, Debug, Eq, PartialEq)]
pub struct InvalidValue {
    pub tag: u32,
}

impl InvalidValue {
    /// The error as text: `invalid value in field <tag>`.
    pub fn to_string(&self) -> (text: String)
        ensures
            text@ == "invalid value in field "@ + decimal_text(self.tag as nat),
    {
        let mut text = String::from_str("invalid value in field ");
        push_decimal(&mut text, self.tag);
        text
    }
}

} // verus!
