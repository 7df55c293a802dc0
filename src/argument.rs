//! A standalone description of a command-line argument.
use vstd::prelude::*;

use crate::text::text_of;

verus! {

/// The kinds of value an [`Argument`] describes.
#[derive(Debug, Clone, Copy, PartialEq, Eq, Structural)]
pub enum ArgType {
    String,
    Integer,
    Float,
    Boolean,
    Flag,
}

/// A described argument: a name, its long and short spellings, a type and
/// whether it is required or has a default.
#[derive(Debug, Clone)]
pub struct Argument {
    pub name: String,
    pub short: Option<char>,
    pub long: String,
    pub description: String,
    pub arg_type: ArgType,
    pub required: bool,
    pub default: Option<String>,
}

impl Argument {
    /// An optional string argument without description or default.
    pub fn new(name: &str, long: &str) -> (r: Self)
        ensures
            r.name@ == name@,
            r.long@ == long@,
            r.short is None,
            r.description@ == Seq::<char>::empty(),
            r.arg_type == ArgType::String,
            !r.required,
            r.default is None,
    {
        Argument {
            name: text_of(name),
            short: None,
            long: text_of(long),
            description: String::new(),
            arg_type: ArgType::String,
            required: false,
            default: None,
        }
    }

    pub fn short(self, short: char) -> (r: Self)
        ensures
            r == (Argument { short: Some(short), ..self }),
    {
        Argument { short: Some(short), ..self }
    }

    pub fn description(self, description: &str) -> (r: Self)
        ensures
            r.description@ == description@,
            r.name == self.name,
            r.short == self.short,
            r.long == self.long,
            r.arg_type == self.arg_type,
            r.required == self.required,
            r.default == self.default,
    {
        Argument { description: text_of(description), ..self }
    }

    pub fn arg_type(self, arg_type: ArgType) -> (r: Self)
        ensures
            r == (Argument { arg_type, ..self }),
    {
        Argument { arg_type, ..self }
    }

    pub fn required(self, required: bool) -> (r: Self)
        ensures
            r == (Argument { required, ..self }),
    {
        Argument { required, ..self }
    }

    pub fn default(self, default: &str) -> (r: Self)
        ensures
            r.default matches Some(d) && d@ == default@,
            r.name == self.name,
            r.short == self.short,
            r.long == self.long,
            r.description == self.description,
            r.arg_type == self.arg_type,
            r.required == self.required,
    {
        Argument { default: Some(text_of(default)), ..self }
    }
}

} // verus!
