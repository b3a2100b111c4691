//! What the API schema says of a method, as far as its payload is rendered
//! from it.

use vstd::prelude::*;

verus! {

/// The type of a parameter or of a result.
#[derive(Debug, PartialEq, Eq)]
pub enum Type {
    True,
    Unsigned8,
    Unsigned16,
    Unsigned32,
    Signed32,
    Unsigned64,
    Signed64,
    Floating,
    Boolean,
    Text,
    Optional(Box<Type>),
    ArrayOf(Box<Type>),
    /// A type of the API, by name.
    RawTy(String),
    Url,
    DateTime,
}

/// How a setter takes a parameter.
#[derive(Clone, Copy, Debug, PartialEq, Eq, Structural)]
pub enum Convert {
    /// As it is.
    Id,
    Into,
    Collect,
}

/// A description.
#[derive(Debug, PartialEq, Eq)]
pub struct Doc {
    pub md: String,
    /// The links of the description: name and target.
    pub md_links: Vec<(String, String)>,
}

/// A parameter of a method.
#[derive(Debug, PartialEq, Eq)]
pub struct Param {
    pub name: String,
    pub ty: Type,
    /// How the type is written; of an optional parameter, the type inside.
    pub ty_text: String,
    /// How a setter takes the parameter.
    pub convert: Convert,
    pub descr: Doc,
}

/// A method.
#[derive(Debug, PartialEq, Eq)]
pub struct Method {
    /// The type name of its payload.
    pub payload_name: String,
    /// Its name in lower case.
    pub name: String,
    pub return_ty: Type,
    pub params: Vec<Param>,
    /// Further fields that are sent as files.
    pub multipart: Vec<String>,
}

} // verus!
