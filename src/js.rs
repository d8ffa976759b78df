use vstd::prelude::*;

verus! {

/// The value handed to a completed callback.
#[derive(Debug, PartialEq, Eq)]
pub enum Js {
    Undefined,
    String(String),
    Int(usize),
}

/// What a unit of work sent to the thread pool is for.
#[derive(Clone, Copy, Debug, PartialEq, Eq, Structural)]
pub enum ThreadPoolTaskKind {
    FileRead,
    Encrypt,
    Close,
}

impl Js {
    /// The text payload, if this value carries one.
    pub fn into_string(self) -> (r: Option<String>)
        ensures
            r == (match self {
                Js::String(s) => Some(s),
                _ => None,
            }),
    {
        match self {
            Js::String(s) => Some(s),
            _ => None,
        }
    }

    /// The integer payload, if this value carries one.
    pub fn into_int(self) -> (r: Option<usize>)
        ensures
            r == (match self {
                Js::Int(n) => Some(n),
                _ => None,
            }),
    {
        match self {
            Js::Int(n) => Some(n),
            _ => None,
        }
    }
}

} // verus!
