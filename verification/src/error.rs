//! The library's error type.
use vstd::prelude::*;

use crate::text::{cat2, cat5, dec, decimal};

verus! {

/// Why a call failed. The place of a failing operation is part of the error, so that
/// the author of a recipe can mend it.
#[derive(Debug)]
pub enum AtxError {
    Decode(String),
    Encode(String),
    InvalidRecipe(String),
    Operation { index: usize, op: String, message: String },
    LimitExceeded(String),
    Io(String),
}

/// What an error says, with its texts as character sequences.
pub enum Fault {
    Decode(Seq<char>),
    Encode(Seq<char>),
    InvalidRecipe(Seq<char>),
    Operation { index: int, op: Seq<char>, message: Seq<char> },
    LimitExceeded(Seq<char>),
    Io(Seq<char>),
}

impl View for AtxError {
    type V = Fault;

    open spec fn view(&self) -> Fault {
        match self {
            AtxError::Decode(m) => Fault::Decode(m@),
            AtxError::Encode(m) => Fault::Encode(m@),
            AtxError::InvalidRecipe(m) => Fault::InvalidRecipe(m@),
            AtxError::Operation { index, op, message } => Fault::Operation {
                index: *index as int,
                op: op@,
                message: message@,
            },
            AtxError::LimitExceeded(m) => Fault::LimitExceeded(m@),
            AtxError::Io(m) => Fault::Io(m@),
        }
    }
}

/// A fault in the words that are shown to people.
pub open spec fn fault_text(fault: Fault) -> Seq<char> {
    match fault {
        Fault::Decode(m) => "failed to decode input image: "@ + m,
        Fault::Encode(m) => "failed to encode output image: "@ + m,
        Fault::InvalidRecipe(m) => "invalid recipe: "@ + m,
        Fault::Operation { index, op, message } => "operation "@ + decimal(index as nat) + " ("@
            + op + ") failed: "@ + message,
        Fault::LimitExceeded(m) => "input exceeds limits: "@ + m,
        Fault::Io(m) => "io error: "@ + m,
    }
}

impl AtxError {
    /// The error in the words that are shown to people.
    pub fn message(&self) -> (r: String)
        ensures
            r@ == fault_text(self@),
    {
        match self {
            AtxError::Decode(m) => cat2("failed to decode input image: ", m.as_str()),
            AtxError::Encode(m) => cat2("failed to encode output image: ", m.as_str()),
            AtxError::InvalidRecipe(m) => cat2("invalid recipe: ", m.as_str()),
            AtxError::Operation { index, op, message } => {
                let number: String = dec(*index as u64);
                let mut r: String = cat5(
                    "operation ",
                    number.as_str(),
                    " (",
                    op.as_str(),
                    ") failed: ",
                );
                r.append(message.as_str());
                r
            },
            AtxError::LimitExceeded(m) => cat2("input exceeds limits: ", m.as_str()),
            AtxError::Io(m) => cat2("io error: ", m.as_str()),
        }
    }
}

/// The outcome of a check: nothing, or the fault that it found.
pub open spec fn verdict(r: Result<(), AtxError>) -> Option<Fault> {
    match r {
        Ok(_) => None,
        Err(e) => Some(e@),
    }
}

/// The first of two outcomes that found a fault.
pub open spec fn first_fault(a: Option<Fault>, b: Option<Fault>) -> Option<Fault> {
    match a {
        Some(_) => a,
        None => b,
    }
}

/// The message of a fault in operation `index` of a recipe.
pub open spec fn op_text(index: int, op: Seq<char>, message: Seq<char>) -> Seq<char> {
    "operations["@ + decimal(index as nat) + "] ("@ + op + "): "@ + message
}

/// A fault in operation `index` of a recipe.
pub open spec fn op_fault(index: int, op: Seq<char>, message: Seq<char>) -> Option<Fault> {
    Some(Fault::InvalidRecipe(op_text(index, op, message)))
}

/// A message about operation `index` of a recipe.
pub(crate) fn show_op(index: usize, op: &str, message: &str) -> (r: String)
    ensures
        r@ == op_text(index as int, op@, message@),
{
    let number: String = dec(index as u64);
    let mut m: String = cat5("operations[", number.as_str(), "] (", op, "): ");
    m.append(message);
    m
}

/// The error for a fault in operation `index` of a recipe.
pub(crate) fn op_error(index: usize, op: &str, message: &str) -> (r: AtxError)
    ensures
        r@ == Fault::InvalidRecipe(op_text(index as int, op@, message@)),
{
    AtxError::InvalidRecipe(show_op(index, op, message))
}

} // verus!
