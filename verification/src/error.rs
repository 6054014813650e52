//! The errors that the index reports to its caller.

use crate::text::{decimal, render_shape, shape_text, to_decimal};
use vstd::prelude::*;
use vstd::string::*;

verus! {

/// Which side of a query a geometry stands on.
#[derive(Clone, Copy, Debug, PartialEq, Eq, Structural)]
pub enum Role {
    /// A cell of the index; its position is its identity.
    Cell,
    /// A target of a query; its position is its place among the targets
    /// that are present.
    Target,
}

/// Why an operation on the index failed. Every failure is reported through
/// this type; none degrades into a partial result.
#[derive(Debug, PartialEq, Eq)]
pub enum IndexError {
    /// An input buffer is malformed.
    InputFormat { reason: String },
    /// The geometry at `position` cannot be indexed, or is invalid or
    /// degenerate, so that the overlap predicate is undefined on it.
    Geometry { role: Role, position: usize, reason: String },
    /// A state buffer could not be written, or is corrupt or incompatible.
    Serialization { reason: String },
    /// The requested shape does not hold exactly the elements of a matrix
    /// with `rows` rows and `columns` columns.
    Reshape { requested: Vec<usize>, rows: usize, columns: usize },
    /// The query mode selector names no known mode.
    UnknownMode { name: String },
}

/// The product of two machine sizes fits in 128 bits.
pub proof fn lemma_size_product_fits(rows: usize, columns: usize)
    ensures
        rows * columns <= u128::MAX,
{
    assert(rows * columns <= 0xffff_ffff_ffff_ffff * 0xffff_ffff_ffff_ffff) by (nonlinear_arith)
        requires
            rows <= 0xffff_ffff_ffff_ffff,
            columns <= 0xffff_ffff_ffff_ffff,
    ;
}

impl IndexError {
    /// The text of the error as it is shown to the caller.
    pub open spec fn message_text(self) -> Seq<char> {
        match self {
            IndexError::InputFormat { reason } => "malformed input: "@ + reason@,
            IndexError::Geometry { role, position, reason } => (match role {
                Role::Cell => "invalid cell geometry at position "@,
                Role::Target => "invalid target geometry at position "@,
            }) + decimal(position as nat) + ": "@ + reason@,
            IndexError::Serialization { reason } => reason@,
            IndexError::Reshape { requested, rows, columns } => "cannot reshape array of size "@
                + decimal((rows * columns) as nat) + " into shape "@ + shape_text(requested@),
            IndexError::UnknownMode { name } => "Unknown query mode: "@ + name@,
        }
    }

    /// A description of the failure, with the offending values in it.
    pub fn message(&self) -> (text: String)
        ensures
            text@ == self.message_text(),
    {
        match self {
            IndexError::InputFormat { reason } => {
                let mut text = String::from_str("malformed input: ");
                text.append(reason.as_str());
                text
            },
            IndexError::Geometry { role, position, reason } => {
                let mut text = match role {
                    Role::Cell => String::from_str("invalid cell geometry at position "),
                    Role::Target => String::from_str("invalid target geometry at position "),
                };
                let numeral = to_decimal(*position as u128);
                text.append(numeral.as_str());
                text.append(": ");
                text.append(reason.as_str());
                text
            },
            IndexError::Serialization { reason } => reason.clone(),
            IndexError::Reshape { requested, rows, columns } => {
                proof {
                    lemma_size_product_fits(*rows, *columns);
                }
                let size: u128 = (*rows as u128) * (*columns as u128);
                let mut text = String::from_str("cannot reshape array of size ");
                let numeral = to_decimal(size);
                text.append(numeral.as_str());
                text.append(" into shape ");
                let shape = render_shape(requested.as_slice());
                text.append(shape.as_str());
                text
            },
            IndexError::UnknownMode { name } => {
                let mut text = String::from_str("Unknown query mode: ");
                text.append(name.as_str());
                text
            },
        }
    }
}

} // verus!
