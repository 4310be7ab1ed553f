//! What can go wrong.

use vstd::prelude::*;

use crate::schema::{EdgeId, NodeId};
use crate::value::PropValue;

verus! {

/// The reasons for which a request is refused.
#[derive(Debug, PartialEq, Eq)]
pub enum Error {
    /// No node has this id.
    NodeNotFound(NodeId),
    /// No edge has this id.
    EdgeNotFound(EdgeId),
    /// Stored bytes do not have the shape that they were written with.
    Corrupt(&'static str),
    /// Another item of the same label or type already has this property value.
    UniqueConstraintViolation {
        /// The label or relationship type that the constraint is on.
        scope: String,
        /// The constrained property.
        property: String,
        /// The value that is there already.
        value: PropValue,
    },
    /// The property that the constraint demands is missing or null.
    RequiredConstraintViolation {
        /// The label or relationship type that the constraint is on.
        scope: String,
        /// The constrained property.
        property: String,
    },
    /// The request itself makes no sense.
    InvalidArgument(&'static str),
}

} // verus!
