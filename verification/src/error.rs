//! The closed set of errors that operations on the tree report.

use vstd::prelude::*;
use vstd::string::StringExecFns;

verus! {

/// Why an operation was refused.
#[derive(Clone, Copy, Debug, PartialEq, Eq, Structural)]
pub enum DomError {
    /// The reference, child or old node is not a child of the receiver.
    NotFound,
    /// The insertion would create a cycle, attach a document, or give
    /// children to a node that cannot have any.
    HierarchyRequest,
    /// An argument is not in the expected form.
    Syntax,
    /// A character-data offset lies past the end.
    IndexSize,
    /// The operation does not apply to this kind of node.
    InvalidState,
    /// The parser or the serializer produced what this library cannot hold.
    Internal,
}

impl DomError {
    /// The symbolic name of the error kind.
    pub open spec fn name_of(self) -> Seq<char> {
        match self {
            DomError::NotFound => "NotFoundError"@,
            DomError::HierarchyRequest => "HierarchyRequestError"@,
            DomError::Syntax => "SyntaxError"@,
            DomError::IndexSize => "IndexSizeError"@,
            DomError::InvalidState => "InvalidStateError"@,
            DomError::Internal => "InternalError"@,
        }
    }

    /// A sentence for a human reader.
    pub open spec fn message_of(self) -> Seq<char> {
        match self {
            DomError::NotFound => "the node is not a child of this node"@,
            DomError::HierarchyRequest => "the node cannot be inserted at this place"@,
            DomError::Syntax => "the argument is not in the expected form"@,
            DomError::IndexSize => "the offset lies past the end of the data"@,
            DomError::InvalidState => "the operation does not apply to this kind of node"@,
            DomError::Internal => "the parser or the serializer failed"@,
        }
    }

    /// The symbolic name of the error kind.
    pub fn name(&self) -> (s: String)
        ensures
            s@ == self.name_of(),
    {
        match self {
            DomError::NotFound => String::from_str("NotFoundError"),
            DomError::HierarchyRequest => String::from_str("HierarchyRequestError"),
            DomError::Syntax => String::from_str("SyntaxError"),
            DomError::IndexSize => String::from_str("IndexSizeError"),
            DomError::InvalidState => String::from_str("InvalidStateError"),
            DomError::Internal => String::from_str("InternalError"),
        }
    }

    /// A sentence for a human reader.
    pub fn message(&self) -> (s: String)
        ensures
            s@ == self.message_of(),
    {
        match self {
            DomError::NotFound => String::from_str("the node is not a child of this node"),
            DomError::HierarchyRequest => String::from_str(
                "the node cannot be inserted at this place",
            ),
            DomError::Syntax => String::from_str("the argument is not in the expected form"),
            DomError::IndexSize => String::from_str("the offset lies past the end of the data"),
            DomError::InvalidState => String::from_str(
                "the operation does not apply to this kind of node",
            ),
            DomError::Internal => String::from_str("the parser or the serializer failed"),
        }
    }
}

} // verus!
