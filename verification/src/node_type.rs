//! Tags that tell tokens and tree nodes apart.

use vstd::prelude::*;

verus! {

/// The tag of a token or a tree node: a small integer id and a display name.
///
/// Two tags are the same tag when their ids agree; the name is only shown.
#[derive(Clone, Copy, Debug)]
pub struct NodeType(pub u32, pub &'static str);

impl NodeType {
    /// The id that decides which tag this is.
    pub open spec fn id(self) -> u32 {
        self.0
    }

    /// True when both values stand for the same tag.
    pub open spec fn same(self, other: NodeType) -> bool {
        self.0 == other.0
    }

    /// The name that listings show for the tag.
    pub fn name(&self) -> (name: &'static str)
        ensures
            name == self.1,
    {
        self.1
    }
}

impl PartialEq for NodeType {
    fn eq(&self, other: &NodeType) -> (same: bool) {
        self.0 == other.0
    }
}

impl Eq for NodeType {

}

impl vstd::std_specs::cmp::PartialEqSpecImpl for NodeType {
    open spec fn obeys_eq_spec() -> bool {
        true
    }

    open spec fn eq_spec(&self, other: &NodeType) -> bool {
        self.0 == other.0
    }
}

/// The tag of input that no rule of a grammar recognizes.
pub open spec fn error_type() -> NodeType {
    NodeType(0, "error")
}

/// The tag of whitespace between meaningful tokens.
pub open spec fn whitespace_type() -> NodeType {
    NodeType(1, "whitespace")
}

/// The tag of input that no rule of a grammar recognizes.
#[verifier::when_used_as_spec(error_type)]
pub fn error() -> (ty: NodeType)
    ensures
        ty == error_type(),
{
    NodeType(0, "error")
}

/// The tag of whitespace between meaningful tokens.
#[verifier::when_used_as_spec(whitespace_type)]
pub fn whitespace() -> (ty: NodeType)
    ensures
        ty == whitespace_type(),
{
    NodeType(1, "whitespace")
}

} // verus!
