//! Process identifiers: the node a process runs on and its number there.
use vstd::prelude::*;
use vstd::string::*;

verus! {

/// Identifies a process across nodes.
#[derive(Debug, Clone, PartialEq, Eq, Hash)]
pub struct ProcessId {
    node: String,
    id: usize,
}

/// The abstract value of a [ProcessId].
pub struct PidView {
    pub node: Seq<char>,
    pub id: usize,
}

impl View for ProcessId {
    type V = PidView;

    closed spec fn view(&self) -> PidView {
        PidView { node: self.node@, id: self.id }
    }
}

impl ProcessId {
    /// The process numbered `id` on node `node`.
    pub fn new(node: &str, id: usize) -> (r: Self)
        ensures
            r@ == (PidView { node: node@, id }),
    {
        ProcessId { node: String::from_str(node), id }
    }

    /// The process's number on its node.
    pub fn inner(&self) -> (r: &usize)
        ensures
            *r == self@.id,
    {
        &self.id
    }

    /// The node the process runs on.
    pub fn node(&self) -> (r: &str)
        ensures
            r@ == self@.node,
    {
        self.node.as_str()
    }

    /// Whether both name the same process.
    pub fn same(&self, other: &ProcessId) -> (r: bool)
        ensures
            r == (self@ == other@),
    {
        self.id == other.id && self.node == other.node
    }

    /// A copy of this identifier.
    pub fn duplicate(&self) -> (r: ProcessId)
        ensures
            r@ == self@,
    {
        ProcessId { node: self.node.clone(), id: self.id }
    }
}

} // verus!
