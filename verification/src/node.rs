use vstd::prelude::*;

verus! {

/// A labeled vertex. Two nodes stand for the same entity exactly when their
/// labels are equal, so a `Node` is a plain value and its mathematical view
/// is its label.
pub struct Node {
    pub data: String,
}

/// The reference design shared one node entity among many edges; here a node
/// is a value identified by its label, so a reference to a node is simply a
/// node.
pub type NodeRef = Node;

impl View for Node {
    type V = Seq<char>;

    open spec fn view(&self) -> Seq<char> {
        self.data@
    }
}

impl Node {
    fn new(data: String) -> (r: Self)
        ensures
            r@ == data@,
    {
        Self { data }
    }

    pub fn new_ref(data: String) -> (r: NodeRef)
        ensures
            r@ == data@,
    {
        Self::new(data)
    }
}

} // verus!
