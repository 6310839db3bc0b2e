use vstd::prelude::*;

verus! {

use crate::node::Node;
use crate::node::NodeRef;

/// The set of nodes already entered during one traversal run. It only grows,
/// and it treats two nodes carrying equal labels as one entity: its view is
/// the set of visited labels.
pub struct VisitedWrapper {
    visited: Vec<Node>,
}

impl View for VisitedWrapper {
    type V = Set<Seq<char>>;

    closed spec fn view(&self) -> Set<Seq<char>> {
        self.visited@.map_values(|n: Node| n@).to_set()
    }
}

impl VisitedWrapper {
    pub fn new() -> (r: Self)
        ensures
            r@ == Set::<Seq<char>>::empty(),
    {
        let r = Self { visited: Vec::new() };
        proof {
            assert(r@ =~= Set::<Seq<char>>::empty());
        }
        r
    }

    /// Whether a node carrying `node`'s label has been entered.
    pub fn visited(&self, node: &NodeRef) -> (r: bool)
        ensures
            r == self@.contains(node@),
    {
        let ghost m = self.visited@.map_values(|n: Node| n@);
        let mut i: usize = 0;
        while i < self.visited.len()
            invariant
                i <= self.visited.len(),
                m == self.visited@.map_values(|n: Node| n@),
                forall|j: int| 0 <= j < i ==> m[j] != node@,
            decreases self.visited.len() - i,
        {
            if self.visited[i].data == node.data {
                proof {
                    assert(m[i as int] == node@);
                    assert(m.contains(node@));
                }
                return true;
            }
            proof {
                assert(m[i as int] == self.visited@[i as int]@);
            }
            i += 1;
        }
        proof {
            assert(!m.contains(node@));
        }
        false
    }

    /// Enters `node`: from now on every node carrying an equal label counts
    /// as visited.
    pub fn visit(&mut self, node: &NodeRef)
        ensures
            final(self)@ == old(self)@.insert(node@),
    {
        let ghost s0 = self.visited@;
        let ghost m0 = s0.map_values(|n: Node| n@);
        let entered = Node { data: node.data.clone() };
        self.visited.push(entered);
        proof {
            let m1 = self.visited@.map_values(|n: Node| n@);
            assert(m1.len() == m0.len() + 1);
            assert(forall|k: int| 0 <= k < m0.len() ==> m1[k] == m0[k]);
            assert(m1[m0.len() as int] == node@);
            assert forall|x: Seq<char>| m1.to_set().contains(x) implies old(self)@.insert(
                node@,
            ).contains(x) by {
                let k = choose|k: int| 0 <= k < m1.len() && m1[k] == x;
                if k < m0.len() {
                    assert(m0[k] == x);
                    assert(m0.contains(x));
                }
            }
            assert forall|x: Seq<char>| old(self)@.insert(node@).contains(x) implies m1.to_set()
                .contains(x) by {
                if x == node@ {
                    assert(m1[m0.len() as int] == x);
                } else {
                    let k = choose|k: int| 0 <= k < m0.len() && m0[k] == x;
                    assert(m1[k] == x);
                }
            }
            assert(self@ =~= old(self)@.insert(node@));
        }
    }

    /// The visited nodes, in the order they were entered.
    pub fn get_visited(&self) -> (r: &Vec<Node>)
        ensures
            r@.map_values(|n: Node| n@).to_set() == self@,
    {
        &self.visited
    }
}

} // verus!
