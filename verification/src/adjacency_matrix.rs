use vstd::prelude::*;

verus! {

use crate::node::Node;
use crate::node::NodeRef;

/// A node label, as the contracts speak of it.
pub type Label = Seq<char>;

/// One adjacency row of the model: a source label and its ordered outgoing
/// (neighbour label, cost) pairs, in insertion order.
pub type Row = (Seq<char>, Seq<(Seq<char>, int)>);

/// Whether some row of `rows` is keyed by the label `l`.
pub open spec fn spec_contains(rows: Seq<Row>, l: Label) -> bool {
    exists|i: int| 0 <= i < rows.len() && rows[i].0 == l
}

/// The ordered outgoing pairs of the row keyed by `l`, or the empty sequence
/// if no row is: a node without an entry has zero outgoing edges.
pub open spec fn spec_neighbours(rows: Seq<Row>, l: Label) -> Seq<(Seq<char>, int)> {
    if spec_contains(rows, l) {
        rows[choose|i: int| 0 <= i < rows.len() && rows[i].0 == l].1
    } else {
        Seq::empty()
    }
}

/// Every source label heads at most one row.
pub open spec fn rows_wf(rows: Seq<Row>) -> bool {
    forall|i: int, j: int| 0 <= i < j < rows.len() ==> rows[i].0 != rows[j].0
}

/// In a well-formed sequence of rows, a row keyed by `l` is the only one, so
/// the neighbour lookup for `l` lands on it.
pub proof fn lemma_neighbours_at(rows: Seq<Row>, l: Label, i: int)
    requires
        rows_wf(rows),
        0 <= i < rows.len(),
        rows[i].0 == l,
    ensures
        spec_contains(rows, l),
        spec_neighbours(rows, l) == rows[i].1,
{
    assert(spec_contains(rows, l));
    let k = choose|k: int| 0 <= k < rows.len() && rows[k].0 == l;
    if k < i {
        assert(rows[k].0 != rows[i].0);
    }
    if i < k {
        assert(rows[i].0 != rows[k].0);
    }
    assert(k == i);
}

/// The magnitude of one edge cost.
pub open spec fn abs_cost(c: int) -> int {
    if c < 0 {
        -c
    } else {
        c
    }
}

/// The summed magnitude of the costs of a neighbour list.
pub open spec fn pairs_weight(ns: Seq<(Seq<char>, int)>) -> int
    decreases ns.len(),
{
    if ns.len() == 0 {
        0
    } else {
        abs_cost(ns[0].1) + pairs_weight(ns.drop_first())
    }
}

/// The summed cost magnitude of every row whose source label is not in `v`:
/// with `v` the visited set of a walk, all the cost the walk can still
/// accumulate.
pub open spec fn unvisited_weight(rows: Seq<Row>, v: Set<Seq<char>>) -> int
    decreases rows.len(),
{
    if rows.len() == 0 {
        0
    } else {
        (if v.contains(rows[0].0) {
            0
        } else {
            pairs_weight(rows[0].1)
        }) + unvisited_weight(rows.drop_first(), v)
    }
}

/// The summed cost magnitude of every edge of the graph.
pub open spec fn total_weight(rows: Seq<Row>) -> int {
    unvisited_weight(rows, Set::empty())
}

pub proof fn lemma_pairs_weight_nonneg(ns: Seq<(Seq<char>, int)>)
    ensures
        pairs_weight(ns) >= 0,
    decreases ns.len(),
{
    if ns.len() != 0 {
        lemma_pairs_weight_nonneg(ns.drop_first());
    }
}

pub proof fn lemma_weight_nonneg(rows: Seq<Row>, v: Set<Seq<char>>)
    ensures
        unvisited_weight(rows, v) >= 0,
    decreases rows.len(),
{
    if rows.len() != 0 {
        lemma_pairs_weight_nonneg(rows[0].1);
        lemma_weight_nonneg(rows.drop_first(), v);
    }
}

pub proof fn lemma_pairs_weight_push(ns: Seq<(Seq<char>, int)>, p: (Seq<char>, int))
    ensures
        pairs_weight(ns.push(p)) == pairs_weight(ns) + abs_cost(p.1),
    decreases ns.len(),
{
    let ns2 = ns.push(p);
    reveal_with_fuel(pairs_weight, 2);
    if ns.len() == 0 {
        assert(ns2.drop_first() =~= Seq::<(Seq<char>, int)>::empty());
        assert(ns2[0] == p);
    } else {
        assert(ns2.drop_first() =~= ns.drop_first().push(p));
        assert(ns2[0] == ns[0]);
        lemma_pairs_weight_push(ns.drop_first(), p);
    }
}

pub proof fn lemma_total_weight_update(rows: Seq<Row>, i: int, r: Row)
    requires
        0 <= i < rows.len(),
    ensures
        total_weight(rows.update(i, r)) == total_weight(rows) - pairs_weight(rows[i].1)
            + pairs_weight(r.1),
    decreases rows.len(),
{
    let rows2 = rows.update(i, r);
    if i == 0 {
        assert(rows2.drop_first() =~= rows.drop_first());
        assert(rows2[0] == r);
    } else {
        assert(rows2.drop_first() =~= rows.drop_first().update(i - 1, r));
        assert(rows2[0] == rows[0]);
        lemma_total_weight_update(rows.drop_first(), i - 1, r);
        assert(rows.drop_first()[i - 1] == rows[i]);
    }
}

pub proof fn lemma_total_weight_push(rows: Seq<Row>, r: Row)
    ensures
        total_weight(rows.push(r)) == total_weight(rows) + pairs_weight(r.1),
    decreases rows.len(),
{
    let rows2 = rows.push(r);
    reveal_with_fuel(unvisited_weight, 2);
    if rows.len() == 0 {
        assert(rows2.drop_first() =~= Seq::<Row>::empty());
        assert(rows2[0] == r);
    } else {
        assert(rows2.drop_first() =~= rows.drop_first().push(r));
        assert(rows2[0] == rows[0]);
        lemma_total_weight_push(rows.drop_first(), r);
    }
}

/// Bridges membership of a label between a row sequence and its tail.
pub proof fn lemma_contains_tail(rows: Seq<Row>, l: Label)
    requires
        rows.len() > 0,
    ensures
        spec_contains(rows, l) <==> (rows[0].0 == l || spec_contains(rows.drop_first(), l)),
{
    let tail = rows.drop_first();
    if spec_contains(rows, l) {
        let k = choose|k: int| 0 <= k < rows.len() && rows[k].0 == l;
        if k > 0 {
            assert(tail[k - 1].0 == l);
        }
    }
    if spec_contains(tail, l) {
        let k = choose|k: int| 0 <= k < tail.len() && tail[k].0 == l;
        assert(rows[k + 1].0 == l);
    }
    if rows[0].0 == l {
        assert(rows[0].0 == l && 0 < rows.len());
    }
}

/// A tail of a well-formed row sequence is well-formed.
pub proof fn lemma_wf_tail(rows: Seq<Row>)
    requires
        rows_wf(rows),
        rows.len() > 0,
    ensures
        rows_wf(rows.drop_first()),
{
    let tail = rows.drop_first();
    assert forall|i: int, j: int| 0 <= i < j < tail.len() implies tail[i].0 != tail[j].0 by {
        assert(rows[i + 1].0 != rows[j + 1].0);
    }
}

/// The view of one stored (neighbour, cost) pair.
pub open spec fn pair_view(p: (Node, i32)) -> (Seq<char>, int) {
    (p.0@, p.1 as int)
}

/// The view of a stored neighbour list.
pub open spec fn pairs_view(ps: Seq<(Node, i32)>) -> Seq<(Seq<char>, int)> {
    ps.map_values(|p: (Node, i32)| pair_view(p))
}

/// The view of one stored row.
pub open spec fn row_view(r: (Node, Vec<(Node, i32)>)) -> Row {
    (r.0@, pairs_view(r.1@))
}

/// The adjacency structure of the graph: a list of rows, each holding a
/// source node and its ordered outgoing (neighbour, cost) pairs. Rows are
/// keyed by the source node's label; a well-formed matrix holds at most one
/// row per label.
pub struct AdjacencyMatrix {
    matrix: Vec<(Node, Vec<(Node, i32)>)>,
}

impl View for AdjacencyMatrix {
    type V = Seq<Row>;

    closed spec fn view(&self) -> Seq<Row> {
        self.matrix@.map_values(|r: (Node, Vec<(Node, i32)>)| row_view(r))
    }
}

impl AdjacencyMatrix {
    /// At most one row per source label.
    pub open spec fn wf(&self) -> bool {
        rows_wf(self@)
    }

    pub fn new() -> (r: Self)
        ensures
            r@ == Seq::<Row>::empty(),
            r.wf(),
            total_weight(r@) == 0,
    {
        let r = Self { matrix: Vec::new() };
        proof {
            assert(r@ =~= Seq::<Row>::empty());
        }
        r
    }

    /// Whether `node` has a row, that is, is the source of at least one edge.
    pub fn contains_node(&self, node: &NodeRef) -> (r: bool)
        ensures
            r == spec_contains(self@, node@),
    {
        let mut i: usize = 0;
        while i < self.matrix.len()
            invariant
                i <= self.matrix.len(),
                forall|j: int| 0 <= j < i ==> self@[j].0 != node@,
            decreases self.matrix.len() - i,
        {
            if self.matrix[i].0.data == node.data {
                assert(self@[i as int].0 == node@);
                return true;
            }
            assert(self@[i as int].0 != node@);
            i += 1;
        }
        false
    }

    /// The ordered (neighbour, cost) list of `node`, or `None` if `node` has
    /// no outgoing edges.
    pub fn get_neighbours_for_node(&self, node: &NodeRef) -> (r: Option<&Vec<(Node, i32)>>)
        requires
            self.wf(),
        ensures
            r is Some <==> spec_contains(self@, node@),
            (r matches Some(ns) ==> pairs_view(ns@) == spec_neighbours(self@, node@)),
    {
        let mut i: usize = 0;
        while i < self.matrix.len()
            invariant
                i <= self.matrix.len(),
                self.wf(),
                forall|j: int| 0 <= j < i ==> self@[j].0 != node@,
            decreases self.matrix.len() - i,
        {
            if self.matrix[i].0.data == node.data {
                proof {
                    lemma_neighbours_at(self@, node@, i as int);
                }
                return Some(&self.matrix[i].1);
            }
            assert(self@[i as int].0 != node@);
            i += 1;
        }
        None
    }

    /// Inserts the directed edge `from -> to` with the given cost: appends
    /// `(to, cost)` to the row of `from`, creating that row if `from` had
    /// none. Identical edges are not deduplicated, and the append keeps the
    /// insertion order of the row.
    pub fn add_adjacency(&mut self, from: Node, to: Node, cost: i32)
        requires
            old(self).wf(),
        ensures
            final(self).wf(),
            forall|l: Label|
                spec_contains(final(self)@, l) <==> (spec_contains(old(self)@, l) || l == from@),
            spec_neighbours(final(self)@, from@) == spec_neighbours(old(self)@, from@).push(
                (to@, cost as int),
            ),
            forall|l: Label|
                l != from@ ==> spec_neighbours(final(self)@, l) == spec_neighbours(old(self)@, l),
            total_weight(final(self)@) == total_weight(old(self)@) + abs_cost(cost as int),
    {
        let ghost rows0 = self@;
        let mut i: usize = 0;
        while i < self.matrix.len()
            invariant
                i <= self.matrix.len(),
                self@ == rows0,
                rows0 == old(self)@,
                rows_wf(rows0),
                forall|j: int| 0 <= j < i ==> rows0[j].0 != from@,
            decreases self.matrix.len() - i,
        {
            if self.matrix[i].0.data == from.data {
                let ghost idx = i as int;
                let ghost m0 = self.matrix@;
                let (key, mut nbrs) = self.matrix.remove(i);
                let ghost nbrs0 = nbrs@;
                nbrs.push((to, cost));
                self.matrix.insert(i, (key, nbrs));
                proof {
                    let m1 = m0.remove(idx);
                    m0.remove_ensures(idx);
                    m1.insert_ensures(idx, (key, nbrs));
                    assert(self.matrix@ == m1.insert(idx, (key, nbrs)));
                    assert(pairs_view(nbrs@) =~= pairs_view(nbrs0).push((to@, cost as int)));
                    let target = rows0.update(
                        idx,
                        (rows0[idx].0, rows0[idx].1.push((to@, cost as int))),
                    );
                    assert forall|k: int| 0 <= k < self@.len() implies self@[k] == target[k] by {
                        if k < idx {
                            assert(self.matrix@[k] == m1[k]);
                            assert(m1[k] == m0[k]);
                        } else if k == idx {
                            assert(self.matrix@[idx] == (key, nbrs));
                            assert(rows0[idx] == row_view(m0[idx]));
                        } else {
                            assert(self.matrix@[k] == m1[k - 1]);
                            assert(m1[k - 1] == m0[k]);
                        }
                    }
                    assert(self@ =~= target);
                    lemma_total_weight_update(
                        rows0,
                        idx,
                        (rows0[idx].0, rows0[idx].1.push((to@, cost as int))),
                    );
                    lemma_pairs_weight_push(rows0[idx].1, (to@, cost as int));
                    assert(forall|k: int| 0 <= k < self@.len() ==> self@[k].0 == rows0[k].0);
                    lemma_neighbours_at(rows0, from@, idx);
                    lemma_neighbours_at(self@, from@, idx);
                    assert forall|l: Label|
                        spec_contains(self@, l) <==> (spec_contains(rows0, l) || l == from@) by {
                        if spec_contains(self@, l) {
                            let k = choose|k: int| 0 <= k < self@.len() && self@[k].0 == l;
                            assert(rows0[k].0 == l);
                        }
                        if spec_contains(rows0, l) {
                            let k = choose|k: int| 0 <= k < rows0.len() && rows0[k].0 == l;
                            assert(self@[k].0 == l);
                        }
                        if l == from@ {
                            assert(self@[idx].0 == l);
                        }
                    }
                    assert forall|l: Label|
                        l != from@ implies spec_neighbours(self@, l) == spec_neighbours(
                        rows0,
                        l,
                    ) by {
                        if spec_contains(rows0, l) {
                            let k = choose|k: int| 0 <= k < rows0.len() && rows0[k].0 == l;
                            assert(k != idx);
                            lemma_neighbours_at(rows0, l, k);
                            lemma_neighbours_at(self@, l, k);
                        } else {
                            assert(!spec_contains(self@, l));
                        }
                    }
                }
                return ;
            }
            assert(self@[i as int].0 != from@);
            i += 1;
        }
        let mut nbrs: Vec<(Node, i32)> = Vec::new();
        nbrs.push((to, cost));
        let ghost from_label = from@;
        self.matrix.push((from, nbrs));
        proof {
            assert(!spec_contains(rows0, from_label));
            assert(pairs_view(nbrs@) =~= Seq::<(Seq<char>, int)>::empty().push(
                (to@, cost as int),
            ));
            assert(self@ =~= rows0.push((from_label, pairs_view(nbrs@))));
            lemma_total_weight_push(rows0, (from_label, pairs_view(nbrs@)));
            lemma_pairs_weight_push(Seq::<(Seq<char>, int)>::empty(), (to@, cost as int));
            let n = rows0.len() as int;
            assert(forall|k: int| 0 <= k < n ==> self@[k] == rows0[k]);
            assert(self@[n].0 == from_label);
            assert(rows_wf(self@)) by {
                assert forall|a: int, b: int| 0 <= a < b < self@.len() implies self@[a].0
                    != self@[b].0 by {
                    if b < n {
                        assert(rows0[a].0 != rows0[b].0);
                    } else {
                        assert(self@[a].0 == rows0[a].0);
                        assert(rows0[a].0 != from_label);
                    }
                }
            }
            assert forall|l: Label|
                spec_contains(self@, l) <==> (spec_contains(rows0, l) || l == from_label) by {
                if spec_contains(self@, l) {
                    let k = choose|k: int| 0 <= k < self@.len() && self@[k].0 == l;
                    if k < n {
                        assert(rows0[k].0 == l);
                    }
                }
                if spec_contains(rows0, l) {
                    let k = choose|k: int| 0 <= k < rows0.len() && rows0[k].0 == l;
                    assert(self@[k].0 == l);
                }
                if l == from_label {
                    assert(self@[n].0 == l);
                }
            }
            lemma_neighbours_at(self@, from_label, n);
            assert(spec_neighbours(rows0, from_label) == Seq::<(Seq<char>, int)>::empty());
            assert forall|l: Label|
                l != from_label implies spec_neighbours(self@, l) == spec_neighbours(
                rows0,
                l,
            ) by {
                if spec_contains(rows0, l) {
                    let k = choose|k: int| 0 <= k < rows0.len() && rows0[k].0 == l;
                    lemma_neighbours_at(rows0, l, k);
                    lemma_neighbours_at(self@, l, k);
                } else {
                    assert(!spec_contains(self@, l));
                }
            }
        }
    }
}

} // verus!
