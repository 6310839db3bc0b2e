use vstd::prelude::*;

verus! {

use crate::adjacency_matrix::AdjacencyMatrix;
use crate::adjacency_matrix::Label;
use crate::adjacency_matrix::Row;
use crate::adjacency_matrix::abs_cost;
use crate::adjacency_matrix::lemma_contains_tail;
use crate::adjacency_matrix::lemma_neighbours_at;
use crate::adjacency_matrix::lemma_pairs_weight_nonneg;
use crate::adjacency_matrix::lemma_weight_nonneg;
use crate::adjacency_matrix::lemma_wf_tail;
use crate::adjacency_matrix::pairs_view;
use crate::adjacency_matrix::pairs_weight;
use crate::adjacency_matrix::rows_wf;
use crate::adjacency_matrix::spec_contains;
use crate::adjacency_matrix::spec_neighbours;
use crate::adjacency_matrix::total_weight;
use crate::adjacency_matrix::unvisited_weight;
use crate::node::Node;
use crate::node::NodeRef;
use crate::visited_wrapper::VisitedWrapper;

/// How many rows have a source label not yet visited. A walk only ever
/// shrinks this, which is what bounds its depth on cyclic graphs.
pub open spec fn unvisited_count(rows: Seq<Row>, v: Set<Seq<char>>) -> nat
    decreases rows.len(),
{
    if rows.len() == 0 {
        0
    } else {
        (if v.contains(rows[0].0) {
            0nat
        } else {
            1nat
        }) + unvisited_count(rows.drop_first(), v)
    }
}

proof fn lemma_count_mono(rows: Seq<Row>, v: Set<Seq<char>>, w: Set<Seq<char>>)
    requires
        v.subset_of(w),
    ensures
        unvisited_count(rows, w) <= unvisited_count(rows, v),
    decreases rows.len(),
{
    if rows.len() != 0 {
        lemma_count_mono(rows.drop_first(), v, w);
    }
}

proof fn lemma_count_insert(rows: Seq<Row>, v: Set<Seq<char>>, l: Label)
    requires
        spec_contains(rows, l),
        !v.contains(l),
    ensures
        unvisited_count(rows, v.insert(l)) < unvisited_count(rows, v),
    decreases rows.len(),
{
    lemma_contains_tail(rows, l);
    if rows[0].0 == l {
        lemma_count_mono(rows.drop_first(), v, v.insert(l));
    } else {
        lemma_count_insert(rows.drop_first(), v, l);
    }
}

/// Visiting a label that heads no row leaves the reachable weight unchanged.
proof fn lemma_weight_insert_nonkey(rows: Seq<Row>, v: Set<Seq<char>>, l: Label)
    requires
        !spec_contains(rows, l),
    ensures
        unvisited_weight(rows, v.insert(l)) == unvisited_weight(rows, v),
    decreases rows.len(),
{
    if rows.len() != 0 {
        lemma_contains_tail(rows, l);
        lemma_weight_insert_nonkey(rows.drop_first(), v, l);
    }
}

/// Visiting the source label of a row removes exactly that row's weight from
/// the reachable weight.
proof fn lemma_weight_insert(rows: Seq<Row>, v: Set<Seq<char>>, l: Label)
    requires
        rows_wf(rows),
        spec_contains(rows, l),
        !v.contains(l),
    ensures
        unvisited_weight(rows, v.insert(l)) == unvisited_weight(rows, v) - pairs_weight(
            spec_neighbours(rows, l),
        ),
    decreases rows.len(),
{
    lemma_contains_tail(rows, l);
    let tail = rows.drop_first();
    if rows[0].0 == l {
        lemma_neighbours_at(rows, l, 0);
        assert(!spec_contains(tail, l)) by {
            if spec_contains(tail, l) {
                let k = choose|k: int| 0 <= k < tail.len() && tail[k].0 == l;
                assert(rows[0].0 != rows[k + 1].0);
            }
        }
        lemma_weight_insert_nonkey(tail, v, l);
    } else {
        lemma_wf_tail(rows);
        lemma_weight_insert(tail, v, l);
        let k = choose|k: int| 0 <= k < tail.len() && tail[k].0 == l;
        lemma_neighbours_at(tail, l, k);
        lemma_neighbours_at(rows, l, k + 1);
    }
}

/// The walk from one node: if it was already entered, or it is the target,
/// the walk is pruned at once; otherwise the node is entered and its
/// neighbour list is walked. The result is the summed cost of every edge the
/// walk takes, and the grown visited set.
pub open spec fn dfs_spec(rows: Seq<Row>, v: Set<Seq<char>>, from: Label, to: Label) -> (
    int,
    Set<Seq<char>>,
)
    decreases unvisited_count(rows, v), 0int, 0int,
    via dfs_spec_decreases
{
    if v.contains(from) || from == to {
        (0, v)
    } else if !spec_contains(rows, from) {
        (0, v.insert(from))
    } else {
        dfs_list(rows, v.insert(from), spec_neighbours(rows, from), to)
    }
}

/// The walk of one neighbour list, in stored order: each pair's cost is added
/// when its edge is taken, whatever the walk of the pair's node then prunes.
pub open spec fn dfs_list(rows: Seq<Row>, v: Set<Seq<char>>, ns: Seq<(Seq<char>, int)>, to: Label) -> (
    int,
    Set<Seq<char>>,
)
    decreases unvisited_count(rows, v), 1int, ns.len(),
    via dfs_list_decreases
{
    if ns.len() == 0 {
        (0, v)
    } else {
        let head = dfs_spec(rows, v, ns[0].0, to);
        let rest = dfs_list(rows, v.union(head.1), ns.drop_first(), to);
        (ns[0].1 + head.0 + rest.0, rest.1)
    }
}

#[via_fn]
proof fn dfs_spec_decreases(rows: Seq<Row>, v: Set<Seq<char>>, from: Label, to: Label) {
    if !(v.contains(from) || from == to) && spec_contains(rows, from) {
        lemma_count_insert(rows, v, from);
    }
}

#[via_fn]
proof fn dfs_list_decreases(rows: Seq<Row>, v: Set<Seq<char>>, ns: Seq<(Seq<char>, int)>, to: Label) {
    assert forall|w: Set<Seq<char>>|
        unvisited_count(rows, v.union(w)) <= unvisited_count(rows, v) by {
        lemma_count_mono(rows, v, v.union(w));
    }
}

/// The walk only grows the visited set, and the magnitude of the cost it
/// accumulates is covered by the reachable weight it uses up.
pub proof fn lemma_dfs_spec_props(rows: Seq<Row>, v: Set<Seq<char>>, from: Label, to: Label)
    requires
        rows_wf(rows),
    ensures
        ({
            let r = dfs_spec(rows, v, from, to);
            &&& v.subset_of(r.1)
            &&& abs_cost(r.0) <= unvisited_weight(rows, v) - unvisited_weight(rows, r.1)
        }),
    decreases unvisited_count(rows, v), 0int, 0int,
{
    if v.contains(from) || from == to {
    } else if !spec_contains(rows, from) {
        lemma_weight_insert_nonkey(rows, v, from);
    } else {
        let ns = spec_neighbours(rows, from);
        let v2 = v.insert(from);
        lemma_count_insert(rows, v, from);
        lemma_weight_insert(rows, v, from);
        lemma_dfs_list_props(rows, v2, ns, to);
    }
}

/// As `lemma_dfs_spec_props`, for the walk of a neighbour list: the list's
/// own weight joins the bound, since its edges are taken outright.
pub proof fn lemma_dfs_list_props(
    rows: Seq<Row>,
    v: Set<Seq<char>>,
    ns: Seq<(Seq<char>, int)>,
    to: Label,
)
    requires
        rows_wf(rows),
    ensures
        ({
            let r = dfs_list(rows, v, ns, to);
            &&& v.subset_of(r.1)
            &&& abs_cost(r.0) <= pairs_weight(ns) + unvisited_weight(rows, v) - unvisited_weight(
                rows,
                r.1,
            )
        }),
    decreases unvisited_count(rows, v), 1int, ns.len(),
{
    if ns.len() == 0 {
    } else {
        let head = dfs_spec(rows, v, ns[0].0, to);
        lemma_dfs_spec_props(rows, v, ns[0].0, to);
        let v1 = v.union(head.1);
        assert(v1 =~= head.1);
        lemma_count_mono(rows, v, v1);
        lemma_dfs_list_props(rows, v1, ns.drop_first(), to);
    }
}

/// Once a label is in the visited set, the walk entering any node carrying an
/// equal label is pruned at once: it adds no cost and visits nothing new. Two
/// edges referencing equal labels therefore reach one node entity, not two.
pub proof fn lemma_label_identity(
    rows: Seq<Row>,
    v: Set<Seq<char>>,
    first: Label,
    second: Label,
    to: Label,
)
    requires
        v.contains(first),
        first == second,
    ensures
        dfs_spec(rows, v, second, to) == (0int, v),
{
}

/// A neighbour list is walked in insertion order: the walk descends through
/// the head pair first, and only then through the remaining pairs, handing
/// the head's grown visited set on to them.
pub proof fn lemma_traversal_order(
    rows: Seq<Row>,
    v: Set<Seq<char>>,
    ns: Seq<(Seq<char>, int)>,
    to: Label,
)
    requires
        ns.len() > 0,
    ensures
        ({
            let head = dfs_spec(rows, v, ns[0].0, to);
            let rest = dfs_list(rows, v.union(head.1), ns.drop_first(), to);
            dfs_list(rows, v, ns, to) == (ns[0].1 + head.0 + rest.0, rest.1)
        }),
{
}

/// What `Graph::depth_search` returns: `-1` for a start node that heads no
/// row, else the summed cost of every edge the walk from the start takes
/// before the visited set or the target prunes it.
pub open spec fn spec_depth_search(rows: Seq<Row>, from: Label, to: Label) -> int {
    if spec_contains(rows, from) {
        dfs_spec(rows, Set::empty(), from, to).0
    } else {
        -1
    }
}

/// A walk whose start is its target is pruned before any cost is added: for
/// a start that heads a row, the search returns zero outright.
pub proof fn lemma_start_is_target(rows: Seq<Row>, start: Label)
    requires
        spec_contains(rows, start),
    ensures
        spec_depth_search(rows, start, start) == 0,
{
}

/// A weighted directed graph: an adjacency matrix keyed by node label, and a
/// depth-first cost traversal over it. The visited set of a traversal is
/// scoped to one `depth_search` call: a fresh call walks afresh.
pub struct Graph {
    matrix: AdjacencyMatrix,
}

impl View for Graph {
    type V = Seq<Row>;

    closed spec fn view(&self) -> Seq<Row> {
        self.matrix@
    }
}

impl Graph {
    /// At most one adjacency row per source label.
    pub open spec fn wf(&self) -> bool {
        rows_wf(self@)
    }

    pub fn new() -> (r: Self)
        ensures
            r@ == Seq::<Row>::empty(),
            r.wf(),
            total_weight(r@) == 0,
    {
        Self { matrix: AdjacencyMatrix::new() }
    }

    /// Inserts the directed edge `from -> to` with the given cost, appending
    /// to `from`'s neighbour list so that insertion order is kept.
    pub fn add_adjacency(&mut self, from: Node, to: Node, cost: i32)
        requires
            old(self).wf(),
        ensures
            final(self).wf(),
            forall|l: Label|
                spec_contains(final(self)@, l) <==> (spec_contains(old(self)@, l) || l == from@),
            spec_neighbours(final(self)@, from@) == spec_neighbours(old(self)@, from@).push(
                (to@, cost as int),
            ),
            forall|l: Label|
                l != from@ ==> spec_neighbours(final(self)@, l) == spec_neighbours(old(self)@, l),
            total_weight(final(self)@) == total_weight(old(self)@) + abs_cost(cost as int),
    {
        self.matrix.add_adjacency(from, to, cost);
    }

    /// The cumulative edge cost of a depth-first walk from `from` toward
    /// `to`, each reachable node entered at most once; `-1` if `from` heads
    /// no row. The bound on the graph's total cost magnitude keeps the
    /// running sum inside `i32`.
    pub fn depth_search(&self, from: NodeRef, to: NodeRef) -> (r: i32)
        requires
            self.wf(),
            total_weight(self@) <= i32::MAX as int,
        ensures
            r as int == spec_depth_search(self@, from@, to@),
            !spec_contains(self@, from@) ==> r == -1,
    {
        let contained = self.matrix.contains_node(&from);
        if contained {
            let mut visited = VisitedWrapper::new();
            proof {
                lemma_weight_nonneg(self@, Set::empty());
            }
            self.dfs(&mut visited, &from, &to, 0)
        } else {
            -1
        }
    }

    /// The recursive walk: prunes on a visited or target node, else enters
    /// the node and walks its neighbour list in stored order, adding each
    /// edge's cost as the edge is taken.
    fn dfs(&self, visited: &mut VisitedWrapper, from: &NodeRef, to: &NodeRef, sum: i32) -> (r: i32)
        requires
            self.wf(),
            i32::MIN as int <= sum - unvisited_weight(self@, old(visited)@),
            sum + unvisited_weight(self@, old(visited)@) <= i32::MAX as int,
        ensures
            ({
                let walk = dfs_spec(self@, old(visited)@, from@, to@);
                r as int == sum + walk.0 && final(visited)@ == walk.1
            }),
        decreases unvisited_count(self@, old(visited)@),
    {
        let ghost v0 = visited@;
        let seen = visited.visited(from);
        if seen || from.data == to.data {
            return sum;
        }
        visited.visit(from);
        let ghost v1 = v0.insert(from@);
        let nbrs_opt = self.matrix.get_neighbours_for_node(from);
        match nbrs_opt {
            None => sum,
            Some(nbrs) => {
                let ghost nsv = spec_neighbours(self@, from@);
                proof {
                    lemma_count_insert(self@, v0, from@);
                    lemma_weight_insert(self@, v0, from@);
                    assert(nsv.skip(0) =~= nsv);
                }
                let mut sum_cur = sum;
                let mut i: usize = 0;
                while i < nbrs.len()
                    invariant
                        i <= nbrs.len(),
                        self.wf(),
                        pairs_view(nbrs@) == nsv,
                        nsv == spec_neighbours(self@, from@),
                        spec_contains(self@, from@),
                        v0 == old(visited)@,
                        unvisited_count(self@, visited@) < unvisited_count(self@, v0),
                        v1.subset_of(visited@),
                        ({
                            let rest = dfs_list(self@, visited@, nsv.skip(i as int), to@);
                            let full = dfs_list(self@, v1, nsv, to@);
                            rest.1 == full.1 && sum_cur + rest.0 == sum + full.0
                        }),
                        i32::MIN as int <= sum_cur - pairs_weight(nsv.skip(i as int))
                            - unvisited_weight(self@, visited@),
                        sum_cur + pairs_weight(nsv.skip(i as int)) + unvisited_weight(
                            self@,
                            visited@,
                        ) <= i32::MAX as int,
                    decreases nbrs.len() - i,
                {
                    let ghost v_cur = visited@;
                    proof {
                        assert(nsv.skip(i as int).drop_first() =~= nsv.skip(i as int + 1));
                        assert(nsv[i as int] == pairs_view(nbrs@)[i as int]);
                        lemma_pairs_weight_nonneg(nsv.skip(i as int));
                        lemma_pairs_weight_nonneg(nsv.skip(i as int + 1));
                        lemma_weight_nonneg(self@, v_cur);
                    }
                    let pair = &nbrs[i];
                    let sub = self.dfs(visited, &pair.0, to, sum_cur);
                    proof {
                        let head = dfs_spec(self@, v_cur, nsv[i as int].0, to@);
                        lemma_dfs_spec_props(self@, v_cur, nsv[i as int].0, to@);
                        assert(v_cur.union(head.1) =~= head.1);
                        lemma_weight_nonneg(self@, visited@);
                        lemma_count_mono(self@, v_cur, visited@);
                    }
                    sum_cur = pair.1 + sub;
                    i += 1;
                }
                proof {
                    assert(nsv.skip(nbrs.len() as int) =~= Seq::<(Seq<char>, int)>::empty());
                }
                sum_cur
            }
        }
    }
}

} // verus!
