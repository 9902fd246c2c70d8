//! Pages of weighted edges, and what answered pages do to the state of a
//! weighted search.
use roaring::RoaringBitmap;
use std::collections::VecDeque;
use vstd::prelude::*;

use crate::errors::GraphResult;
use crate::neighbors::{
    least, page_of, strip_weights, Neighbor, NeighborSource, OwnedNeighborCursor, WeightedNeighbor,
    WeightedNeighborSource,
};
use crate::node_store::NodeStore;
use crate::path_machine::{
    candidate_edges, candidates_from, consume_path_work_without_interrupt, edges_key_bytes,
    filter_passes, lemma_page_work_fits, lemma_page_work_next, lemma_passing_grows,
    next_path_sequence, page_error, page_key_bytes, page_takes, page_work, passes_filter, passing,
    path_candidate, path_candidate_fits, BfsAdjacencyCandidate, BfsCandidateLimits,
    RelationshipIdentities,
};
use crate::relaxation::{relax, weighted_bounded, Frontier, WeightedGraph, WeightedParentStep};
use crate::resource::{charged, ResourceGovernor};
use crate::visibility::QueryExecutionContext;
use crate::weighted_path::weighted_graph;

verus! {

/// A weighted graph, the nodes that may be seen, and the number of nodes.
pub struct WeightedWorld {
    pub graph: WeightedGraph,
    pub shows: spec_fn(u32) -> bool,
    pub nodes: nat,
}

impl WeightedWorld {
    /// Whether this is the graph that a search reads.
    pub open spec fn fits<W: WeightedNeighborSource>(
        self,
        node_store: &NodeStore,
        neighbors: &W,
        filter: Option<&RoaringBitmap>,
    ) -> bool {
        &&& self.nodes == node_store.nodes().len()
        &&& weighted_bounded(self.graph, self.nodes)
        &&& forall|node: u32| #[trigger]
            (self.graph.adjacency)(node) == neighbors.weighted_adjacency(node)
        &&& forall|edge: WeightedNeighbor| #[trigger]
            (self.graph.allows)(edge) ==> filter_passes(filter, edge.type_id)
    }
}

/// The weighted world of a query.
pub open spec fn weighted_query_world<W: WeightedNeighborSource>(
    node_store: &NodeStore,
    neighbors: &W,
    context: QueryExecutionContext<'_>,
) -> WeightedWorld {
    WeightedWorld {
        graph: weighted_graph(node_store, neighbors, context),
        shows: |node: u32| context.visibility.shows_node(node),
        nodes: node_store.nodes().len(),
    }
}

/// The edges that pass a filter.
pub open spec fn passing_weighted(
    edges: Seq<WeightedNeighbor>,
    filter: Option<&RoaringBitmap>,
) -> Seq<WeightedNeighbor>
    decreases edges.len(),
{
    if edges.len() == 0 {
        Seq::empty()
    } else {
        let rest = passing_weighted(edges.drop_last(), filter);
        if filter_passes(filter, edges.last().type_id) {
            rest.push(edges.last())
        } else {
            rest
        }
    }
}

/// The edges that pass a filter are the same without their weights.
pub proof fn lemma_passing_stripped(
    edges: Seq<WeightedNeighbor>,
    filter: Option<&RoaringBitmap>,
)
    ensures
        strip_weights(passing_weighted(edges, filter)) == passing(strip_weights(edges), filter),
    decreases edges.len(),
{
    if edges.len() > 0 {
        let rest = edges.drop_last();
        lemma_passing_stripped(rest, filter);
        assert(strip_weights(edges).drop_last() =~= strip_weights(rest));
        assert(strip_weights(edges).last() == edges.last().unweighted());
    }
    assert(strip_weights(passing_weighted(edges, filter)) =~= passing(
        strip_weights(edges),
        filter,
    ));
}

/// The state after answered edges: each one that is followed is relaxed.
pub open spec fn relaxed_by(
    state: Frontier,
    node: u32,
    cost: u64,
    edges: Seq<WeightedNeighbor>,
    ok: Seq<bool>,
) -> Frontier
    decreases edges.len(),
{
    if edges.len() == 0 {
        state
    } else {
        let before = relaxed_by(state, node, cost, edges.drop_last(), ok);
        let edge = edges.last();
        if ok[edges.len() - 1] && cost + edge.weight < before.dist[edge.target as int] {
            let new_cost = (cost + edge.weight) as u64;
            Frontier {
                dist: before.dist.update(edge.target as int, new_cost),
                parent: before.parent.insert(
                    edge.target,
                    WeightedParentStep {
                        parent: node,
                        edge_type: edge.type_id,
                        edge_weight: edge.weight,
                    },
                ),
                queue: before.queue.insert((new_cost, edge.target)),
                ..before
            }
        } else {
            before
        }
    }
}

/// One more answered edge.
pub proof fn lemma_relaxed_next(
    state: Frontier,
    node: u32,
    cost: u64,
    edges: Seq<WeightedNeighbor>,
    ok: Seq<bool>,
    at: int,
)
    requires
        0 <= at < edges.len(),
    ensures
        ({
            let before = relaxed_by(state, node, cost, edges.take(at), ok);
            let edge = edges[at];
            let new_cost = (cost + edge.weight) as u64;
            relaxed_by(state, node, cost, edges.take(at + 1), ok) == if ok[at] && cost
                + edge.weight < before.dist[edge.target as int] {
                Frontier {
                    dist: before.dist.update(edge.target as int, new_cost),
                    parent: before.parent.insert(
                        edge.target,
                        WeightedParentStep {
                            parent: node,
                            edge_type: edge.type_id,
                            edge_weight: edge.weight,
                        },
                    ),
                    queue: before.queue.insert((new_cost, edge.target)),
                    ..before
                }
            } else {
                before
            }
        }),
{
    assert(edges.take(at + 1).drop_last() =~= edges.take(at));
}

/// How many entries answered edges add to the queue.
pub open spec fn newly_queued(
    state: Frontier,
    node: u32,
    cost: u64,
    edges: Seq<WeightedNeighbor>,
    ok: Seq<bool>,
) -> int {
    relaxed_by(state, node, cost, edges, ok).queue.len() - state.queue.len()
}

/// One more answered edge adds an entry if it is relaxed.
pub proof fn lemma_queued_next(
    state: Frontier,
    node: u32,
    cost: u64,
    edges: Seq<WeightedNeighbor>,
    ok: Seq<bool>,
    at: int,
)
    requires
        0 <= at < edges.len(),
    ensures
        ({
            let before = relaxed_by(state, node, cost, edges.take(at), ok);
            newly_queued(state, node, cost, edges.take(at + 1), ok) == newly_queued(
                state,
                node,
                cost,
                edges.take(at),
                ok,
            ) + if ok[at] && cost + edges[at].weight < before.dist[edges[at].target as int] {
                1int
            } else {
                0
            }
        }),
{
    broadcast use vstd::multiset::group_multiset_axioms;

    lemma_relaxed_next(state, node, cost, edges, ok, at);
}

/// More answered edges add more entries.
pub proof fn lemma_queued_grows(
    state: Frontier,
    node: u32,
    cost: u64,
    edges: Seq<WeightedNeighbor>,
    ok: Seq<bool>,
    small: int,
    large: int,
)
    requires
        0 <= small <= large <= edges.len(),
    ensures
        0 <= newly_queued(state, node, cost, edges.take(small), ok) <= newly_queued(
            state,
            node,
            cost,
            edges.take(large),
            ok,
        ),
    decreases large,
{
    broadcast use vstd::multiset::group_multiset_axioms;

    if large > 0 {
        lemma_relaxed_next(state, node, cost, edges, ok, large - 1);
        if small < large {
            lemma_queued_grows(state, node, cost, edges, ok, small, large - 1);
        } else {
            lemma_queued_grows(state, node, cost, edges, ok, small - 1, large - 1);
        }
    }
}

/// Answers that are those of a graph relax as the graph does.
pub proof fn lemma_relaxed_relaxes(
    g: WeightedGraph,
    state: Frontier,
    node: u32,
    cost: u64,
    edges: Seq<WeightedNeighbor>,
    ok: Seq<bool>,
)
    requires
        forall|i: int| 0 <= i < edges.len() ==> ok[i] == (g.allows)(#[trigger] edges[i]),
    ensures
        relaxed_by(state, node, cost, edges, ok) == relax(g, state, node, cost, edges),
    decreases edges.len(),
{
    if edges.len() > 0 {
        assert forall|i: int| 0 <= i < edges.drop_last().len() implies ok[i] == (g.allows)(
            #[trigger] edges.drop_last()[i],
        ) by {
            assert(edges.drop_last()[i] == edges[i]);
        }
        lemma_relaxed_relaxes(g, state, node, cost, edges.drop_last(), ok);
    }
}

/// Relaxing edges in two parts is relaxing all of them.
pub proof fn lemma_relax_joined(
    g: WeightedGraph,
    state: Frontier,
    node: u32,
    cost: u64,
    first: Seq<WeightedNeighbor>,
    rest: Seq<WeightedNeighbor>,
)
    ensures
        relax(g, relax(g, state, node, cost, first), node, cost, rest) == relax(
            g,
            state,
            node,
            cost,
            first + rest,
        ),
    decreases rest.len(),
{
    if rest.len() == 0 {
        assert(first + rest =~= first);
    } else {
        lemma_relax_joined(g, state, node, cost, first, rest.drop_last());
        assert((first + rest).drop_last() =~= first + rest.drop_last());
    }
}

/// Edges that a filter keeps out, and that the graph does not allow either,
/// make no difference.
pub proof fn lemma_relax_passing(
    g: WeightedGraph,
    state: Frontier,
    node: u32,
    cost: u64,
    edges: Seq<WeightedNeighbor>,
    filter: Option<&RoaringBitmap>,
)
    requires
        forall|edge: WeightedNeighbor| #[trigger]
            (g.allows)(edge) ==> filter_passes(filter, edge.type_id),
    ensures
        relax(g, state, node, cost, passing_weighted(edges, filter)) == relax(
            g,
            state,
            node,
            cost,
            edges,
        ),
    decreases edges.len(),
{
    if edges.len() > 0 {
        lemma_relax_passing(g, state, node, cost, edges.drop_last(), filter);
        let rest = passing_weighted(edges.drop_last(), filter);
        if filter_passes(filter, edges.last().type_id) {
            assert(passing_weighted(edges, filter).drop_last() =~= rest);
        }
    }
}

/// A page of a row, without what the filter keeps out, takes the state from
/// where it was before the page to where it is after it.
pub proof fn lemma_page_relaxed(
    g: WeightedGraph,
    base: Frontier,
    node: u32,
    cost: u64,
    row: Seq<WeightedNeighbor>,
    first: int,
    next: int,
    filter: Option<&RoaringBitmap>,
)
    requires
        0 <= first <= next <= row.len(),
        forall|edge: WeightedNeighbor| #[trigger]
            (g.allows)(edge) ==> filter_passes(filter, edge.type_id),
    ensures
        relax(
            g,
            relax(g, base, node, cost, row.take(first)),
            node,
            cost,
            passing_weighted(row.subrange(first, next), filter),
        ) == relax(g, base, node, cost, row.take(next)),
{
    let before = relax(g, base, node, cost, row.take(first));
    lemma_relax_passing(g, before, node, cost, row.subrange(first, next), filter);
    lemma_relax_joined(g, base, node, cost, row.take(first), row.subrange(first, next));
    assert(row.take(first) + row.subrange(first, next) =~= row.take(next));
}

/// Where a search stands in a node's weighted edges, and the edges that were
/// read ahead.
#[derive(Debug)]
pub struct WeightedRowPager {
    pub cursor: OwnedNeighborCursor,
    pub pending: VecDeque<WeightedNeighbor>,
    pub exhausts_node: bool,
}

impl WeightedRowPager {
    /// How many of the node's edges have been handed out.
    pub open spec fn taken(&self) -> int {
        self.cursor.position - self.pending@.len()
    }

    /// Whether the pager stands in this row.
    pub open spec fn in_row(&self, row: Seq<WeightedNeighbor>) -> bool {
        &&& 0 <= self.taken()
        &&& self.cursor.position <= row.len()
        &&& self.pending@ == row.subrange(self.taken(), self.cursor.position as int)
        &&& self.exhausts_node ==> self.cursor.position == row.len()
        &&& self.pending@.len() > 0 && self.cursor.position == row.len() ==> self.exhausts_node
    }

    /// Up to where a row of this length is read ahead.
    pub open spec fn ahead(&self, length: int, limit: int) -> int {
        if self.pending@.len() > 0 {
            self.cursor.position as int
        } else {
            least(self.cursor.position + limit, length)
        }
    }

    /// Before the first edge.
    pub fn start() -> (pager: Self)
        ensures
            pager.taken() == 0,
            forall|row: Seq<WeightedNeighbor>| #[trigger] pager.in_row(row),
            !pager.exhausts_node,
            pager.pending@.len() == 0,
    {
        let pager = WeightedRowPager {
            cursor: OwnedNeighborCursor::start(),
            pending: VecDeque::new(),
            exhausts_node: false,
        };
        assert forall|row: Seq<WeightedNeighbor>| #[trigger] pager.in_row(row) by {
            assert(pager.pending@ =~= row.subrange(0, 0));
        }
        pager
    }

    /// Reads ahead if nothing is left of what was read before.
    pub fn fill_weighted_page<W: WeightedNeighborSource>(
        &mut self,
        current: u32,
        neighbors: &W,
        limit: usize,
    )
        requires
            old(self).in_row(neighbors.weighted_adjacency(current)),
            limit > 0,
        ensures
            final(self).in_row(neighbors.weighted_adjacency(current)),
            final(self).taken() == old(self).taken(),
            final(self).cursor.position == old(self).ahead(
                neighbors.weighted_adjacency(current).len() as int,
                limit as int,
            ),
            final(self).exhausts_node == (final(self).cursor.position
                == neighbors.weighted_adjacency(current).len()),
            final(self).pending@.len() == 0 ==> final(self).taken()
                == neighbors.weighted_adjacency(current).len(),
            old(self).pending@.len() <= limit ==> final(self).pending@.len() <= limit,
    {
        if self.pending.len() == 0 {
            let ghost row = neighbors.weighted_adjacency(current);
            let ghost before = self.taken();
            let mut page: Vec<WeightedNeighbor> = Vec::new();
            self.exhausts_node = neighbors.fill_weighted_neighbors(
                current,
                &mut self.cursor,
                limit,
                &mut page,
            );
            let mut at: usize = 0;
            proof {
                assert(page@ =~= page_of(row, before, limit as int));
                assert(self.pending@ =~= page@.take(0));
            }
            while at < page.len()
                invariant
                    at <= page@.len(),
                    self.pending@ == page@.take(at as int),
                    self.cursor.position == least(before + limit, row.len() as int),
                    self.exhausts_node == (self.cursor.position == row.len()),
                decreases page@.len() - at,
            {
                self.pending.push_back(page[at]);
                proof {
                    assert(self.pending@ =~= page@.take(at + 1));
                }
                at = at + 1;
            }
            assert(page@.take(at as int) =~= page@);
            assert(self.pending@ =~= row.subrange(self.taken(), self.cursor.position as int));
        }
    }
}

/// The weights of edges.
pub open spec fn weights_of(edges: Seq<WeightedNeighbor>) -> Seq<u32> {
    Seq::new(edges.len(), |i: int| edges[i].weight)
}

/// Makes candidates of the edges that were read ahead, as many as fit. Edges
/// that a filter keeps out make none. Work is charged per edge.
pub(crate) fn gather_weighted_candidates(
    pager: &mut WeightedRowPager,
    sequence: &mut u32,
    parent: u32,
    filter: Option<&RoaringBitmap>,
    limits: BfsCandidateLimits,
    node_store: &NodeStore,
    relationships: &RelationshipIdentities,
    governor: &mut ResourceGovernor,
    Ghost(row): Ghost<Seq<WeightedNeighbor>>,
) -> (result: GraphResult<(Vec<BfsAdjacencyCandidate>, Vec<u32>)>)
    requires
        old(pager).in_row(row),
        node_store.wf(),
    ensures
        charged(
            old(governor)@,
            final(governor)@,
            page_work(
                strip_weights(row).subrange(old(pager).taken(), old(pager).cursor.position as int),
                0,
                filter,
                None,
                limits,
                node_store.nodes(),
                *relationships,
            ) as int,
        ),
        result matches Ok((candidates, weights)) ==> {
            let first = old(pager).taken();
            let next = final(pager).taken();
            let edges = passing_weighted(row.subrange(first, next), filter);
            &&& final(pager).in_row(row)
            &&& first <= next
            &&& final(pager).exhausts_node == old(pager).exhausts_node
            &&& final(pager).cursor == old(pager).cursor
            &&& candidate_edges(candidates@) == strip_weights(edges)
            &&& weights@ == weights_of(edges)
            &&& passing(
                strip_weights(row).subrange(first, old(pager).cursor.position as int).take(
                    next - first,
                ),
                filter,
            ) == strip_weights(edges)
            &&& candidates_from(
                candidates@,
                *old(sequence) as int,
                parent,
                0,
                node_store.nodes(),
                *relationships,
            )
            &&& *final(sequence) == *old(sequence) + candidates@.len()
            &&& page_key_bytes(candidates@) <= limits.max_key_bytes
            &&& candidates@.len() <= next - first
            &&& page_takes(
                strip_weights(row).subrange(first, old(pager).cursor.position as int),
                next - first,
                filter,
                None,
                limits,
                node_store.nodes(),
                *relationships,
            )
            &&& old(governor)@.affords(next - first)
            &&& final(governor)@ == old(governor)@.after_work(next - first)
            &&& candidates@.len() == 0 ==> final(pager).pending@.len() == 0
            &&& old(pager).pending@.len() > 0 ==> first < next
        },
        result matches Err(error) ==> page_error(
            error@,
            limits,
            old(governor)@,
            *old(sequence),
            strip_weights(row).subrange(old(pager).taken(), old(pager).cursor.position as int),
            filter,
            None,
            node_store.nodes(),
            *relationships,
        ),
{
    let ghost first = pager.taken();
    let ghost ahead = strip_weights(row).subrange(first, pager.cursor.position as int);
    let ghost start = *sequence;
    let ghost nodes = node_store.nodes();
    let ghost work = page_work(ahead, 0, filter, None, limits, nodes, *relationships) as int;
    let mut candidates: Vec<BfsAdjacencyCandidate> = Vec::new();
    let mut weights: Vec<u32> = Vec::new();
    let mut key_bytes: usize = 0;
    let ghost mut edges = Seq::<WeightedNeighbor>::empty();
    proof {
        assert(row.subrange(first, first) =~= Seq::<WeightedNeighbor>::empty());
        assert(candidate_edges(candidates@) =~= strip_weights(edges));
        assert(weights@ =~= weights_of(edges));
        assert(passing(ahead.take(0), filter) =~= strip_weights(edges));
        assert(ahead.skip(0) =~= ahead);
        lemma_page_work_fits(ahead, 0, filter, None, limits, nodes, *relationships);
    }
    while pager.pending.len() > 0
        invariant
            node_store.wf(),
            0 <= first == old(pager).taken(),
            start == *old(sequence),
            ahead == strip_weights(row).subrange(first, pager.cursor.position as int),
            pager.cursor == old(pager).cursor,
            pager.exhausts_node == old(pager).exhausts_node,
            pager.in_row(row),
            first <= pager.taken(),
            governor@ == old(governor)@.after_work(pager.taken() - first),
            old(governor)@.affords(pager.taken() - first),
            nodes == node_store.nodes(),
            work == page_work(ahead, 0, filter, None, limits, nodes, *relationships),
            work <= ahead.len(),
            work == pager.taken() - first + page_work(
                ahead.skip(pager.taken() - first),
                key_bytes as nat,
                filter,
                None,
                limits,
                nodes,
                *relationships,
            ),
            edges == passing_weighted(row.subrange(first, pager.taken()), filter),
            passing(ahead.take(pager.taken() - first), filter) == strip_weights(edges),
            key_bytes == edges_key_bytes(
                strip_weights(edges),
                node_store.nodes(),
                *relationships,
            ),
            candidate_edges(candidates@) == strip_weights(edges),
            weights@ == weights_of(edges),
            candidates_from(
                candidates@,
                start as int,
                parent,
                0,
                node_store.nodes(),
                *relationships,
            ),
            *sequence == start + candidates@.len(),
            key_bytes == page_key_bytes(candidates@),
            key_bytes <= limits.max_key_bytes,
            candidates@.len() <= pager.taken() - first,
        decreases pager.pending@.len(),
    {
        let ghost here = pager.taken();
        let weighted: WeightedNeighbor = match pager.pending.pop_front() {
            Some(weighted) => weighted,
            None => return Ok((candidates, weights)),
        };
        let neighbor: Neighbor = weighted.to_neighbor();
        proof {
            assert(weighted == row[here]);
            assert(ahead[here - first] == neighbor);
            assert(pager.pending@ =~= row.subrange(here + 1, pager.cursor.position as int));
            assert(row.subrange(first, here + 1).drop_last() =~= row.subrange(first, here));
            assert(row.subrange(first, here + 1).last() == weighted);
            assert(ahead.take(here + 1 - first).drop_last() =~= ahead.take(here - first));
            assert(ahead.take(here + 1 - first).last() == neighbor);
            lemma_page_work_next(
                ahead,
                here - first,
                key_bytes as nat,
                filter,
                None,
                limits,
                nodes,
                *relationships,
            );
        }
        if !passes_filter(filter, neighbor.type_id) {
            if let Err(error) = consume_path_work_without_interrupt(governor) {
                return Err(error);
            }
            continue ;
        }
        let fits: bool = match path_candidate_fits(
            &candidates,
            &mut key_bytes,
            neighbor,
            limits,
            node_store,
            relationships,
        ) {
            Ok(fits) => fits,
            Err(error) => return Err(error),
        };
        if !fits {
            pager.pending.push_front(weighted);
            proof {
                assert(pager.pending@ =~= row.subrange(here, pager.cursor.position as int));
            }
            return Ok((candidates, weights));
        }
        let candidate: BfsAdjacencyCandidate = match path_candidate(
            *sequence,
            parent,
            0,
            neighbor,
            node_store,
            relationships,
        ) {
            Ok(candidate) => candidate,
            Err(error) => return Err(error),
        };
        let ghost before = candidates@;
        candidates.push(candidate);
        weights.push(weighted.weight);
        proof {
            assert(candidates@.drop_last() =~= before);
            let more = edges.push(weighted);
            assert(candidate_edges(candidates@) =~= candidate_edges(before).push(neighbor));
            assert(strip_weights(more) =~= strip_weights(edges).push(neighbor));
            assert(strip_weights(more).drop_last() =~= strip_weights(edges));
            assert(weights@ =~= weights_of(more));
            edges = more;
        }
        if let Err(error) = consume_path_work_without_interrupt(governor) {
            return Err(error);
        }
        *sequence = match next_path_sequence(*sequence) {
            Ok(next) => next,
            Err(error) => {
                proof {
                    lemma_passing_grows(ahead, filter, here + 1 - first, work);
                }
                return Err(error);
            },
        };
    }
    assert(ahead.skip(pager.taken() - first).len() == 0);
    Ok((candidates, weights))
}

} // verus!
