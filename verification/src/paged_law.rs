//! A search that is driven in pages, page by page and answer by answer, ends
//! with what a search in one go finds.
use vstd::prelude::*;

use crate::edge_labels::EdgeTypeLabels;
use crate::errors::GraphResult;
use crate::neighbors::{Neighbor, NeighborSource, WeightedNeighborSource};
use crate::node_store::NodeStore;
use crate::path_finder::{path_views, request_labels, unweighted_path, UnweightedPathRequest};
use crate::path_machine::{
    all_pass, candidate_edges, BfsAdjacencyCandidateBatch, BfsAdjacencyVerdict,
};
use crate::path_protocol::{answers, nodes_answered};
use crate::path_world::{followed, query_world};
use crate::relaxation::{final_frontier, lineage};
use crate::resource::GovernorView;
use crate::resumable_bfs::{law_paged_search_is_eager, ResumableSingleDirectionBfs};
use crate::resumable_dijkstra::{
    law_paged_weighted_search_is_eager, weighted_output_bytes, ResumableDijkstra,
};
use crate::resumable_meeting::{law_paged_meeting_is_eager, ResumableBidirectionalBfs};
use crate::types::{PathStep, WeightedPathStep};
use crate::visibility::QueryExecutionContext;
use crate::visibility_law::{lemma_all_nodes_shown, sees_all, visible};
use crate::weighted_page::weighted_query_world;
use crate::weighted_path::{
    lemma_plain_weighted_path, live_weighted_graph, plain_weighted_path, weighted_graph,
    weighted_path, weighted_path_views,
};

verus! {

/// A turn of a driven search: a page is asked for, or answers are taken.
pub enum PathTurn {
    Asked,
    Answered { batch: BfsAdjacencyCandidateBatch, verdicts: Seq<BfsAdjacencyVerdict> },
}

/// Whether answers say what the caller of a query may see: each candidate's
/// node and, of a page of edges, each candidate's relationship.
pub open spec fn answers_truly(
    context: QueryExecutionContext<'_>,
    batch: BfsAdjacencyCandidateBatch,
    verdicts: Seq<BfsAdjacencyVerdict>,
    of_edges: bool,
) -> bool {
    forall|i: int|
        0 <= i < verdicts.len() ==> {
            let verdict = #[trigger] verdicts[i];
            let candidate = batch.candidates@[i];
            &&& verdict.node_visible == context.visibility.shows_node(candidate.target_node)
            &&& of_edges ==> verdict.relationship_visible == (
            context.visibility.relationship_verdict(candidate.edge_type, candidate.relationship_id)
                == Some(true))
        }
}

/// Whether a turn takes a search from the source alone from one state to another.
pub open spec fn single_direction_turn<N: NeighborSource>(
    before: ResumableSingleDirectionBfs,
    after: ResumableSingleDirectionBfs,
    turn: PathTurn,
    node_store: &NodeStore,
    neighbors: &N,
    context: QueryExecutionContext<'_>,
) -> bool {
    match turn {
        PathTurn::Asked => before.asked_on(after, node_store, neighbors, context.edge_type_filter),
        PathTurn::Answered { batch, verdicts } => {
            &&& before.awaits(batch)
            &&& answers(batch, verdicts)
            &&& answers_truly(context, batch, verdicts, before.started())
            &&& before.answered_on(after, node_store, *context.deleted_nodes, batch, verdicts)
        },
    }
}

proof fn lemma_single_direction_stage<N: NeighborSource>(
    stages: Seq<ResumableSingleDirectionBfs>,
    turns: Seq<PathTurn>,
    node_store: &NodeStore,
    neighbors: &N,
    request: UnweightedPathRequest<'_>,
    context: QueryExecutionContext<'_>,
    at: int,
)
    requires
        0 <= at < stages.len(),
        stages.len() == turns.len() + 1,
        stages[0].begins(
            node_store.nodes().len(),
            request.source,
            request.target,
            request.max_depth,
        ),
        forall|i: int|
            0 <= i < turns.len() ==> single_direction_turn(
                stages[i],
                stages[i + 1],
                #[trigger] turns[i],
                node_store,
                neighbors,
                context,
            ),
    ensures
        ({
            let stage = stages[at];
            &&& stage.wf()
            &&& stage.tracks(query_world(node_store, neighbors, context))
            &&& stage.protocol.source == request.source
            &&& stage.protocol.target == request.target
            &&& stage.max_depth == request.max_depth
            &&& stage.protocol.state is NeedVisibility && stage.started() ==> all_pass(
                stage.page.edges@,
                context.edge_type_filter,
            )
        }),
    decreases at,
{
    let world = query_world(node_store, neighbors, context);
    if at > 0 {
        lemma_single_direction_stage(stages, turns, node_store, neighbors, request, context, at - 1);
        let before = stages[at - 1];
        assert(single_direction_turn(before, stages[at], turns[at - 1], node_store, neighbors, context));
        match turns[at - 1] {
            PathTurn::Asked => {
                assert(world.fits(node_store, neighbors, context.edge_type_filter));
            },
            PathTurn::Answered { batch, verdicts } => {
                if before.started() {
                    assert forall|i: int| 0 <= i < verdicts.len() implies followed(
                        node_store,
                        *context.deleted_nodes,
                        batch.candidates@[i],
                        #[trigger] verdicts[i],
                    ) == (world.graph.allows)(batch.candidates@[i].edge()) by {
                        let edge = batch.candidates@[i].edge();
                        assert(candidate_edges(batch.candidates@)[i] == edge);
                        assert(before.page.edges@[i] == edge);
                    }
                } else {
                    assert(nodes_answered(batch, verdicts, world.shows));
                }
            },
        }
    }
}

/// A search from the source alone that is driven in pages, of whatever sizes and
/// with true answers, ends with exactly the path that a search in one go finds.
pub proof fn law_single_direction_run_is_eager<N: NeighborSource>(
    stages: Seq<ResumableSingleDirectionBfs>,
    turns: Seq<PathTurn>,
    node_store: &NodeStore,
    neighbors: &N,
    request: UnweightedPathRequest<'_>,
    context: QueryExecutionContext<'_>,
    result: GraphResult<Option<Vec<PathStep>>>,
)
    requires
        request.has_unidirectional_edges,
        stages.len() == turns.len() + 1,
        stages[0].begins(
            node_store.nodes().len(),
            request.source,
            request.target,
            request.max_depth,
        ),
        forall|i: int|
            0 <= i < turns.len() ==> single_direction_turn(
                stages[i],
                stages[i + 1],
                #[trigger] turns[i],
                node_store,
                neighbors,
                context,
            ),
        stages.last().protocol.state is Complete,
        stages.last().finished(node_store, request_labels(request), result),
    ensures
        result is Ok,
        path_views(result->Ok_0) == unweighted_path(node_store, neighbors, request, context),
{
    let last = stages.len() - 1;
    lemma_single_direction_stage(stages, turns, node_store, neighbors, request, context, last);
    assert(stages[last].tracks(query_world(node_store, neighbors, context)));
    law_paged_search_is_eager(node_store, neighbors, request, context);
}

/// Whether a turn takes a search from both ends from one state to another.
pub open spec fn bidirectional_turn<N: NeighborSource>(
    before: ResumableBidirectionalBfs,
    after: ResumableBidirectionalBfs,
    turn: PathTurn,
    node_store: &NodeStore,
    neighbors: &N,
    context: QueryExecutionContext<'_>,
) -> bool {
    match turn {
        PathTurn::Asked => before.asked_on(after, node_store, neighbors, context.edge_type_filter),
        PathTurn::Answered { batch, verdicts } => {
            &&& before.awaits(batch)
            &&& answers(batch, verdicts)
            &&& answers_truly(context, batch, verdicts, before.started())
            &&& before.answered_on(after, node_store, *context.deleted_nodes, batch, verdicts)
        },
    }
}

proof fn lemma_bidirectional_stage<N: NeighborSource>(
    stages: Seq<ResumableBidirectionalBfs>,
    turns: Seq<PathTurn>,
    node_store: &NodeStore,
    neighbors: &N,
    request: UnweightedPathRequest<'_>,
    context: QueryExecutionContext<'_>,
    at: int,
)
    requires
        0 <= at < stages.len(),
        stages.len() == turns.len() + 1,
        stages[0].begins(
            node_store.nodes().len(),
            request.source,
            request.target,
            request.max_depth,
        ),
        forall|i: int|
            0 <= i < turns.len() ==> bidirectional_turn(
                stages[i],
                stages[i + 1],
                #[trigger] turns[i],
                node_store,
                neighbors,
                context,
            ),
    ensures
        ({
            let stage = stages[at];
            &&& stage.wf()
            &&& stage.tracks(query_world(node_store, neighbors, context))
            &&& stage.protocol.source == request.source
            &&& stage.protocol.target == request.target
            &&& stage.max_depth == request.max_depth
            &&& stage.protocol.state is NeedVisibility && stage.started() ==> all_pass(
                stage.page.edges@,
                context.edge_type_filter,
            )
        }),
    decreases at,
{
    let world = query_world(node_store, neighbors, context);
    if at > 0 {
        lemma_bidirectional_stage(stages, turns, node_store, neighbors, request, context, at - 1);
        let before = stages[at - 1];
        assert(bidirectional_turn(before, stages[at], turns[at - 1], node_store, neighbors, context));
        match turns[at - 1] {
            PathTurn::Asked => {
                assert(world.fits(node_store, neighbors, context.edge_type_filter));
            },
            PathTurn::Answered { batch, verdicts } => {
                if before.started() {
                    assert forall|i: int| 0 <= i < verdicts.len() implies followed(
                        node_store,
                        *context.deleted_nodes,
                        batch.candidates@[i],
                        #[trigger] verdicts[i],
                    ) == (world.graph.allows)(batch.candidates@[i].edge()) by {
                        let edge = batch.candidates@[i].edge();
                        assert(candidate_edges(batch.candidates@)[i] == edge);
                        assert(before.page.edges@[i] == edge);
                    }
                } else {
                    assert(nodes_answered(batch, verdicts, world.shows));
                }
            },
        }
    }
}

/// A search from both ends that is driven in pages, of whatever sizes and with
/// true answers, ends with exactly the path that a search in one go finds.
pub proof fn law_bidirectional_run_is_eager<N: NeighborSource>(
    stages: Seq<ResumableBidirectionalBfs>,
    turns: Seq<PathTurn>,
    node_store: &NodeStore,
    neighbors: &N,
    request: UnweightedPathRequest<'_>,
    context: QueryExecutionContext<'_>,
    result: GraphResult<Option<Vec<PathStep>>>,
)
    requires
        !request.has_unidirectional_edges,
        stages.len() == turns.len() + 1,
        stages[0].begins(
            node_store.nodes().len(),
            request.source,
            request.target,
            request.max_depth,
        ),
        forall|i: int|
            0 <= i < turns.len() ==> bidirectional_turn(
                stages[i],
                stages[i + 1],
                #[trigger] turns[i],
                node_store,
                neighbors,
                context,
            ),
        stages.last().protocol.state is Complete,
        stages.last().finished(node_store, request_labels(request), result),
    ensures
        result is Ok,
        path_views(result->Ok_0) == unweighted_path(node_store, neighbors, request, context),
{
    let last = stages.len() - 1;
    lemma_bidirectional_stage(stages, turns, node_store, neighbors, request, context, last);
    assert(stages[last].tracks(query_world(node_store, neighbors, context)));
    law_paged_meeting_is_eager(node_store, neighbors, request, context);
}

/// Whether a turn takes a weighted search from one state to another.
pub open spec fn weighted_turn<W: WeightedNeighborSource>(
    before: ResumableDijkstra,
    after: ResumableDijkstra,
    turn: PathTurn,
    node_store: &NodeStore,
    neighbors: &W,
    context: QueryExecutionContext<'_>,
) -> bool {
    match turn {
        PathTurn::Asked => before.asked_on(after, node_store, neighbors, context.edge_type_filter),
        PathTurn::Answered { batch, verdicts } => {
            &&& before.awaits(batch)
            &&& answers(batch, verdicts)
            &&& answers_truly(context, batch, verdicts, before.started())
            &&& before.answered_on(after, node_store, *context.deleted_nodes, batch, verdicts)
        },
    }
}

proof fn lemma_weighted_stage<W: WeightedNeighborSource>(
    stages: Seq<ResumableDijkstra>,
    turns: Seq<PathTurn>,
    node_store: &NodeStore,
    neighbors: &W,
    source: u32,
    target: u32,
    labels: EdgeTypeLabels<'_>,
    context: QueryExecutionContext<'_>,
    at: int,
)
    requires
        0 <= at < stages.len(),
        stages.len() == turns.len() + 1,
        neighbors.weighted(),
        source < node_store.nodes().len(),
        target < node_store.nodes().len(),
        stages[0].begins(node_store.nodes().len(), source, target),
        forall|i: int|
            0 <= i < turns.len() ==> weighted_turn(
                stages[i],
                stages[i + 1],
                #[trigger] turns[i],
                node_store,
                neighbors,
                context,
            ),
    ensures
        ({
            let stage = stages[at];
            &&& stage.wf()
            &&& stage.tracks(weighted_query_world(node_store, neighbors, context))
            &&& stage.protocol.source == source
            &&& stage.protocol.target == target
            &&& stage.protocol.state is NeedVisibility && stage.started() ==> all_pass(
                stage.page.edges@,
                context.edge_type_filter,
            )
        }),
    decreases at,
{
    let world = weighted_query_world(node_store, neighbors, context);
    law_paged_weighted_search_is_eager(node_store, neighbors, source, target, labels, context);
    if at > 0 {
        lemma_weighted_stage(
            stages,
            turns,
            node_store,
            neighbors,
            source,
            target,
            labels,
            context,
            at - 1,
        );
        let before = stages[at - 1];
        assert(weighted_turn(before, stages[at], turns[at - 1], node_store, neighbors, context));
        match turns[at - 1] {
            PathTurn::Asked => {},
            PathTurn::Answered { batch, verdicts } => {
                if before.started() {
                    assert forall|i: int| 0 <= i < verdicts.len() implies followed(
                        node_store,
                        *context.deleted_nodes,
                        batch.candidates@[i],
                        #[trigger] verdicts[i],
                    ) == (world.graph.allows)(before.asked@[i]) by {
                        let edge = batch.candidates@[i].edge();
                        assert(candidate_edges(batch.candidates@)[i] == edge);
                        assert(before.page.edges@[i] == edge);
                        assert(before.asked@[i].unweighted() == edge);
                    }
                } else {
                    assert(nodes_answered(batch, verdicts, world.shows));
                }
            },
        }
    }
}

/// A weighted search that is driven in pages, of whatever sizes and with true
/// answers, ends with exactly the path that a search in one go finds, unless
/// there is no room for the path.
pub proof fn law_weighted_run_is_eager<W: WeightedNeighborSource>(
    stages: Seq<ResumableDijkstra>,
    turns: Seq<PathTurn>,
    node_store: &NodeStore,
    neighbors: &W,
    source: u32,
    target: u32,
    labels: EdgeTypeLabels<'_>,
    context: QueryExecutionContext<'_>,
    spare: GovernorView,
    left: GovernorView,
    result: GraphResult<Option<Vec<WeightedPathStep>>>,
)
    requires
        stages.len() == turns.len() + 1,
        neighbors.weighted(),
        source < node_store.nodes().len(),
        target < node_store.nodes().len(),
        stages[0].begins(node_store.nodes().len(), source, target),
        forall|i: int|
            0 <= i < turns.len() ==> weighted_turn(
                stages[i],
                stages[i + 1],
                #[trigger] turns[i],
                node_store,
                neighbors,
                context,
            ),
        stages.last().protocol.state is Complete,
        stages.last().finished(node_store, labels, spare, left, result),
    ensures
        ({
            let path = weighted_path(node_store, neighbors, source, target, labels, context);
            let graph = weighted_graph(node_store, neighbors, context);
            let end = final_frontier(graph, node_store.nodes().len(), source, target);
            let line = lineage(end, source, target);
            let bytes = weighted_output_bytes(
                node_store.nodes(),
                end.parent,
                line,
                source,
                labels,
            );
            &&& result is Ok ==> weighted_path_views(result->Ok_0) == path
            &&& result is Ok <==> path is None || (line.len() <= i32::MAX && bytes <= u64::MAX
                && spare.admits_memory(bytes as int))
        }),
{
    let last = stages.len() - 1;
    lemma_weighted_stage(
        stages,
        turns,
        node_store,
        neighbors,
        source,
        target,
        labels,
        context,
        last,
    );
    assert(stages[last].tracks(weighted_query_world(node_store, neighbors, context)));
    law_paged_weighted_search_is_eager(node_store, neighbors, source, target, labels, context);
}

/// A weighted search that is driven in pages, of whatever sizes, where every
/// answer is that the edge may be seen, ends with exactly the path of the plain
/// graph: the one that a search without any restriction finds, ties and all. It
/// ends with an error only where there is no room for the path.
pub proof fn law_open_weighted_run_is_plain<W: WeightedNeighborSource>(
    stages: Seq<ResumableDijkstra>,
    turns: Seq<PathTurn>,
    node_store: &NodeStore,
    neighbors: &W,
    source: u32,
    target: u32,
    labels: EdgeTypeLabels<'_>,
    context: QueryExecutionContext<'_>,
    spare: GovernorView,
    left: GovernorView,
    result: GraphResult<Option<Vec<WeightedPathStep>>>,
)
    requires
        stages.len() == turns.len() + 1,
        neighbors.weighted(),
        source < node_store.nodes().len(),
        target < node_store.nodes().len(),
        stages[0].begins(node_store.nodes().len(), source, target),
        forall|i: int|
            0 <= i < turns.len() ==> weighted_turn(
                stages[i],
                stages[i + 1],
                #[trigger] turns[i],
                node_store,
                neighbors,
                context,
            ),
        stages.last().protocol.state is Complete,
        stages.last().finished(node_store, labels, spare, left, result),
        sees_all(*context.visibility),
        context.edge_type_filter is None,
        forall|node: u32| !#[trigger] context.deletes(node),
    ensures
        ({
            let path = plain_weighted_path(node_store, neighbors, source, target, labels);
            let graph = live_weighted_graph(node_store, neighbors);
            let end = final_frontier(graph, node_store.nodes().len(), source, target);
            let line = lineage(end, source, target);
            let bytes = weighted_output_bytes(
                node_store.nodes(),
                end.parent,
                line,
                source,
                labels,
            );
            &&& result is Ok ==> weighted_path_views(result->Ok_0) == path
            &&& result is Ok <==> path is None || (line.len() <= i32::MAX && bytes <= u64::MAX
                && spare.admits_memory(bytes as int))
        }),
{
    assert forall|edge: Neighbor| #[trigger] context.shows_edge(edge) by {
        assert(visible(*context.visibility, edge));
    }
    assert forall|node: u32| #[trigger] context.visibility.shows_node(node) by {
        lemma_all_nodes_shown(*context.visibility, node);
    }
    law_weighted_run_is_eager(
        stages,
        turns,
        node_store,
        neighbors,
        source,
        target,
        labels,
        context,
        spare,
        left,
        result,
    );
    lemma_plain_weighted_path(node_store, neighbors, source, target, labels, context);
    let g = weighted_graph(node_store, neighbors, context);
    let plain = live_weighted_graph(node_store, neighbors);
    assert(g.adjacency =~= plain.adjacency);
    assert(g.allows =~= plain.allows);
}

} // verus!
