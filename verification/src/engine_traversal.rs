//! Traversal of the engine's graph: the base or the durable projection, under
//! buffered mutations and the running transaction's own changes.
use roaring::RoaringBitmap;
use vstd::prelude::*;
use vstd::string::StringExecFns;
use vstd::utf8::encode_utf8;

use crate::bitmap::bitmap_contents;
use crate::edge_labels::EdgeTypeLabels;
use crate::edge_store::EdgeStore;
use crate::engine::Engine;
use crate::engine_nodes::resolved;
use crate::engine_paths::{fresh_budget, node_not_found, registered_label};
use crate::errors::{internal, invalid_filter, ErrorView, GraphError, GraphResult};
use crate::filter_index::filter_holds;
use crate::filter_value::FilterOp;
use crate::membership::members;
use crate::neighbors::{strip_weights, Neighbor, NeighborSource};
use crate::node_store::longest_key;
use crate::overlay::{EdgeOverlay, OverlayNeighbors, TxDelta};
use crate::resource::{
    charged, limit_error, GovernorView, ResourceGovernor, ResourceKind, ResourceLimits,
    ResourcePhase,
};
use crate::scan_edges::{label_id, label_views};
use crate::search::{
    bounded, discovered, is_walk, trail, trail_follows, walk_between, SearchGraph, Visit,
};
use crate::traversal::{
    execute_traversal, law_breadth_first_lists_reachable, law_traversal_follows_walks,
    to_traversal_results, traversal, traversal_rows, traversal_work, unlimited, visit_views,
    EdgeTypeFilter, TraversalLimits, TraversalScope, TraversalVisit,
};
use crate::types::{
    traversal_views, EdgeTypeId, PathCoordinate, TraversalDirection, TraversalResult,
    TraversalResultView, TraversalStrategy,
};

verus! {

/// Bytes that a traversal reserves for each node it may list.
pub const VISIT_BYTES: u64 = 64;

/// Bytes that a traversal reserves for each node that may wait.
pub const PENDING_BYTES: u64 = 16;

/// The lesser of two counts.
pub open spec fn lesser(left: nat, right: nat) -> nat {
    if left <= right {
        left
    } else {
        right
    }
}

/// Bytes of the workspace of a traversal.
pub open spec fn traversal_workspace(nodes: nat, limits: TraversalLimits) -> nat {
    64 * lesser(nodes, limits.max_nodes as nat) + 16 * lesser(nodes, limits.max_frontier as nat)
}

/// Bytes of the workspace of a traversal.
pub fn estimated_workspace_bytes(node_count: u32, limits: TraversalLimits) -> (bytes: u64)
    ensures
        bytes == traversal_workspace(node_count as nat, limits),
{
    let listed: u32 = if node_count <= limits.max_nodes {
        node_count
    } else {
        limits.max_nodes
    };
    let waiting: u32 = if node_count <= limits.max_frontier {
        node_count
    } else {
        limits.max_frontier
    };
    listed as u64 * VISIT_BYTES + waiting as u64 * PENDING_BYTES
}

/// The error for an edge type that is not registered.
pub open spec fn unknown_type(label: Seq<char>) -> ErrorView {
    ErrorView::InvalidFilter("unknown edge type '"@ + label + "'"@)
}

/// The first label that is not registered.
pub open spec fn first_unknown(registry: Seq<Seq<char>>, labels: Seq<Seq<char>>) -> Option<Seq<char>>
    decreases labels.len(),
{
    if labels.len() == 0 {
        None
    } else if first_unknown(registry, labels.drop_last()) is Some {
        first_unknown(registry, labels.drop_last())
    } else if !registry.contains(labels.last()) {
        Some(labels.last())
    } else {
        None
    }
}

/// The labels that a request names, if it names any.
pub open spec fn requested_labels(edge_types: Option<Vec<String>>) -> Option<Seq<Seq<char>>> {
    match edge_types {
        Some(labels) => Some(label_views(labels@)),
        None => None,
    }
}

/// Whether a request wants edges of a type.
pub open spec fn wants_type(
    registry: Seq<Seq<char>>,
    requested: Option<Seq<Seq<char>>>,
    type_id: EdgeTypeId,
) -> bool {
    match requested {
        None => true,
        Some(labels) => exists|i: int|
            0 <= i < labels.len() && type_id.0 == label_id(registry, #[trigger] labels[i]) % 256,
    }
}

/// Whether one of the first labels has a number.
spec fn number_wanted(
    registry: Seq<Seq<char>>,
    labels: Seq<Seq<char>>,
    count: int,
    type_id: u32,
) -> bool {
    exists|i: int|
        0 <= i < count && type_id == label_id(registry, #[trigger] labels[i]) % 256
}

/// Bytes of the longest text.
pub open spec fn longest_text(texts: Seq<Seq<char>>) -> nat
    decreases texts.len(),
{
    if texts.len() == 0 {
        0
    } else {
        let rest = longest_text(texts.drop_last());
        let own = encode_utf8(texts.last()).len();
        if own > rest {
            own
        } else {
            rest
        }
    }
}

/// Nodes that a path of at most some depth has.
pub open spec fn path_width(max_depth: int) -> int {
    if max_depth < 0 {
        1
    } else {
        max_depth + 1
    }
}

/// Bytes that a node on a path takes at most.
pub open spec fn coordinate_bytes(key: nat, label: nat) -> nat {
    lesser(
        vstd::layout::size_of::<PathCoordinate>() + key + vstd::layout::size_of::<String>() + label,
        u64::MAX as nat,
    )
}

/// Bytes that a row takes at most.
pub open spec fn row_bytes(max_depth: int, key: nat, label: nat) -> int {
    vstd::layout::size_of::<TraversalResult>() + key + path_width(max_depth) * coordinate_bytes(
        key,
        label,
    )
}

impl Engine {
    /// The edge types that a request wants.
    pub fn edge_type_filter(&self, edge_types: &Option<Vec<String>>) -> (result: GraphResult<
        EdgeTypeFilter,
    >)
        ensures
            ({
                let registry = label_views(self.edge_type_registry@);
                let requested = requested_labels(*edge_types);
                match result {
                    Ok(filter) => {
                        &&& requested matches Some(labels) ==> first_unknown(registry, labels) is None
                        &&& forall|type_id: EdgeTypeId| #[trigger]
                            filter.passes(type_id) == wants_type(registry, requested, type_id)
                    },
                    Err(error) => requested is Some && (match first_unknown(
                        registry,
                        requested->Some_0,
                    ) {
                        Some(label) => error@ == unknown_type(label),
                        None => false,
                    }),
                }
            }),
    {
        let labels: &Vec<String> = match edge_types {
            None => return Ok(EdgeTypeFilter::All),
            Some(labels) => labels,
        };
        let ghost registry = label_views(self.edge_type_registry@);
        let ghost wanted = label_views(labels@);
        let mut types = RoaringBitmap::new();
        let mut at: usize = 0;
        proof {
            assert(wanted.take(0) =~= Seq::<Seq<char>>::empty());
        }
        while at < labels.len()
            invariant
                at <= labels@.len(),
                    registry == label_views(self.edge_type_registry@),
                wanted == label_views(labels@),
                requested_labels(*edge_types) == Some(wanted),
                first_unknown(registry, wanted.take(at as int)) is None,
                forall|type_id: u32| #[trigger]
                    bitmap_contents(types).contains(type_id) <==> number_wanted(
                        registry,
                        wanted,
                        at as int,
                        type_id,
                    ),
            decreases labels@.len() - at,
        {
            proof {
                assert(wanted.take(at + 1).drop_last() =~= wanted.take(at as int));
                assert(wanted.take(at + 1).last() == labels@[at as int]@);
            }
            match self.edge_type_id(labels[at].as_str()) {
                Some(id) => {
                    let ghost before = bitmap_contents(types);
                    types.insert(id as u32);
                    proof {
                        let number = label_id(registry, wanted[at as int]) % 256;
                        assert(id as u32 == number);
                        assert forall|type_id: u32| #[trigger]
                            bitmap_contents(types).contains(type_id) <==> number_wanted(
                                registry,
                                wanted,
                                at + 1,
                                type_id,
                            ) by {
                            if before.contains(type_id) {
                                let i = choose|i: int|
                                    0 <= i < at && type_id == label_id(
                                        registry,
                                        #[trigger] wanted[i],
                                    ) % 256;
                                assert(0 <= i < at + 1);
                            }
                            if number_wanted(registry, wanted, at + 1, type_id) {
                                let i = choose|i: int|
                                    0 <= i < at + 1 && type_id == label_id(
                                        registry,
                                        #[trigger] wanted[i],
                                    ) % 256;
                                if i < at {
                                    assert(number_wanted(registry, wanted, at as int, type_id));
                                }
                            }
                        }
                    }
                },
                None => {
                    proof {
                        assert(first_unknown(registry, wanted.take(at + 1)) == Some(
                            labels@[at as int]@,
                        ));
                        lemma_first_unknown(registry, wanted, at + 1);
                    }
                    let reason: String = "unknown edge type '".to_owned().concat(
                        labels[at].as_str(),
                    ).concat("'");
                    assert(reason@ =~= "unknown edge type '"@ + labels@[at as int]@ + "'"@);
                    return Err(GraphError::InvalidFilter { reason });
                },
            }
            at = at + 1;
        }
        assert(wanted.take(labels@.len() as int) =~= wanted);
        if labels.len() == 0 {
            return Ok(EdgeTypeFilter::NoneMatched);
        }
        Ok(EdgeTypeFilter::Only(types))
    }
}

impl Engine {
    /// Bytes that the rows of a traversal take at most, if they can be told.
    pub open spec fn output_bytes(&self, rows: nat, max_depth: int) -> Option<int> {
        let each = row_bytes(
            max_depth,
            longest_key(self.node_store.nodes()),
            longest_text(label_views(self.edge_type_registry@)),
        );
        if each > u64::MAX || rows * each > u64::MAX {
            None
        } else {
            Some(rows * each)
        }
    }

    /// Bytes of the longest registered label.
    fn longest_label(&self) -> (longest: usize)
        ensures
            longest == longest_text(label_views(self.edge_type_registry@)),
    {
        let ghost labels = label_views(self.edge_type_registry@);
        let mut longest: usize = 0;
        let mut at: usize = 0;
        proof {
            assert(labels.take(0) =~= Seq::<Seq<char>>::empty());
        }
        while at < self.edge_type_registry.len()
            invariant
                at <= self.edge_type_registry@.len(),
                labels == label_views(self.edge_type_registry@),
                longest == longest_text(labels.take(at as int)),
            decreases self.edge_type_registry@.len() - at,
        {
            let length: usize = self.edge_type_registry[at].as_str().as_bytes().len();
            proof {
                assert(labels.take(at + 1).drop_last() =~= labels.take(at as int));
                assert(labels.take(at + 1).last() == self.edge_type_registry@[at as int]@);
            }
            if length > longest {
                longest = length;
            }
            at = at + 1;
        }
        assert(labels.take(self.edge_type_registry@.len() as int) =~= labels);
        longest
    }

    /// Bytes that the rows of a traversal take at most.
    pub fn traversal_result_upper_bound(&self, rows: usize, max_depth: i32) -> (result: GraphResult<
        u64,
    >)
        requires
            self.wf(),
        ensures
            match result {
                Ok(bytes) => self.output_bytes(rows as nat, max_depth as int) == Some(bytes as int),
                Err(error) => self.output_bytes(rows as nat, max_depth as int) is None && error@
                    == ErrorView::Internal("traversal result estimate overflowed"@),
            },
    {
        let key: u128 = self.node_store.max_primary_key_bytes() as u128;
        let label: u128 = self.longest_label() as u128;
        let width: u128 = if max_depth < 0 {
            1
        } else {
            max_depth as u128 + 1
        };
        let total: u128 = core::mem::size_of::<PathCoordinate>() as u128 + key
            + core::mem::size_of::<String>() as u128 + label;
        let coordinate: u128 = if total <= u64::MAX as u128 {
            total
        } else {
            u64::MAX as u128
        };
        assert(width * coordinate <= 0x8000_0000 * 0xffff_ffff_ffff_ffff) by (nonlinear_arith)
            requires
                width <= 0x8000_0000,
                coordinate <= 0xffff_ffff_ffff_ffff,
        ;
        let each: u128 = core::mem::size_of::<TraversalResult>() as u128 + key + width * coordinate;
        if each > u64::MAX as u128 {
            return Err(internal("traversal result estimate overflowed"));
        }
        assert(rows * each <= 0xffff_ffff_ffff_ffff * 0xffff_ffff_ffff_ffff) by (nonlinear_arith)
            requires
                rows <= 0xffff_ffff_ffff_ffff,
                each <= 0xffff_ffff_ffff_ffff,
        ;
        let bytes: u128 = rows as u128 * each;
        if bytes > u64::MAX as u128 {
            return Err(internal("traversal result estimate overflowed"));
        }
        Ok(bytes as u64)
    }

    /// Whether a traversal can list a node: it is live, shown to the tenant,
    /// and satisfies every filter.
    pub open spec fn traversal_shows(
        &self,
        delta: TxDelta,
        filter_ops: Seq<FilterOp>,
        tenant: Option<Seq<char>>,
        node: u32,
    ) -> bool {
        &&& self.node_store.live(node)
        &&& !bitmap_contents(delta.deleted_nodes).contains(node)
        &&& tenant matches Some(name) ==> !bitmap_contents(self.tenanted_table_oids).contains(
            self.node_store.nodes()[node as int].table_oid,
        ) || members(self.tenant_membership@, name).contains(node)
        &&& forall|i: int|
            0 <= i < filter_ops.len() ==> filter_holds(
                self.filter_index,
                node,
                #[trigger] filter_ops[i],
                None,
            )
    }

    /// The graph that a request traverses.
    pub open spec fn traversal_graph(
        &self,
        delta: TxDelta,
        direction: TraversalDirection,
        edge_types: Option<Seq<Seq<char>>>,
        filter_ops: Seq<FilterOp>,
        tenant: Option<Seq<char>>,
    ) -> SearchGraph {
        SearchGraph {
            adjacency: |node: u32| strip_weights(self.current_row(delta, direction, node)),
            allows: |edge: Neighbor|
                wants_type(label_views(self.edge_type_registry@), edge_types, edge.type_id)
                    && self.traversal_shows(delta, filter_ops, tenant, edge.target),
        }
    }
}

/// What is asked of a traversal.
#[verifier::ext_equal]
pub struct TraversalRequest {
    pub seed_table_oid: u32,
    pub seed_id: Seq<char>,
    pub limits: TraversalLimits,
    /// Labels of the edges to follow; all are followed where there is no list.
    pub edge_types: Option<Seq<Seq<char>>>,
    pub filter_ops: Seq<FilterOp>,
    pub tenant: Option<Seq<char>>,
    pub strategy: TraversalStrategy,
    pub direction: TraversalDirection,
}

/// The text of an optional name.
pub open spec fn name_text(name: Option<&str>) -> Option<Seq<char>> {
    match name {
        Some(text) => Some(text@),
        None => None,
    }
}

/// Why the rows of a traversal, of these bytes and this much work, cannot be
/// handed out.
pub open spec fn output_refusal(
    governor: GovernorView,
    bytes: Option<int>,
    work: int,
) -> Option<ErrorView> {
    if bytes is None {
        Some(ErrorView::Internal("traversal result estimate overflowed"@))
    } else if work > u64::MAX {
        Some(ErrorView::Internal("traversal output work overflowed"@))
    } else if !governor.admits_work(work) {
        Some(limit_error(ResourcePhase::QueryCandidates, ResourceKind::Work))
    } else if !governor.admits_memory(bytes->Some_0) {
        Some(limit_error(ResourcePhase::QueryCandidates, ResourceKind::Memory))
    } else {
        None
    }
}

impl Engine {
    /// The nodes that a request lists from a node, in order.
    pub open spec fn traversal_order(
        &self,
        request: TraversalRequest,
        delta: TxDelta,
        seed: u32,
    ) -> Seq<Visit> {
        traversal(
            self.traversal_graph(
                delta,
                request.direction,
                request.edge_types,
                request.filter_ops,
                request.tenant,
            ),
            request.strategy,
            request.limits,
            seed,
        )
    }

    /// How many edges are looked at for a request.
    pub open spec fn traversal_edges(
        &self,
        request: TraversalRequest,
        delta: TxDelta,
        seed: u32,
    ) -> nat {
        traversal_work(
            self.traversal_graph(
                delta,
                request.direction,
                request.edge_types,
                request.filter_ops,
                request.tenant,
            ),
            request.strategy,
            request.limits,
            seed,
        )
    }

    /// What a traversal answers, and what it leaves of a budget. The first
    /// refusal decides; a traversal that starts lists its nodes, or runs into
    /// a limit.
    pub open spec fn traversal_answer(
        &self,
        request: TraversalRequest,
        delta: TxDelta,
        before: GovernorView,
        after: GovernorView,
        answer: Result<Seq<TraversalResultView>, ErrorView>,
    ) -> bool {
        let deleted = bitmap_contents(delta.deleted_nodes);
        let seed = resolved(*self, request.seed_table_oid, request.seed_id, deleted);
        let labels = request.edge_types;
        let unknown = first_unknown(label_views(self.edge_type_registry@), labels->Some_0);
        let workspace = traversal_workspace(self.node_store.nodes().len(), request.limits) as int;
        let refusal = self.search_refusal(
            delta,
            before,
            workspace,
            ResourcePhase::QueryFrontier,
            ResourcePhase::QueryExpand,
        );
        if !self.built {
            answer == Err::<Seq<TraversalResultView>, ErrorView>(ErrorView::NotBuilt) && after
                == before
        } else if seed is None {
            answer == Err::<Seq<TraversalResultView>, ErrorView>(
                node_not_found(request.seed_table_oid, request.seed_id),
            ) && after == before
        } else if labels is Some && unknown is Some {
            answer == Err::<Seq<TraversalResultView>, ErrorView>(unknown_type(unknown->Some_0))
                && after == before
        } else if refusal is Some {
            answer == Err::<Seq<TraversalResultView>, ErrorView>(refusal->Some_0) && after
                == before
        } else {
            let order = self.traversal_order(request, delta, seed->Some_0);
            let depth = request.limits.max_depth as int;
            let bytes = self.output_bytes(order.len(), depth);
            let held = before.after_memory(workspace).after_memory(self.overlay_bytes(delta) as int);
            let work = self.traversal_edges(request, delta, seed->Some_0) as int;
            let listing = order.len() * path_width(depth);
            let limit = output_refusal(held.after_work(work), bytes, listing as int);
            if !before.affords(work) {
                &&& answer == Err::<Seq<TraversalResultView>, ErrorView>(
                    limit_error(ResourcePhase::QueryExpand, ResourceKind::Work),
                )
                &&& charged(before, after, work)
            } else if limit is Some {
                &&& answer == Err::<Seq<TraversalResultView>, ErrorView>(limit->Some_0)
                &&& charged(before, after, work + listing)
            } else {
                &&& answer == Ok::<Seq<TraversalResultView>, ErrorView>(
                    traversal_rows(
                        self.node_store.nodes(),
                        order,
                        |type_id: EdgeTypeId| registered_label(self.edge_type_registry@, type_id),
                    ),
                )
                &&& after == before.after_memory(bytes->Some_0).after_work(work + listing)
            }
        }
    }

    /// The rows that are followed in a direction, of a graph that can be
    /// searched.
    fn directed_store(&self, direction: TraversalDirection) -> (store: &EdgeStore)
        requires
            self.reads_segments() ==> self.projection_snapshot is Some,
        ensures
            forall|node: u32| #[trigger]
                store.row(node) == match direction {
                    TraversalDirection::In => self.base_inbound_row(node),
                    _ => self.base_row(node),
                },
    {
        match self.layered_snapshot() {
            Ok(Some(snapshot)) => match direction {
                TraversalDirection::In => &snapshot.reverse,
                _ => &snapshot.forward,
            },
            _ => match direction {
                TraversalDirection::In => &self.reverse_edge_store,
                _ => &self.edge_store,
            },
        }
    }

    /// Lists nodes, once everything that a traversal needs is at hand.
    fn run_traversal(
        &self,
        seed: u32,
        filter: &EdgeTypeFilter,
        filter_ops: &Vec<FilterOp>,
        tenant: Option<&str>,
        strategy: TraversalStrategy,
        direction: TraversalDirection,
        limits: TraversalLimits,
        delta: &TxDelta,
        Ghost(edge_types): Ghost<Option<Seq<Seq<char>>>>,
        governor: &mut ResourceGovernor,
    ) -> (result: GraphResult<Vec<TraversalVisit>>)
        requires
            self.wf(),
            seed < self.node_store.nodes().len(),
            self.reads_segments() ==> self.projection_snapshot is Some,
            forall|type_id: EdgeTypeId| #[trigger]
                filter.passes(type_id) == wants_type(
                    label_views(self.edge_type_registry@),
                    edge_types,
                    type_id,
                ),
        ensures
            ({
                let g = self.traversal_graph(
                    *delta,
                    direction,
                    edge_types,
                    filter_ops@,
                    name_text(tenant),
                );
                let work = traversal_work(g, strategy, limits, seed) as int;
                &&& charged(old(governor)@, final(governor)@, work)
                &&& match result {
                    Ok(visits) => {
                        &&& visit_views(visits@) == traversal(g, strategy, limits, seed)
                        &&& forall|i: int|
                            0 <= i < visits@.len() ==> (#[trigger] visits@[i]).node
                                < self.node_store.nodes().len()
                        &&& old(governor)@.affords(work)
                        &&& final(governor)@ == old(governor)@.after_work(work)
                    },
                    Err(error) => {
                        &&& error@ == limit_error(ResourcePhase::QueryExpand, ResourceKind::Work)
                        &&& !old(governor)@.affords(work)
                    },
                }
            }),
    {
        let base: &EdgeStore = self.directed_store(direction);
        let overlay: EdgeOverlay = self.traversal_edge_overlay(direction, delta);
        let neighbors = OverlayNeighbors::new(base, &overlay);
        let scope = TraversalScope {
            filter_index: &self.filter_index,
            edge_types: filter,
            filter_ops: filter_ops.as_slice(),
            tenant,
            tenanted_table_oids: &self.tenanted_table_oids,
            tenant_membership: &self.tenant_membership,
            deleted_nodes: &delta.deleted_nodes,
        };
        proof {
            let g = scope.graph(&self.node_store, &neighbors);
            let own = self.traversal_graph(
                *delta,
                direction,
                edge_types,
                filter_ops@,
                name_text(tenant),
            );
            assert forall|node: u32| #[trigger] (g.adjacency)(node) == (own.adjacency)(node) by {
                let row = base.row(node);
            }
            assert(g.adjacency =~= own.adjacency);
            assert forall|edge: Neighbor| #[trigger] (g.allows)(edge) == (own.allows)(edge) by {
                assert(filter.passes(edge.type_id) == wants_type(
                    label_views(self.edge_type_registry@),
                    edge_types,
                    edge.type_id,
                ));
                assert(scope.filter_ops@ == filter_ops@);
                assert(scope.tenant_sees(&self.node_store, edge.target) == (name_text(tenant)
                    matches Some(name) ==> !bitmap_contents(self.tenanted_table_oids).contains(
                    self.node_store.nodes()[edge.target as int].table_oid,
                ) || members(self.tenant_membership@, name).contains(edge.target)));
                assert(scope.shows(&self.node_store, edge.target) == self.traversal_shows(
                    *delta,
                    filter_ops@,
                    name_text(tenant),
                    edge.target,
                ));
            }
            assert(g.allows =~= own.allows);
        }
        execute_traversal(
            &self.node_store,
            &neighbors,
            &scope,
            seed,
            strategy,
            limits,
            governor,
        )
    }

    /// Charges for the rows of a traversal, and keeps their bytes reserved.
    fn charge_output(
        &self,
        rows: usize,
        max_depth: i32,
        governor: &mut ResourceGovernor,
    ) -> (result: GraphResult<u64>)
        requires
            self.wf(),
        ensures
            ({
                let bytes = self.output_bytes(rows as nat, max_depth as int);
                let work = rows * path_width(max_depth as int);
                let refusal = output_refusal(old(governor)@, bytes, work);
                match result {
                    Ok(count) => {
                        &&& refusal is None
                        &&& bytes == Some(count as int)
                        &&& final(governor)@ == old(governor)@.after_work(work).after_memory(
                            count as int,
                        )
                    },
                    Err(error) => {
                        &&& refusal == Some(error@)
                        &&& charged(old(governor)@, final(governor)@, work)
                    },
                }
            }),
    {
        let bytes: u64 = match self.traversal_result_upper_bound(rows, max_depth) {
            Ok(bytes) => bytes,
            Err(error) => return Err(error),
        };
        let width: u64 = if max_depth < 0 {
            1
        } else {
            max_depth as u64 + 1
        };
        let work: u64 = match (rows as u64).checked_mul(width) {
            Some(work) => work,
            None => return Err(internal("traversal output work overflowed")),
        };
        if let Err(error) = governor.consume_work(ResourcePhase::QueryCandidates, work) {
            return Err(error);
        }
        if let Err(error) = governor.reserve_memory(ResourcePhase::QueryCandidates, bytes) {
            return Err(error);
        }
        Ok(bytes)
    }

    /// Lists nodes from a seed, within a budget. The rows stay reserved.
    pub fn traverse_with_filter_ops_governed(
        &self,
        seed_table_oid: u32,
        seed_id: &str,
        max_depth: i32,
        max_nodes: u32,
        max_frontier: u32,
        edge_types: Option<Vec<String>>,
        filter_ops: Vec<FilterOp>,
        tenant: Option<&str>,
        strategy: TraversalStrategy,
        direction: TraversalDirection,
        delta: &TxDelta,
        governor: &mut ResourceGovernor,
    ) -> (result: GraphResult<Vec<TraversalResult>>)
        requires
            self.wf(),
        ensures
            self.traversal_answer(
                (TraversalRequest {
                    seed_table_oid,
                    seed_id: seed_id@,
                    limits: TraversalLimits { max_depth, max_nodes, max_frontier },
                    edge_types: requested_labels(edge_types),
                    filter_ops: filter_ops@,
                    tenant: name_text(tenant),
                    strategy,
                    direction,
                }),
                *delta,
                old(governor)@,
                final(governor)@,
                traversal_result_view(result),
            ),
    {
        if !self.built {
            return Err(GraphError::NotBuilt);
        }
        let seed: u32 = match self.require_node(seed_table_oid, seed_id, delta) {
            Ok(seed) => seed,
            Err(error) => return Err(error),
        };
        let filter: EdgeTypeFilter = match self.edge_type_filter(&edge_types) {
            Ok(filter) => filter,
            Err(error) => return Err(error),
        };
        let limits = TraversalLimits { max_depth, max_nodes, max_frontier };
        let workspace: u64 = estimated_workspace_bytes(self.node_store.node_count(), limits);
        let overlay_bytes: u64 = match self.reserve_search(
            delta,
            workspace,
            ResourcePhase::QueryFrontier,
            ResourcePhase::QueryExpand,
            governor,
        ) {
            Ok(bytes) => bytes,
            Err(error) => return Err(error),
        };
        let listed: GraphResult<Vec<TraversalVisit>> = self.run_traversal(
            seed,
            &filter,
            &filter_ops,
            tenant,
            strategy,
            direction,
            limits,
            delta,
            Ghost(requested_labels(edge_types)),
            governor,
        );
        let visits: Vec<TraversalVisit> = match listed {
            Ok(visits) => visits,
            Err(error) => {
                governor.release_memory(overlay_bytes);
                governor.release_memory(workspace);
                return Err(error);
            },
        };
        let listed: GraphResult<u64> = self.charge_output(visits.len(), max_depth, governor);
        governor.release_memory(overlay_bytes);
        governor.release_memory(workspace);
        if let Err(error) = listed {
            return Err(error);
        }
        let labels = EdgeTypeLabels {
            registry: self.edge_type_registry.as_slice(),
            resolver: None,
        };
        let rows: Vec<TraversalResult> = to_traversal_results(&visits, &self.node_store, labels);
        proof {
            let names = |type_id: EdgeTypeId| labels.label(type_id);
            let own = |type_id: EdgeTypeId| registered_label(self.edge_type_registry@, type_id);
            assert(names =~= own);
        }
        Ok(rows)
    }

    /// Lists nodes from a seed, within a budget of its own.
    pub fn traverse_with_filter_ops(
        &self,
        seed_table_oid: u32,
        seed_id: &str,
        max_depth: i32,
        max_nodes: u32,
        max_frontier: u32,
        edge_types: Option<Vec<String>>,
        filter_ops: Vec<FilterOp>,
        tenant: Option<&str>,
        strategy: TraversalStrategy,
        direction: TraversalDirection,
        delta: &TxDelta,
        limits: ResourceLimits,
    ) -> (result: GraphResult<Vec<TraversalResult>>)
        requires
            self.wf(),
        ensures
            exists|after: GovernorView|
                #[trigger] self.traversal_answer(
                    (TraversalRequest {
                        seed_table_oid,
                        seed_id: seed_id@,
                        limits: TraversalLimits { max_depth, max_nodes, max_frontier },
                        edge_types: requested_labels(edge_types),
                        filter_ops: filter_ops@,
                        tenant: name_text(tenant),
                        strategy,
                        direction,
                    }),
                    *delta,
                    fresh_budget(limits),
                    after,
                    traversal_result_view(result),
                ),
    {
        let mut governor = ResourceGovernor::new(limits);
        self.traverse_with_filter_ops_governed(
            seed_table_oid,
            seed_id,
            max_depth,
            max_nodes,
            max_frontier,
            edge_types,
            filter_ops,
            tenant,
            strategy,
            direction,
            delta,
            &mut governor,
        )
    }

    /// Lists nodes from a seed, without filters. A filter in the retired text
    /// form is refused.
    pub fn traverse(
        &self,
        seed_table_oid: u32,
        seed_id: &str,
        max_depth: i32,
        max_nodes: u32,
        max_frontier: u32,
        edge_types: Option<Vec<String>>,
        filter_condition: Option<&str>,
        tenant: Option<&str>,
        strategy: TraversalStrategy,
        direction: TraversalDirection,
        delta: &TxDelta,
        limits: ResourceLimits,
    ) -> (result: GraphResult<Vec<TraversalResult>>)
        requires
            self.wf(),
        ensures
            filter_condition is Some ==> traversal_result_view(result) == Err::<
                Seq<TraversalResultView>,
                ErrorView,
            >(
                ErrorView::InvalidFilter(
                    "legacy raw traversal filters have been removed; use structured JSONB filters through SQL traversal helpers"@,
                ),
            ),
            filter_condition is None ==> exists|after: GovernorView|
                #[trigger] self.traversal_answer(
                    (TraversalRequest {
                        seed_table_oid,
                        seed_id: seed_id@,
                        limits: TraversalLimits { max_depth, max_nodes, max_frontier },
                        edge_types: requested_labels(edge_types),
                        filter_ops: Seq::empty(),
                        tenant: name_text(tenant),
                        strategy,
                        direction,
                    }),
                    *delta,
                    fresh_budget(limits),
                    after,
                    traversal_result_view(result),
                ),
    {
        if filter_condition.is_some() {
            return Err(
                invalid_filter(
                    "legacy raw traversal filters have been removed; use structured JSONB filters through SQL traversal helpers",
                ),
            );
        }
        let filter_ops: Vec<FilterOp> = Vec::new();
        assert(filter_ops@ =~= Seq::empty());
        self.traverse_with_filter_ops(
            seed_table_oid,
            seed_id,
            max_depth,
            max_nodes,
            max_frontier,
            edge_types,
            filter_ops,
            tenant,
            strategy,
            direction,
            delta,
            limits,
        )
    }
}

/// What the result of a traversal says.
pub open spec fn traversal_result_view(result: GraphResult<Vec<TraversalResult>>) -> Result<
    Seq<TraversalResultView>,
    ErrorView,
> {
    match result {
        Ok(rows) => Ok(traversal_views(rows@)),
        Err(error) => Err(error@),
    }
}

/// A label that is unknown early on is the first that is unknown.
proof fn lemma_first_unknown(registry: Seq<Seq<char>>, labels: Seq<Seq<char>>, count: int)
    requires
        0 <= count <= labels.len(),
        first_unknown(registry, labels.take(count)) is Some,
    ensures
        first_unknown(registry, labels) == first_unknown(registry, labels.take(count)),
    decreases labels.len(),
{
    if count < labels.len() {
        assert(labels.drop_last().take(count) =~= labels.take(count));
        lemma_first_unknown(registry, labels.drop_last(), count);
    } else {
        assert(labels.take(count) =~= labels);
    }
}

/// Without limits on nodes, a breadth-first traversal of an engine lists a node
/// exactly when a walk within the depth limit leads to it along edges that the
/// request follows, and at the length of the shortest such walk.
pub proof fn law_traversal_lists_reachable(
    engine: Engine,
    request: TraversalRequest,
    delta: TxDelta,
    seed: u32,
    node: u32,
)
    requires
        seed < engine.node_store.nodes().len(),
        request.strategy == TraversalStrategy::Bfs,
        unlimited(request.limits, engine.node_store.nodes().len()),
        0 <= request.limits.max_depth,
    ensures
        ({
            let g = engine.traversal_graph(
                delta,
                request.direction,
                request.edge_types,
                request.filter_ops,
                request.tenant,
            );
            let order = engine.traversal_order(request, delta, seed);
            &&& discovered(order, node) <==> exists|walk: Seq<Neighbor>| #[trigger]
                walk_between(g, seed, node, walk) && walk.len() <= request.limits.max_depth
            &&& forall|i: int, walk: Seq<Neighbor>|
                0 <= i < order.len() && (#[trigger] order[i]).node == node && (
                #[trigger] walk_between(g, seed, node, walk)) ==> order[i].label <= walk.len()
        }),
{
    let g = engine.traversal_graph(
        delta,
        request.direction,
        request.edge_types,
        request.filter_ops,
        request.tenant,
    );
    let nodes = engine.node_store.nodes().len();
    assert(bounded(g, nodes));
    law_breadth_first_lists_reachable(g, request.limits, seed, nodes, node);
}

/// A traversal of an engine lists, besides the seed, only nodes that the
/// request shows: live ones of the tenant that satisfy every filter.
pub proof fn law_traversal_lists_shown(
    engine: Engine,
    request: TraversalRequest,
    delta: TxDelta,
    seed: u32,
    at: int,
)
    requires
        seed < engine.node_store.nodes().len(),
        0 < at < engine.traversal_order(request, delta, seed).len(),
    ensures
        engine.traversal_shows(
            delta,
            request.filter_ops,
            request.tenant,
            engine.traversal_order(request, delta, seed)[at].node,
        ),
{
    let g = engine.traversal_graph(
        delta,
        request.direction,
        request.edge_types,
        request.filter_ops,
        request.tenant,
    );
    let nodes = engine.node_store.nodes().len();
    let order = engine.traversal_order(request, delta, seed);
    assert(bounded(g, nodes));
    law_traversal_follows_walks(g, request.strategy, request.limits, seed, nodes, at);
    let walk = choose|walk: Seq<Neighbor>|
        #![trigger is_walk(g, seed, walk)]
        walk_between(g, seed, order[at].node, walk) && trail_follows(
            trail(order, at),
            seed,
            walk,
        ) && walk.len() == order[at].label;
    assert(order[0].node == seed);
    assert(order[at].node != order[0].node);
    assert(walk.len() > 0);
    assert((g.allows)(walk[walk.len() - 1]));
}

} // verus!
