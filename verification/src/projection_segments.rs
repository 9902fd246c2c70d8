//! Durable changes of edges, tenants and filter values: what segments may say,
//! and what they do.
use roaring::RoaringBitmap;
use vstd::prelude::*;
use vstd::string::StringExecFns;

use crate::bitmap::bitmap_contents;
use crate::errors::{corrupt, ErrorView, GraphError, GraphResult};
use crate::filter_index::{
    applies, can_apply, intern_refusal, mismatch_message, persisted_in_domain, FilterIndex,
};
use crate::layered::segment_edges_bounded;
use crate::membership::{members, TenantMembership};
use crate::node_store::{NodeStore, NodeView};
use crate::overlay::OverlayEdge;
use crate::path_machine::RelationshipIdentities;
use crate::projection_install::{ProjectionSegment, SegmentFilter, SegmentTenant};
use crate::text::{decimal, decimal_text};

verus! {

/// Whether a relationship is one of the projection's.
pub open spec fn relationship_known(identities: RelationshipIdentities, id: Option<u32>) -> bool {
    id matches Some(id) ==> id < identities.stored@.len() && identities.stored@[id as int] is Some
}

/// Whether a segment's edges speak of relationships of the projection.
pub open spec fn relationships_known(
    segment: ProjectionSegment,
    identities: RelationshipIdentities,
) -> bool {
    &&& forall|i: int|
        0 <= i < segment.edge_inserts@.len() ==> relationship_known(
            identities,
            (#[trigger] segment.edge_inserts@[i]).relationship_id,
        )
    &&& forall|i: int|
        0 <= i < segment.edge_deletes@.len() ==> relationship_known(
            identities,
            (#[trigger] segment.edge_deletes@[i]).relationship_id,
        )
    &&& forall|i: int|
        0 <= i < segment.edge_weights@.len() ==> relationship_known(
            identities,
            (#[trigger] segment.edge_weights@[i]).edge.relationship_id,
        )
}

/// Whether a segment names its tenants, and nodes for them.
pub open spec fn tenants_valid(segment: ProjectionSegment, nodes: nat) -> bool {
    forall|i: int|
        0 <= i < segment.tenants@.len() ==> (#[trigger] segment.tenants@[i]).tenant is Some
            && segment.tenants@[i].node_idx < nodes
}

fn check_relationship(id: Option<u32>, identities: &RelationshipIdentities) -> (result: GraphResult<
    (),
>)
    ensures
        match result {
            Ok(_) => relationship_known(*identities, id),
            Err(error) => !relationship_known(*identities, id) && error@ == ErrorView::CorruptFile(
                "projection segment relationship ID "@ + decimal(id->Some_0 as nat)
                    + " is outside the active identity dictionary"@,
            ),
        },
{
    if let Some(number) = id {
        let known: bool = (number as usize) < identities.stored.len()
            && identities.stored[number as usize].is_some();
        if !known {
            return Err(
                GraphError::CorruptFile {
                    reason: "projection segment relationship ID ".to_owned().concat(
                        decimal_text(number as u64).as_str(),
                    ).concat(" is outside the active identity dictionary"),
                },
            );
        }
    }
    Ok(())
}

/// The relationships that edges speak of.
pub open spec fn edge_ids(edges: Seq<OverlayEdge>) -> Seq<Option<u32>> {
    Seq::new(edges.len(), |i: int| edges[i].relationship_id)
}

/// The relationships that a segment speaks of: those of inserted edges, deleted
/// edges and changed weights.
pub open spec fn segment_ids(segment: ProjectionSegment) -> Seq<Option<u32>> {
    edge_ids(segment.edge_inserts@) + edge_ids(segment.edge_deletes@) + Seq::new(
        segment.edge_weights@.len(),
        |i: int| segment.edge_weights@[i].edge.relationship_id,
    )
}

/// The error for a relationship that the projection does not know.
pub open spec fn unknown_relationship(id: Option<u32>) -> ErrorView {
    ErrorView::CorruptFile(
        "projection segment relationship ID "@ + decimal(id->Some_0 as nat)
            + " is outside the active identity dictionary"@,
    )
}

/// Whether a relationship of a list is the first that is not known.
pub open spec fn id_fails(
    ids: Seq<Option<u32>>,
    identities: RelationshipIdentities,
    at: int,
    error: ErrorView,
) -> bool {
    &&& 0 <= at < ids.len()
    &&& forall|i: int| 0 <= i < at ==> relationship_known(identities, #[trigger] ids[i])
    &&& !relationship_known(identities, ids[at])
    &&& error == unknown_relationship(ids[at])
}

/// Whether an error is that of a segment's edges: of the first relationship that
/// is not known, else of an edge, else of a weight that leads to no node.
pub open spec fn edges_error(
    segment: ProjectionSegment,
    identities: RelationshipIdentities,
    nodes: nat,
    error: ErrorView,
) -> bool {
    if !relationships_known(segment, identities) {
        exists|at: int| #[trigger] id_fails(segment_ids(segment), identities, at, error)
    } else if !edges_join(segment.edge_inserts@, nodes) || !edges_join(
        segment.edge_deletes@,
        nodes,
    ) {
        error == ErrorView::CorruptFile("projection edge references a missing node"@)
    } else {
        error == ErrorView::CorruptFile("projection edge weight references a missing node"@)
    }
}

/// Whether edges join nodes.
pub open spec fn edges_join(edges: Seq<OverlayEdge>, nodes: nat) -> bool {
    forall|i: int|
        0 <= i < edges.len() ==> (#[trigger] edges[i]).source < nodes && edges[i].target < nodes
}

/// Checks that the edges of a list speak of relationships of the projection.
fn check_edges_known(edges: &Vec<OverlayEdge>, identities: &RelationshipIdentities) -> (result: GraphResult<
    (),
>)
    ensures
        result is Ok <==> forall|i: int|
            0 <= i < edges@.len() ==> relationship_known(
                *identities,
                (#[trigger] edges@[i]).relationship_id,
            ),
        result matches Err(error) ==> exists|at: int| #[trigger]
            id_fails(edge_ids(edges@), *identities, at, error@),
{
    let mut at: usize = 0;
    while at < edges.len()
        invariant
            at <= edges@.len(),
            forall|i: int|
                0 <= i < at ==> relationship_known(
                    *identities,
                    (#[trigger] edges@[i]).relationship_id,
                ),
        decreases edges@.len() - at,
    {
        if let Err(error) = check_relationship(edges[at].relationship_id, identities) {
            proof {
                let ids = edge_ids(edges@);
                assert(!relationship_known(*identities, edges@[at as int].relationship_id));
                assert forall|i: int| 0 <= i < at implies relationship_known(
                    *identities,
                    #[trigger] ids[i],
                ) by {
                    assert(ids[i] == edges@[i].relationship_id);
                }
                assert(id_fails(ids, *identities, at as int, error@));
            }
            return Err(error);
        }
        at = at + 1;
    }
    Ok(())
}

/// Checks that the edges of a list join nodes.
fn check_edges_bounded(edges: &Vec<OverlayEdge>, nodes: u32) -> (bounded: bool)
    ensures
        bounded <==> edges_join(edges@, nodes as nat),
{
    let mut at: usize = 0;
    while at < edges.len()
        invariant
            at <= edges@.len(),
            forall|i: int|
                0 <= i < at ==> (#[trigger] edges@[i]).source < nodes && edges@[i].target < nodes,
        decreases edges@.len() - at,
    {
        if edges[at].source >= nodes || edges[at].target >= nodes {
            assert(edges@[at as int].source >= nodes || edges@[at as int].target >= nodes);
            return false;
        }
        at = at + 1;
    }
    true
}

/// Checks the edges of a segment.
pub fn check_segment_edges(
    segment: &ProjectionSegment,
    identities: &RelationshipIdentities,
    nodes: u32,
) -> (result: GraphResult<()>)
    ensures
        result is Ok <==> relationships_known(*segment, *identities) && segment_edges_bounded(
            *segment,
            nodes as nat,
        ),
        result matches Err(error) ==> edges_error(*segment, *identities, nodes as nat, error@),
{
    let ghost ids = segment_ids(*segment);
    let ghost inserted = edge_ids(segment.edge_inserts@);
    let ghost deleted = edge_ids(segment.edge_deletes@);
    if let Err(error) = check_edges_known(&segment.edge_inserts, identities) {
        proof {
            let at = choose|at: int| #[trigger] id_fails(inserted, *identities, at, error@);
            assert forall|i: int| 0 <= i < at implies relationship_known(
                *identities,
                #[trigger] ids[i],
            ) by {
                assert(ids[i] == inserted[i]);
            }
            assert(ids[at] == inserted[at]);
            assert(id_fails(ids, *identities, at, error@));
        }
        return Err(error);
    }
    proof {
        assert forall|i: int| 0 <= i < inserted.len() implies relationship_known(
            *identities,
            #[trigger] ids[i],
        ) by {
            assert(ids[i] == segment.edge_inserts@[i].relationship_id);
        }
    }
    if let Err(error) = check_edges_known(&segment.edge_deletes, identities) {
        proof {
            let at = choose|at: int| #[trigger] id_fails(deleted, *identities, at, error@);
            let place = inserted.len() + at;
            assert forall|i: int| 0 <= i < place implies relationship_known(
                *identities,
                #[trigger] ids[i],
            ) by {
                if i >= inserted.len() {
                    assert(ids[i] == deleted[i - inserted.len()]);
                }
            }
            assert(ids[place] == deleted[at]);
            assert(id_fails(ids, *identities, place, error@));
        }
        return Err(error);
    }
    proof {
        assert forall|i: int| 0 <= i < inserted.len() + deleted.len() implies relationship_known(
            *identities,
            #[trigger] ids[i],
        ) by {
            if i >= inserted.len() {
                let k = i - inserted.len();
                assert(ids[i] == segment.edge_deletes@[k].relationship_id);
            }
        }
    }
    let mut at: usize = 0;
    while at < segment.edge_weights.len()
        invariant
            at <= segment.edge_weights@.len(),
            ids == segment_ids(*segment),
            inserted == edge_ids(segment.edge_inserts@),
            deleted == edge_ids(segment.edge_deletes@),
            forall|i: int|
                0 <= i < inserted.len() + deleted.len() ==> relationship_known(
                    *identities,
                    #[trigger] ids[i],
                ),
            forall|i: int|
                0 <= i < segment.edge_inserts@.len() ==> relationship_known(
                    *identities,
                    (#[trigger] segment.edge_inserts@[i]).relationship_id,
                ),
            forall|i: int|
                0 <= i < segment.edge_deletes@.len() ==> relationship_known(
                    *identities,
                    (#[trigger] segment.edge_deletes@[i]).relationship_id,
                ),
            forall|i: int|
                0 <= i < at ==> relationship_known(
                    *identities,
                    (#[trigger] segment.edge_weights@[i]).edge.relationship_id,
                ),
        decreases segment.edge_weights@.len() - at,
    {
        if let Err(error) = check_relationship(
            segment.edge_weights[at].edge.relationship_id,
            identities,
        ) {
            proof {
                let place = inserted.len() + deleted.len() + at;
                assert(ids[place] == segment.edge_weights@[at as int].edge.relationship_id);
                assert forall|i: int| 0 <= i < place implies relationship_known(
                    *identities,
                    #[trigger] ids[i],
                ) by {
                    if i >= inserted.len() + deleted.len() {
                        let k = i - inserted.len() - deleted.len();
                        assert(ids[i] == segment.edge_weights@[k].edge.relationship_id);
                    }
                }
                assert(id_fails(ids, *identities, place, error@));
            }
            assert(!relationship_known(
                *identities,
                segment.edge_weights@[at as int].edge.relationship_id,
            ));
            return Err(error);
        }
        at = at + 1;
    }
    if !check_edges_bounded(&segment.edge_inserts, nodes) || !check_edges_bounded(
        &segment.edge_deletes,
        nodes,
    ) {
        return Err(corrupt("projection edge references a missing node"));
    }
    let mut at: usize = 0;
    while at < segment.edge_weights.len()
        invariant
            at <= segment.edge_weights@.len(),
            relationships_known(*segment, *identities),
            edges_join(segment.edge_inserts@, nodes as nat),
            edges_join(segment.edge_deletes@, nodes as nat),
            forall|i: int|
                0 <= i < at ==> (#[trigger] segment.edge_weights@[i]).edge.source < nodes
                    && segment.edge_weights@[i].edge.target < nodes,
        decreases segment.edge_weights@.len() - at,
    {
        let edge: OverlayEdge = segment.edge_weights[at].edge;
        if edge.source >= nodes || edge.target >= nodes {
            assert(segment.edge_weights@[at as int].edge == edge);
            return Err(corrupt("projection edge weight references a missing node"));
        }
        at = at + 1;
    }
    Ok(())
}

/// The error for a tenant that is known by its hash alone.
pub open spec fn inexact_tenant() -> ErrorView {
    ErrorView::IncompatibleVersion(
        "version 5 tenant projection lacks exact identity; rebuild required"@,
    )
}

/// Whether a tenant of a segment is the first that cannot be applied.
pub open spec fn tenant_fails(
    segment: ProjectionSegment,
    nodes: nat,
    at: int,
    error: ErrorView,
) -> bool {
    let tenants = segment.tenants@;
    &&& 0 <= at < tenants.len()
    &&& forall|i: int|
        0 <= i < at ==> (#[trigger] tenants[i]).tenant is Some && tenants[i].node_idx < nodes
    &&& if tenants[at].tenant is None {
        error == inexact_tenant()
    } else {
        tenants[at].node_idx >= nodes && error == ErrorView::CorruptFile(
            "projection tenant references a missing node"@,
        )
    }
}

/// Checks the tenants of a segment.
pub fn check_segment_tenants(segment: &ProjectionSegment, nodes: u32) -> (result: GraphResult<()>)
    ensures
        result is Ok <==> tenants_valid(*segment, nodes as nat),
        result matches Err(error) ==> exists|at: int| #[trigger]
            tenant_fails(*segment, nodes as nat, at, error@),
{
    let mut at: usize = 0;
    while at < segment.tenants.len()
        invariant
            at <= segment.tenants@.len(),
            forall|i: int|
                0 <= i < at ==> (#[trigger] segment.tenants@[i]).tenant is Some
                    && segment.tenants@[i].node_idx < nodes,
        decreases segment.tenants@.len() - at,
    {
        if segment.tenants[at].tenant.is_none() {
            let error = GraphError::IncompatibleVersion(
                "version 5 tenant projection lacks exact identity; rebuild required".to_owned(),
            );
            assert(error@ == inexact_tenant());
            assert(tenant_fails(*segment, nodes as nat, at as int, error@));
            return Err(error);
        }
        if segment.tenants[at].node_idx >= nodes {
            assert(tenant_fails(
                *segment,
                nodes as nat,
                at as int,
                ErrorView::CorruptFile("projection tenant references a missing node"@),
            ));
            return Err(corrupt("projection tenant references a missing node"));
        }
        at = at + 1;
    }
    Ok(())
}

/// The tenants' nodes after the first tenants of a list.
pub open spec fn tenants_after(
    map: Map<Seq<char>, Set<u32>>,
    tenants: Seq<SegmentTenant>,
    count: nat,
) -> Map<Seq<char>, Set<u32>>
    decreases count,
{
    if count == 0 {
        map
    } else {
        let before = tenants_after(map, tenants, (count - 1) as nat);
        let tenant = tenants[count - 1];
        let name = tenant.tenant->Some_0@;
        before.insert(
            name,
            if tenant.tombstone {
                members(before, name).remove(tenant.node_idx)
            } else {
                members(before, name).insert(tenant.node_idx)
            },
        )
    }
}

/// The tenants' nodes after the first segments.
pub open spec fn tenants_after_segments(
    map: Map<Seq<char>, Set<u32>>,
    segments: Seq<ProjectionSegment>,
    count: nat,
) -> Map<Seq<char>, Set<u32>>
    decreases count,
{
    if count == 0 {
        map
    } else {
        let tenants = segments[count - 1].tenants@;
        tenants_after(
            tenants_after_segments(map, segments, (count - 1) as nat),
            tenants,
            tenants.len(),
        )
    }
}

/// The tables with tenants after the first tenants of a list.
pub open spec fn tenanted_after(
    tables: Set<u32>,
    tenants: Seq<SegmentTenant>,
    nodes: Seq<NodeView>,
    count: nat,
) -> Set<u32>
    decreases count,
{
    if count == 0 {
        tables
    } else {
        tenanted_after(tables, tenants, nodes, (count - 1) as nat).insert(
            nodes[tenants[count - 1].node_idx as int].table_oid,
        )
    }
}

/// The tables with tenants after the first segments.
pub open spec fn tenanted_after_segments(
    tables: Set<u32>,
    segments: Seq<ProjectionSegment>,
    nodes: Seq<NodeView>,
    count: nat,
) -> Set<u32>
    decreases count,
{
    if count == 0 {
        tables
    } else {
        let tenants = segments[count - 1].tenants@;
        tenanted_after(
            tenanted_after_segments(tables, segments, nodes, (count - 1) as nat),
            tenants,
            nodes,
            tenants.len(),
        )
    }
}

/// Applies the tenants of segments.
pub fn apply_tenants(
    membership: &mut TenantMembership,
    tenanted: &mut RoaringBitmap,
    segments: &Vec<ProjectionSegment>,
    store: &NodeStore,
)
    requires
        old(membership).wf(),
        store.addressable(),
        forall|i: int|
            0 <= i < segments@.len() ==> tenants_valid(
                #[trigger] segments@[i],
                store.nodes().len(),
            ),
    ensures
        final(membership).wf(),
        final(membership)@ == tenants_after_segments(
            old(membership)@,
            segments@,
            segments@.len(),
        ),
        bitmap_contents(*final(tenanted)) == tenanted_after_segments(
            bitmap_contents(*old(tenanted)),
            segments@,
            store.nodes(),
            segments@.len(),
        ),
{
    let mut at: usize = 0;
    while at < segments.len()
        invariant
            at <= segments@.len(),
            membership.wf(),
            store.addressable(),
            forall|i: int|
                0 <= i < segments@.len() ==> tenants_valid(
                    #[trigger] segments@[i],
                    store.nodes().len(),
                ),
            membership@ == tenants_after_segments(old(membership)@, segments@, at as nat),
            bitmap_contents(*tenanted) == tenanted_after_segments(
                bitmap_contents(*old(tenanted)),
                segments@,
                store.nodes(),
                at as nat,
            ),
        decreases segments@.len() - at,
    {
        let tenants: &Vec<SegmentTenant> = &segments[at].tenants;
        assert(tenants_valid(segments@[at as int], store.nodes().len()));
        let ghost begun = membership@;
        let ghost oids = bitmap_contents(*tenanted);
        let mut place: usize = 0;
        while place < tenants.len()
            invariant
                place <= tenants@.len(),
                membership.wf(),
                store.addressable(),
                forall|i: int|
                    0 <= i < tenants@.len() ==> (#[trigger] tenants@[i]).tenant is Some
                        && tenants@[i].node_idx < store.nodes().len(),
                membership@ == tenants_after(begun, tenants@, place as nat),
                bitmap_contents(*tenanted) == tenanted_after(
                    oids,
                    tenants@,
                    store.nodes(),
                    place as nat,
                ),
            decreases tenants@.len() - place,
        {
            let tenant: &SegmentTenant = &tenants[place];
            assert(tenants@[place as int].tenant is Some);
            if let Some(name) = &tenant.tenant {
                if tenant.tombstone {
                    membership.clear(name.as_str(), tenant.node_idx);
                } else {
                    membership.insert(name.as_str(), tenant.node_idx);
                }
            }
            if let Some(table_oid) = store.table_oid(tenant.node_idx) {
                tenanted.insert(table_oid);
            }
            place = place + 1;
        }
        at = at + 1;
    }
}

/// Whether a segment's filter value can be applied.
pub open spec fn filter_applicable(index: FilterIndex, filter: SegmentFilter, nodes: nat) -> bool {
    &&& filter.node_idx < nodes
    &&& filter.column_id < index.registered().len()
    &&& can_apply(index, filter.column_id as int, filter.value)
}

/// Whether indexes come one from the other by filter values, applied in order.
pub open spec fn filter_chain(
    chain: Seq<FilterIndex>,
    before: FilterIndex,
    after: FilterIndex,
    filters: Seq<SegmentFilter>,
) -> bool {
    &&& chain.len() == filters.len() + 1
    &&& chain[0] == before
    &&& chain.last() == after
    &&& forall|i: int|
        0 <= i < filters.len() ==> applies(
            chain[i],
            chain[i + 1],
            (#[trigger] filters[i]).column_id as int,
            filters[i].node_idx,
            filters[i].value,
            filters[i].tombstone,
        )
}

/// Whether one index comes from another by filter values, applied in order.
pub open spec fn filters_applied(
    before: FilterIndex,
    after: FilterIndex,
    filters: Seq<SegmentFilter>,
) -> bool {
    exists|chain: Seq<FilterIndex>| #[trigger] filter_chain(chain, before, after, filters)
}

/// One more applied value.
proof fn lemma_filters_next(
    before: FilterIndex,
    middle: FilterIndex,
    after: FilterIndex,
    filters: Seq<SegmentFilter>,
)
    requires
        filters.len() > 0,
        filters_applied(before, middle, filters.drop_last()),
        applies(
            middle,
            after,
            filters.last().column_id as int,
            filters.last().node_idx,
            filters.last().value,
            filters.last().tombstone,
        ),
    ensures
        filters_applied(before, after, filters),
{
    let short = filters.drop_last();
    let chain = choose|chain: Seq<FilterIndex>| #[trigger]
        filter_chain(chain, before, middle, short);
    let longer = chain.push(after);
    assert forall|i: int| 0 <= i < filters.len() implies applies(
        longer[i],
        longer[i + 1],
        (#[trigger] filters[i]).column_id as int,
        filters[i].node_idx,
        filters[i].value,
        filters[i].tombstone,
    ) by {
        if i < short.len() {
            assert(short[i] == filters[i]);
        }
    }
    assert(filter_chain(longer, before, after, filters));
}

/// Whether some filter value cannot be applied after those before it.
pub open spec fn filters_refused(
    before: FilterIndex,
    filters: Seq<SegmentFilter>,
    nodes: nat,
) -> bool {
    exists|at: int, middle: FilterIndex|
        0 <= at < filters.len() && #[trigger] filters_applied(before, middle, filters.take(at))
            && !filter_applicable(middle, filters[at], nodes)
}

/// The error for a filter value that cannot be applied to an index.
pub open spec fn filter_error(index: FilterIndex, filter: SegmentFilter, nodes: nat) -> ErrorView {
    let columns = index.registered();
    let column = filter.column_id as int;
    if filter.column_id > usize::MAX {
        ErrorView::CorruptFile("projection filter column id exceeds usize"@)
    } else if filter.node_idx >= nodes {
        ErrorView::CorruptFile(
            "projection filter node id "@ + decimal(filter.node_idx as nat)
                + " is outside projected node range 0.."@ + decimal(nodes),
        )
    } else if column >= columns.len() {
        ErrorView::CorruptFile(
            "projection filter column id "@ + decimal(column as nat)
                + " is not registered in the base artifact"@,
        )
    } else if persisted_in_domain(columns[column].column_type, filter.value) {
        intern_refusal(index, column)
    } else {
        ErrorView::CorruptFile(
            mismatch_message(filter.value, column as nat, columns[column].column_type),
        )
    }
}

/// Whether an error is that of the first filter value that cannot be applied.
pub open spec fn filters_error(
    before: FilterIndex,
    filters: Seq<SegmentFilter>,
    nodes: nat,
    error: ErrorView,
) -> bool {
    exists|at: int, middle: FilterIndex|
        0 <= at < filters.len() && #[trigger] filters_applied(before, middle, filters.take(at))
            && !filter_applicable(middle, filters[at], nodes) && error == filter_error(
            middle,
            filters[at],
            nodes,
        )
}

/// The filter values of the first segments.
pub open spec fn all_filters(segments: Seq<ProjectionSegment>, count: nat) -> Seq<SegmentFilter>
    decreases count,
{
    if count == 0 {
        Seq::empty()
    } else {
        all_filters(segments, (count - 1) as nat) + segments[count - 1].filters@
    }
}

/// Applies the filter values of a segment, after those of the segments before.
pub(crate) fn apply_segment_filters(
    index: &mut FilterIndex,
    segment: &ProjectionSegment,
    nodes: u32,
    Ghost(first): Ghost<FilterIndex>,
    Ghost(earlier): Ghost<Seq<SegmentFilter>>,
) -> (result: GraphResult<()>)
    requires
        old(index).sound(),
        filters_applied(first, *old(index), earlier),
    ensures
        result is Ok ==> final(index).sound() && filters_applied(
            first,
            *final(index),
            earlier + segment.filters@,
        ),
        result is Err ==> filters_refused(first, earlier + segment.filters@, nodes as nat),
        result matches Err(error) ==> filters_error(
            first,
            earlier + segment.filters@,
            nodes as nat,
            error@,
        ),
{
    let ghost all = earlier + segment.filters@;
    let mut at: usize = 0;
    assert(earlier + segment.filters@.take(0) =~= earlier);
    while at < segment.filters.len()
        invariant
            at <= segment.filters@.len(),
            index.sound(),
            all == earlier + segment.filters@,
            filters_applied(first, *index, earlier + segment.filters@.take(at as int)),
        decreases segment.filters@.len() - at,
    {
        let filter: &SegmentFilter = &segment.filters[at];
        let ghost before = *index;
        let ghost taken = earlier + segment.filters@.take(at as int);
        let ghost more = earlier + segment.filters@.take(at + 1);
        proof {
            assert(more.drop_last() =~= taken);
            assert(more.last() == *filter);
            assert(all.take(earlier.len() + at) =~= taken);
            assert(all[earlier.len() + at] == *filter);
        }
        let _columns: usize = index.column_count();
        if filter.column_id > usize::MAX as u64 {
            assert(!filter_applicable(before, all[earlier.len() + at], nodes as nat));
            return Err(corrupt("projection filter column id exceeds usize"));
        }
        let applied: GraphResult<()> = index.apply_persisted_value(
            filter.column_id as usize,
            filter.node_idx,
            nodes,
            &filter.value,
            filter.tombstone,
        );
        if let Err(error) = applied {
            assert(!filter_applicable(before, all[earlier.len() + at], nodes as nat));
            return Err(error);
        }
        proof {
            lemma_filters_next(first, before, *index, more);
        }
        at = at + 1;
    }
    assert(segment.filters@.take(at as int) =~= segment.filters@);
    Ok(())
}

} // verus!
