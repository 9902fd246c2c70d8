//! Durable projection of the engine: segments over the base graph.
use vstd::prelude::*;

use crate::active_bits::bit_capacity_limit;
use crate::bitmap::bitmap_contents;
use crate::edge_store::{edges_in, EdgeStore};
use crate::engine::{Engine, ProjectionManifest};
use crate::errors::{internal, ErrorView, GraphResult};
use crate::filter_index::FilterIndex;
use crate::layered::{
    base_rows, is_snapshot, rows_after_segments, segment_edges_bounded, segments_bounded,
    LayeredSnapshot,
};
use crate::node_store::NodeStore;
use crate::persisted_build::ProjectionMode;
use crate::projection_install::{
    after_segments, apply_slots, apply_tables, slots_error, tables_after_segments, Installed,
    ProjectionSegment,
};
use crate::projection_segments::{
    all_filters, apply_segment_filters, apply_tenants, check_segment_edges, check_segment_tenants,
    edges_error, filters_applied, filters_error, filters_refused, relationships_known, tenant_fails,
    tenanted_after_segments, tenants_after_segments, tenants_valid,
};
use crate::resolution::{ResolutionEntry, ResolutionIndexBuilder};

verus! {

/// The nodes and entries of an engine before segments are applied.
pub open spec fn before_segments(engine: Engine) -> Installed {
    Installed { nodes: engine.node_store.nodes(), entries: Seq::empty() }
}

/// Whether what segments say of edges and tenants holds of nodes.
pub open spec fn segments_valid(
    engine: Engine,
    segments: Seq<ProjectionSegment>,
    nodes: nat,
) -> bool {
    &&& segments_bounded(segments, nodes)
    &&& forall|i: int|
        0 <= i < segments.len() ==> relationships_known(
            #[trigger] segments[i],
            engine.relationship_identities,
        )
    &&& forall|i: int| 0 <= i < segments.len() ==> tenants_valid(#[trigger] segments[i], nodes)
}

/// Whether an index holds the same columns, values and texts as another.
pub open spec fn same_filters(left: FilterIndex, right: FilterIndex) -> bool {
    &&& left.sound()
    &&& left.registered() == right.registered()
    &&& left.dictionary_count() == right.dictionary_count()
    &&& left.mapped() == right.mapped()
    &&& left.base_columns() == right.base_columns()
    &&& left.stored_columns() == right.stored_columns()
    &&& forall|column: int|
        0 <= column < right.stored_columns() ==> (#[trigger] left.storage_of(column)).form()
            == right.storage_of(column).form() && left.storage_of(column).slots()
            == right.storage_of(column).slots()
    &&& forall|column: int| #[trigger] left.column_nodes(column) == right.column_nodes(column)
    &&& forall|column: int, node: u32| #[trigger]
        left.value(column, node) == right.value(column, node)
    &&& forall|column: int| #[trigger] left.texts(column) == right.texts(column)
}

/// Whether an engine is another one with segments applied over stored rows.
pub open spec fn segments_installed(
    before: Engine,
    after: Engine,
    manifest: ProjectionManifest,
    base: EdgeStore,
    segments: Seq<ProjectionSegment>,
) -> bool {
    let count = segments.len();
    let installed = after_segments(before_segments(before), segments, count);
    let nodes = after.node_store.nodes();
    &&& installed == Some(
        Installed { nodes, entries: after.resolution_delta.entries@ },
    )
    &&& segments_valid(before, segments, nodes.len())
    &&& after.table_membership@ == tables_after_segments(
        before.table_membership@,
        segments,
        count,
    )
    &&& after.tenant_membership@ == tenants_after_segments(
        before.tenant_membership@,
        segments,
        count,
    )
    &&& bitmap_contents(after.tenanted_table_oids) == tenanted_after_segments(
        bitmap_contents(before.tenanted_table_oids),
        segments,
        nodes,
        count,
    )
    &&& exists|copy: FilterIndex|
        same_filters(copy, before.filter_index) && #[trigger] filters_applied(
            copy,
            after.filter_index,
            all_filters(segments, count),
        )
    &&& after.projection_snapshot is Some
    &&& is_snapshot(
        after.projection_snapshot->Some_0,
        base,
        segments,
        nodes.len(),
    )
    &&& after == (Engine {
        node_store: after.node_store,
        resolution_delta: after.resolution_delta,
        filter_index: after.filter_index,
        table_membership: after.table_membership,
        tenant_membership: after.tenant_membership,
        tenanted_table_oids: after.tenanted_table_oids,
        projection_manifest: Some(manifest),
        projection_snapshot: after.projection_snapshot,
        ..before
    })
}

/// Whether segments cannot be applied to an engine and stored rows.
pub open spec fn segments_refused(
    engine: Engine,
    base: EdgeStore,
    segments: Seq<ProjectionSegment>,
) -> bool {
    match after_segments(before_segments(engine), segments, segments.len()) {
        None => true,
        Some(installed) => {
            let nodes = installed.nodes.len();
            let rows = rows_after_segments(
                base_rows(base, nodes),
                segments,
                segments.len(),
            );
            ||| !segments_valid(engine, segments, nodes)
            ||| edges_in(rows, rows.len()) > u32::MAX
            ||| exists|copy: FilterIndex, count: nat|
                count <= segments.len() && same_filters(copy, engine.filter_index)
                    && #[trigger] filters_refused(copy, all_filters(segments, count), nodes)
        },
    }
}

/// Whether what a segment says of edges and tenants holds of nodes.
pub open spec fn segment_valid(engine: Engine, segment: ProjectionSegment, nodes: nat) -> bool {
    &&& segment_edges_bounded(segment, nodes)
    &&& relationships_known(segment, engine.relationship_identities)
    &&& tenants_valid(segment, nodes)
}

/// Whether an index comes from an engine's filter values and those given.
pub open spec fn filters_taken(
    engine: Engine,
    copy: FilterIndex,
    index: FilterIndex,
    filters: Seq<crate::projection_install::SegmentFilter>,
) -> bool {
    same_filters(copy, engine.filter_index) && filters_applied(copy, index, filters)
}

/// Whether a segment is the first whose edges or tenants are wrong, after the
/// filter values of those before it have been applied.
pub open spec fn segment_fails(
    engine: Engine,
    segments: Seq<ProjectionSegment>,
    nodes: nat,
    at: nat,
    error: ErrorView,
) -> bool {
    let segment = segments[at as int];
    let identities = engine.relationship_identities;
    &&& at < segments.len()
    &&& forall|i: int| 0 <= i < at ==> segment_valid(engine, #[trigger] segments[i], nodes)
    &&& exists|copy: FilterIndex, index: FilterIndex| #[trigger]
        filters_taken(engine, copy, index, all_filters(segments, at))
    &&& if !relationships_known(segment, identities) || !segment_edges_bounded(segment, nodes) {
        edges_error(segment, identities, nodes, error)
    } else {
        exists|place: int| #[trigger] tenant_fails(segment, nodes, place, error)
    }
}

/// Whether a segment is the first with a filter value that cannot be applied,
/// neither it nor those before it being wrong otherwise.
pub open spec fn segment_filter_fails(
    engine: Engine,
    segments: Seq<ProjectionSegment>,
    nodes: nat,
    at: nat,
    error: ErrorView,
) -> bool {
    &&& at < segments.len()
    &&& forall|i: int| 0 <= i <= at ==> segment_valid(engine, #[trigger] segments[i], nodes)
    &&& exists|copy: FilterIndex|
        same_filters(copy, engine.filter_index) && #[trigger] filters_error(
            copy,
            all_filters(segments, at + 1),
            nodes,
            error,
        )
}

/// Which error comes when segments cannot be applied: that of the first slot or
/// node state that fails; else that of the first segment whose edges, tenants or
/// filter values fail, in this order; else that of too many edges.
pub open spec fn segments_error(
    engine: Engine,
    base: EdgeStore,
    segments: Seq<ProjectionSegment>,
    error: ErrorView,
) -> bool {
    match after_segments(before_segments(engine), segments, segments.len()) {
        None => slots_error(before_segments(engine), segments, error),
        Some(installed) => {
            let nodes = installed.nodes.len();
            let rows = rows_after_segments(base_rows(base, nodes), segments, segments.len());
            ||| exists|at: nat| #[trigger] segment_fails(engine, segments, nodes, at, error)
            ||| exists|at: nat| #[trigger] segment_filter_fails(engine, segments, nodes, at, error)
            ||| segments_valid(engine, segments, nodes) && edges_in(rows, rows.len()) > u32::MAX
                && error == ErrorView::Internal("projection edge count exceeds u32"@)
        },
    }
}

/// What durable segments lead to, before an engine takes it over.
pub struct PreparedProjection {
    node_store: NodeStore,
    entries: Vec<ResolutionEntry>,
    filter_index: FilterIndex,
    snapshot: LayeredSnapshot,
}

impl PreparedProjection {
    /// Whether this was prepared for an engine and stored rows from segments.
    pub closed spec fn suits(
        &self,
        engine: Engine,
        base: EdgeStore,
        segments: Seq<ProjectionSegment>,
    ) -> bool {
        let nodes = self.node_store.nodes();
        &&& after_segments(before_segments(engine), segments, segments.len()) == Some(
            Installed { nodes, entries: self.entries@ },
        )
        &&& self.node_store.addressable()
        &&& nodes.len() <= bit_capacity_limit()
        &&& segments_valid(engine, segments, nodes.len())
        &&& self.filter_index.sound()
        &&& exists|copy: FilterIndex|
            same_filters(copy, engine.filter_index) && #[trigger] filters_applied(
                copy,
                self.filter_index,
                all_filters(segments, segments.len()),
            )
        &&& is_snapshot(self.snapshot, base, segments, nodes.len())
    }
}

impl Engine {
    /// Checks what segments say of edges and tenants, and applies their filter
    /// values to a copy.
    fn check_segments(&self, segments: &Vec<ProjectionSegment>, nodes: u32) -> (result: GraphResult<
        FilterIndex,
    >)
        requires
            self.wf(),
        ensures
            match result {
                Ok(index) => {
                    &&& segments_valid(*self, segments@, nodes as nat)
                    &&& index.sound()
                    &&& exists|copy: FilterIndex|
                        same_filters(copy, self.filter_index) && #[trigger] filters_applied(
                            copy,
                            index,
                            all_filters(segments@, segments@.len()),
                        )
                },
                Err(error) => {
                    &&& !segments_valid(*self, segments@, nodes as nat) || exists|
                        copy: FilterIndex,
                        count: nat,
                    |
                        count <= segments@.len() && same_filters(copy, self.filter_index)
                            && #[trigger] filters_refused(
                            copy,
                            all_filters(segments@, count),
                            nodes as nat,
                        )
                    &&& {
                        ||| exists|at: nat| #[trigger]
                            segment_fails(*self, segments@, nodes as nat, at, error@)
                        ||| exists|at: nat| #[trigger]
                            segment_filter_fails(*self, segments@, nodes as nat, at, error@)
                    }
                },
            },
    {
        let mut index: FilterIndex = self.filter_index.clone();
        let ghost copy = index;
        let mut at: usize = 0;
        proof {
            assert(same_filters(copy, self.filter_index));
            let none = all_filters(segments@, 0);
            let chain = seq![copy];
            assert(crate::projection_segments::filter_chain(chain, copy, index, none));
        }
        while at < segments.len()
            invariant
                at <= segments@.len(),
                index.sound(),
                same_filters(copy, self.filter_index),
                filters_applied(copy, index, all_filters(segments@, at as nat)),
                forall|i: int|
                    0 <= i < at ==> segment_valid(*self, #[trigger] segments@[i], nodes as nat),
            decreases segments@.len() - at,
        {
            if let Err(error) = check_segment_edges(
                &segments[at],
                &self.relationship_identities,
                nodes,
            ) {
                proof {
                    let bad = segments@[at as int];
                    assert(!segment_edges_bounded(bad, nodes as nat)
                        || !relationships_known(bad, self.relationship_identities));
                    assert(!segments_valid(*self, segments@, nodes as nat));
                    assert(filters_taken(*self, copy, index, all_filters(segments@, at as nat)));
                    assert(segment_fails(*self, segments@, nodes as nat, at as nat, error@));
                }
                return Err(error);
            }
            if let Err(error) = check_segment_tenants(&segments[at], nodes) {
                proof {
                    assert(!tenants_valid(segments@[at as int], nodes as nat));
                    assert(!segments_valid(*self, segments@, nodes as nat));
                    assert(filters_taken(*self, copy, index, all_filters(segments@, at as nat)));
                    assert(segment_fails(*self, segments@, nodes as nat, at as nat, error@));
                }
                return Err(error);
            }
            if let Err(error) = apply_segment_filters(
                &mut index,
                &segments[at],
                nodes,
                Ghost(copy),
                Ghost(all_filters(segments@, at as nat)),
            ) {
                proof {
                    assert(filters_refused(
                        copy,
                        all_filters(segments@, (at + 1) as nat),
                        nodes as nat,
                    ));
                    assert(filters_error(
                        copy,
                        all_filters(segments@, (at + 1) as nat),
                        nodes as nat,
                        error@,
                    ));
                    assert(segment_valid(*self, segments@[at as int], nodes as nat));
                    assert(segment_filter_fails(
                        *self,
                        segments@,
                        nodes as nat,
                        at as nat,
                        error@,
                    ));
                }
                return Err(error);
            }
            at = at + 1;
        }
        proof {
            let n = nodes as nat;
            assert forall|i: int| 0 <= i < segments@.len() implies segment_edges_bounded(
                #[trigger] segments@[i],
                n,
            ) by {
                assert(segment_valid(*self, segments@[i], n));
            }
            assert(segments_bounded(segments@, n));
            assert(segments_valid(*self, segments@, n));
            assert(filters_applied(copy, index, all_filters(segments@, segments@.len())));
        }
        Ok(index)
    }

    /// Checks durable segments and makes what they lead to, without changing the
    /// engine. The base rows are the stored ones after the chunks that replace
    /// parts of them.
    pub fn prepare_projection(&self, base: &EdgeStore, segments: &Vec<ProjectionSegment>) -> (result:
        GraphResult<PreparedProjection>)
        requires
            self.wf(),
        ensures
            match result {
                Ok(prepared) => prepared.suits(*self, *base, segments@),
                Err(error) => segments_refused(*self, *base, segments@) && segments_error(
                    *self,
                    *base,
                    segments@,
                    error@,
                ),
            },
    {
        let mut node_store: NodeStore = self.node_store.to_owned_store();
        let entries: Vec<ResolutionEntry> = match apply_slots(&mut node_store, segments) {
            Ok(entries) => entries,
            Err(error) => return Err(error),
        };
        let ghost before = before_segments(*self);
        let nodes: u32 = node_store.node_count();
        proof {
            lemma_segments_grow(before, segments@, segments@.len());
        }
        let filter_index: FilterIndex = match self.check_segments(segments, nodes) {
            Ok(index) => index,
            Err(error) => return Err(error),
        };
        let snapshot: LayeredSnapshot = match LayeredSnapshot::build(base, segments, nodes) {
            Ok(snapshot) => snapshot,
            Err(error) => return Err(error),
        };
        Ok(PreparedProjection { node_store, entries, filter_index, snapshot })
    }

    /// Takes over what was prepared from these segments for this engine.
    pub fn commit_projection(
        &mut self,
        manifest: ProjectionManifest,
        prepared: PreparedProjection,
        segments: &Vec<ProjectionSegment>,
    )
        requires
            old(self).wf(),
            exists|base: EdgeStore| #[trigger] prepared.suits(*old(self), base, segments@),
        ensures
            final(self).wf(),
            forall|base: EdgeStore| #[trigger]
                prepared.suits(*old(self), base, segments@) ==> segments_installed(
                    *old(self),
                    *final(self),
                    manifest,
                    base,
                    segments@,
                ),
    {
        self.node_store = prepared.node_store;
        self.resolution_delta = ResolutionIndexBuilder { entries: prepared.entries };
        self.filter_index = prepared.filter_index;
        apply_tables(&mut self.table_membership, segments);
        apply_tenants(
            &mut self.tenant_membership,
            &mut self.tenanted_table_oids,
            segments,
            &self.node_store,
        );
        self.projection_manifest = Some(manifest);
        self.projection_snapshot = Some(prepared.snapshot);
    }

    /// Applies durable segments over base rows: the stored ones after the chunks
    /// that the manifest replaces parts of them by. The engine changes only if
    /// all segments can be applied.
    pub fn install_projection_manifest(
        &mut self,
        manifest: ProjectionManifest,
        base: &EdgeStore,
        segments: &Vec<ProjectionSegment>,
    ) -> (result: GraphResult<()>)
        requires
            old(self).wf(),
        ensures
            match result {
                Ok(_) => final(self).wf() && segments_installed(
                    *old(self),
                    *final(self),
                    manifest,
                    *base,
                    segments@,
                ),
                Err(error) => {
                    &&& *final(self) == *old(self)
                    &&& segments_refused(*old(self), *base, segments@)
                    &&& segments_error(*old(self), *base, segments@, error@)
                },
            },
    {
        match self.prepare_projection(base, segments) {
            Ok(prepared) => {
                self.commit_projection(manifest, prepared, segments);
                Ok(())
            },
            Err(error) => Err(error),
        }
    }

    /// Whether durable segments are to be read.
    pub open spec fn reads_segments(&self) -> bool {
        &&& self.projection_mode != ProjectionMode::CsrReadonly
        &&& self.projection_manifest matches Some(manifest) && (manifest.segment_count > 0
            || manifest.base_chunk_count > 0)
    }

    /// The graph with durable segments applied, if segments are to be read.
    pub fn layered_snapshot(&self) -> (result: GraphResult<Option<&LayeredSnapshot>>)
        ensures
            match result {
                Ok(Some(snapshot)) => self.reads_segments() && self.projection_snapshot == Some(
                    *snapshot,
                ),
                Ok(None) => !self.reads_segments(),
                Err(error) => self.reads_segments() && self.projection_snapshot is None && error@
                    == ErrorView::Internal("projection snapshot is missing"@),
            },
    {
        if self.projection_mode == ProjectionMode::CsrReadonly {
            return Ok(None);
        }
        match self.projection_manifest {
            None => Ok(None),
            Some(manifest) => {
                if manifest.segment_count == 0 && manifest.base_chunk_count == 0 {
                    return Ok(None);
                }
                match &self.projection_snapshot {
                    Some(snapshot) => Ok(Some(snapshot)),
                    None => Err(internal("projection snapshot is missing")),
                }
            },
        }
    }
}

/// Segments only add nodes, and stay within the nodes that can be addressed.
proof fn lemma_segments_grow(state: Installed, segments: Seq<ProjectionSegment>, count: nat)
    requires
        count <= segments.len(),
    ensures
        after_segments(state, segments, count) matches Some(after) ==> {
            &&& after.nodes.len() >= state.nodes.len()
            &&& after.nodes.len() <= crate::active_bits::bit_capacity_limit() || after.nodes.len()
                == state.nodes.len()
        },
    decreases count,
{
    if count > 0 {
        lemma_segments_grow(state, segments, (count - 1) as nat);
        if let Some(before) = after_segments(state, segments, (count - 1) as nat) {
            let slots = segments[count - 1].resolutions@;
            lemma_slots_grow(before, slots, slots.len());
        }
    }
}

proof fn lemma_slots_grow(
    state: Installed,
    slots: Seq<crate::projection_install::SegmentResolution>,
    count: nat,
)
    ensures
        crate::projection_install::after_slots(state, slots, count) matches Some(after) ==> {
            &&& after.nodes.len() >= state.nodes.len()
            &&& after.nodes.len() <= crate::active_bits::bit_capacity_limit() || after.nodes.len()
                == state.nodes.len()
        },
    decreases count,
{
    if count > 0 {
        lemma_slots_grow(state, slots, (count - 1) as nat);
    }
}

} // verus!
