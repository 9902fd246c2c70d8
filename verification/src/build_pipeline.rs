//! Composition of a persisted build: scanned tables and relationships become
//! an artifact.
use vstd::prelude::*;

use crate::direct_filters::RegisteredFilterColumn;
use crate::errors::{internal, ErrorView, GraphResult};
use crate::persisted_build::{
    build_valid, is_artifact_of, plan_bytes, plan_memory, write_error, write_semantic_artifact,
    DirectArtifact, ProjectionMode, SemanticDirectBuild,
};
use crate::raw_edges::PersistedEdgeRuns;
use crate::resource::{GovernorView, ResourceGovernor};
use crate::run_records::{RecordView, StagedRun};
use crate::scan_edges::{
    all_labels, edge_scan_admitted, edge_scan_error, edge_scan_of, edges_normal, edges_valid,
    registry_bytes, registry_of, scan_persisted_edges, EdgeRow,
};
use crate::scan_rows::SourceRow;
use crate::scan_sources::{
    scan_admitted, scan_countable, scan_nodes, scan_persisted_sources, source_metadata,
    source_runs_of, source_scan_error, sources_normal, sources_valid, PersistedSourceRuns,
};
use crate::scan_sql::{RegisteredEdge, RegisteredTable};

verus! {

/// Least number of run files that a build may use.
pub const MIN_RUN_FILES: usize = 4;

/// Least size that a build must allow a record.
pub const MIN_RECORD_BYTES: usize = 32;

/// Limits and identity of one build.
#[derive(Clone, Copy)]
pub struct DirectBuildOptions {
    pub batch_size: usize,
    pub max_record_bytes: usize,
    pub max_run_files: usize,
    pub merge_fanout: usize,
    pub applied_sync_id: i64,
    pub projection_mode: ProjectionMode,
}

/// What a build reads.
pub struct DirectBuildInput<'a> {
    pub tables: &'a Vec<RegisteredTable>,
    pub rows: &'a Vec<Vec<SourceRow>>,
    pub edges: &'a Vec<RegisteredEdge>,
    pub edge_rows: &'a Vec<Vec<EdgeRow>>,
    pub filters: &'a Vec<RegisteredFilterColumn>,
}

/// Counts of a written artifact.
#[derive(Debug, Clone, Copy, PartialEq, Eq, Structural)]
pub struct DirectBuildResult {
    pub node_count: u32,
    pub edge_count: u32,
    pub pressure_events: u64,
}

/// A run that may be absent, borrowed.
pub open spec fn borrowed(run: &Option<StagedRun>) -> Option<&StagedRun> {
    match run {
        Some(run) => Some(run),
        None => None,
    }
}

/// The build that scanned runs make.
pub open spec fn semantic_build<'a>(
    sources: &'a PersistedSourceRuns,
    edges: &'a PersistedEdgeRuns,
    filters: &'a Vec<RegisteredFilterColumn>,
    options: DirectBuildOptions,
) -> SemanticDirectBuild<'a> {
    SemanticDirectBuild {
        node_count: sources.node_count,
        forward_edge_count: edges.forward_edge_count,
        inbound_edge_count: edges.inbound_edge_count,
        has_forward_weights: sources.has_forward_weights,
        has_inbound_weights: sources.has_forward_weights,
        has_unidirectional_edges: sources.has_unidirectional_edges,
        applied_sync_id: options.applied_sync_id,
        projection_mode: options.projection_mode,
        nodes: borrowed(&sources.nodes),
        forward_edges: borrowed(&edges.forward),
        inbound_edges: borrowed(&edges.inbound),
        resolution: borrowed(&sources.resolution),
        filters: borrowed(&sources.filters),
        filter_dictionary: borrowed(&sources.filter_dictionary),
        relationship_identities: borrowed(&edges.identities),
        tenant_tokens: borrowed(&sources.tenant_tokens),
        tenant_dictionary: borrowed(&sources.tenant_dictionary),
        filter_columns: filters,
        edge_type_registry: &edges.edge_type_registry,
        tenanted_table_oids: &sources.tenanted_table_oids,
        max_record_bytes: options.max_record_bytes,
    }
}

impl<'a> DirectBuildInput<'a> {
    /// Whether rows are given for every table and relationship.
    pub open spec fn wf(&self) -> bool {
        &&& self.tables@.len() == self.rows@.len()
        &&& self.edges@.len() == self.edge_rows@.len()
    }

    /// Whether runs are those that the input is scanned into.
    pub open spec fn scans_to(
        &self,
        sources: PersistedSourceRuns,
        edges: PersistedEdgeRuns,
    ) -> bool {
        &&& source_runs_of(
            sources,
            self.tables@,
            scan_nodes(self.tables@, self.rows@, self.tables@.len()),
            self.edges@,
            self.filters@,
        )
        &&& exists|raw: Seq<RecordView>| #[trigger]
            edge_scan_of(edges, raw, self.edges@, self.edge_rows@)
    }

    /// Whether the input can be scanned.
    pub open spec fn scannable(&self, options: DirectBuildOptions) -> bool {
        &&& scan_countable(self.tables@, self.filters@)
        &&& sources_valid(self.tables@, self.rows@, self.filters@)
        &&& sources_normal(
            scan_nodes(self.tables@, self.rows@, self.tables@.len()),
            self.filters@,
        )
        &&& edges_valid(self.edges@, self.edge_rows@, options.max_record_bytes as nat)
        &&& edges_normal(self.edges@, self.edge_rows@)
    }

    /// A governor once the tables have been scanned.
    pub open spec fn after_sources(&self, governor: GovernorView) -> GovernorView {
        governor.after_memory(source_metadata(self.tables@) as int)
    }

    /// A governor once the relationships have been scanned too.
    pub open spec fn after_edges(&self, governor: GovernorView) -> GovernorView {
        let labels = all_labels(self.edges@, self.edge_rows@, self.edges@.len());
        self.after_sources(governor).after_memory(registry_bytes(registry_of(labels)) as int)
    }

    /// Whether a governor admits the memory of the scans and of the plan.
    pub open spec fn admitted(&self, options: DirectBuildOptions, governor: GovernorView) -> bool {
        let record = options.max_record_bytes as nat;
        &&& scan_admitted(governor, self.tables@, self.filters@, record)
        &&& edge_scan_admitted(self.after_sources(governor), self.edges@, self.edge_rows@, record)
        &&& self.after_edges(governor).admits_memory(
            plan_bytes(self.filters@.len(), record) as int,
        )
    }

    /// Whether whatever the input is scanned into makes an artifact.
    pub open spec fn writable(&self, options: DirectBuildOptions) -> bool {
        forall|sources: PersistedSourceRuns, edges: PersistedEdgeRuns| #[trigger]
            self.scans_to(sources, edges) ==> {
                let build = semantic_build(&sources, &edges, self.filters, options);
                build_valid(build) && plan_memory(build) <= u64::MAX
            }
    }
}

/// Whether the limits of a build are large enough.
pub open spec fn options_valid(options: DirectBuildOptions) -> bool {
    &&& options.max_run_files >= 4
    &&& options.max_record_bytes >= 32
    &&& options.batch_size > 0
    &&& options.merge_fanout >= 2
}

/// Whether an artifact and its counts are those of an input.
pub open spec fn candidate_of(
    artifact: DirectArtifact,
    result: DirectBuildResult,
    sources: PersistedSourceRuns,
    edges: PersistedEdgeRuns,
    input: DirectBuildInput<'_>,
    options: DirectBuildOptions,
) -> bool {
    let build = semantic_build(&sources, &edges, input.filters, options);
    &&& input.scans_to(sources, edges)
    &&& build_valid(build)
    &&& is_artifact_of(artifact, build)
    &&& result.node_count == sources.node_count
    &&& result.edge_count == edges.forward_edge_count
}

/// Scans tables and relationships and assembles an artifact of them. What the
/// scans reserved is given back.
pub fn build_persisted_candidate(
    input: &DirectBuildInput<'_>,
    governor: &mut ResourceGovernor,
    options: &DirectBuildOptions,
    pressure_events: u64,
) -> (result: GraphResult<(DirectArtifact, DirectBuildResult)>)
    requires
        input.wf(),
    ensures
        final(governor)@ == old(governor)@,
        result matches Ok((artifact, counts)) ==> {
            &&& options_valid(*options)
            &&& input.admitted(*options, old(governor)@)
            &&& counts.pressure_events == pressure_events
            &&& exists|sources: PersistedSourceRuns, edges: PersistedEdgeRuns| #[trigger]
                candidate_of(artifact, counts, sources, edges, *input, *options)
        },
        options_valid(*options) && input.scannable(*options) && input.writable(*options)
            && input.admitted(*options, old(governor)@) && !old(governor)@.can_expire()
            ==> result is Ok,
        result matches Err(error) ==> if options.max_run_files < 4 || options.max_record_bytes < 32 {
            error@ == ErrorView::Internal("direct persisted build run limits are too small"@)
        } else if options.batch_size == 0 || options.merge_fanout < 2 {
            error@ == ErrorView::Internal(
                "persisted source scan batch size must be positive and merge fanout at least two"@,
            )
        } else {
            ||| source_scan_error(
                error@,
                old(governor)@,
                input.tables@,
                input.rows@,
                input.filters@,
                options.max_record_bytes as nat,
            )
            ||| edge_scan_error(
                error@,
                input.after_sources(old(governor)@),
                input.edges@,
                input.edge_rows@,
                options.max_record_bytes as nat,
            )
            ||| exists|sources: PersistedSourceRuns, edges: PersistedEdgeRuns| #[trigger]
                input.scans_to(sources, edges) && write_error(
                    error@,
                    semantic_build(&sources, &edges, input.filters, *options),
                    input.after_edges(old(governor)@),
                )
        },
        !options_valid(*options) ==> result is Err,
{
    if options.max_run_files < MIN_RUN_FILES || options.max_record_bytes < MIN_RECORD_BYTES {
        return Err(internal("direct persisted build run limits are too small"));
    }
    let used: u64 = governor.memory_used();
    let sources: PersistedSourceRuns = match scan_persisted_sources(
        input.tables,
        input.rows,
        input.edges,
        input.filters,
        governor,
        options.batch_size,
        options.max_record_bytes,
        options.merge_fanout,
    ) {
        Ok(sources) => sources,
        Err(error) => return Err(error),
    };
    let scanned: GraphResult<PersistedEdgeRuns> = scan_persisted_edges(
        input.edges,
        input.edge_rows,
        governor,
        options.batch_size,
        options.max_record_bytes,
        options.merge_fanout,
    );
    let edges: PersistedEdgeRuns = match scanned {
        Ok(edges) => edges,
        Err(error) => {
            let reserved: u64 = governor.memory_used();
            governor.release_memory(reserved - used);
            return Err(error);
        },
    };
    let build = SemanticDirectBuild {
        node_count: sources.node_count,
        forward_edge_count: edges.forward_edge_count,
        inbound_edge_count: edges.inbound_edge_count,
        has_forward_weights: sources.has_forward_weights,
        has_inbound_weights: sources.has_forward_weights,
        has_unidirectional_edges: sources.has_unidirectional_edges,
        applied_sync_id: options.applied_sync_id,
        projection_mode: options.projection_mode,
        nodes: sources.nodes.as_ref(),
        forward_edges: edges.forward.as_ref(),
        inbound_edges: edges.inbound.as_ref(),
        resolution: sources.resolution.as_ref(),
        filters: sources.filters.as_ref(),
        filter_dictionary: sources.filter_dictionary.as_ref(),
        relationship_identities: edges.identities.as_ref(),
        tenant_tokens: sources.tenant_tokens.as_ref(),
        tenant_dictionary: sources.tenant_dictionary.as_ref(),
        filter_columns: input.filters,
        edge_type_registry: &edges.edge_type_registry,
        tenanted_table_oids: &sources.tenanted_table_oids,
        max_record_bytes: options.max_record_bytes,
    };
    assert(build == semantic_build(&sources, &edges, input.filters, *options));
    assert(input.scans_to(sources, edges));
    let written: GraphResult<DirectArtifact> = write_semantic_artifact(&build, governor);
    let reserved: u64 = governor.memory_used();
    governor.release_memory(reserved - used);
    match written {
        Ok(artifact) => {
            let counts = DirectBuildResult {
                node_count: sources.node_count,
                edge_count: edges.forward_edge_count,
                pressure_events,
            };
            assert(candidate_of(artifact, counts, sources, edges, *input, *options));
            Ok((artifact, counts))
        },
        Err(error) => Err(error),
    }
}

} // verus!
