//! What a built artifact tells of the rows that it was built from.
use vstd::prelude::*;

use crate::artifact_law::{
    adjacency_at, law_artifact_reads_as_its_build, maps_nodes, section,
};
use crate::build_law::{
    counted_part, csr_holds, law_scanned_rows_can_be_found, names_differ, registry_label,
};
use crate::build_pipeline::{
    build_persisted_candidate, candidate_of, semantic_build, DirectBuildInput, DirectBuildOptions,
    DirectBuildResult,
};
use crate::direct_edges::edges_of;
use crate::filter_catalog::{column_meta, column_place, place_texts, place_value};
use crate::filter_column::word;
use crate::filter_image::ColumnImage;
use crate::node_store::{MmapNodeArrayParts, NodeView};
use crate::persisted_build::DirectArtifact;
use crate::raw_edges::PersistedEdgeRuns;
use crate::resource::ResourceGovernor;
use crate::run_records::RecordView;
use crate::scan_edges::edge_scan_of;
use crate::scan_rows::SourceNode;
use crate::scan_sources::{owned_view, scan_nodes, PersistedSourceRuns};
use crate::source_scan_law::{
    columns_before, image_tells, law_scanned_rows_tell_filter_values,
    law_scanned_rows_tell_tenants, tenant_of, without_zeros,
};

verus! {

/// What an artifact holds of a filter column.
pub open spec fn stored_column(artifact: DirectArtifact, nodes: nat, column: int) -> ColumnImage {
    let place = column_place(section(artifact, 17), column, 0, 0);
    ColumnImage {
        meta: column_meta(section(artifact, 17), column),
        values: Seq::new(
            nodes,
            |node: int| place_value(section(artifact, 18), place, nodes, node),
        ),
        texts: place_texts(section(artifact, 19), place),
    }
}

/// The rows with keys that an input gives, in the order of tables and rows.
pub open spec fn input_nodes(input: DirectBuildInput<'_>) -> Seq<SourceNode> {
    scan_nodes(input.tables@, input.rows@, input.tables@.len())
}

/// An artifact that is built of tables has a live node for each row with a key,
/// under its table and key, and tells each node's value in each filter column of
/// its table; what is counted is what was scanned.
#[verifier::spinoff_prover]
#[verifier::rlimit(60)]
pub proof fn law_built_artifact_tells_its_rows(
    input: DirectBuildInput<'_>,
    governor: &mut ResourceGovernor,
    options: DirectBuildOptions,
    pressure: u64,
    artifact: DirectArtifact,
    counts: DirectBuildResult,
    parts: MmapNodeArrayParts,
    node: int,
    column: int,
)
    requires
        call_ensures(
            build_persisted_candidate,
            (&input, governor, &options, pressure),
            Ok((artifact, counts)),
        ),
        input.scannable(options),
    ensures
        ({
            let nodes = input_nodes(input);
            let filters = input.filters@;
            let table = nodes[node].table.table_oid;
            let image = stored_column(artifact, nodes.len(), column);
            &&& counts.node_count == nodes.len()
            &&& counts.pressure_events == pressure
            &&& artifact.metadata.node_count == nodes.len()
            &&& artifact.metadata.forward_edge_count == counts.edge_count
            &&& artifact.metadata.applied_sync_id == options.applied_sync_id
            &&& artifact.metadata.projection_mode == options.projection_mode
            &&& final(governor)@ == old(governor)@
            &&& maps_nodes(parts, artifact) ==> parts.valid() && parts.nodes() == Seq::new(
                nodes.len(),
                |i: int|
                    NodeView {
                        active: true,
                        table_oid: nodes[i].table.table_oid,
                        key: nodes[i].row.primary_key->Some_0@,
                    },
            )
            &&& names_differ(filters) && 0 <= node < nodes.len() && 0 <= column < filters.len() ==> {
                &&& image.meta.table_oid == filters[column].table_oid
                &&& image.meta.name == filters[column].column_name@
                &&& filters[column].table_oid == table ==> image_tells(
                    image,
                    node,
                    nodes[node].row.filters@[columns_before(
                        filters,
                        table,
                        column as nat,
                    ) as int],
                )
                &&& filters[column].table_oid != table ==> image.values[node] is None
            }
        }),
{
    let nodes = input_nodes(input);
    let filters = input.filters@;
    let (sources, edges) = choose|sources: PersistedSourceRuns, edges: PersistedEdgeRuns|
        #[trigger]
        candidate_of(artifact, counts, sources, edges, input, options);
    let build = semantic_build(&sources, &edges, input.filters, options);
    law_artifact_reads_as_its_build(artifact, build, parts);
    law_scanned_rows_can_be_found(sources, input.tables@, nodes, input.edges@, filters);
    if maps_nodes(parts, artifact) {
        assert(parts.nodes() =~= Seq::new(
            nodes.len(),
            |i: int|
                NodeView {
                    active: true,
                    table_oid: nodes[i].table.table_oid,
                    key: nodes[i].row.primary_key->Some_0@,
                },
        ));
    }
    if names_differ(filters) && 0 <= node < nodes.len() && 0 <= column < filters.len() {
        law_scanned_rows_tell_filter_values(
            sources,
            input.tables@,
            nodes,
            input.edges@,
            filters,
            node,
            column,
        );
        let images = crate::persisted_build::build_images(build);
        let place = column_place(section(artifact, 17), column, 0, 0);
        assert(images[column].values[node] == place_value(
            section(artifact, 18),
            place,
            nodes.len(),
            node,
        ));
    }
}

/// An artifact that is built of tables tells each node's tenant by its token, and
/// none of a node without one. Tenants are texts without zero bytes.
#[verifier::spinoff_prover]
#[verifier::rlimit(60)]
pub proof fn law_built_artifact_tells_tenants(
    input: DirectBuildInput<'_>,
    governor: &mut ResourceGovernor,
    options: DirectBuildOptions,
    pressure: u64,
    artifact: DirectArtifact,
    counts: DirectBuildResult,
    parts: MmapNodeArrayParts,
    node: int,
)
    requires
        call_ensures(
            build_persisted_candidate,
            (&input, governor, &options, pressure),
            Ok((artifact, counts)),
        ),
        input.scannable(options),
        forall|i: int|
            0 <= i < input_nodes(input).len() ==> (tenant_of(
                #[trigger] input_nodes(input)[i],
            ) matches Some(tenant) ==> without_zeros(tenant)),
        0 <= node < input_nodes(input).len(),
    ensures
        ({
            let token = word(section(artifact, 25), 4 * node, 4);
            match tenant_of(input_nodes(input)[node]) {
                Some(tenant) => {
                    &&& 1 <= token <= word(section(artifact, 24), 0, 4)
                    &&& counted_part(section(artifact, 24), token - 1) == tenant
                },
                None => token == 0,
            }
        }),
{
    let nodes = input_nodes(input);
    let (sources, edges) = choose|sources: PersistedSourceRuns, edges: PersistedEdgeRuns|
        #[trigger]
        candidate_of(artifact, counts, sources, edges, input, options);
    let build = semantic_build(&sources, &edges, input.filters, options);
    law_artifact_reads_as_its_build(artifact, build, parts);
    law_scanned_rows_tell_tenants(
        sources,
        input.tables@,
        nodes,
        input.edges@,
        input.filters@,
        node,
    );
    let tokens = crate::run_records::run_view(build.tenant_tokens);
    let token = crate::direct_sections::node_token(tokens, node);
    assert(word(section(artifact, 25), 4 * node, 4) == token);
    let tenants = crate::persisted_build::build_tenants(build);
    if tenant_of(nodes[node]) is Some {
        assert(counted_part(section(artifact, 24), token - 1) == tenants[token - 1]);
    }
}

/// An artifact that is built of relationships holds the edges of their scan, both
/// ways, and its labels: forward edges in the first adjacency sections, inbound
/// ones in the second.
pub proof fn law_built_artifact_holds_scanned_edges(
    input: DirectBuildInput<'_>,
    governor: &mut ResourceGovernor,
    options: DirectBuildOptions,
    pressure: u64,
    artifact: DirectArtifact,
    counts: DirectBuildResult,
    parts: MmapNodeArrayParts,
)
    requires
        call_ensures(
            build_persisted_candidate,
            (&input, governor, &options, pressure),
            Ok((artifact, counts)),
        ),
    ensures
        exists|edges: PersistedEdgeRuns, raw: Seq<RecordView>|
            {
                let nodes = artifact.metadata.node_count as nat;
                let weighted = artifact.metadata.has_forward_weights;
                &&& #[trigger] edge_scan_of(edges, raw, input.edges@, input.edge_rows@)
                &&& csr_holds(
                    adjacency_at(artifact, 4),
                    edges_of(owned_view(edges.forward)),
                    nodes,
                    weighted,
                )
                &&& csr_holds(
                    adjacency_at(artifact, 10),
                    edges_of(owned_view(edges.inbound)),
                    nodes,
                    weighted,
                )
                &&& word(section(artifact, 20), 0, 4) == edges.edge_type_registry@.len()
                &&& forall|i: int|
                    0 <= i < edges.edge_type_registry@.len() ==> registry_label(
                        section(artifact, 20),
                        i,
                    ) == (#[trigger] edges.edge_type_registry@[i])@
            },
        artifact.metadata.has_forward_weights <==> exists|i: int|
            0 <= i < input.edges@.len() && (#[trigger] input.edges@[i]).weight_column is Some,
        artifact.metadata.has_unidirectional_edges <==> exists|i: int|
            0 <= i < input.edges@.len() && !(#[trigger] input.edges@[i]).bidirectional,
{
    let (sources, edges) = choose|sources: PersistedSourceRuns, edges: PersistedEdgeRuns|
        #[trigger]
        candidate_of(artifact, counts, sources, edges, input, options);
    let build = semantic_build(&sources, &edges, input.filters, options);
    law_artifact_reads_as_its_build(artifact, build, parts);
    let raw = choose|raw: Seq<RecordView>| #[trigger]
        edge_scan_of(edges, raw, input.edges@, input.edge_rows@);
    assert(edge_scan_of(edges, raw, input.edges@, input.edge_rows@));
}

} // verus!
