//! An artifact gives back what its build says, section by section.
use vstd::prelude::*;

use crate::build_law::{
    counted_part, csr_holds, holds_nodes, identity_at, law_built_edges_read_back,
    law_built_filters_read_back, law_built_identities_read_back, law_built_nodes_read_back,
    law_built_registry_reads_back, law_built_tenant_tokens_read_back,
    law_built_tenanted_tables_read_back, law_counted_list_reads_back,
    law_resolution_section_reads_back, names_differ, node_of, registry_label,
};
use crate::direct_edges::{edges_of, CsrView};
use crate::direct_sections::{identity_key, identity_mapping, label_bytes, node_token};
use crate::errors::GraphResult;
use crate::filter_catalog::{
    catalog_count, column_meta, column_place, place_texts, place_value, sections_valid,
};
use crate::filter_column::word;
use crate::filter_image::{images_fit, lemma_data_part, lemma_dictionary_part};
use crate::node_store::MmapNodeArrayParts;
use crate::persisted_build::{
    artifact_sections, build_images, build_tenants, build_valid, is_artifact_of, length_views,
    lengths_of, metadata_of, section_views, DirectArtifact, SemanticDirectBuild,
};
use crate::prepared_artifact::{contents, write_prepared_artifact, DirectBuildArtifact};
use crate::run_records::run_view;

verus! {

/// The bytes of a section.
pub open spec fn section(artifact: DirectArtifact, at: int) -> Seq<u8> {
    artifact.sections@[at]@
}

/// The six adjacency sections from a place on.
pub open spec fn adjacency_at(artifact: DirectArtifact, at: int) -> CsrView {
    CsrView {
        offsets: section(artifact, at),
        targets: section(artifact, at + 1),
        types: section(artifact, at + 2),
        reversed: section(artifact, at + 3),
        weights: section(artifact, at + 4),
        identities: section(artifact, at + 5),
    }
}

/// Whether ranges of a file hold the node sections of an artifact, aligned for
/// their numbers.
pub open spec fn maps_nodes(parts: MmapNodeArrayParts, artifact: DirectArtifact) -> bool {
    &&& parts.node_count == artifact.metadata.node_count
    &&& parts.holds(parts.active_range)
    &&& parts.holds(parts.oid_range)
    &&& parts.holds(parts.pk_offsets_range)
    &&& parts.holds(parts.pk_bytes_range)
    &&& parts.oid_range.start % 4 == 0
    &&& parts.pk_offsets_range.start % 8 == 0
    &&& parts.section(parts.active_range) == section(artifact, 0)
    &&& parts.section(parts.oid_range) == section(artifact, 1)
    &&& parts.section(parts.pk_offsets_range) == section(artifact, 2)
    &&& parts.section(parts.pk_bytes_range) == section(artifact, 3)
}

/// Whether the filter sections of an artifact are accepted and hold the columns,
/// values and texts of a build.
pub open spec fn filters_read(artifact: DirectArtifact, build: SemanticDirectBuild<'_>) -> bool {
    let images = build_images(build);
    let nodes = build.node_count as nat;
    let (catalog, data, dictionaries) = (
        section(artifact, 17),
        section(artifact, 18),
        section(artifact, 19),
    );
    &&& sections_valid(catalog, data, dictionaries, nodes)
    &&& catalog_count(catalog) == images.len()
    &&& forall|column: int|
        #![trigger images[column]]
        0 <= column < images.len() ==> {
            let place = column_place(catalog, column, 0, 0);
            &&& column_meta(catalog, column) == images[column].meta
            &&& forall|node: int|
                0 <= node < nodes ==> #[trigger] place_value(data, place, nodes, node)
                    == images[column].values[node]
            &&& place.column_type is Text ==> place_texts(dictionaries, place)
                == images[column].texts
        }
}

/// Whether the sections of an artifact beside nodes and filters read as a
/// build's runs: edges both ways, resolution, labels, identities and tenants.
pub open spec fn runs_read(artifact: DirectArtifact, build: SemanticDirectBuild<'_>) -> bool {
    let nodes = build.node_count as nat;
    let resolution = run_view(build.resolution);
    let labels = build.edge_type_registry@;
    let identities = run_view(build.relationship_identities);
    let oids = build.tenanted_table_oids@;
    let tenants = build_tenants(build);
    &&& csr_holds(
        adjacency_at(artifact, 4),
        edges_of(run_view(build.forward_edges)),
        nodes,
        build.has_forward_weights,
    )
    &&& csr_holds(
        adjacency_at(artifact, 10),
        edges_of(run_view(build.inbound_edges)),
        nodes,
        build.has_inbound_weights,
    )
    &&& word(section(artifact, 16), 0, 4) == nodes
    &&& forall|i: int|
        0 <= i < nodes ==> section(artifact, 16).subrange(4 + 16 * i, 20 + 16 * i) == (
        #[trigger] resolution[i]).value
    &&& word(section(artifact, 20), 0, 4) == labels.len()
    &&& forall|i: int|
        0 <= i < labels.len() ==> registry_label(section(artifact, 20), i) == (
        #[trigger] labels[i])@
    &&& forall|i: int|
        0 <= i < identities.len() ==> identity_at(section(artifact, 21), section(artifact, 22), i)
            == (
            identity_mapping(#[trigger] identities[i]) as nat,
            identity_key(identities[i]),
        )
    &&& section(artifact, 23).len() == 4 * oids.len()
    &&& forall|i: int|
        0 <= i < oids.len() ==> word(section(artifact, 23), 4 * i, 4) == #[trigger] oids[i]
    &&& word(section(artifact, 24), 0, 4) == tenants.len()
    &&& forall|i: int|
        0 <= i < tenants.len() ==> counted_part(section(artifact, 24), i) == #[trigger] tenants[i]
    &&& forall|node: int|
        0 <= node < nodes ==> word(section(artifact, 25), 4 * node, 4) == #[trigger] node_token(
            run_view(build.tenant_tokens),
            node,
        )
}

/// A written artifact reads back as its build: the header's counts and modes;
/// every node, live, with its table and key; the edges of both directions with
/// their types, weights and relationships; the resolution records; the edge
/// types; the relationship identities; the tenants; and, where no table has two
/// filter columns of one name, the filter columns, values and texts.
pub proof fn law_artifact_reads_as_its_build(
    artifact: DirectArtifact,
    build: SemanticDirectBuild<'_>,
    parts: MmapNodeArrayParts,
)
    requires
        build_valid(build),
        is_artifact_of(artifact, build),
    ensures
        artifact.metadata == metadata_of(build),
        maps_nodes(parts, artifact) ==> {
            &&& parts.valid()
            &&& parts.nodes() == Seq::new(
                build.node_count as nat,
                |i: int| node_of(run_view(build.nodes)[i]),
            )
        },
        runs_read(artifact, build),
        names_differ(build.filter_columns@) ==> filters_read(artifact, build),
{
    let nodes = build.node_count as nat;
    let sections = artifact_sections(build);
    assert forall|i: int| 0 <= i < 26 implies #[trigger] section(artifact, i) == sections[i] by {
        assert(section_views(artifact.sections@)[i] == sections[i]);
    }
    if maps_nodes(parts, artifact) {
        assert(holds_nodes(parts, run_view(build.nodes)));
        law_built_nodes_read_back(parts, run_view(build.nodes));
    }
    lemma_runs_read(artifact, build);
    if names_differ(build.filter_columns@) {
        lemma_filters_read(artifact, build);
    }
}

proof fn lemma_filters_read(artifact: DirectArtifact, build: SemanticDirectBuild<'_>)
    requires
        build_valid(build),
        is_artifact_of(artifact, build),
        names_differ(build.filter_columns@),
    ensures
        filters_read(artifact, build),
{
    let sections = artifact_sections(build);
    let images = build_images(build);
    assert forall|i: int| 0 <= i < 26 implies #[trigger] section(artifact, i) == sections[i] by {
        assert(section_views(artifact.sections@)[i] == sections[i]);
    }
    assert(images_fit(images)) by {
        assert(section(artifact, 17).len() <= usize::MAX) by {
            assert(artifact.sections@[17].len() == artifact.sections@[17]@.len());
        }
        assert(section(artifact, 18).len() <= usize::MAX) by {
            assert(artifact.sections@[18].len() == artifact.sections@[18]@.len());
        }
        assert(section(artifact, 19).len() <= usize::MAX) by {
            assert(artifact.sections@[19].len() == artifact.sections@[19]@.len());
        }
        lemma_data_part(images, images.len(), images.len() as int);
        lemma_dictionary_part(images, images.len(), images.len() as int);
    }
    law_built_filters_read_back(
        build.filter_columns@,
        run_view(build.filters),
        run_view(build.filter_dictionary),
        build.node_count as nat,
    );
}

proof fn lemma_runs_read(artifact: DirectArtifact, build: SemanticDirectBuild<'_>)
    requires
        build_valid(build),
        is_artifact_of(artifact, build),
    ensures
        runs_read(artifact, build),
{
    let nodes = build.node_count as nat;
    let sections = artifact_sections(build);
    let labels = build.edge_type_registry@;
    let identities = run_view(build.relationship_identities);
    let oids = build.tenanted_table_oids@;
    let tenants = build_tenants(build);
    assert forall|i: int| 0 <= i < 26 implies #[trigger] section(artifact, i) == sections[i] by {
        assert(section_views(artifact.sections@)[i] == sections[i]);
    }
    law_built_edges_read_back(
        edges_of(run_view(build.forward_edges)),
        nodes,
        build.has_forward_weights,
    );
    law_built_edges_read_back(
        edges_of(run_view(build.inbound_edges)),
        nodes,
        build.has_inbound_weights,
    );
    law_resolution_section_reads_back(run_view(build.resolution), nodes);
    law_counted_list_reads_back(label_bytes(labels));
    assert forall|i: int| 0 <= i < labels.len() implies registry_label(section(artifact, 20), i)
        == (#[trigger] labels[i])@ by {
        law_built_registry_reads_back(labels, i);
    }
    assert forall|i: int| 0 <= i < identities.len() implies identity_at(
        section(artifact, 21),
        section(artifact, 22),
        i,
    ) == (
        identity_mapping(#[trigger] identities[i]) as nat,
        identity_key(identities[i]),
    ) by {
        law_built_identities_read_back(identities, i);
    }
    assert(section(artifact, 23).len() == 4 * oids.len()) by {
        if oids.len() > 0 {
            law_built_tenanted_tables_read_back(oids, 0);
        } else {
            assert(crate::direct_sections::word_parts(oids).len() == 0);
        }
    }
    assert forall|i: int| 0 <= i < oids.len() implies word(section(artifact, 23), 4 * i, 4)
        == #[trigger] oids[i] by {
        law_built_tenanted_tables_read_back(oids, i);
    }
    law_counted_list_reads_back(tenants);
    assert forall|node: int| 0 <= node < nodes implies word(section(artifact, 25), 4 * node, 4)
        == #[trigger] node_token(run_view(build.tenant_tokens), node) by {
        law_built_tenant_tokens_read_back(run_view(build.tenant_tokens), nodes, node);
    }
}

/// Given sections are written as they are, each with its length, if there are
/// twenty-six, a bitmap of live nodes that is given as bytes has a bit for each
/// node and no byte more, both directions have as many edges, and each length fits
/// eight bytes; else they are refused.
pub proof fn law_prepared_sections_are_written(
    artifact: DirectBuildArtifact<'_>,
    result: GraphResult<DirectArtifact>,
    at: int,
)
    requires
        call_ensures(write_prepared_artifact, (&artifact,), result),
        0 <= at < 26,
    ensures
        ({
            let sections = artifact.sections@;
            let (nodes, bits) = (
                artifact.metadata.node_count as int,
                8 * sections[0].content().len() as int,
            );
            &&& result is Ok <==> {
                &&& sections.len() == 26
                &&& sections[0] is Bytes ==> nodes <= bits < nodes + 8
                &&& artifact.metadata.forward_edge_count == artifact.metadata.inbound_edge_count
                &&& forall|i: int|
                    0 <= i < 26 ==> (#[trigger] sections[i]).content().len() <= u64::MAX
            }
            &&& result matches Ok(written) ==> {
                &&& written.metadata == artifact.metadata
                &&& written.sections@.len() == 26 && written.section_lengths@.len() == 26
                &&& written.sections@[at]@ == sections[at].content()
                &&& written.section_lengths@[at] == sections[at].content().len()
            }
        }),
{
    let sections = artifact.sections@;
    if let Ok(written) = result {
        let views = section_views(written.sections@);
        let lengths = length_views(written.section_lengths@);
        let wanted = contents(sections);
        assert(views.len() == 26);
        assert(lengths.len() == 26);
        assert(views[at] == wanted[at]);
        assert(lengths[at] == lengths_of(wanted)[at]);
    }
}

} // verus!
