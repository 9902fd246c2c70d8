//! Assembly of an artifact from staged runs: what each section holds, how long
//! it is, and which runs are refused.
use vstd::prelude::*;
use vstd::string::StringExecFns;
use vstd::utf8::encode_utf8;

use crate::codec::lemma_le_len;
use crate::direct_edges::{
    csr_of, edges_of, edges_valid, emit_csr, number_parts, offset_parts, replay_edges,
    sources_ordered, CsrSections, DecodedEdge,
};
use crate::direct_filters::{
    domains_known, column_values, domains_of, emit_filter_sections, filters_fit, filters_valid,
    group_views, inspect_filter_dictionaries, lemma_run_image_valid, parse_domains, run_image,
    run_images, FilterSections, RegisteredFilterColumn,
};
use crate::direct_nodes::{
    active_bitmap, decode_nodes, emit_active_bitmap, emit_primary_key_offsets, emit_primary_keys,
    emit_table_oids, node_keys, node_tables, nodes_valid, NodeRows,
};
use crate::direct_sections::{
    counted_list, emit_identity_descriptors, emit_identity_keys, emit_registry, emit_resolution,
    emit_tenant_dictionary, emit_tenant_tokens, emit_tenanted_oids, identities_valid,
    identity_descriptors, identity_keys, identity_parts, inspect_tenant_dictionary, label_bytes,
    record_values, replay_identities, resolution_bytes, resolution_valid, strictly_sorted,
    tenant_tokens_valid, tenants_valid, token_parts, without_repeats, word_parts, IdentityRows,
};
use crate::errors::{internal, ErrorView, GraphError, GraphResult};
use crate::filter_column::presence_len;
use crate::filter_image::{
    catalog_of, column_dictionary, data_bytes, data_end, data_of, dictionaries_end,
    dictionaries_of, lemma_data_part, lemma_descriptors_len, lemma_dictionary_part,
    lemma_name_part, lemma_slots_len, names_end, ColumnImage,
};
use crate::filter_value::FilterColumnType;
use crate::parts::{end_table, joined, joined_len, lemma_table_len, views};
use crate::resource::{limit_error, GovernorView, ResourceGovernor, ResourceKind, ResourcePhase};
use crate::run_records::{run_len, run_view, StagedRun};
use crate::text::{decimal, decimal_text, same_text};

verus! {

/// Number of sections of an artifact.
pub const SECTION_COUNT: usize = 26;

/// How an artifact's projection may change.
#[derive(Debug, Clone, Copy, PartialEq, Eq, Structural)]
pub enum ProjectionMode {
    CsrReadonly,
    MutableOverlay,
}

/// Staged runs and metadata of one build.
pub struct SemanticDirectBuild<'a> {
    pub node_count: u32,
    pub forward_edge_count: u32,
    pub inbound_edge_count: u32,
    pub has_forward_weights: bool,
    pub has_inbound_weights: bool,
    pub has_unidirectional_edges: bool,
    pub applied_sync_id: i64,
    pub projection_mode: ProjectionMode,
    pub nodes: Option<&'a StagedRun>,
    pub forward_edges: Option<&'a StagedRun>,
    pub inbound_edges: Option<&'a StagedRun>,
    pub resolution: Option<&'a StagedRun>,
    pub filters: Option<&'a StagedRun>,
    pub filter_dictionary: Option<&'a StagedRun>,
    pub relationship_identities: Option<&'a StagedRun>,
    pub tenant_tokens: Option<&'a StagedRun>,
    pub tenant_dictionary: Option<&'a StagedRun>,
    pub filter_columns: &'a Vec<RegisteredFilterColumn>,
    pub edge_type_registry: &'a Vec<String>,
    pub tenanted_table_oids: &'a Vec<u32>,
    pub max_record_bytes: usize,
}

/// Counts and modes in an artifact's header.
#[derive(Debug, Clone, Copy, PartialEq, Eq, Structural)]
pub struct DirectArtifactMetadata {
    pub node_count: u32,
    pub forward_edge_count: u32,
    pub inbound_edge_count: u32,
    pub has_forward_weights: bool,
    pub has_inbound_weights: bool,
    pub has_unidirectional_edges: bool,
    pub applied_sync_id: i64,
    pub projection_mode: ProjectionMode,
}

/// Whether a registry of edge types is canonical: at most 255 labels, the first
/// empty, no other empty, none twice.
pub open spec fn registry_shape(labels: Seq<String>) -> bool {
    &&& 1 <= labels.len() <= 255
    &&& labels[0]@.len() == 0
    &&& forall|i: int| 1 <= i < labels.len() ==> (#[trigger] labels[i])@.len() != 0
}

/// Whether no label occurs twice.
pub open spec fn labels_differ(labels: Seq<String>) -> bool {
    forall|i: int, j: int|
        0 <= i < j < labels.len() ==> (#[trigger] labels[i])@ != (#[trigger] labels[j])@
}

/// The message for a run with another number of records than announced.
pub open spec fn count_message(label: Seq<char>, actual: nat, expected: nat) -> Seq<char> {
    "direct "@ + label + " run has "@ + decimal(actual) + " records, expected "@ + decimal(expected)
}

/// Why a build's counts or registry are refused, if they are.
pub open spec fn shape_error(build: SemanticDirectBuild<'_>) -> Option<Seq<char>> {
    if build.forward_edge_count != build.inbound_edge_count || build.has_forward_weights
        != build.has_inbound_weights || !registry_shape(build.edge_type_registry@) {
        Some("invalid direct artifact counts, weight mode, or edge type registry"@)
    } else if !labels_differ(build.edge_type_registry@) {
        Some("direct edge type registry contains duplicate labels"@)
    } else if run_view(build.forward_edges).len() != build.forward_edge_count {
        Some(
            count_message(
                "forward"@,
                run_view(build.forward_edges).len(),
                build.forward_edge_count as nat,
            ),
        )
    } else if run_view(build.inbound_edges).len() != build.inbound_edge_count {
        Some(
            count_message(
                "inbound"@,
                run_view(build.inbound_edges).len(),
                build.inbound_edge_count as nat,
            ),
        )
    } else if run_view(build.nodes).len() != build.node_count {
        Some(count_message("node"@, run_view(build.nodes).len(), build.node_count as nat))
    } else {
        None
    }
}

fn count_text(label: &str, actual: u64, expected: u32) -> (text: String)
    ensures
        text@ == count_message(label@, actual as nat, expected as nat),
{
    "direct ".to_owned().concat(label).concat(" run has ").concat(
        decimal_text(actual).as_str(),
    ).concat(" records, expected ").concat(decimal_text(expected as u64).as_str())
}

fn check_registry_shape(labels: &Vec<String>) -> (result: bool)
    ensures
        result == registry_shape(labels@),
{
    if labels.len() == 0 || labels.len() > 255 || !labels[0].as_str().is_empty() {
        return false;
    }
    let mut at: usize = 1;
    while at < labels.len()
        invariant
            1 <= at <= labels@.len() <= 255,
            labels@[0]@.len() == 0,
            forall|i: int| 1 <= i < at ==> (#[trigger] labels@[i])@.len() != 0,
        decreases labels@.len() - at,
    {
        if labels[at].as_str().is_empty() {
            assert(labels@[at as int]@.len() == 0);
            return false;
        }
        at = at + 1;
    }
    true
}

fn check_labels_differ(labels: &Vec<String>) -> (result: bool)
    ensures
        result == labels_differ(labels@),
{
    let mut right: usize = 0;
    while right < labels.len()
        invariant
            right <= labels@.len(),
            forall|i: int, j: int|
                0 <= i < j < right ==> (#[trigger] labels@[i])@ != (#[trigger] labels@[j])@,
        decreases labels@.len() - right,
    {
        let mut left: usize = 0;
        while left < right
            invariant
                left <= right < labels@.len(),
                forall|i: int|
                    0 <= i < left ==> (#[trigger] labels@[i])@ != labels@[right as int]@,
            decreases right - left,
        {
            if same_text(labels[left].as_str(), labels[right].as_str()) {
                assert(labels@[left as int]@ == labels@[right as int]@);
                return false;
            }
            left = left + 1;
        }
        right = right + 1;
    }
    true
}

/// Accepts a build whose counts and registry agree with its runs.
pub fn validate_semantic_shape(build: &SemanticDirectBuild<'_>) -> (result: GraphResult<()>)
    ensures
        match shape_error(*build) {
            Some(text) => result matches Err(error) && error@ == ErrorView::Internal(text),
            None => result is Ok,
        },
{
    if build.forward_edge_count != build.inbound_edge_count || build.has_forward_weights
        != build.has_inbound_weights || !check_registry_shape(build.edge_type_registry) {
        return Err(
            internal("invalid direct artifact counts, weight mode, or edge type registry"),
        );
    }
    if !check_labels_differ(build.edge_type_registry) {
        return Err(internal("direct edge type registry contains duplicate labels"));
    }
    let forward: u64 = run_len(build.forward_edges);
    if forward != build.forward_edge_count as u64 {
        return Err(GraphError::Internal(count_text("forward", forward, build.forward_edge_count)));
    }
    let inbound: u64 = run_len(build.inbound_edges);
    if inbound != build.inbound_edge_count as u64 {
        return Err(GraphError::Internal(count_text("inbound", inbound, build.inbound_edge_count)));
    }
    let nodes: u64 = run_len(build.nodes);
    if nodes != build.node_count as u64 {
        return Err(GraphError::Internal(count_text("node", nodes, build.node_count)));
    }
    Ok(())
}

/// The filter columns that a build persists.
pub open spec fn build_images(build: SemanticDirectBuild<'_>) -> Seq<ColumnImage> {
    run_images(
        build.filter_columns@,
        run_view(build.filters),
        run_view(build.filter_dictionary),
        build.node_count as nat,
    )
}

/// The distinct tenants of a build.
pub open spec fn build_tenants(build: SemanticDirectBuild<'_>) -> Seq<Seq<u8>> {
    without_repeats(record_values(run_view(build.tenant_dictionary)))
}

/// Whether every run follows its codec.
pub open spec fn runs_valid(build: SemanticDirectBuild<'_>) -> bool {
    let nodes = build.node_count as nat;
    &&& nodes_valid(run_view(build.nodes), nodes)
    &&& edges_valid(run_view(build.forward_edges), nodes, build.forward_edge_count as nat)
    &&& edges_valid(run_view(build.inbound_edges), nodes, build.inbound_edge_count as nat)
    &&& resolution_valid(run_view(build.resolution), nodes)
    &&& filters_valid(
        build.filter_columns@,
        run_view(build.filters),
        run_view(build.filter_dictionary),
        nodes,
    )
    &&& identities_valid(run_view(build.relationship_identities))
    &&& strictly_sorted(build.tenanted_table_oids@)
    &&& tenants_valid(run_view(build.tenant_dictionary))
    &&& tenant_tokens_valid(run_view(build.tenant_tokens), nodes)
}

/// Whether lengths fit the fields that hold them.
pub open spec fn lengths_fit(build: SemanticDirectBuild<'_>) -> bool {
    let images = build_images(build);
    &&& filters_fit(build.filter_columns@, run_view(build.filter_dictionary))
    &&& joined(node_keys(run_view(build.nodes))).len() <= u64::MAX
    &&& catalog_of(images).len() <= u64::MAX
    &&& data_end(images, images.len()) <= u64::MAX
    &&& dictionaries_end(images, images.len()) <= u64::MAX
    &&& counted_list(label_bytes(build.edge_type_registry@)).len() <= u64::MAX
    &&& joined(identity_keys(run_view(build.relationship_identities))).len() <= u64::MAX
    &&& 4 * build.tenanted_table_oids@.len() <= u64::MAX
    &&& counted_list(build_tenants(build)).len() <= u64::MAX
}

/// Whether a build can be written.
pub open spec fn build_valid(build: SemanticDirectBuild<'_>) -> bool {
    &&& shape_error(build) is None
    &&& runs_valid(build)
    &&& lengths_fit(build)
}

/// What the sections of a build hold.
pub open spec fn artifact_sections(build: SemanticDirectBuild<'_>) -> Seq<Seq<u8>> {
    let nodes = run_view(build.nodes);
    let count = build.node_count as nat;
    let forward = csr_of(
        edges_of(run_view(build.forward_edges)),
        count,
        build.has_forward_weights,
    );
    let inbound = csr_of(
        edges_of(run_view(build.inbound_edges)),
        count,
        build.has_inbound_weights,
    );
    let images = build_images(build);
    let identities = run_view(build.relationship_identities);
    seq![
        active_bitmap(count),
        joined(node_tables(nodes)),
        end_table(node_keys(nodes), count + 1),
        joined(node_keys(nodes)),
        forward.offsets,
        forward.targets,
        forward.types,
        forward.reversed,
        forward.weights,
        forward.identities,
        inbound.offsets,
        inbound.targets,
        inbound.types,
        inbound.reversed,
        inbound.weights,
        inbound.identities,
        resolution_bytes(run_view(build.resolution)),
        catalog_of(images),
        data_of(images, images.len()),
        dictionaries_of(images, images.len()),
        counted_list(label_bytes(build.edge_type_registry@)),
        identity_descriptors(identities),
        joined(identity_keys(identities)),
        joined(word_parts(build.tenanted_table_oids@)),
        counted_list(build_tenants(build)),
        joined(token_parts(run_view(build.tenant_tokens), count)),
    ]
}

/// Parts of one width have that width each.
proof fn lemma_fixed_parts(parts: Seq<Seq<u8>>, width: nat)
    requires
        forall|i: int| 0 <= i < parts.len() ==> (#[trigger] parts[i]).len() == width,
    ensures
        joined(parts).len() == width * parts.len(),
    decreases parts.len(),
{
    if parts.len() > 0 {
        let rest = parts.drop_last();
        assert forall|i: int| 0 <= i < rest.len() implies (#[trigger] rest[i]).len() == width by {
            assert(rest[i] == parts[i]);
        }
        lemma_fixed_parts(rest, width);
        assert(width * parts.len() == width * rest.len() + width) by (nonlinear_arith)
            requires
                parts.len() == rest.len() + 1,
        ;
    }
}

proof fn lemma_number_parts(edges: Seq<DecodedEdge>, field: spec_fn(DecodedEdge) -> u32)
    ensures
        joined(number_parts(edges, field)).len() == 4 * edges.len(),
{
    let parts = number_parts(edges, field);
    assert forall|i: int| 0 <= i < parts.len() implies (#[trigger] parts[i]).len() == 4 by {
        lemma_le_len(field(edges[i]) as nat, 4);
    }
    lemma_fixed_parts(parts, 4);
}

/// The lengths of adjacency sections.
proof fn lemma_csr_lengths(edges: Seq<DecodedEdge>, nodes: nat, weighted: bool)
    ensures
        ({
            let csr = csr_of(edges, nodes, weighted);
            &&& csr.offsets.len() == 4 * (nodes + 1)
            &&& csr.targets.len() == 4 * edges.len()
            &&& csr.types.len() == edges.len()
            &&& csr.reversed.len() == edges.len()
            &&& csr.weights.len() == (if weighted {
                4 * edges.len()
            } else {
                0
            })
            &&& csr.identities.len() == 4 * edges.len()
        }),
{
    let offsets = offset_parts(edges, nodes);
    assert forall|i: int| 0 <= i < offsets.len() implies (#[trigger] offsets[i]).len() == 4 by {
        lemma_le_len(crate::direct_edges::edges_before(edges, i), 4);
    }
    lemma_fixed_parts(offsets, 4);
    lemma_number_parts(edges, |edge: DecodedEdge| edge.target);
    lemma_number_parts(edges, |edge: DecodedEdge| crate::direct_edges::edge_weight(edge));
    lemma_number_parts(edges, |edge: DecodedEdge| edge.relationship_id);
}

/// The length of a counted list.
proof fn lemma_counted_len(parts: Seq<Seq<u8>>)
    ensures
        counted_list(parts).len() == 4 + 8 * (parts.len() + 1) + joined(parts).len(),
{
    lemma_le_len(parts.len(), 4);
    lemma_table_len(parts, parts.len() + 1);
}

/// The lengths of sections that depend on counts alone.
proof fn lemma_count_lengths(build: SemanticDirectBuild<'_>)
    requires
        shape_error(build) is None,
        runs_valid(build),
    ensures
        ({
            let s = artifact_sections(build);
            let n = build.node_count as nat;
            let ids = run_view(build.relationship_identities).len();
            &&& s.len() == 26
            &&& s[0].len() == (n + 7) / 8
            &&& s[1].len() == 4 * n
            &&& s[2].len() == 8 * (n + 1)
            &&& s[16].len() == 4 + 16 * n
            &&& s[21].len() == 16 * (ids + 1)
            &&& s[23].len() == 4 * build.tenanted_table_oids@.len()
            &&& s[25].len() == 4 * n
        }),
{
    let n = build.node_count as nat;
    let tables = node_tables(run_view(build.nodes));
    assert forall|i: int| 0 <= i < tables.len() implies (#[trigger] tables[i]).len() == 4 by {
        lemma_le_len(crate::direct_nodes::node_table(run_view(build.nodes)[i]) as nat, 4);
    }
    lemma_fixed_parts(tables, 4);
    lemma_table_len(node_keys(run_view(build.nodes)), n + 1);
    let values = record_values(run_view(build.resolution));
    assert forall|i: int| 0 <= i < values.len() implies (#[trigger] values[i]).len() == 16 by {
        assert(run_view(build.resolution)[i].value.len() == 16);
    }
    lemma_fixed_parts(values, 16);
    lemma_le_len(run_view(build.resolution).len(), 4);
    let ids = run_view(build.relationship_identities);
    let parts = identity_parts(ids);
    assert forall|i: int| 0 <= i < parts.len() implies (#[trigger] parts[i]).len() == 16 by {
        lemma_le_len(crate::direct_sections::identity_mapping(ids[i]) as nat, 8);
        lemma_le_len(crate::parts::end_of(identity_keys(ids), i + 1), 8);
    }
    lemma_fixed_parts(parts, 16);
    let oids = word_parts(build.tenanted_table_oids@);
    assert forall|i: int| 0 <= i < oids.len() implies (#[trigger] oids[i]).len() == 4 by {
        lemma_le_len(build.tenanted_table_oids@[i] as nat, 4);
    }
    lemma_fixed_parts(oids, 4);
    let tokens = token_parts(run_view(build.tenant_tokens), n);
    assert forall|i: int| 0 <= i < tokens.len() implies (#[trigger] tokens[i]).len() == 4 by {
        lemma_le_len(
            crate::direct_sections::node_token(run_view(build.tenant_tokens), i),
            4,
        );
    }
    lemma_fixed_parts(tokens, 4);
}

/// The lengths of one column's values and dictionary.
proof fn lemma_column_lengths(build: SemanticDirectBuild<'_>, column: int)
    requires
        filters_valid(
            build.filter_columns@,
            run_view(build.filters),
            run_view(build.filter_dictionary),
            build.node_count as nat,
        ),
        0 <= column < build.filter_columns@.len(),
        encode_utf8(build.filter_columns@[column].column_name@).len() <= u32::MAX,
    ensures
        ({
            let image = build_images(build)[column];
            let domain = domains_of(build.filter_columns@)[column];
            let values = column_values(run_view(build.filter_dictionary), column);
            &&& image.meta.column_type == domain
            &&& data_bytes(image).len() == presence_len(build.node_count as nat) + build.node_count
                * domain.width()
            &&& column_dictionary(image).len() == (if domain is Text {
                8 * (values.len() + 1) + joined(values).len()
            } else {
                0
            })
        }),
{
    let texts = run_view(build.filter_dictionary);
    let image = build_images(build)[column];
    assert(image == run_image(
        build.filter_columns@,
        run_view(build.filters),
        texts,
        build.node_count as nat,
        column,
    ));
    lemma_run_image_valid(
        build.filter_columns@,
        run_view(build.filters),
        texts,
        build.node_count as nat,
        column,
    );
    lemma_slots_len(image.meta.column_type, image.values, build.node_count as nat);
    let values = column_values(texts, column);
    crate::direct_filters::lemma_dictionary_parts(image.texts, values);
    lemma_table_len(values, values.len() + 1);
}

/// The planned shape of one filter column.
#[derive(Debug, Clone, Copy, PartialEq, Eq, Structural)]
pub struct FilterPlan {
    pub column_type: FilterColumnType,
    pub data_len: u64,
    pub dictionary_len: u64,
    pub dictionary_count: u64,
}

/// Plans the columns: the lengths of their values and dictionaries.
fn plan_filters(
    build: &SemanticDirectBuild<'_>,
    domains: &Vec<FilterColumnType>,
    groups: &Vec<Vec<&[u8]>>,
) -> (result: GraphResult<Vec<FilterPlan>>)
    requires
        filters_valid(
            build.filter_columns@,
            run_view(build.filters),
            run_view(build.filter_dictionary),
            build.node_count as nat,
        ),
        domains@ == domains_of(build.filter_columns@),
        groups@.len() == domains@.len(),
        forall|column: int|
            0 <= column < domains@.len() ==> #[trigger] group_views(groups@, column)
                == column_values(run_view(build.filter_dictionary), column),
        forall|i: int|
            0 <= i < build.filter_columns@.len() ==> encode_utf8(
                (#[trigger] build.filter_columns@[i]).column_name@,
            ).len() <= u32::MAX,
    ensures
        match result {
            Ok(plans) => {
                &&& plans@.len() == domains@.len()
                &&& forall|i: int|
                    0 <= i < plans@.len() ==> {
                        &&& (#[trigger] plans@[i]).data_len == data_bytes(
                            build_images(*build)[i],
                        ).len()
                        &&& plans@[i].dictionary_len == column_dictionary(
                            build_images(*build)[i],
                        ).len()
                    }
                &&& forall|column: int|
                    0 <= column < domains@.len() ==> joined(
                        #[trigger] column_values(run_view(build.filter_dictionary), column),
                    ).len() <= u64::MAX
            },
            Err(error) => {
                &&& error@ is Internal
                &&& exists|column: int|
                    0 <= column < domains@.len() && (joined(
                        #[trigger] column_values(run_view(build.filter_dictionary), column),
                    ).len() > u64::MAX || column_dictionary(build_images(*build)[column]).len()
                        > u64::MAX)
            },
        },
{
    let ghost texts = run_view(build.filter_dictionary);
    let presence: u64 = (build.node_count as u64 + 7) / 8;
    let mut plans: Vec<FilterPlan> = Vec::new();
    let mut at: usize = 0;
    while at < domains.len()
        invariant
            at <= domains@.len() == build.filter_columns@.len() == groups@.len(),
            texts == run_view(build.filter_dictionary),
            filters_valid(
                build.filter_columns@,
                run_view(build.filters),
                texts,
                build.node_count as nat,
            ),
            domains@ == domains_of(build.filter_columns@),
            presence == presence_len(build.node_count as nat),
            presence <= 0x2000_0000,
            forall|column: int|
                0 <= column < domains@.len() ==> #[trigger] group_views(groups@, column)
                    == column_values(texts, column),
            forall|i: int|
                0 <= i < build.filter_columns@.len() ==> encode_utf8(
                    (#[trigger] build.filter_columns@[i]).column_name@,
                ).len() <= u32::MAX,
            plans@.len() == at,
            forall|i: int|
                0 <= i < at ==> {
                    &&& (#[trigger] plans@[i]).data_len == data_bytes(
                        build_images(*build)[i],
                    ).len()
                    &&& plans@[i].dictionary_len == column_dictionary(
                        build_images(*build)[i],
                    ).len()
                },
            forall|column: int|
                0 <= column < at ==> joined(#[trigger] column_values(texts, column)).len()
                    <= u64::MAX,
        decreases domains@.len() - at,
    {
        let domain: FilterColumnType = domains[at];
        let width: usize = domain.persisted_width();
        proof {
            lemma_column_lengths(*build, at as int);
            assert(build.node_count * width <= 0xffff_ffff * 16) by (nonlinear_arith)
                requires
                    build.node_count <= 0xffff_ffff,
                    width <= 16,
            ;
            assert(group_views(groups@, at as int) == column_values(texts, at as int));
        }
        let data_len: u64 = presence + build.node_count as u64 * width as u64;
        let payload: u64 = match joined_len(&groups[at]) {
            Some(payload) => payload,
            None => {
                assert(joined(column_values(texts, at as int)).len() > u64::MAX);
                return Err(internal("filter dictionary bytes overflowed"));
            },
        };
        let count: usize = groups[at].len();
        let dictionary_len: u64 = if domain == FilterColumnType::Text {
            let total: u128 = 8 * (count as u128 + 1) + payload as u128;
            if total > u64::MAX as u128 {
                assert(joined(column_values(texts, at as int)).len() <= u64::MAX);
                return Err(internal("filter dictionary length overflowed"));
            }
            total as u64
        } else {
            0
        };
        plans.push(
            FilterPlan {
                column_type: domain,
                data_len,
                dictionary_len,
                dictionary_count: count as u64,
            },
        );
        at = at + 1;
    }
    Ok(plans)
}

/// The lengths of the three filter sections.
fn plan_filter_sections(build: &SemanticDirectBuild<'_>, plans: &Vec<FilterPlan>) -> (result: Option<
    (u64, u64, u64),
>)
    requires
        plans@.len() == build.filter_columns@.len(),
        forall|i: int|
            0 <= i < plans@.len() ==> {
                &&& (#[trigger] plans@[i]).data_len == data_bytes(build_images(*build)[i]).len()
                &&& plans@[i].dictionary_len == column_dictionary(build_images(*build)[i]).len()
            },
    ensures
        ({
            let images = build_images(*build);
            match result {
                Some((catalog, data, dictionaries)) => {
                    &&& catalog == catalog_of(images).len()
                    &&& data == data_end(images, images.len())
                    &&& dictionaries == dictionaries_end(images, images.len())
                },
                None => catalog_of(images).len() > u64::MAX || data_end(images, images.len())
                    > u64::MAX || dictionaries_end(images, images.len()) > u64::MAX,
            }
        }),
{
    let ghost images = build_images(*build);
    let mut names: u64 = 0;
    let mut data: u64 = 0;
    let mut dictionaries: u64 = 0;
    let mut at: usize = 0;
    let count: usize = plans.len();
    proof {
        lemma_catalog_len(images);
    }
    while at < count
        invariant
            at <= count == plans@.len() == build.filter_columns@.len() == images.len(),
            images == build_images(*build),
            catalog_of(images).len() == 16 + 64 * images.len() + names_end(images, images.len()),
            forall|i: int|
                0 <= i < plans@.len() ==> {
                    &&& (#[trigger] plans@[i]).data_len == data_bytes(
                        build_images(*build)[i],
                    ).len()
                    &&& plans@[i].dictionary_len == column_dictionary(
                        build_images(*build)[i],
                    ).len()
                },
            names == names_end(images, at as nat),
            data == data_end(images, at as nat),
            dictionaries == dictionaries_end(images, at as nat),
        decreases count - at,
    {
        proof {
            lemma_name_part(images, count as nat, at + 1);
            lemma_data_part(images, count as nat, at + 1);
            lemma_dictionary_part(images, count as nat, at + 1);
        }
        let name: usize = build.filter_columns[at].column_name.as_str().as_bytes().len();
        names = match names.checked_add(name as u64) {
            Some(names) => names,
            None => return None,
        };
        data = match data.checked_add(plans[at].data_len) {
            Some(data) => data,
            None => return None,
        };
        dictionaries = match dictionaries.checked_add(plans[at].dictionary_len) {
            Some(dictionaries) => dictionaries,
            None => return None,
        };
        at = at + 1;
    }
    let catalog: u128 = 16 + 64 * (count as u128) + names as u128;
    if catalog > u64::MAX as u128 {
        return None;
    }
    Some((catalog as u64, data, dictionaries))
}

/// The length of a catalog.
proof fn lemma_catalog_len(images: Seq<ColumnImage>)
    ensures
        catalog_of(images).len() == 16 + 64 * images.len() + names_end(images, images.len()),
{
    lemma_le_len(images.len(), 4);
    lemma_le_len(64, 4);
    lemma_le_len(names_end(images, images.len()), 8);
    lemma_descriptors_len(images, images.len());
    lemma_name_part(images, images.len(), images.len() as int);
}

/// The views of sections.
pub open spec fn section_views(sections: Seq<Vec<u8>>) -> Seq<Seq<u8>> {
    Seq::new(sections.len(), |i: int| sections[i]@)
}

/// The lengths of byte strings.
pub open spec fn lengths_of(sections: Seq<Seq<u8>>) -> Seq<nat> {
    Seq::new(sections.len(), |i: int| sections[i].len())
}

/// The lengths as numbers.
pub open spec fn length_views(lengths: Seq<u64>) -> Seq<nat> {
    Seq::new(lengths.len(), |i: int| lengths[i] as nat)
}

/// Appends the lengths of adjacency sections.
fn push_csr_lengths(
    lengths: &mut Vec<u64>,
    node_count: u32,
    edge_count: u32,
    weighted: bool,
    Ghost(edges): Ghost<Seq<DecodedEdge>>,
)
    requires
        edges.len() == edge_count,
    ensures
        ({
            let csr = csr_of(edges, node_count as nat, weighted);
            length_views(final(lengths)@) == length_views(old(lengths)@) + lengths_of(
                seq![
                    csr.offsets,
                    csr.targets,
                    csr.types,
                    csr.reversed,
                    csr.weights,
                    csr.identities,
                ],
            )
        }),
{
    let ghost before = lengths@;
    proof {
        lemma_csr_lengths(edges, node_count as nat, weighted);
    }
    let edges_len: u64 = edge_count as u64;
    lengths.push(4 * (node_count as u64 + 1));
    lengths.push(4 * edges_len);
    lengths.push(edges_len);
    lengths.push(edges_len);
    lengths.push(
        if weighted {
            4 * edges_len
        } else {
            0
        },
    );
    lengths.push(4 * edges_len);
    proof {
        let csr = csr_of(edges, node_count as nat, weighted);
        let added = lengths_of(
            seq![
                csr.offsets,
                csr.targets,
                csr.types,
                csr.reversed,
                csr.weights,
                csr.identities,
            ],
        );
        assert(length_views(lengths@) =~= length_views(before) + added);
    }
}

/// The length of a counted list, if eight bytes can hold it.
fn counted_len(parts: &Vec<&[u8]>) -> (length: Option<u64>)
    ensures
        match length {
            Some(length) => length == counted_list(views(parts@)).len(),
            None => counted_list(views(parts@)).len() > u64::MAX,
        },
{
    proof {
        lemma_counted_len(views(parts@));
    }
    let payload: u64 = match joined_len(parts) {
        Some(payload) => payload,
        None => return None,
    };
    let total: u128 = 4 + 8 * (parts.len() as u128 + 1) + payload as u128;
    if total > u64::MAX as u128 {
        None
    } else {
        Some(total as u64)
    }
}

/// Bytes of labels.
fn label_slices(labels: &Vec<String>) -> (slices: Vec<&[u8]>)
    ensures
        views(slices@) == label_bytes(labels@),
{
    let mut slices: Vec<&[u8]> = Vec::new();
    let mut at: usize = 0;
    while at < labels.len()
        invariant
            at <= labels@.len(),
            slices@.len() == at,
            forall|i: int| 0 <= i < at ==> (#[trigger] slices@[i])@ == encode_utf8(labels@[i]@),
        decreases labels@.len() - at,
    {
        slices.push(labels[at].as_str().as_bytes());
        at = at + 1;
    }
    assert(views(slices@) =~= label_bytes(labels@));
    slices
}

/// Plans the length of each section.
#[verifier::spinoff_prover]
#[verifier::rlimit(40)]
fn plan_section_lengths(
    build: &SemanticDirectBuild<'_>,
    rows: &NodeRows<'_>,
    identities: &IdentityRows<'_>,
    tenants: &Vec<&[u8]>,
    filters: (u64, u64, u64),
) -> (result: GraphResult<Vec<u64>>)
    requires
        shape_error(*build) is None,
        runs_valid(*build),
        views(rows.keys@) == node_keys(run_view(build.nodes)),
        views(identities.keys@) == identity_keys(run_view(build.relationship_identities)),
        views(tenants@) == build_tenants(*build),
        ({
            let images = build_images(*build);
            &&& filters.0 == catalog_of(images).len()
            &&& filters.1 == data_end(images, images.len())
            &&& filters.2 == dictionaries_end(images, images.len())
        }),
    ensures
        match result {
            Ok(lengths) => {
                &&& length_views(lengths@) == lengths_of(artifact_sections(*build))
                &&& joined(node_keys(run_view(build.nodes))).len() <= u64::MAX
                &&& counted_list(label_bytes(build.edge_type_registry@)).len() <= u64::MAX
                &&& joined(identity_keys(run_view(build.relationship_identities))).len()
                    <= u64::MAX
                &&& 4 * build.tenanted_table_oids@.len() <= u64::MAX
                &&& counted_list(build_tenants(*build)).len() <= u64::MAX
            },
            Err(error) => error@ is Internal && !lengths_fit(*build),
        },
{
    let ghost sections = artifact_sections(*build);
    proof {
        lemma_count_lengths(*build);
        let images = build_images(*build);
        lemma_data_part(images, images.len(), images.len() as int);
        lemma_dictionary_part(images, images.len(), images.len() as int);
        assert(views(identities.keys@).len() == identities.keys@.len());
        assert(views(rows.keys@).len() == rows.keys@.len());
    }
    let nodes: u64 = build.node_count as u64;
    let keys: u64 = match joined_len(&rows.keys) {
        Some(length) => length,
        None => return Err(internal("primary-key bytes overflowed")),
    };
    let registry: u64 = match counted_len(&label_slices(build.edge_type_registry)) {
        Some(length) => length,
        None => return Err(internal("edge registry length overflowed")),
    };
    let identity_length: u64 = match joined_len(&identities.keys) {
        Some(length) => length,
        None => return Err(internal("identity key length overflowed")),
    };
    let oids: u128 = 4 * (build.tenanted_table_oids.len() as u128);
    if oids > u64::MAX as u128 {
        return Err(internal("tenant OID length overflowed"));
    }
    let tenant_length: u64 = match counted_len(tenants) {
        Some(length) => length,
        None => return Err(internal("tenant dictionary length overflowed")),
    };
    let mut lengths: Vec<u64> = Vec::new();
    lengths.push((nodes + 7) / 8);
    lengths.push(4 * nodes);
    lengths.push(8 * (nodes + 1));
    lengths.push(keys);
    let ghost start = length_views(lengths@);
    push_csr_lengths(
        &mut lengths,
        build.node_count,
        build.forward_edge_count,
        build.has_forward_weights,
        Ghost(edges_of(run_view(build.forward_edges))),
    );
    push_csr_lengths(
        &mut lengths,
        build.node_count,
        build.inbound_edge_count,
        build.has_inbound_weights,
        Ghost(edges_of(run_view(build.inbound_edges))),
    );
    let ghost middle = length_views(lengths@);
    proof {
        assert(start =~= lengths_of(sections).take(4));
        assert(middle =~= lengths_of(sections).take(16));
    }
    lengths.push(4 + 16 * nodes);
    lengths.push(filters.0);
    lengths.push(filters.1);
    lengths.push(filters.2);
    lengths.push(registry);
    lengths.push(16 * (identities.keys.len() as u64 + 1));
    lengths.push(identity_length);
    lengths.push(oids as u64);
    lengths.push(tenant_length);
    lengths.push(4 * nodes);
    proof {
        assert(length_views(lengths@).take(16) =~= middle);
        assert(length_views(lengths@) =~= lengths_of(sections)) by {
            assert forall|i: int| 0 <= i < 26 implies length_views(lengths@)[i] == lengths_of(
                sections,
            )[i] by {
                if i < 16 {
                    assert(length_views(lengths@)[i] == middle[i]);
                }
            }
        }
    }
    Ok(lengths)
}

/// An artifact: header, planned section lengths, and section bytes.
pub struct DirectArtifact {
    pub metadata: DirectArtifactMetadata,
    pub section_lengths: Vec<u64>,
    pub sections: Vec<Vec<u8>>,
}

/// The header of a build's artifact.
pub open spec fn metadata_of(build: SemanticDirectBuild<'_>) -> DirectArtifactMetadata {
    DirectArtifactMetadata {
        node_count: build.node_count,
        forward_edge_count: build.forward_edge_count,
        inbound_edge_count: build.inbound_edge_count,
        has_forward_weights: build.has_forward_weights,
        has_inbound_weights: build.has_inbound_weights,
        has_unidirectional_edges: build.has_unidirectional_edges,
        applied_sync_id: build.applied_sync_id,
        projection_mode: build.projection_mode,
    }
}

/// Whether an artifact is that of a build: every section holds what the runs
/// say, edges in order of their nodes, and is as long as planned.
pub open spec fn is_artifact_of(
    artifact: DirectArtifact,
    build: SemanticDirectBuild<'_>,
) -> bool {
    &&& artifact.metadata == metadata_of(build)
    &&& section_views(artifact.sections@) == artifact_sections(build)
    &&& length_views(artifact.section_lengths@) == lengths_of(artifact_sections(build))
    &&& sources_ordered(edges_of(run_view(build.forward_edges)))
    &&& sources_ordered(edges_of(run_view(build.inbound_edges)))
}

/// Bytes that a build of this many filter columns reserves while it is written.
pub open spec fn plan_bytes(columns: nat, max_record_bytes: nat) -> nat {
    columns * vstd::layout::size_of::<FilterPlan>() + 2 * max_record_bytes
}

/// Bytes that a build reserves while it is written.
pub open spec fn plan_memory(build: SemanticDirectBuild<'_>) -> nat {
    plan_bytes(build.filter_columns@.len(), build.max_record_bytes as nat)
}

/// Appends the six sections of adjacency.
fn push_csr(sections: &mut Vec<Vec<u8>>, csr: CsrSections)
    ensures
        section_views(final(sections)@) == section_views(old(sections)@) + seq![
            csr@.offsets,
            csr@.targets,
            csr@.types,
            csr@.reversed,
            csr@.weights,
            csr@.identities,
        ],
{
    let ghost before = section_views(sections@);
    sections.push(csr.offsets);
    sections.push(csr.targets);
    sections.push(csr.types);
    sections.push(csr.reversed);
    sections.push(csr.weights);
    sections.push(csr.identities);
    proof {
        assert(section_views(sections@) =~= before + seq![
            csr@.offsets,
            csr@.targets,
            csr@.types,
            csr@.reversed,
            csr@.weights,
            csr@.identities,
        ]);
    }
}

/// Assembles an artifact from the runs of a build, without a governor.
#[verifier::spinoff_prover]
#[verifier::rlimit(60)]
pub fn assemble_artifact(build: &SemanticDirectBuild<'_>) -> (result: GraphResult<DirectArtifact>)
    ensures
        result is Ok <==> build_valid(*build),
        result matches Ok(artifact) ==> is_artifact_of(artifact, *build),
        result matches Err(error) ==> match shape_error(*build) {
            Some(text) => error@ == ErrorView::Internal(text),
            None => if domains_known(build.filter_columns@) {
                error@ is Internal
            } else {
                error@ is InvalidFilter
            },
        },
{
    if let Err(error) = validate_semantic_shape(build) {
        return Err(error);
    }
    let filters: FilterSections = match emit_filter_sections(
        build.filter_columns,
        build.filters,
        build.filter_dictionary,
        build.node_count,
    ) {
        Ok(filters) => filters,
        Err(error) => return Err(error),
    };
    let planned: (u64, u64, u64) = match plan_filter_lengths(build) {
        Ok(planned) => planned,
        Err(error) => return Err(error),
    };
    let rows: NodeRows<'_> = match decode_nodes(build.nodes, build.node_count) {
        Ok(rows) => rows,
        Err(error) => return Err(error),
    };
    let forward: Vec<DecodedEdge> = match replay_edges(
        build.forward_edges,
        build.node_count,
        build.forward_edge_count,
    ) {
        Ok(edges) => edges,
        Err(error) => return Err(error),
    };
    let inbound: Vec<DecodedEdge> = match replay_edges(
        build.inbound_edges,
        build.node_count,
        build.inbound_edge_count,
    ) {
        Ok(edges) => edges,
        Err(error) => return Err(error),
    };
    let resolution: Vec<u8> = match emit_resolution(build.resolution, build.node_count) {
        Ok(bytes) => bytes,
        Err(error) => return Err(error),
    };
    let identities: IdentityRows<'_> = match replay_identities(build.relationship_identities) {
        Ok(rows) => rows,
        Err(error) => return Err(error),
    };
    let oids: Vec<u8> = match emit_tenanted_oids(build.tenanted_table_oids) {
        Ok(bytes) => bytes,
        Err(error) => return Err(error),
    };
    let tenants: Vec<&[u8]> = match inspect_tenant_dictionary(build.tenant_dictionary) {
        Ok(tenants) => tenants,
        Err(error) => return Err(error),
    };
    let tokens: Vec<u8> = match emit_tenant_tokens(build.tenant_tokens, build.node_count) {
        Ok(bytes) => bytes,
        Err(error) => return Err(error),
    };
    assert(runs_valid(*build));
    let section_lengths: Vec<u64> = match plan_section_lengths(
        build,
        &rows,
        &identities,
        &tenants,
        planned,
    ) {
        Ok(lengths) => lengths,
        Err(error) => return Err(error),
    };
    proof {
        lemma_counted_len(label_bytes(build.edge_type_registry@));
        lemma_counted_len(build_tenants(*build));
    }
    let key_offsets: Vec<u8> = match emit_primary_key_offsets(&rows) {
        Ok(bytes) => bytes,
        Err(error) => return Err(error),
    };
    let registry: Vec<u8> = match emit_registry(build.edge_type_registry) {
        Ok(bytes) => bytes,
        Err(error) => return Err(error),
    };
    let descriptors: Vec<u8> = match emit_identity_descriptors(
        &identities,
        Ghost(run_view(build.relationship_identities)),
    ) {
        Ok(bytes) => bytes,
        Err(error) => return Err(error),
    };
    let dictionary: Vec<u8> = match emit_tenant_dictionary(&tenants) {
        Ok(bytes) => bytes,
        Err(error) => return Err(error),
    };
    let mut sections: Vec<Vec<u8>> = Vec::new();
    sections.push(emit_active_bitmap(build.node_count));
    sections.push(emit_table_oids(&rows, Ghost(run_view(build.nodes))));
    sections.push(key_offsets);
    sections.push(emit_primary_keys(&rows));
    let ghost all = artifact_sections(*build);
    proof {
        assert(section_views(sections@) =~= all.take(4));
    }
    push_csr(&mut sections, emit_csr(&forward, build.node_count, build.has_forward_weights));
    push_csr(&mut sections, emit_csr(&inbound, build.node_count, build.has_inbound_weights));
    let ghost middle = section_views(sections@);
    proof {
        assert(middle =~= all.take(16));
    }
    sections.push(resolution);
    sections.push(filters.catalog);
    sections.push(filters.data);
    sections.push(filters.dictionaries);
    sections.push(registry);
    sections.push(descriptors);
    sections.push(emit_identity_keys(&identities));
    sections.push(oids);
    sections.push(dictionary);
    sections.push(tokens);
    proof {
        assert forall|i: int| 0 <= i < 26 implies section_views(sections@)[i] == all[i] by {
            if i < 16 {
                assert(section_views(sections@)[i] == middle[i]);
            }
        }
        assert(section_views(sections@) =~= all);
    }
    let metadata = DirectArtifactMetadata {
        node_count: build.node_count,
        forward_edge_count: build.forward_edge_count,
        inbound_edge_count: build.inbound_edge_count,
        has_forward_weights: build.has_forward_weights,
        has_inbound_weights: build.has_inbound_weights,
        has_unidirectional_edges: build.has_unidirectional_edges,
        applied_sync_id: build.applied_sync_id,
        projection_mode: build.projection_mode,
    };
    Ok(DirectArtifact { metadata, section_lengths, sections })
}

/// Plans the lengths of the three filter sections from their runs.
fn plan_filter_lengths(build: &SemanticDirectBuild<'_>) -> (result: GraphResult<(u64, u64, u64)>)
    requires
        filters_valid(
            build.filter_columns@,
            run_view(build.filters),
            run_view(build.filter_dictionary),
            build.node_count as nat,
        ),
        filters_fit(build.filter_columns@, run_view(build.filter_dictionary)),
    ensures
        ({
            let images = build_images(*build);
            match result {
                Ok(lengths) => {
                    &&& lengths.0 == catalog_of(images).len()
                    &&& lengths.1 == data_end(images, images.len())
                    &&& lengths.2 == dictionaries_end(images, images.len())
                },
                Err(error) => error@ is Internal && (catalog_of(images).len() > u64::MAX
                    || data_end(images, images.len()) > u64::MAX || dictionaries_end(
                    images,
                    images.len(),
                ) > u64::MAX),
            }
        }),
{
    let domains: Vec<FilterColumnType> = match parse_domains(build.filter_columns) {
        Ok(domains) => domains,
        Err(_) => return Err(internal("filter columns name no domain")),
    };
    let groups: Vec<Vec<&[u8]>> = match inspect_filter_dictionaries(
        build.filter_dictionary,
        &domains,
    ) {
        Ok(groups) => groups,
        Err(error) => return Err(error),
    };
    let plans: Vec<FilterPlan> = match plan_filters(build, &domains, &groups) {
        Ok(plans) => plans,
        Err(error) => {
            proof {
                let images = build_images(*build);
                let texts = run_view(build.filter_dictionary);
                let column = choose|column: int|
                    0 <= column < domains@.len() && (joined(
                        #[trigger] column_values(texts, column),
                    ).len() > u64::MAX || column_dictionary(images[column]).len() > u64::MAX);
                assert(joined(column_values(texts, column)).len() <= u64::MAX);
                lemma_dictionary_part(images, images.len(), column + 1);
            }
            return Err(error);
        },
    };
    match plan_filter_sections(build, &plans) {
        Some(lengths) => Ok(lengths),
        None => Err(internal("filter section length overflowed")),
    }
}

/// Whether an error is one that writing a build with a governor can report.
pub open spec fn write_error(
    error: ErrorView,
    build: SemanticDirectBuild<'_>,
    governor: GovernorView,
) -> bool {
    match shape_error(build) {
        Some(text) => error == ErrorView::Internal(text),
        None => if plan_memory(build) > u64::MAX {
            error == ErrorView::Internal("direct build metadata size overflowed"@)
        } else if !governor.admits_memory(plan_memory(build) as int) {
            error == limit_error(ResourcePhase::Persistence, ResourceKind::Memory)
        } else {
            ||| error == limit_error(ResourcePhase::Persistence, ResourceKind::Elapsed)
                && governor.can_expire()
            ||| !domains_known(build.filter_columns@) && error is InvalidFilter
            ||| domains_known(build.filter_columns@) && !build_valid(build) && error is Internal
        },
    }
}

/// Assembles an artifact from the runs of a build. Memory for its plan is
/// reserved while it is written, and given back after.
pub fn write_semantic_artifact(
    build: &SemanticDirectBuild<'_>,
    governor: &mut ResourceGovernor,
) -> (result: GraphResult<DirectArtifact>)
    ensures
        final(governor)@ == old(governor)@,
        result matches Ok(artifact) ==> build_valid(*build) && is_artifact_of(artifact, *build),
        result is Ok ==> plan_memory(*build) <= u64::MAX && old(governor)@.admits_memory(
            plan_memory(*build) as int,
        ),
        build_valid(*build) && plan_memory(*build) <= u64::MAX && old(governor)@.admits_memory(
            plan_memory(*build) as int,
        ) && !old(governor)@.can_expire() ==> result is Ok,
        result matches Err(error) ==> write_error(error@, *build, old(governor)@),
{
    if let Err(error) = validate_semantic_shape(build) {
        return Err(error);
    }
    let columns: usize = build.filter_columns.len();
    let each: usize = core::mem::size_of::<FilterPlan>();
    proof {
        assert(columns * each <= 0xffff_ffff_ffff_ffff * 0xffff_ffff_ffff_ffff) by (nonlinear_arith)
            requires
                0 <= columns <= 0xffff_ffff_ffff_ffff,
                0 <= each <= 0xffff_ffff_ffff_ffff,
        ;
    }
    let bytes: u128 = columns as u128 * each as u128 + 2 * (build.max_record_bytes as u128);
    if bytes > u64::MAX as u128 {
        return Err(internal("direct build metadata size overflowed"));
    }
    if let Err(error) = governor.reserve_memory(ResourcePhase::Persistence, bytes as u64) {
        return Err(error);
    }
    let result: GraphResult<DirectArtifact> = match governor.check_elapsed(
        ResourcePhase::Persistence,
    ) {
        Ok(_) => assemble_artifact(build),
        Err(error) => Err(error),
    };
    governor.release_memory(bytes as u64);
    result
}

} // verus!
