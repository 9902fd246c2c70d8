//! Scanning of relationship rows: edge types and relationship records.
use vstd::prelude::*;
use vstd::string::StringExecFns;
use vstd::utf8::encode_utf8;

use crate::errors::{internal, ErrorView, GraphError, GraphResult};
use crate::raw_edges::{
    edge_runs_of, encode_raw_edge, normalize_relationships, raw_record, raws_normal, raws_refused,
    PersistedEdgeRuns, RawView,
};
use crate::resource::{limit_error, GovernorView, ResourceGovernor, ResourceKind, ResourcePhase};
use crate::run_records::{record_views, sorted_copy, RecordView, RunRecord, StagedRun};
use crate::scan_rows::lemma_views_push;
use crate::scan_sources::{collected, owned_view};
use crate::scan_sql::RegisteredEdge;
use crate::text::{is_blank, same_text, trim_end, trim_start};

verus! {

/// Most entries of a registry of edge types.
pub const MAX_EDGE_TYPES: usize = 255;

/// Columns of a relationship row.
pub struct EdgeRow {
    pub source: Option<i64>,
    pub target: Option<i64>,
    pub source_key: Option<String>,
    pub weight: Option<i64>,
    pub label: Option<String>,
}

/// The texts of a list.
pub open spec fn label_views(registry: Seq<String>) -> Seq<Seq<char>> {
    Seq::new(registry.len(), |i: int| registry[i]@)
}

/// A registry with a label in it.
pub open spec fn with_label(registry: Seq<Seq<char>>, label: Seq<char>) -> Seq<Seq<char>> {
    if registry.contains(label) {
        registry
    } else {
        registry.push(label)
    }
}

/// Where a label first stands.
pub open spec fn label_id(registry: Seq<Seq<char>>, label: Seq<char>) -> int {
    registry.index_of_first(label)->Some_0
}

/// Bytes that a registry's entries after the first reserve.
pub open spec fn registry_bytes(registry: Seq<Seq<char>>) -> nat
    decreases registry.len(),
{
    if registry.len() <= 1 {
        0
    } else {
        registry_bytes(registry.drop_last()) + vstd::layout::size_of::<String>() + encode_utf8(
            registry.last(),
        ).len()
    }
}

/// Whether a label can be in a registry.
pub open spec fn label_fits(
    registry: Seq<Seq<char>>,
    label: Seq<char>,
    max_record_bytes: nat,
) -> bool {
    if registry.contains(label) {
        label_id(registry, label) <= u8::MAX
    } else {
        registry.len() < 255 && encode_utf8(label).len() <= max_record_bytes
    }
}

/// The first place of a text in a list.
fn find_label(registry: &Vec<String>, label: &str) -> (found: Option<usize>)
    ensures
        match found {
            Some(at) => label_views(registry@).contains(label@) && at == label_id(
                label_views(registry@),
                label@,
            ) && at < registry@.len(),
            None => !label_views(registry@).contains(label@),
        },
{
    let ghost labels = label_views(registry@);
    let mut at: usize = 0;
    while at < registry.len()
        invariant
            at <= registry@.len(),
            labels == label_views(registry@),
            forall|i: int| 0 <= i < at ==> labels[i] != label@,
        decreases registry@.len() - at,
    {
        if same_text(registry[at].as_str(), label) {
            proof {
                assert(labels[at as int] == label@);
                labels.index_of_first_ensures(label@);
            }
            return Some(at);
        }
        at = at + 1;
    }
    None
}

/// The number of an edge type, registered if it is new. A new type's label
/// stays reserved.
pub fn intern_edge_type(
    registry: &mut Vec<String>,
    governor: &mut ResourceGovernor,
    label: &str,
    max_record_bytes: usize,
) -> (result: GraphResult<u8>)
    requires
        old(registry)@.len() >= 1,
    ensures
        ({
            let before = label_views(old(registry)@);
            let after = with_label(before, label@);
            let grown = registry_bytes(after) - registry_bytes(before);
            let fits = label_fits(before, label@, max_record_bytes as nat);
            &&& result is Ok <==> fits && (before.contains(label@) || (grown <= u64::MAX && old(
                governor,
            )@.admits_memory(grown)))
            &&& result matches Ok(id) ==> {
                &&& id == label_id(after, label@)
                &&& label_views(final(registry)@) == after
                &&& final(governor)@ == old(governor)@.after_memory(grown)
            }
            &&& result matches Err(error) ==> {
                &&& final(registry)@ == old(registry)@
                &&& final(governor)@ == old(governor)@
                &&& fits && grown <= u64::MAX ==> error@ == limit_error(
                    ResourcePhase::EdgeResolve,
                    ResourceKind::Memory,
                )
                &&& !fits ==> error@ == ErrorView::Internal(
                    if before.contains(label@) {
                        "edge type registry exceeds 255 entries"@
                    } else {
                        "edge type registry exceeds bounded artifact limits"@
                    },
                )
                &&& fits && grown > u64::MAX ==> error@ == ErrorView::Internal(
                    "edge type registry memory overflowed"@,
                )
            }
        }),
{
    let ghost before = label_views(registry@);
    if let Some(at) = find_label(registry, label) {
        if at > u8::MAX as usize {
            return Err(internal("edge type registry exceeds 255 entries"));
        }
        return Ok(at as u8);
    }
    let length: usize = label.as_bytes().len();
    if registry.len() >= MAX_EDGE_TYPES || length > max_record_bytes {
        return Err(internal("edge type registry exceeds bounded artifact limits"));
    }
    proof {
        assert(before.push(label@).drop_last() =~= before);
    }
    let each: usize = core::mem::size_of::<String>();
    let bytes: u64 = match (each as u64).checked_add(length as u64) {
        Some(bytes) => bytes,
        None => return Err(internal("edge type registry memory overflowed")),
    };
    if let Err(error) = governor.reserve_memory(ResourcePhase::EdgeResolve, bytes) {
        return Err(error);
    }
    let id: u8 = registry.len() as u8;
    let ghost entries = registry@;
    registry.push(label.to_owned());
    proof {
        let after = before.push(label@);
        assert(label_views(registry@) =~= after);
        assert(after[before.len() as int] == label@);
        after.index_of_first_ensures(label@);
        let first = label_id(after, label@);
        if first < before.len() {
            assert(before[first] == label@);
        }
    }
    Ok(id)
}

/// A required node number of a row.
pub fn required_u32(value: Option<i64>, label: &str) -> (result: GraphResult<u32>)
    ensures
        match result {
            Ok(number) => value == Some(number as i64),
            Err(error) => match value {
                None => error@ == ErrorView::Internal("edge "@ + label@ + " was NULL"@),
                Some(value) => !(0 <= value <= u32::MAX) && error@ == ErrorView::Internal(
                    "edge "@ + label@ + " is out of range"@,
                ),
            },
        },
{
    match value {
        None => Err(
            GraphError::Internal("edge ".to_owned().concat(label).concat(" was NULL")),
        ),
        Some(value) => if 0 <= value && value <= u32::MAX as i64 {
            Ok(value as u32)
        } else {
            Err(GraphError::Internal("edge ".to_owned().concat(label).concat(" is out of range")))
        },
    }
}

/// Whether a row can be staged.
pub open spec fn edge_row_valid(row: EdgeRow) -> bool {
    &&& row.source matches Some(source) && 0 <= source <= u32::MAX
    &&& row.target matches Some(target) && 0 <= target <= u32::MAX
    &&& row.source_key matches Some(key) && encode_utf8(key@).len() <= u32::MAX
}

/// The label of a row's edge type: the row's own where the relationship has a
/// column for it and the row has a text there, else the relationship's.
pub open spec fn row_label(edge: RegisteredEdge, row: EdgeRow) -> Seq<char> {
    match row.label {
        Some(label) => if edge.label_column is Some && trim_end(trim_start(label@)).len() > 0 {
            label@
        } else {
            edge.label@
        },
        None => edge.label@,
    }
}

/// The weight of a row, brought into range; zero where there is none.
pub open spec fn row_weight(edge: RegisteredEdge, row: EdgeRow) -> u32 {
    match row.weight {
        Some(weight) => if edge.weight_column is None {
            0
        } else if weight < 1 {
            1
        } else if weight > u32::MAX {
            u32::MAX
        } else {
            weight as u32
        },
        None => 0,
    }
}

/// The relationship of a row, under a registry of edge types.
pub open spec fn row_raw(
    edge: RegisteredEdge,
    row: EdgeRow,
    registry: Seq<Seq<char>>,
) -> RawView {
    RawView {
        mapping: edge.mapping_id as nat,
        key: encode_utf8(row.source_key->Some_0@),
        source: row.source->Some_0 as u32,
        target: row.target->Some_0 as u32,
        type_id: label_id(registry, row_label(edge, row)) as u8,
        weight: row_weight(edge, row),
        bidirectional: edge.bidirectional,
    }
}

/// The first rows of a relationship, each with the relationship.
pub open spec fn row_pairs(edge: RegisteredEdge, rows: Seq<EdgeRow>, count: nat) -> Seq<
    (RegisteredEdge, EdgeRow),
> {
    Seq::new(count, |i: int| (edge, rows[i]))
}

/// The rows of the first relationships, each with its relationship.
pub open spec fn all_pairs(
    edges: Seq<RegisteredEdge>,
    rows: Seq<Vec<EdgeRow>>,
    count: nat,
) -> Seq<(RegisteredEdge, EdgeRow)>
    decreases count,
{
    if count == 0 {
        Seq::empty()
    } else {
        all_pairs(edges, rows, (count - 1) as nat) + row_pairs(
            edges[count - 1],
            rows[count - 1]@,
            rows[count - 1]@.len(),
        )
    }
}

/// The labels that a relationship's first rows bring in: those of the rows, or
/// the relationship's own where it has no column for them.
pub open spec fn row_labels(edge: RegisteredEdge, rows: Seq<EdgeRow>, count: nat) -> Seq<
    Seq<char>,
> {
    if edge.label_column is None {
        seq![edge.label@]
    } else {
        Seq::new(count, |i: int| row_label(edge, rows[i]))
    }
}

/// The labels that the first relationships bring in.
pub open spec fn all_labels(
    edges: Seq<RegisteredEdge>,
    rows: Seq<Vec<EdgeRow>>,
    count: nat,
) -> Seq<Seq<char>>
    decreases count,
{
    if count == 0 {
        Seq::empty()
    } else {
        all_labels(edges, rows, (count - 1) as nat) + row_labels(
            edges[count - 1],
            rows[count - 1]@,
            rows[count - 1]@.len(),
        )
    }
}

/// The registry of labels: the empty label, then each in order of its first
/// appearance.
pub open spec fn registry_of(labels: Seq<Seq<char>>) -> Seq<Seq<char>>
    decreases labels.len(),
{
    if labels.len() == 0 {
        seq![Seq::empty()]
    } else {
        with_label(registry_of(labels.drop_last()), labels.last())
    }
}

/// The relationship records of rows, under a registry of edge types.
pub open spec fn raw_list(
    pairs: Seq<(RegisteredEdge, EdgeRow)>,
    registry: Seq<Seq<char>>,
) -> Seq<RecordView> {
    Seq::new(pairs.len(), |i: int| raw_record(row_raw(pairs[i].0, pairs[i].1, registry)))
}

/// Whether a registry stays within its limits.
pub open spec fn registry_fits(registry: Seq<Seq<char>>, max_record_bytes: nat) -> bool {
    &&& registry.len() <= 255
    &&& forall|i: int|
        1 <= i < registry.len() ==> encode_utf8(#[trigger] registry[i]).len() <= max_record_bytes
            && encode_utf8(registry[i]).len() + vstd::layout::size_of::<String>() <= u64::MAX
}

/// Whether the labels of rows all stand in a registry.
pub open spec fn labels_registered(
    pairs: Seq<(RegisteredEdge, EdgeRow)>,
    registry: Seq<Seq<char>>,
) -> bool {
    forall|i: int|
        0 <= i < pairs.len() ==> registry.contains(
            row_label((#[trigger] pairs[i]).0, pairs[i].1),
        )
}

/// A registry of more labels starts with that of fewer.
proof fn lemma_registry_grows(labels: Seq<Seq<char>>, more: Seq<Seq<char>>)
    ensures
        registry_of(labels).is_prefix_of(registry_of(labels + more)),
        registry_of(labels).len() >= 1,
        registry_bytes(registry_of(labels)) <= registry_bytes(registry_of(labels + more)),
    decreases labels.len() + more.len(),
{
    if more.len() == 0 {
        assert(labels + more =~= labels);
        if labels.len() > 0 {
            lemma_registry_grows(labels.drop_last(), Seq::empty());
            assert(labels.drop_last() + Seq::<Seq<char>>::empty() =~= labels.drop_last());
        }
    } else {
        lemma_registry_grows(labels, more.drop_last());
        assert((labels + more).drop_last() =~= labels + more.drop_last());
        let before = registry_of(labels + more.drop_last());
        let after = registry_of(labels + more);
        if !before.contains(more.last()) {
            assert(after.drop_last() =~= before);
        }
        assert(registry_of(labels) =~= after.take(registry_of(labels).len() as int));
    }
}

/// A registry that grows keeps the numbers of its labels.
proof fn lemma_ids_stay(registry: Seq<Seq<char>>, grown: Seq<Seq<char>>, label: Seq<char>)
    requires
        registry.is_prefix_of(grown),
        registry.contains(label),
    ensures
        grown.contains(label),
        label_id(grown, label) == label_id(registry, label),
{
    registry.index_of_first_ensures(label);
    let at = label_id(registry, label);
    assert(grown[at] == registry[at]);
    grown.index_of_first_ensures(label);
    let other = label_id(grown, label);
    if other < at {
        assert(registry[other] == grown[other]);
    }
}

/// A registry that grows keeps the records of rows.
proof fn lemma_raws_stay(
    pairs: Seq<(RegisteredEdge, EdgeRow)>,
    registry: Seq<Seq<char>>,
    grown: Seq<Seq<char>>,
)
    requires
        registry.is_prefix_of(grown),
        labels_registered(pairs, registry),
    ensures
        labels_registered(pairs, grown),
        raw_list(pairs, grown) == raw_list(pairs, registry),
{
    assert forall|i: int| 0 <= i < pairs.len() implies grown.contains(
        row_label((#[trigger] pairs[i]).0, pairs[i].1),
    ) && label_id(grown, row_label(pairs[i].0, pairs[i].1)) == label_id(
        registry,
        row_label(pairs[i].0, pairs[i].1),
    ) by {
        lemma_ids_stay(registry, grown, row_label(pairs[i].0, pairs[i].1));
    }
    assert(raw_list(pairs, grown) =~= raw_list(pairs, registry));
}

/// Relationship records staged from rows, with the registry of their types.
struct EdgeScan {
    registry: Vec<String>,
    raw: Vec<RunRecord>,
}

/// Whether a governor has room for a registry. One that holds only the empty
/// label takes none.
pub open spec fn registry_admitted(governor: GovernorView, registry: Seq<Seq<char>>) -> bool {
    registry.len() <= 1 || governor.admits_memory(registry_bytes(registry) as int)
}

/// Which error comes when relationships cannot be staged: rows or labels that
/// are not acceptable, a registry that memory is refused for, or time.
pub open spec fn edges_refused(
    error: ErrorView,
    invalid: bool,
    unadmitted: bool,
    expires: bool,
) -> bool {
    ||| error is Internal && invalid
    ||| error == limit_error(ResourcePhase::EdgeResolve, ResourceKind::Memory) && unadmitted
    ||| error == limit_error(ResourcePhase::EdgeResolve, ResourceKind::Elapsed) && expires
}

impl EdgeScan {
    /// Whether the scan holds these labels and rows, where a governor that
    /// started at `start` is now at `now`.
    spec fn holds(
        &self,
        labels: Seq<Seq<char>>,
        pairs: Seq<(RegisteredEdge, EdgeRow)>,
        start: GovernorView,
        now: GovernorView,
        max_record_bytes: nat,
    ) -> bool {
        let registry = registry_of(labels);
        &&& label_views(self.registry@) == registry
        &&& registry_fits(registry, max_record_bytes)
        &&& registry_admitted(start, registry)
        &&& now == start.after_memory(registry_bytes(registry) as int)
        &&& labels_registered(pairs, registry)
        &&& record_views(self.raw@) == raw_list(pairs, registry)
        &&& forall|i: int| 0 <= i < pairs.len() ==> edge_row_valid((#[trigger] pairs[i]).1)
    }

    /// The number of an edge type, registered if it is new.
    fn intern(
        &mut self,
        label: &str,
        governor: &mut ResourceGovernor,
        max_record_bytes: usize,
        Ghost(labels): Ghost<Seq<Seq<char>>>,
        Ghost(pairs): Ghost<Seq<(RegisteredEdge, EdgeRow)>>,
        Ghost(start): Ghost<GovernorView>,
    ) -> (result: GraphResult<u8>)
        requires
            old(self).holds(labels, pairs, start, old(governor)@, max_record_bytes as nat),
        ensures
            ({
                let registry = registry_of(labels.push(label@));
                &&& result matches Ok(id) ==> {
                    &&& final(self).holds(
                        labels.push(label@),
                        pairs,
                        start,
                        final(governor)@,
                        max_record_bytes as nat,
                    )
                    &&& registry.contains(label@)
                    &&& id == label_id(registry, label@)
                }
                &&& result matches Err(error) ==> {
                    &&& final(governor)@ == old(governor)@
                    &&& edges_refused(
                        error@,
                        !registry_fits(registry, max_record_bytes as nat),
                        !registry_admitted(start, registry),
                        false,
                    )
                }
            }),
    {
        let ghost before = registry_of(labels);
        let ghost after = registry_of(labels.push(label@));
        proof {
            lemma_registry_grows(labels, Seq::empty().push(label@));
            assert(labels + Seq::empty().push(label@) =~= labels.push(label@));
            assert(labels.push(label@).drop_last() =~= labels);
            assert(after == with_label(before, label@));
            lemma_raws_stay(pairs, before, after);
            if before.contains(label@) {
                before.index_of_first_ensures(label@);
            } else {
                assert(after.last() == label@);
                assert(after.drop_last() =~= before);
                assert(after[before.len() as int] == label@);
            }
        }
        let interned: GraphResult<u8> = intern_edge_type(
            &mut self.registry,
            governor,
            label,
            max_record_bytes,
        );
        interned
    }

    /// Stages a row.
    fn scan_row(
        &mut self,
        edge: &RegisteredEdge,
        row: &EdgeRow,
        static_type: Option<u8>,
        governor: &mut ResourceGovernor,
        max_record_bytes: usize,
        Ghost(labels): Ghost<Seq<Seq<char>>>,
        Ghost(pairs): Ghost<Seq<(RegisteredEdge, EdgeRow)>>,
        Ghost(start): Ghost<GovernorView>,
    ) -> (result: GraphResult<()>)
        requires
            old(self).holds(labels, pairs, start, old(governor)@, max_record_bytes as nat),
            edge.label_column is None ==> {
                &&& registry_of(labels).contains(edge.label@)
                &&& static_type matches Some(id) && id == label_id(
                    registry_of(labels),
                    edge.label@,
                )
            },
        ensures
            ({
                let grown = if edge.label_column is Some {
                    labels.push(row_label(*edge, *row))
                } else {
                    labels
                };
                let registry = registry_of(grown);
                &&& result is Ok ==> final(self).holds(
                    grown,
                    pairs.push((*edge, *row)),
                    start,
                    final(governor)@,
                    max_record_bytes as nat,
                )
                &&& result matches Err(error) ==> {
                    &&& final(governor)@ == old(governor)@ || final(governor)@
                        == start.after_memory(registry_bytes(registry) as int)
                    &&& edges_refused(
                        error@,
                        !edge_row_valid(*row) || !registry_fits(registry, max_record_bytes as nat),
                        !registry_admitted(start, registry),
                        false,
                    )
                }
            }),
    {
        let source: u32 = match required_u32(row.source, "source") {
            Ok(source) => source,
            Err(error) => return Err(error),
        };
        let target: u32 = match required_u32(row.target, "target") {
            Ok(target) => target,
            Err(error) => return Err(error),
        };
        let key: &String = match &row.source_key {
            Some(key) => key,
            None => return Err(internal("edge identity was NULL")),
        };
        let weight: Option<u32> = if edge.weight_column.is_some() {
            match row.weight {
                Some(weight) => Some(
                    if weight < 1 {
                        1
                    } else if weight > u32::MAX as i64 {
                        u32::MAX
                    } else {
                        weight as u32
                    },
                ),
                None => None,
            }
        } else {
            None
        };
        let ghost grown = if edge.label_column is Some {
            labels.push(row_label(*edge, *row))
        } else {
            labels
        };
        let type_id: u8 = if edge.label_column.is_some() {
            let label: &str = match &row.label {
                Some(label) => if is_blank(label.as_str()) {
                    edge.label.as_str()
                } else {
                    label.as_str()
                },
                None => edge.label.as_str(),
            };
            assert(label@ == row_label(*edge, *row));
            let interned: GraphResult<u8> = self.intern(
                label,
                governor,
                max_record_bytes,
                Ghost(labels),
                Ghost(pairs),
                Ghost(start),
            );
            match interned {
                Ok(type_id) => type_id,
                Err(error) => return Err(error),
            }
        } else {
            match static_type {
                Some(type_id) => type_id,
                None => return Err(internal("static edge type missing")),
            }
        };
        let record: RunRecord = match encode_raw_edge(
            edge.mapping_id,
            key.as_str(),
            source,
            target,
            type_id,
            weight,
            edge.bidirectional,
        ) {
            Ok(record) => record,
            Err(error) => return Err(error),
        };
        let ghost before = self.raw@;
        self.raw.push(record);
        proof {
            let registry = registry_of(grown);
            lemma_views_push(before, record);
            assert(record@ == raw_record(row_raw(*edge, *row, registry)));
            assert(record_views(self.raw@) =~= raw_list(pairs.push((*edge, *row)), registry));
        }
        Ok(())
    }
}

/// What holds of a registry holds of that of fewer labels.
proof fn lemma_fits_prefix(
    labels: Seq<Seq<char>>,
    more: Seq<Seq<char>>,
    governor: GovernorView,
    max_record_bytes: nat,
)
    ensures
        registry_fits(registry_of(labels + more), max_record_bytes) ==> registry_fits(
            registry_of(labels),
            max_record_bytes,
        ),
        registry_admitted(governor, registry_of(labels + more)) ==> registry_admitted(
            governor,
            registry_of(labels),
        ),
{
    lemma_registry_grows(labels, more);
    let small = registry_of(labels);
    let large = registry_of(labels + more);
    assert forall|i: int| 1 <= i < small.len() implies #[trigger] small[i] == large[i] by {}
    if registry_fits(large, max_record_bytes) {
        assert forall|i: int| 1 <= i < small.len() implies encode_utf8(#[trigger] small[i]).len()
            <= max_record_bytes && encode_utf8(small[i]).len() + vstd::layout::size_of::<String>()
            <= u64::MAX by {
            assert(small[i] == large[i]);
        }
    }
}

/// Whether a governor differs from where it started by reserved memory alone.
pub open spec fn only_reserved(start: GovernorView, now: GovernorView) -> bool {
    &&& now == (GovernorView { memory_used: now.memory_used, ..start })
    &&& now.memory_used >= start.memory_used
    &&& !start.enforced ==> now == start
}

impl EdgeScan {
    /// Stages the rows of a relationship.
    fn scan_edge(
        &mut self,
        edge: &RegisteredEdge,
        rows: &Vec<EdgeRow>,
        governor: &mut ResourceGovernor,
        max_record_bytes: usize,
        Ghost(labels): Ghost<Seq<Seq<char>>>,
        Ghost(pairs): Ghost<Seq<(RegisteredEdge, EdgeRow)>>,
        Ghost(start): Ghost<GovernorView>,
    ) -> (result: GraphResult<()>)
        requires
            old(self).holds(labels, pairs, start, old(governor)@, max_record_bytes as nat),
        ensures
            ({
                let grown = labels + row_labels(*edge, rows@, rows@.len());
                let added = row_pairs(*edge, rows@, rows@.len());
                let registry = registry_of(grown);
                &&& result is Ok ==> final(self).holds(
                    grown,
                    pairs + added,
                    start,
                    final(governor)@,
                    max_record_bytes as nat,
                )
                &&& result matches Err(error) ==> {
                    &&& only_reserved(start, final(governor)@)
                    &&& edges_refused(
                        error@,
                        (exists|i: int|
                            0 <= i < rows@.len() && !edge_row_valid(#[trigger] rows@[i]))
                            || !registry_fits(registry, max_record_bytes as nat),
                        !registry_admitted(start, registry),
                        start.can_expire(),
                    )
                }
            }),
    {
        if let Err(error) = governor.check_elapsed(ResourcePhase::EdgeResolve) {
            return Err(error);
        }
        let fixed: bool = edge.label_column.is_none();
        let ghost first = if edge.label_column is None {
            labels.push(edge.label@)
        } else {
            labels
        };
        let static_type: Option<u8> = if fixed {
            let interned: GraphResult<u8> = self.intern(
                edge.label.as_str(),
                governor,
                max_record_bytes,
                Ghost(labels),
                Ghost(pairs),
                Ghost(start),
            );
            proof {
                assert(labels + row_labels(*edge, rows@, rows@.len()) =~= labels.push(
                    edge.label@,
                ));
            }
            match interned {
                Ok(id) => Some(id),
                Err(error) => return Err(error),
            }
        } else {
            None
        };
        let mut at: usize = 0;
        proof {
            assert(pairs + row_pairs(*edge, rows@, 0) =~= pairs);
            assert(labels + row_labels(*edge, rows@, 0) =~= first);
        }
        while at < rows.len()
            invariant
                at <= rows@.len(),
                fixed == (edge.label_column is None),
                self.holds(
                    labels + row_labels(*edge, rows@, at as nat),
                    pairs + row_pairs(*edge, rows@, at as nat),
                    start,
                    governor@,
                    max_record_bytes as nat,
                ),
                fixed ==> {
                    let registry = registry_of(labels + row_labels(*edge, rows@, at as nat));
                    &&& registry.contains(edge.label@)
                    &&& static_type matches Some(id) && id == label_id(registry, edge.label@)
                },
            decreases rows@.len() - at,
        {
            let ghost taken = labels + row_labels(*edge, rows@, at as nat);
            let ghost more = labels + row_labels(*edge, rows@, (at + 1) as nat);
            let ghost all = labels + row_labels(*edge, rows@, rows@.len());
            let ghost held = pairs + row_pairs(*edge, rows@, at as nat);
            let scanned: GraphResult<()> = self.scan_row(
                edge,
                &rows[at],
                static_type,
                governor,
                max_record_bytes,
                Ghost(taken),
                Ghost(held),
                Ghost(start),
            );
            proof {
                if fixed {
                    assert(more =~= taken);
                } else {
                    assert(more =~= taken.push(row_label(*edge, rows@[at as int])));
                }
                assert(held.push((*edge, rows@[at as int])) =~= pairs + row_pairs(
                    *edge,
                    rows@,
                    (at + 1) as nat,
                ));
            }
            if let Err(error) = scanned {
                proof {
                    let rest = all.skip(more.len() as int);
                    assert(more + rest =~= all) by {
                        assert forall|i: int| 0 <= i < more.len() implies more[i] == all[i] by {}
                    }
                    lemma_fits_prefix(more, rest, start, max_record_bytes as nat);
                }
                return Err(error);
            }
            at = at + 1;
        }
        Ok(())
    }
}

/// Whether the rows of relationships can be staged.
pub open spec fn edges_valid(
    edges: Seq<RegisteredEdge>,
    rows: Seq<Vec<EdgeRow>>,
    max_record_bytes: nat,
) -> bool {
    let pairs = all_pairs(edges, rows, edges.len());
    &&& forall|i: int| 0 <= i < pairs.len() ==> edge_row_valid((#[trigger] pairs[i]).1)
    &&& registry_fits(registry_of(all_labels(edges, rows, edges.len())), max_record_bytes)
}

/// The relationship records of all rows.
pub open spec fn edges_raw(edges: Seq<RegisteredEdge>, rows: Seq<Vec<EdgeRow>>) -> Seq<RecordView> {
    raw_list(
        all_pairs(edges, rows, edges.len()),
        registry_of(all_labels(edges, rows, edges.len())),
    )
}

/// Whether every ordering of the relationship records makes edges that can be
/// counted.
pub open spec fn edges_normal(edges: Seq<RegisteredEdge>, rows: Seq<Vec<EdgeRow>>) -> bool {
    forall|raw: Seq<RecordView>| #[trigger]
        sorted_copy(raw, edges_raw(edges, rows)) ==> raws_normal(raw)
}

/// Whether runs are those of scanned relationships.
pub open spec fn edge_scan_of(
    runs: PersistedEdgeRuns,
    raw: Seq<RecordView>,
    edges: Seq<RegisteredEdge>,
    rows: Seq<Vec<EdgeRow>>,
) -> bool {
    &&& sorted_copy(raw, edges_raw(edges, rows))
    &&& raws_normal(raw)
    &&& edge_runs_of(runs, raw)
    &&& label_views(runs.edge_type_registry@) == registry_of(
        all_labels(edges, rows, edges.len()),
    )
}

/// More relationships have the rows and labels of fewer first.
proof fn lemma_lists_grow(
    edges: Seq<RegisteredEdge>,
    rows: Seq<Vec<EdgeRow>>,
    small: nat,
    large: nat,
)
    requires
        small <= large,
    ensures
        all_pairs(edges, rows, small).is_prefix_of(all_pairs(edges, rows, large)),
        all_labels(edges, rows, small).is_prefix_of(all_labels(edges, rows, large)),
    decreases large,
{
    if small < large {
        lemma_lists_grow(edges, rows, small, (large - 1) as nat);
        let pairs = all_pairs(edges, rows, (large - 1) as nat);
        let labels = all_labels(edges, rows, (large - 1) as nat);
        assert(all_pairs(edges, rows, large).take(pairs.len() as int) =~= pairs);
        assert(all_labels(edges, rows, large).take(labels.len() as int) =~= labels);
        assert(all_pairs(edges, rows, small) =~= all_pairs(edges, rows, large).take(
            all_pairs(edges, rows, small).len() as int,
        ));
        assert(all_labels(edges, rows, small) =~= all_labels(edges, rows, large).take(
            all_labels(edges, rows, small).len() as int,
        ));
    } else {
        assert(all_pairs(edges, rows, small) =~= all_pairs(edges, rows, large).take(
            all_pairs(edges, rows, small).len() as int,
        ));
        assert(all_labels(edges, rows, small) =~= all_labels(edges, rows, large).take(
            all_labels(edges, rows, small).len() as int,
        ));
    }
}

/// What one relationship's rows break, all of them break.
proof fn lemma_edge_refused(
    edges: Seq<RegisteredEdge>,
    rows: Seq<Vec<EdgeRow>>,
    at: nat,
    start: GovernorView,
    max_record_bytes: nat,
)
    requires
        at < edges.len() == rows.len(),
    ensures
        ({
            let own = rows[at as int]@;
            let registry = registry_of(all_labels(edges, rows, at + 1));
            &&& (exists|i: int| 0 <= i < own.len() && !edge_row_valid(#[trigger] own[i]))
                || !registry_fits(registry, max_record_bytes) ==> !edges_valid(
                edges,
                rows,
                max_record_bytes,
            )
            &&& !registry_admitted(start, registry) ==> !registry_admitted(
                start,
                registry_of(all_labels(edges, rows, edges.len())),
            )
        }),
{
    let all = all_labels(edges, rows, edges.len());
    let more = all_labels(edges, rows, at + 1);
    let every = all_pairs(edges, rows, edges.len());
    let before = all_pairs(edges, rows, at);
    let here = all_pairs(edges, rows, at + 1);
    lemma_lists_grow(edges, rows, at + 1, edges.len());
    assert(more + all.skip(more.len() as int) =~= all);
    lemma_fits_prefix(more, all.skip(more.len() as int), start, max_record_bytes);
    let own = rows[at as int]@;
    if exists|i: int| 0 <= i < own.len() && !edge_row_valid(#[trigger] own[i]) {
        let i = choose|i: int| 0 <= i < own.len() && !edge_row_valid(#[trigger] own[i]);
        assert(here[before.len() + i].1 == own[i]);
        assert(every[before.len() + i] == here[before.len() + i]);
    }
}

/// Stages the rows of all relationships.
fn scan_all_edges(
    edges: &Vec<RegisteredEdge>,
    rows: &Vec<Vec<EdgeRow>>,
    governor: &mut ResourceGovernor,
    max_record_bytes: usize,
) -> (result: GraphResult<EdgeScan>)
    requires
        edges@.len() == rows@.len(),
    ensures
        ({
            let start = old(governor)@;
            let labels = all_labels(edges@, rows@, edges@.len());
            let pairs = all_pairs(edges@, rows@, edges@.len());
            &&& result matches Ok(scan) ==> scan.holds(
                labels,
                pairs,
                start,
                final(governor)@,
                max_record_bytes as nat,
            )
            &&& result matches Err(error) ==> {
                &&& only_reserved(start, final(governor)@)
                &&& edges_refused(
                    error@,
                    !edges_valid(edges@, rows@, max_record_bytes as nat),
                    !registry_admitted(start, registry_of(labels)),
                    start.can_expire(),
                )
            }
        }),
{
    let ghost start = governor@;
    let mut registry: Vec<String> = Vec::new();
    registry.push("".to_owned());
    let mut scan = EdgeScan { registry, raw: Vec::new() };
    proof {
        reveal_strlit("");
        assert(registry@[0]@ =~= Seq::<char>::empty());
        assert(label_views(scan.registry@) =~= registry_of(Seq::empty()));
        assert(record_views(scan.raw@) =~= raw_list(Seq::empty(), registry_of(Seq::empty())));
    }
    let mut at: usize = 0;
    while at < edges.len()
        invariant
            at <= edges@.len() == rows@.len(),
            start == old(governor)@,
            scan.holds(
                all_labels(edges@, rows@, at as nat),
                all_pairs(edges@, rows@, at as nat),
                start,
                governor@,
                max_record_bytes as nat,
            ),
        decreases edges@.len() - at,
    {
        let ghost labels = all_labels(edges@, rows@, at as nat);
        let ghost pairs = all_pairs(edges@, rows@, at as nat);
        let scanned: GraphResult<()> = scan.scan_edge(
            &edges[at],
            &rows[at],
            governor,
            max_record_bytes,
            Ghost(labels),
            Ghost(pairs),
            Ghost(start),
        );
        if let Err(error) = scanned {
            proof {
                lemma_edge_refused(edges@, rows@, at as nat, start, max_record_bytes as nat);
            }
            return Err(error);
        }
        at = at + 1;
    }
    Ok(scan)
}

/// Whether a governor admits the memory of an edge scan.
pub open spec fn edge_scan_admitted(
    governor: GovernorView,
    edges: Seq<RegisteredEdge>,
    rows: Seq<Vec<EdgeRow>>,
    max_record_bytes: nat,
) -> bool {
    let registry = registry_of(all_labels(edges, rows, edges.len()));
    &&& registry_admitted(governor, registry)
    &&& governor.after_memory(registry_bytes(registry) as int).admits_memory(
        max_record_bytes as int,
    )
}

/// Whether an error is one that scanning edges with a governor can report:
/// rows break a rule, memory is not admitted, or time is up.
pub open spec fn edge_scan_error(
    error: ErrorView,
    governor: GovernorView,
    edges: Seq<RegisteredEdge>,
    rows: Seq<Vec<EdgeRow>>,
    max_record_bytes: nat,
) -> bool {
    ||| edges_refused(
        error,
        !edges_valid(edges, rows, max_record_bytes),
        !edge_scan_admitted(governor, edges, rows, max_record_bytes),
        governor.can_expire(),
    )
    ||| !edges_normal(edges, rows) && (error is CorruptFile || error is Internal)
}

/// Scans the rows of registered relationships, in the relationships' order,
/// into ordered runs. What the registry of edge types takes stays reserved
/// when the scan succeeds; when it fails, the governor is as before.
pub fn scan_persisted_edges(
    edges: &Vec<RegisteredEdge>,
    rows: &Vec<Vec<EdgeRow>>,
    governor: &mut ResourceGovernor,
    batch_size: usize,
    max_record_bytes: usize,
    merge_fanout: usize,
) -> (result: GraphResult<PersistedEdgeRuns>)
    requires
        edges@.len() == rows@.len(),
    ensures
        ({
            let start = old(governor)@;
            let limits = batch_size > 0 && merge_fanout >= 2;
            let valid = edges_valid(edges@, rows@, max_record_bytes as nat);
            let registry = registry_of(all_labels(edges@, rows@, edges@.len()));
            let kept = start.after_memory(registry_bytes(registry) as int);
            let admitted = edge_scan_admitted(start, edges@, rows@, max_record_bytes as nat);
            &&& result is Ok ==> limits && valid && admitted && final(governor)@ == kept
            &&& result matches Ok(runs) ==> exists|raw: Seq<RecordView>| #[trigger]
                edge_scan_of(runs, raw, edges@, rows@)
            &&& limits && valid && admitted && edges_normal(edges@, rows@) && !start.can_expire()
                ==> result is Ok
            &&& result is Err ==> final(governor)@ == start
            &&& !limits ==> result is Err && result->Err_0@ == ErrorView::Internal(
                "direct edge scan limits are invalid"@,
            )
            &&& result matches Err(error) ==> !limits || edge_scan_error(
                error@,
                start,
                edges@,
                rows@,
                max_record_bytes as nat,
            )
        }),
{
    if batch_size == 0 || merge_fanout < 2 {
        return Err(internal("direct edge scan limits are invalid"));
    }
    let used: u64 = governor.memory_used();
    let scanned: GraphResult<EdgeScan> = scan_all_edges(edges, rows, governor, max_record_bytes);
    let reserved: u64 = governor.memory_used();
    let scan: EdgeScan = match scanned {
        Ok(scan) => scan,
        Err(error) => {
            governor.release_memory(reserved - used);
            return Err(error);
        },
    };
    let raw: Option<StagedRun> = collected(scan.raw);
    let ghost ordered = owned_view(raw);
    let ghost before = governor@;
    let runs: GraphResult<PersistedEdgeRuns> = normalize_relationships(
        raw.as_ref(),
        scan.registry,
        governor,
        max_record_bytes,
    );
    proof {
        assert(runs is Ok ==> edge_scan_of(runs->Ok_0, ordered, edges@, rows@));
        assert(sorted_copy(ordered, edges_raw(edges@, rows@)));
        if runs is Err && before.admits_memory(max_record_bytes as int) {
            assert(raws_refused(ordered, runs->Err_0@));
            assert(!raws_normal(ordered));
        }
    }
    if runs.is_err() {
        governor.release_memory(reserved - used);
    }
    runs
}

} // verus!
