//! What scanned relationship rows become: edges with the labels, weights,
//! directions and identities of the rows.
use vstd::prelude::*;
use vstd::utf8::{encode_utf8, encode_utf8_valid_utf8};

use crate::direct_edges::{edge_of, edge_record, law_edge_record_reads_back, DecodedEdge};
use crate::direct_sections::{
    identity_key, identity_mapping, identity_record, law_identity_record_reads_back,
};
use crate::raw_edges::{
    edge_records, forward_list, identity_list, identity_part, law_raw_record_reads_back,
    mirrored_all, oriented, raw_fresh, raw_of, raw_record, relationship_of, PersistedEdgeRuns,
};
use crate::run_records::{sorted_copy, RecordView};
use crate::scan_edges::{
    all_labels, all_pairs, edge_row_valid, edge_scan_of, edges_raw, edges_valid, label_views,
    registry_of, row_label, row_labels, row_raw, row_weight, EdgeRow,
};
use crate::scan_sources::owned_view;
use crate::scan_sql::RegisteredEdge;
use crate::text::{is_space, trim_end, trim_start};

verus! {

/// White space among the characters of ASCII is the blank and the five control
/// characters from the tab on; letters, digits and punctuation are not.
pub proof fn law_white_space(c: char)
    requires
        (c as u32) < 0x80,
    ensures
        is_space(c) <==> c == ' ' || c == '\t' || c == '\n' || c == '\r' || c as u32 == 0x0b
            || c as u32 == 0x0c,
{
}

/// Whether a text has a character that is not white space.
pub open spec fn says_something(text: Seq<char>) -> bool {
    exists|i: int| 0 <= i < text.len() && !is_space(#[trigger] text[i])
}

proof fn lemma_trim_end(text: Seq<char>)
    ensures
        trim_end(text).len() > 0 <==> says_something(text),
    decreases text.len(),
{
    if text.len() > 0 {
        if is_space(text.last()) {
            let rest = text.drop_last();
            lemma_trim_end(rest);
            if says_something(rest) {
                let i = choose|i: int| 0 <= i < rest.len() && !is_space(#[trigger] rest[i]);
                assert(!is_space(text[i]));
            }
            if says_something(text) {
                let i = choose|i: int| 0 <= i < text.len() && !is_space(#[trigger] text[i]);
                assert(!is_space(rest[i]));
            }
        } else {
            assert(!is_space(text[text.len() - 1]));
        }
    }
}

proof fn lemma_trim(text: Seq<char>)
    ensures
        trim_end(trim_start(text)).len() > 0 <==> says_something(text),
    decreases text.len(),
{
    if text.len() > 0 && is_space(text[0]) {
        let rest = text.drop_first();
        lemma_trim(rest);
        if says_something(rest) {
            let i = choose|i: int| 0 <= i < rest.len() && !is_space(#[trigger] rest[i]);
            assert(!is_space(text[i + 1]));
        }
        if says_something(text) {
            let i = choose|i: int| 0 <= i < text.len() && !is_space(#[trigger] text[i]);
            assert(!is_space(rest[i - 1]));
        }
    } else {
        lemma_trim_end(text);
    }
}

proof fn lemma_registered(labels: Seq<Seq<char>>, label: Seq<char>)
    ensures
        labels.contains(label) ==> registry_of(labels).contains(label),
        registry_of(labels).len() >= 1,
        registry_of(labels)[0] == Seq::<char>::empty(),
    decreases labels.len(),
{
    if labels.len() > 0 {
        let rest = labels.drop_last();
        lemma_registered(rest, label);
        let before = registry_of(rest);
        let after = registry_of(labels);
        if labels.contains(label) {
            let i = choose|i: int| 0 <= i < labels.len() && labels[i] == label;
            if i < rest.len() {
                assert(rest[i] == label);
                let k = choose|k: int| 0 <= k < before.len() && before[k] == label;
                assert(after[k] == label);
            } else if !before.contains(label) {
                assert(after[before.len() as int] == label);
            }
        }
    }
}

proof fn lemma_pair_at(
    edges: Seq<RegisteredEdge>,
    rows: Seq<Vec<EdgeRow>>,
    count: nat,
    e: int,
    r: int,
) -> (at: int)
    requires
        0 <= e < count <= edges.len(),
        edges.len() == rows.len(),
        0 <= r < rows[e]@.len(),
    ensures
        0 <= at < all_pairs(edges, rows, count).len(),
        all_pairs(edges, rows, count)[at] == (edges[e], rows[e]@[r]),
        all_labels(edges, rows, count).contains(row_label(edges[e], rows[e]@[r])),
    decreases count,
{
    let last = (count - 1) as nat;
    let pairs = all_pairs(edges, rows, last);
    let labels = all_labels(edges, rows, last);
    let own = row_labels(edges[last as int], rows[last as int]@, rows[last as int]@.len());
    if e < last {
        let at = lemma_pair_at(edges, rows, last, e, r);
        let label = row_label(edges[e], rows[e]@[r]);
        let k = choose|k: int| 0 <= k < labels.len() && labels[k] == label;
        assert((labels + own)[k] == label);
        at
    } else {
        let label = row_label(edges[e], rows[e]@[r]);
        if edges[e].label_column is None {
            assert(own[0] == label);
            assert((labels + own)[labels.len() as int] == label);
        } else {
            assert(own[r] == label);
            assert((labels + own)[labels.len() + r] == label);
        }
        pairs.len() + r
    }
}

proof fn lemma_copy_contains(records: Seq<RecordView>, list: Seq<RecordView>, record: RecordView)
    requires
        sorted_copy(records, list),
    ensures
        records.contains(record) <==> list.contains(record),
{
    broadcast use vstd::seq_lib::group_to_multiset_ensures;

    assert(records.to_multiset().contains(record) == list.to_multiset().contains(record));
}

proof fn lemma_forward_contains(records: Seq<RecordView>, count: nat, at: int)
    requires
        0 <= at < count <= records.len(),
    ensures
        forward_list(records, count).contains(oriented(records, at, false)),
        raw_of(records[at]).bidirectional ==> forward_list(records, count).contains(
            oriented(records, at, true),
        ),
    decreases count,
{
    let rest = forward_list(records, (count - 1) as nat);
    let all = forward_list(records, count);
    if at < count - 1 {
        lemma_forward_contains(records, (count - 1) as nat, at);
        let k = choose|k: int| 0 <= k < rest.len() && rest[k] == oriented(records, at, false);
        assert(all[k] == oriented(records, at, false));
        if raw_of(records[at]).bidirectional {
            let k = choose|k: int| 0 <= k < rest.len() && rest[k] == oriented(records, at, true);
            assert(all[k] == oriented(records, at, true));
        }
    } else {
        assert(all[rest.len() as int] == oriented(records, at, false));
        if raw_of(records[at]).bidirectional {
            assert(all[(rest.len() + 1) as int] == oriented(records, at, true));
        }
    }
}

proof fn lemma_identity_contains(records: Seq<RecordView>, count: nat, at: int)
    requires
        0 <= at < count <= records.len(),
    ensures
        exists|k: int|
            #![trigger records[k]]
            {
                &&& 0 <= k <= at
                &&& relationship_of(records, k as nat) == relationship_of(records, at as nat)
                &&& identity_part(records[k]) == identity_part(records[at])
                &&& identity_list(records, count).contains(
                    identity_record(
                        relationship_of(records, k as nat),
                        raw_of(records[k]).mapping,
                        raw_of(records[k]).key,
                    ),
                )
            },
    decreases count, at,
{
    let rest = identity_list(records, (count - 1) as nat);
    let all = identity_list(records, count);
    if at < count - 1 {
        lemma_identity_contains(records, (count - 1) as nat, at);
        let k = choose|k: int|
            #![trigger records[k]]
            {
                &&& 0 <= k <= at
                &&& relationship_of(records, k as nat) == relationship_of(records, at as nat)
                &&& identity_part(records[k]) == identity_part(records[at])
                &&& rest.contains(
                    identity_record(
                        relationship_of(records, k as nat),
                        raw_of(records[k]).mapping,
                        raw_of(records[k]).key,
                    ),
                )
            };
        let record = identity_record(
            relationship_of(records, k as nat),
            raw_of(records[k]).mapping,
            raw_of(records[k]).key,
        );
        let p = choose|p: int| 0 <= p < rest.len() && rest[p] == record;
        assert(all[p] == record);
        assert(all.contains(record));
    } else if raw_fresh(records, at) {
        let record = identity_record(
            relationship_of(records, at as nat),
            raw_of(records[at]).mapping,
            raw_of(records[at]).key,
        );
        assert(all[rest.len() as int] == record);
        assert(all.contains(record));
        assert(records[at] == records[at]);
    } else {
        lemma_identity_contains(records, (count - 1) as nat, at - 1);
        let k = choose|k: int|
            #![trigger records[k]]
            {
                &&& 0 <= k <= at - 1
                &&& relationship_of(records, k as nat) == relationship_of(
                    records,
                    (at - 1) as nat,
                )
                &&& identity_part(records[k]) == identity_part(records[at - 1])
                &&& rest.contains(
                    identity_record(
                        relationship_of(records, k as nat),
                        raw_of(records[k]).mapping,
                        raw_of(records[k]).key,
                    ),
                )
            };
        assert(relationship_of(records, at as nat) == relationship_of(records, (at - 1) as nat));
        assert(all == rest);
        assert(records[k] == records[k]);
    }
}

/// Whether a run of edges holds an edge.
pub open spec fn run_holds(records: Seq<RecordView>, edge: DecodedEdge) -> bool {
    exists|i: int| 0 <= i < records.len() && edge_of(#[trigger] records[i]) == edge
}

/// Whether a run of identities gives a relationship's number a mapping and a
/// source key.
pub open spec fn identity_held(
    records: Seq<RecordView>,
    id: u32,
    mapping: u64,
    key: Seq<char>,
) -> bool {
    exists|i: int|
        0 <= i < records.len() && crate::codec::be_value((#[trigger] records[i]).key) == id
            && identity_mapping(records[i]) == mapping && identity_key(records[i]) == encode_utf8(
            key,
        )
}

/// Whether a number is a fetched weight brought into range: one that is too
/// small counts as one, and one that is too large as the greatest.
pub open spec fn weight_in_range(fetched: i64, weight: u32) -> bool {
    &&& 1 <= fetched <= 0xffff_ffff ==> weight == fetched
    &&& fetched < 1 ==> weight == 1
    &&& fetched > 0xffff_ffff ==> weight == 0xffff_ffff
}

/// Whether runs hold the edges of a fetched row: from its source to its target,
/// of a type whose registered label is the row's own, where the relationship has
/// a column for labels and the row has a text there that is not blank, and else
/// the relationship's; with the row's weight, where the relationship has a column
/// for weights, and else none; under a number that stands for the relationship
/// and the row's key; outbound, inbound as seen from the other end and, where the
/// relationship goes both ways, turned around in either run.
pub open spec fn row_held(
    runs: PersistedEdgeRuns,
    edge: RegisteredEdge,
    row: EdgeRow,
    type_id: u8,
    weight: u32,
    id: u32,
) -> bool {
    let (source, target) = (row.source->Some_0 as u32, row.target->Some_0 as u32);
    let registry = runs.edge_type_registry@;
    let forward = owned_view(runs.forward);
    let inbound = owned_view(runs.inbound);
    &&& type_id < registry.len()
    &&& edge.label_column is Some && row.label is Some && says_something(row.label->Some_0@)
        ==> registry[type_id as int]@ == row.label->Some_0@
    &&& edge.label_column is None || row.label is None || !says_something(row.label->Some_0@)
        ==> registry[type_id as int]@ == edge.label@
    &&& edge.weight_column is Some && row.weight is Some ==> weight_in_range(
        row.weight->Some_0,
        weight,
    )
    &&& edge.weight_column is None || row.weight is None ==> weight == 0
    &&& id >= 1
    &&& identity_held(
        owned_view(runs.identities),
        id,
        edge.mapping_id,
        row.source_key->Some_0@,
    )
    &&& run_holds(
        forward,
        DecodedEdge {
            source,
            target,
            type_id,
            schema_reversed: 0,
            weight,
            relationship_id: id,
        },
    )
    &&& run_holds(
        inbound,
        DecodedEdge {
            source: target,
            target: source,
            type_id,
            schema_reversed: 0,
            weight,
            relationship_id: id,
        },
    )
    &&& edge.bidirectional ==> run_holds(
        forward,
        DecodedEdge {
            source: target,
            target: source,
            type_id,
            schema_reversed: 1,
            weight,
            relationship_id: id,
        },
    ) && run_holds(
        inbound,
        DecodedEdge {
            source,
            target,
            type_id,
            schema_reversed: 1,
            weight,
            relationship_id: id,
        },
    )
}

proof fn lemma_run_holds(records: Seq<RecordView>, edges: Seq<DecodedEdge>, edge: DecodedEdge)
    requires
        sorted_copy(records, edge_records(edges)),
        edges.contains(edge),
        edge.schema_reversed <= 1,
    ensures
        run_holds(records, edge),
{
    let list = edge_records(edges);
    let k = choose|k: int| 0 <= k < edges.len() && edges[k] == edge;
    assert(list[k] == edge_record(edge));
    lemma_copy_contains(records, list, edge_record(edge));
    law_edge_record_reads_back(edge);
    let i = choose|i: int| 0 <= i < records.len() && records[i] == edge_record(edge);
    assert(edge_of(records[i]) == edge);
}

/// A row's edges have the row's own label, to the letter, if the relationship has
/// a label column and the row's label says something, and the relationship's label
/// else. They weigh what the row says, brought into the range from one up, if the
/// relationship has a weight column and the row a weight, and nothing else.
pub proof fn law_rows_choose_label_and_weight(edge: RegisteredEdge, row: EdgeRow)
    ensures
        ({
            let own = edge.label_column is Some && row.label is Some && says_something(
                row.label->Some_0@,
            );
            &&& own ==> row_label(edge, row) == row.label->Some_0@
            &&& !own ==> row_label(edge, row) == edge.label@
        }),
        edge.weight_column is Some && row.weight is Some ==> weight_in_range(
            row.weight->Some_0,
            row_weight(edge, row),
        ),
        edge.weight_column is None || row.weight is None ==> row_weight(edge, row) == 0,
{
    if row.label is Some {
        lemma_trim(row.label->Some_0@);
    }
}

/// Every fetched row of a scanned relationship becomes its edges in the runs.
#[verifier::spinoff_prover]
#[verifier::rlimit(60)]
pub proof fn law_scanned_row_becomes_edges(
    runs: PersistedEdgeRuns,
    raw: Seq<RecordView>,
    edges: Seq<RegisteredEdge>,
    rows: Seq<Vec<EdgeRow>>,
    max_record_bytes: nat,
    e: int,
    r: int,
)
    requires
        edges.len() == rows.len(),
        edges_valid(edges, rows, max_record_bytes),
        edge_scan_of(runs, raw, edges, rows),
        0 <= e < edges.len(),
        0 <= r < rows[e]@.len(),
        edges[e].mapping_id != 0,
    ensures
        exists|type_id: u8, weight: u32, id: u32| #[trigger]
            row_held(runs, edges[e], rows[e]@[r], type_id, weight, id),
{
    let edge = edges[e];
    let row = rows[e]@[r];
    let registry = registry_of(all_labels(edges, rows, edges.len()));
    let at = lemma_pair_at(edges, rows, edges.len(), e, r);
    let pairs = all_pairs(edges, rows, edges.len());
    let label = row_label(edge, row);
    lemma_registered(all_labels(edges, rows, edges.len()), label);
    if row.label is Some {
        lemma_trim(row.label->Some_0@);
    }
    assert(edge_row_valid(pairs[at].1));
    let view = row_raw(edge, row, registry);
    let record = raw_record(view);
    let list = edges_raw(edges, rows);
    assert(list[at] == record);
    lemma_copy_contains(raw, list, record);
    let place = choose|place: int| 0 <= place < raw.len() && raw[place] == record;
    let key = encode_utf8(row.source_key->Some_0@);
    encode_utf8_valid_utf8(row.source_key->Some_0@);
    law_raw_record_reads_back(view);
    registry.index_of_first_ensures(label);
    let type_id = view.type_id;
    let weight = view.weight;
    crate::raw_edges::lemma_numbers_small(raw, place as nat);
    crate::raw_edges::lemma_forward_grows(raw, (place + 1) as nat, raw.len());
    let id = relationship_of(raw, place as nat) as u32;
    assert(id == relationship_of(raw, place as nat));
    let forward = forward_list(raw, raw.len());
    lemma_forward_contains(raw, raw.len(), place);
    let out = oriented(raw, place, false);
    lemma_run_holds(owned_view(runs.forward), forward, out);
    lemma_mirrored_contains(forward, out);
    let back = DecodedEdge { source: out.target, target: out.source, ..out };
    lemma_run_holds(owned_view(runs.inbound), mirrored_all(forward), back);
    if edge.bidirectional {
        let turned = oriented(raw, place, true);
        lemma_run_holds(owned_view(runs.forward), forward, turned);
        lemma_mirrored_contains(forward, turned);
        let other = DecodedEdge { source: turned.target, target: turned.source, ..turned };
        lemma_run_holds(owned_view(runs.inbound), mirrored_all(forward), other);
    }
    lemma_identity_contains(raw, raw.len(), place);
    let k = choose|k: int|
        #![trigger raw[k]]
        {
            &&& 0 <= k <= place
            &&& relationship_of(raw, k as nat) == relationship_of(raw, place as nat)
            &&& identity_part(raw[k]) == identity_part(raw[place])
            &&& identity_list(raw, raw.len()).contains(
                identity_record(
                    relationship_of(raw, k as nat),
                    raw_of(raw[k]).mapping,
                    raw_of(raw[k]).key,
                ),
            )
        };
    lemma_same_identity(raw[k], raw[place]);
    let named = identity_record(id as nat, edge.mapping_id as nat, key);
    lemma_copy_contains(owned_view(runs.identities), identity_list(raw, raw.len()), named);
    law_identity_record_reads_back(id, edge.mapping_id, key);
    let p = choose|p: int|
        0 <= p < owned_view(runs.identities).len() && owned_view(runs.identities)[p] == named;
    assert(crate::codec::be_value(owned_view(runs.identities)[p].key) == id);
    assert(label_views(runs.edge_type_registry@)[type_id as int] == label);
    assert(row_held(runs, edge, row, type_id, weight, id));
}

/// Records whose identity parts are the same name the same relationship.
proof fn lemma_same_identity(left: RecordView, right: RecordView)
    requires
        crate::raw_edges::raw_valid(left),
        crate::raw_edges::raw_valid(right),
        identity_part(left) == identity_part(right),
    ensures
        raw_of(left).mapping == raw_of(right).mapping,
        raw_of(left).key == raw_of(right).key,
{
    let (a, b) = (identity_part(left), identity_part(right));
    let length = crate::raw_edges::identity_len(left);
    assert(a.len() == length);
    assert(b.len() == crate::raw_edges::identity_len(right));
    assert(left.key.subrange(0, 8) =~= a.subrange(0, 8));
    assert(right.key.subrange(0, 8) =~= b.subrange(0, 8));
    assert(left.key.subrange(12, length) =~= a.subrange(12, length));
    assert(right.key.subrange(12, length) =~= b.subrange(12, length));
}

proof fn lemma_mirrored_contains(edges: Seq<DecodedEdge>, edge: DecodedEdge)
    requires
        edges.contains(edge),
    ensures
        mirrored_all(edges).contains(
            DecodedEdge { source: edge.target, target: edge.source, ..edge },
        ),
{
    let k = choose|k: int| 0 <= k < edges.len() && edges[k] == edge;
    assert(mirrored_all(edges)[k] == DecodedEdge {
        source: edge.target,
        target: edge.source,
        ..edge
    });
}

/// How many edges fetched rows make: one each, and two where the relationship
/// goes both ways.
pub open spec fn edges_wanted(
    edges: Seq<RegisteredEdge>,
    rows: Seq<Vec<EdgeRow>>,
    count: nat,
) -> nat
    decreases count,
{
    if count == 0 {
        0
    } else {
        edges_wanted(edges, rows, (count - 1) as nat) + rows[count - 1]@.len()
            * if edges[count - 1].bidirectional {
            2nat
        } else {
            1nat
        }
    }
}

/// How many of some records go both ways.
spec fn both_ways(records: Seq<RecordView>) -> nat
    decreases records.len(),
{
    if records.len() == 0 {
        0
    } else {
        both_ways(records.drop_last()) + if raw_of(records.last()).bidirectional {
            1nat
        } else {
            0nat
        }
    }
}

proof fn lemma_forward_counts(records: Seq<RecordView>, count: nat)
    requires
        count <= records.len(),
    ensures
        forward_list(records, count).len() == count + both_ways(records.take(count as int)),
    decreases count,
{
    if count > 0 {
        lemma_forward_counts(records, (count - 1) as nat);
        assert(records.take(count as int).drop_last() =~= records.take(count - 1));
    }
}

/// The number of records that go both ways does not depend on their order.
proof fn lemma_both_ways_multiset(left: Seq<RecordView>, right: Seq<RecordView>)
    requires
        left.to_multiset() == right.to_multiset(),
    ensures
        both_ways(left) == both_ways(right),
        left.len() == right.len(),
    decreases left.len(),
{
    broadcast use vstd::seq_lib::group_to_multiset_ensures;

    vstd::seq_lib::to_multiset_len(left);
    vstd::seq_lib::to_multiset_len(right);
    assert(left.len() == right.len());
    if left.len() > 0 {
        let last = left.last();
        assert(left.contains(last));
        assert(right.to_multiset().contains(last));
        assert(right.contains(last));
        let k = choose|k: int| 0 <= k < right.len() && right[k] == last;
        let rest = right.remove(k);
        vstd::seq_lib::to_multiset_remove(left, left.len() - 1);
        vstd::seq_lib::to_multiset_remove(right, k);
        assert(left.remove(left.len() - 1) =~= left.drop_last());
        lemma_both_ways_multiset(left.drop_last(), rest);
        lemma_both_ways_remove(right, k);
    }
}

proof fn lemma_both_ways_remove(records: Seq<RecordView>, at: int)
    requires
        0 <= at < records.len(),
    ensures
        both_ways(records) == both_ways(records.remove(at)) + if raw_of(
            records[at],
        ).bidirectional {
            1nat
        } else {
            0nat
        },
    decreases records.len(),
{
    let rest = records.drop_last();
    if at == records.len() - 1 {
        assert(records.remove(at) =~= rest);
    } else {
        lemma_both_ways_remove(rest, at);
        let removed = records.remove(at);
        assert(removed.drop_last() =~= rest.remove(at));
        assert(removed.last() == records.last());
    }
}

proof fn lemma_both_ways_pairs(
    pairs: Seq<(RegisteredEdge, EdgeRow)>,
    registry: Seq<Seq<char>>,
)
    requires
        forall|i: int| 0 <= i < pairs.len() ==> edge_row_valid((#[trigger] pairs[i]).1),
    ensures
        both_ways(crate::scan_edges::raw_list(pairs, registry)) == bidirectional_pairs(pairs),
    decreases pairs.len(),
{
    let list = crate::scan_edges::raw_list(pairs, registry);
    if pairs.len() > 0 {
        let rest = pairs.drop_last();
        assert forall|i: int| 0 <= i < rest.len() implies edge_row_valid(
            (#[trigger] rest[i]).1,
        ) by {
            assert(rest[i] == pairs[i]);
        }
        lemma_both_ways_pairs(rest, registry);
        assert(list.drop_last() =~= crate::scan_edges::raw_list(rest, registry));
        let last = pairs.len() - 1;
        assert(edge_row_valid(pairs[last].1));
        let view = row_raw(pairs[last].0, pairs[last].1, registry);
        encode_utf8_valid_utf8(pairs[last].1.source_key->Some_0@);
        law_raw_record_reads_back(view);
    }
}

spec fn bidirectional_pairs(pairs: Seq<(RegisteredEdge, EdgeRow)>) -> nat
    decreases pairs.len(),
{
    if pairs.len() == 0 {
        0
    } else {
        bidirectional_pairs(pairs.drop_last()) + if pairs.last().0.bidirectional {
            1nat
        } else {
            0nat
        }
    }
}

proof fn lemma_pairs_counted(edges: Seq<RegisteredEdge>, rows: Seq<Vec<EdgeRow>>, count: nat)
    requires
        count <= edges.len(),
        edges.len() == rows.len(),
    ensures
        all_pairs(edges, rows, count).len() + bidirectional_pairs(all_pairs(edges, rows, count))
            == edges_wanted(edges, rows, count),
    decreases count,
{
    if count > 0 {
        let last = (count - 1) as nat;
        lemma_pairs_counted(edges, rows, last);
        let own = rows[last as int]@;
        lemma_own_pairs(
            all_pairs(edges, rows, last),
            edges[last as int],
            own,
            own.len(),
        );
        let length = own.len();
        assert(length * 2 == length + length) by (nonlinear_arith);
        assert(length * 1 == length) by (nonlinear_arith);
    } else {
        assert(all_pairs(edges, rows, 0).len() == 0);
    }
}

proof fn lemma_own_pairs(
    before: Seq<(RegisteredEdge, EdgeRow)>,
    edge: RegisteredEdge,
    rows: Seq<EdgeRow>,
    count: nat,
)
    requires
        count <= rows.len(),
    ensures
        bidirectional_pairs(before + crate::scan_edges::row_pairs(edge, rows, count))
            == bidirectional_pairs(before) + if edge.bidirectional {
            count
        } else {
            0
        },
    decreases count,
{
    let all = before + crate::scan_edges::row_pairs(edge, rows, count);
    if count > 0 {
        lemma_own_pairs(before, edge, rows, (count - 1) as nat);
        assert(all.drop_last() =~= before + crate::scan_edges::row_pairs(
            edge,
            rows,
            (count - 1) as nat,
        ));
    } else {
        assert(all =~= before);
    }
}

/// A scan makes no other edges than those of its rows: as many outbound ones as
/// there are rows, each row of a relationship that goes both ways counted twice,
/// and as many inbound ones.
pub proof fn law_scan_makes_no_other_edges(
    runs: PersistedEdgeRuns,
    raw: Seq<RecordView>,
    edges: Seq<RegisteredEdge>,
    rows: Seq<Vec<EdgeRow>>,
    max_record_bytes: nat,
)
    requires
        edges.len() == rows.len(),
        edges_valid(edges, rows, max_record_bytes),
        edge_scan_of(runs, raw, edges, rows),
    ensures
        owned_view(runs.forward).len() == edges_wanted(edges, rows, edges.len()),
        owned_view(runs.inbound).len() == edges_wanted(edges, rows, edges.len()),
        runs.forward_edge_count == edges_wanted(edges, rows, edges.len()),
        runs.inbound_edge_count == edges_wanted(edges, rows, edges.len()),
{
    broadcast use vstd::seq_lib::group_to_multiset_ensures;

    let list = edges_raw(edges, rows);
    let pairs = all_pairs(edges, rows, edges.len());
    let forward = forward_list(raw, raw.len());
    lemma_forward_counts(raw, raw.len());
    assert(raw.take(raw.len() as int) =~= raw);
    lemma_both_ways_multiset(raw, list);
    lemma_both_ways_pairs(pairs, registry_of(all_labels(edges, rows, edges.len())));
    lemma_pairs_counted(edges, rows, edges.len());
    assert(owned_view(runs.forward).to_multiset().len() == edge_records(
        forward,
    ).to_multiset().len());
    assert(owned_view(runs.inbound).to_multiset().len() == edge_records(
        mirrored_all(forward),
    ).to_multiset().len());
}

/// The registry of a scan starts with the empty label, and holds each label of
/// the rows once.
pub proof fn law_scan_registers_each_label_once(
    edges: Seq<RegisteredEdge>,
    rows: Seq<Vec<EdgeRow>>,
    i: int,
    j: int,
)
    ensures
        ({
            let registry = registry_of(all_labels(edges, rows, edges.len()));
            &&& registry.len() >= 1
            &&& registry[0].len() == 0
            &&& 0 <= i < j < registry.len() ==> registry[i] != registry[j]
        }),
{
    let labels = all_labels(edges, rows, edges.len());
    lemma_registered(labels, Seq::empty());
    lemma_registry_differs(labels, i, j);
}

proof fn lemma_registry_differs(labels: Seq<Seq<char>>, i: int, j: int)
    ensures
        0 <= i < j < registry_of(labels).len() ==> registry_of(labels)[i] != registry_of(labels)[j],
    decreases labels.len(),
{
    if labels.len() > 0 {
        let before = registry_of(labels.drop_last());
        lemma_registry_differs(labels.drop_last(), i, j);
        if 0 <= i < j < registry_of(labels).len() && j == before.len() && before[i]
            == labels.last() {
            assert(before.contains(labels.last()));
        }
    }
}

} // verus!
