//! Per-column storage of filter values: dense slots, or one of three sparse
//! forms that suit the column's domain.
use vstd::prelude::*;

use crate::errors::{corrupt, GraphResult};
use crate::filter_value::{
    default_encoded_value, default_value, encoded_value_matches, in_domain, EncodedFilterValue,
    FilterColumnType,
};
use crate::limits::{bounded_product, bounded_sum, product, sum};
use crate::node_set::NodeSet;

verus! {

/// A column with less than this share of its nodes populated is sparse.
pub const SPARSE_THRESHOLD_NUMERATOR: usize = 15;

/// See [`SPARSE_THRESHOLD_NUMERATOR`].
pub const SPARSE_THRESHOLD_DENOMINATOR: usize = 100;

/// How the values of a column are kept.
#[derive(Debug, Clone, Copy, PartialEq, Eq, Structural)]
pub enum FilterStorageKind {
    Dense,
    SparseBool,
    SparseLookup,
    SparseOrdered,
}

/// The values of a column, by node.
#[derive(Debug)]
pub enum FilterColumnStorage {
    /// One slot per node.
    Dense { values: Vec<EncodedFilterValue>, present: NodeSet },
    /// The nodes of each truth value.
    SparseBool { yes: NodeSet, no: NodeSet, present: NodeSet },
    /// The nodes of each value.
    SparseLookup { groups: Vec<(EncodedFilterValue, NodeSet)>, present: NodeSet },
    /// Nodes in increasing order with their values.
    SparseOrdered { entries: Vec<(u32, EncodedFilterValue)>, present: NodeSet },
}

/// Whether so few nodes have a value that a sparse form is used.
pub open spec fn sparse(populated: nat, nodes: nat) -> bool {
    nodes != 0 && bounded_product(populated, SPARSE_THRESHOLD_DENOMINATOR as nat)
        < bounded_product(nodes, SPARSE_THRESHOLD_NUMERATOR as nat)
}

/// The sparse form of a domain.
pub open spec fn sparse_kind(column_type: FilterColumnType) -> FilterStorageKind {
    match column_type {
        FilterColumnType::Boolean => FilterStorageKind::SparseBool,
        FilterColumnType::Text | FilterColumnType::Uuid => FilterStorageKind::SparseLookup,
        _ => FilterStorageKind::SparseOrdered,
    }
}

/// Whether so few nodes have a value that a sparse form is used.
pub fn is_sparse(populated_count: usize, node_count: usize) -> (result: bool)
    ensures
        result == sparse(populated_count as nat, node_count as nat),
{
    node_count != 0 && product(populated_count, SPARSE_THRESHOLD_DENOMINATOR) < product(
        node_count,
        SPARSE_THRESHOLD_NUMERATOR,
    )
}

spec fn group_holds(
    groups: Seq<(EncodedFilterValue, NodeSet)>,
    group: int,
    node: u32,
) -> bool {
    0 <= group < groups.len() && groups[group].1@.contains(node)
}

spec fn entry_is(entries: Seq<(u32, EncodedFilterValue)>, entry: int, node: u32) -> bool {
    0 <= entry < entries.len() && entries[entry].0 == node
}

spec fn groups_wf(groups: Seq<(EncodedFilterValue, NodeSet)>) -> bool {
    &&& forall|i: int, j: int|
        0 <= i < j < groups.len() ==> #[trigger] groups[i].0 != #[trigger] groups[j].0
    &&& forall|i: int, j: int, node: u32| #[trigger]
        group_holds(groups, i, node) && #[trigger] group_holds(groups, j, node) ==> i == j
}

spec fn entries_wf(entries: Seq<(u32, EncodedFilterValue)>) -> bool {
    forall|i: int, j: int| 0 <= i < j < entries.len() ==> entries[i].0 < entries[j].0
}

/// The position of the first entry whose node is not less than the given one.
fn entry_position(entries: &Vec<(u32, EncodedFilterValue)>, node: u32) -> (at: usize)
    requires
        entries_wf(entries@),
    ensures
        at <= entries@.len(),
        forall|i: int| 0 <= i < at ==> #[trigger] entries@[i].0 < node,
        forall|i: int| at <= i < entries@.len() ==> #[trigger] entries@[i].0 >= node,
{
    let mut low: usize = 0;
    let mut high: usize = entries.len();
    while low < high
        invariant
            low <= high <= entries@.len(),
            entries_wf(entries@),
            forall|i: int| 0 <= i < low ==> #[trigger] entries@[i].0 < node,
            forall|i: int| high <= i < entries@.len() ==> #[trigger] entries@[i].0 >= node,
        decreases high - low,
    {
        let mid: usize = low + (high - low) / 2;
        if entries[mid].0 < node {
            proof {
                assert forall|i: int| 0 <= i < mid + 1 implies #[trigger] entries@[i].0 < node by {
                    if i < mid {
                        assert(entries@[i].0 < entries@[mid as int].0);
                    }
                }
            }
            low = mid + 1;
        } else {
            proof {
                assert forall|i: int| mid <= i < entries@.len() implies #[trigger] entries@[i].0
                    >= node by {
                    if i > mid {
                        assert(entries@[mid as int].0 < entries@[i].0);
                    }
                }
            }
            high = mid;
        }
    }
    low
}

/// Sets, replaces or drops the entry of a node.
fn set_entry(
    entries: &mut Vec<(u32, EncodedFilterValue)>,
    node: u32,
    value: Option<EncodedFilterValue>,
)
    requires
        entries_wf(old(entries)@),
    ensures
        entries_step(old(entries)@, final(entries)@, node, value),
{
    let at: usize = entry_position(entries, node);
    let length: usize = entries.len();
    let ghost before = entries@;
    let found: bool = at < length && entries[at].0 == node;
    proof {
        assert(found ==> entry_is(before, at as int, node));
        assert forall|i: int| entry_is(before, i, node) implies found && i == at by {
            if i > at {
                assert(before[at as int].0 < before[i].0);
            }
        }
    }
    match value {
        Some(value) => {
            if found {
                entries[at] = (node, value);
                proof {
                    let after = entries@;
                    assert(after =~= before.update(at as int, (node, value)));
                    assert forall|pair: (u32, EncodedFilterValue)| pair.0 != node implies (
                    #[trigger] before.contains(pair) <==> after.contains(pair)) by {
                        if before.contains(pair) {
                            let i = choose|i: int| 0 <= i < before.len() && before[i] == pair;
                            assert(after[i] == pair);
                        }
                        if after.contains(pair) {
                            let i = choose|i: int| 0 <= i < after.len() && after[i] == pair;
                            assert(before[i] == pair);
                        }
                    }
                    assert(after[at as int] == (node, value));
                }
            } else {
                entries.insert(at, (node, value));
                proof {
                    let after = entries@;
                    assert(after =~= before.insert(at as int, (node, value)));
                    assert forall|i: int, j: int| 0 <= i < j < after.len() implies after[i].0
                        < after[j].0 by {
                        if i == at {
                            assert(after[j] == before[j - 1]);
                            assert(before[j - 1].0 >= node);
                            assert(!entry_is(before, j - 1, node));
                        } else if j == at {
                            assert(after[i] == before[i]);
                        } else {
                            let i0 = if i < at { i } else { i - 1 };
                            let j0 = if j < at { j } else { j - 1 };
                            assert(after[i] == before[i0] && after[j] == before[j0]);
                        }
                    }
                    assert forall|pair: (u32, EncodedFilterValue)| pair.0 != node implies (
                    #[trigger] before.contains(pair) <==> after.contains(pair)) by {
                        if before.contains(pair) {
                            let i = choose|i: int| 0 <= i < before.len() && before[i] == pair;
                            let j = if i < at { i } else { i + 1 };
                            assert(after[j] == pair);
                        }
                        if after.contains(pair) {
                            let i = choose|i: int| 0 <= i < after.len() && after[i] == pair;
                            let j = if i < at { i } else { i - 1 };
                            assert(before[j] == pair);
                        }
                    }
                    assert(after[at as int] == (node, value));
                }
            }
        },
        None => {
            if found {
                entries.remove(at);
                proof {
                    let after = entries@;
                    assert(after =~= before.remove(at as int));
                    assert forall|i: int, j: int| 0 <= i < j < after.len() implies after[i].0
                        < after[j].0 by {
                        let i0 = if i < at { i } else { i + 1 };
                        let j0 = if j < at { j } else { j + 1 };
                        assert(after[i] == before[i0] && after[j] == before[j0]);
                    }
                    assert forall|i: int| !entry_is(after, i, node) by {
                        if entry_is(after, i, node) {
                            let i0 = if i < at { i } else { i + 1 };
                            assert(entry_is(before, i0, node));
                        }
                    }
                    assert forall|pair: (u32, EncodedFilterValue)| pair.0 != node implies (
                    #[trigger] before.contains(pair) <==> after.contains(pair)) by {
                        if before.contains(pair) {
                            let i = choose|i: int| 0 <= i < before.len() && before[i] == pair;
                            let j = if i < at { i } else { i - 1 };
                            assert(after[j] == pair);
                        }
                        if after.contains(pair) {
                            let i = choose|i: int| 0 <= i < after.len() && after[i] == pair;
                            let j = if i < at { i } else { i + 1 };
                            assert(before[j] == pair);
                        }
                    }
                }
            }
        },
    }
}

spec fn entries_step(
    before: Seq<(u32, EncodedFilterValue)>,
    after: Seq<(u32, EncodedFilterValue)>,
    node: u32,
    value: Option<EncodedFilterValue>,
) -> bool {
    &&& entries_wf(after)
    &&& forall|pair: (u32, EncodedFilterValue)|
        pair.0 != node ==> (#[trigger] before.contains(pair) <==> after.contains(pair))
    &&& match value {
        Some(value) => after.contains((node, value)),
        None => forall|i: int| !entry_is(after, i, node),
    }
}

spec fn groups_step(
    before: Seq<(EncodedFilterValue, NodeSet)>,
    after: Seq<(EncodedFilterValue, NodeSet)>,
    node: u32,
    kept: Option<EncodedFilterValue>,
) -> bool {
    &&& groups_wf(after)
    &&& before.len() <= after.len()
    &&& forall|i: int| 0 <= i < before.len() ==> #[trigger] after[i].0 == before[i].0
    &&& forall|i: int|
        before.len() <= i < after.len() ==> kept == Some((#[trigger] after[i]).0)
    &&& forall|i: int, other: u32|
        other != node ==> (#[trigger] group_holds(after, i, other) <==> group_holds(
            before,
            i,
            other,
        ))
    &&& match kept {
        Some(value) => exists|i: int| #[trigger]
            group_holds(after, i, node) && after[i].0 == value,
        None => forall|i: int| !group_holds(after, i, node),
    }
}

/// Takes a node out of every group.
fn clear_groups(groups: &mut Vec<(EncodedFilterValue, NodeSet)>, node: u32)
    requires
        groups_wf(old(groups)@),
    ensures
        groups_step(old(groups)@, final(groups)@, node, None),
        final(groups)@.len() == old(groups)@.len(),
{
    let ghost before = groups@;
    let length: usize = groups.len();
    let mut at: usize = 0;
    while at < length
        invariant
            at <= length == groups@.len() == before.len(),
            forall|i: int| 0 <= i < length ==> #[trigger] groups@[i].0 == before[i].0,
            forall|i: int| at <= i < length ==> groups@[i] == before[i],
            forall|i: int|
                0 <= i < at ==> (#[trigger] groups@[i].1)@ == before[i].1@.remove(node),
        decreases length - at,
    {
        groups[at].1.remove(node);
        at = at + 1;
    }
    proof {
        let after = groups@;
        assert forall|i: int, other: u32| other != node implies (#[trigger] group_holds(
            after,
            i,
            other,
        ) <==> group_holds(before, i, other)) by {
            if 0 <= i < length {
                assert(after[i].1@ == before[i].1@.remove(node));
            }
        }
        assert forall|i: int, other: u32| #[trigger] group_holds(after, i, other) implies
            group_holds(before, i, other) by {
            assert(after[i].1@ == before[i].1@.remove(node));
        }
        assert forall|i: int| !group_holds(after, i, node) by {
            if 0 <= i < length {
                assert(after[i].1@ == before[i].1@.remove(node));
            }
        }
        assert(groups_wf(after));
    }
}

/// Puts a node into the group of a value.
fn join_group(
    groups: &mut Vec<(EncodedFilterValue, NodeSet)>,
    value: EncodedFilterValue,
    node: u32,
)
    requires
        groups_wf(old(groups)@),
        forall|i: int| !group_holds(old(groups)@, i, node),
    ensures
        groups_step(old(groups)@, final(groups)@, node, Some(value)),
{
    let ghost before = groups@;
    let length: usize = groups.len();
    let mut at: usize = 0;
    while at < length
        invariant
            at <= length == groups@.len(),
            groups@ == before,
            before == old(groups)@,
            groups_wf(before),
            forall|i: int| !group_holds(before, i, node),
            forall|i: int| 0 <= i < at ==> #[trigger] groups@[i].0 != value,
        decreases length - at,
    {
        if groups[at].0 == value {
            groups[at].1.insert(node);
            proof {
                lemma_joined(before, groups@, at as int, value, node);
            }
            return ;
        }
        at = at + 1;
    }
    let mut nodes: NodeSet = NodeSet::new();
    nodes.insert(node);
    groups.push((value, nodes));
    proof {
        lemma_joined(before, groups@, length as int, value, node);
    }
}

proof fn lemma_joined(
    before: Seq<(EncodedFilterValue, NodeSet)>,
    after: Seq<(EncodedFilterValue, NodeSet)>,
    at: int,
    value: EncodedFilterValue,
    node: u32,
)
    requires
        groups_wf(before),
        forall|i: int| !group_holds(before, i, node),
        0 <= at < after.len(),
        before.len() <= after.len(),
        after.len() == before.len() || (at == before.len() && after.len() == before.len() + 1),
        forall|i: int| 0 <= i < before.len() && i != at ==> #[trigger] after[i] == before[i],
        after[at].0 == value,
        after[at].1@ == (if at < before.len() {
            before[at].1@
        } else {
            Set::empty()
        }).insert(node),
        at < before.len() ==> before[at].0 == value,
        at == before.len() ==> forall|i: int|
            0 <= i < before.len() ==> #[trigger] before[i].0 != value,
    ensures
        groups_step(before, after, node, Some(value)),
{
    assert forall|i: int, other: u32| other != node implies (#[trigger] group_holds(
        after,
        i,
        other,
    ) <==> group_holds(before, i, other)) by {}
    assert forall|i: int| #[trigger] group_holds(after, i, node) implies i == at by {
        if i != at {
            assert(group_holds(before, i, node));
        }
    }
    assert(group_holds(after, at, node));
    assert forall|i: int, j: int, other: u32| #[trigger] group_holds(after, i, other)
        && #[trigger] group_holds(after, j, other) implies i == j by {
        if other != node {
            assert(group_holds(before, i, other) && group_holds(before, j, other));
        }
    }
    assert forall|i: int, j: int| 0 <= i < j < after.len() implies #[trigger] after[i].0
        != #[trigger] after[j].0 by {
        if j < before.len() {
            assert(after[i].0 == before[i].0 && after[j].0 == before[j].0);
        } else {
            assert(after[i].0 == before[i].0);
        }
    }
}

spec fn storage_step(
    before: FilterColumnStorage,
    after: FilterColumnStorage,
    node: u32,
    value: Option<EncodedFilterValue>,
) -> bool {
    let kept = before.after_set(node, value);
    let populated = if kept is Some {
        before.populated().insert(node)
    } else {
        before.populated().remove(node)
    };
    &&& after.populated() == populated
    &&& match (before, after) {
        (
            FilterColumnStorage::Dense { values: v0, .. },
            FilterColumnStorage::Dense { values: v1, .. },
        ) => {
            &&& v1@.len() == v0@.len()
            &&& node < v0@.len()
            &&& v1@ == (match value {
                Some(value) => v0@.update(node as int, value),
                None => v0@,
            })
        },
        (
            FilterColumnStorage::SparseBool { yes: y0, no: n0, .. },
            FilterColumnStorage::SparseBool { yes: y1, no: n1, .. },
        ) => {
            &&& y1@ == (if kept == Some(EncodedFilterValue::Boolean(true)) {
                y0@.insert(node)
            } else {
                y0@.remove(node)
            })
            &&& n1@ == (if kept == Some(EncodedFilterValue::Boolean(false)) {
                n0@.insert(node)
            } else {
                n0@.remove(node)
            })
        },
        (
            FilterColumnStorage::SparseLookup { groups: g0, .. },
            FilterColumnStorage::SparseLookup { groups: g1, .. },
        ) => groups_step(g0@, g1@, node, kept),
        (
            FilterColumnStorage::SparseOrdered { entries: e0, .. },
            FilterColumnStorage::SparseOrdered { entries: e1, .. },
        ) => entries_step(e0@, e1@, node, value),
        _ => false,
    }
}

proof fn lemma_group_value(groups: Seq<(EncodedFilterValue, NodeSet)>, i: int, node: u32)
    requires
        groups_wf(groups),
        group_holds(groups, i, node),
    ensures
        (choose|k: int| group_holds(groups, k, node)) == i,
{
}

proof fn lemma_entry_value(entries: Seq<(u32, EncodedFilterValue)>, i: int, node: u32)
    requires
        entries_wf(entries),
        entry_is(entries, i, node),
    ensures
        (choose|k: int| entry_is(entries, k, node)) == i,
{
    let k = choose|k: int| entry_is(entries, k, node);
    if k < i {
        assert(entries[k].0 < entries[i].0);
    }
    if i < k {
        assert(entries[i].0 < entries[k].0);
    }
}

/// Removing and inserting a node is inserting it.
proof fn lemma_set_sets(before: FilterColumnStorage, node: u32)
    ensures
        before matches FilterColumnStorage::SparseBool { yes, no, .. } ==> yes@.remove(node).insert(node) == yes@.insert(node) && no@.remove(node).insert(node) == no@.insert(node),
{
    if let FilterColumnStorage::SparseBool { yes, no, .. } = before {
        assert(yes@.remove(node).insert(node) =~= yes@.insert(
            node,
        ));
        assert(no@.remove(node).insert(node) =~= no@.insert(node));
    }
}

/// Setting a value of the column's domain for one of its nodes leaves storage
/// that suits the column.
proof fn lemma_set_fits(
    before: FilterColumnStorage,
    after: FilterColumnStorage,
    node: u32,
    value: Option<EncodedFilterValue>,
    column_type: FilterColumnType,
    node_count: nat,
)
    requires
        before.fits(column_type, node_count),
        after.wf(),
        storage_step(before, after, node, value),
        node < node_count,
        value matches Some(value) ==> in_domain(column_type, value),
    ensures
        after.fits(column_type, node_count),
{
    match (before, after) {
        (
            FilterColumnStorage::SparseLookup { groups: g0, .. },
            FilterColumnStorage::SparseLookup { groups: g1, .. },
        ) => {
            assert forall|i: int| 0 <= i < g1@.len() implies in_domain(
                column_type,
                #[trigger] g1@[i].0,
            ) by {
                if i < g0@.len() {
                    assert(g1@[i].0 == g0@[i].0);
                }
            }
        },
        (
            FilterColumnStorage::SparseOrdered { entries: e0, .. },
            FilterColumnStorage::SparseOrdered { entries: e1, .. },
        ) => {
            assert forall|i: int| 0 <= i < e1@.len() implies in_domain(
                column_type,
                #[trigger] e1@[i].1,
            ) by {
                let pair = e1@[i];
                assert(e1@.contains(pair));
                if pair.0 != node {
                    assert(e0@.contains(pair));
                } else {
                    assert(entry_is(e1@, i, node));
                    let j = choose|j: int|
                        0 <= j < e1@.len() && e1@[j] == (node, value->Some_0);
                    if i < j {
                        assert(e1@[i].0 < e1@[j].0);
                    } else if j < i {
                        assert(e1@[j].0 < e1@[i].0);
                    }
                }
            }
        },
        _ => {},
    }
}

proof fn lemma_set_outcome(
    before: FilterColumnStorage,
    after: FilterColumnStorage,
    node: u32,
    value: Option<EncodedFilterValue>,
)
    requires
        before.wf(),
        storage_step(before, after, node, value),
    ensures
        after.wf(),
        after.form() == before.form(),
        after.slots() == before.slots(),
        forall|other: u32| other != node ==> #[trigger] after.at(other) == before.at(other),
        after.at(node) == before.after_set(node, value),
{
    match (before, after) {
        (
            FilterColumnStorage::SparseLookup { groups: g0, present: p0 },
            FilterColumnStorage::SparseLookup { groups: g1, present: p1 },
        ) => {
            assert forall|other: u32| #[trigger] p1@.contains(other) <==> exists|
                i: int,
            | group_holds(g1@, i, other) by {
                if other != node {
                    if exists|i: int| group_holds(g1@, i, other) {
                        let i = choose|i: int| group_holds(g1@, i, other);
                        assert(group_holds(g0@, i, other));
                        assert(p0@.contains(other));
                    }
                    if p1@.contains(other) {
                        assert(p0@.contains(other));
                        let i = choose|i: int| group_holds(g0@, i, other);
                        assert(group_holds(g0@, i, other));
                        assert(group_holds(g1@, i, other));
                    }
                }
            }
            assert forall|other: u32| other != node implies #[trigger] after.at(other)
                == before.at(other) by {
                if p0@.contains(other) {
                    let i = choose|i: int| group_holds(g0@, i, other);
                    assert(group_holds(g0@, i, other));
                    assert(group_holds(g1@, i, other));
                    lemma_group_value(g1@, i, other);
                    assert(g1@[i].0 == g0@[i].0);
                }
            }
            let kept = before.after_set(node, value);
            if kept is Some {
                let i = choose|i: int| #[trigger]
                    group_holds(g1@, i, node) && g1@[i].0 == kept->Some_0;
                lemma_group_value(g1@, i, node);
            }
        },
        (
            FilterColumnStorage::SparseOrdered { entries: e0, present: p0 },
            FilterColumnStorage::SparseOrdered { entries: e1, present: p1 },
        ) => {
            assert forall|other: u32| #[trigger] p1@.contains(other) <==> exists|
                i: int,
            | entry_is(e1@, i, other) by {
                if other != node {
                    if exists|i: int| entry_is(e1@, i, other) {
                        let i = choose|i: int| entry_is(e1@, i, other);
                        assert(e1@.contains(e1@[i]));
                        assert(e0@.contains(e1@[i]));
                        let j = choose|j: int| 0 <= j < e0@.len() && e0@[j] == e1@[i];
                        assert(entry_is(e0@, j, other));
                        assert(p0@.contains(other));
                    }
                    if p1@.contains(other) {
                        assert(p0@.contains(other));
                        let i = choose|i: int| entry_is(e0@, i, other);
                        assert(entry_is(e0@, i, other));
                        assert(e0@.contains(e0@[i]));
                        let j = choose|j: int| 0 <= j < e1@.len() && e1@[j] == e0@[i];
                        assert(entry_is(e1@, j, other));
                    }
                } else if value is Some {
                    let j = choose|j: int|
                        0 <= j < e1@.len() && e1@[j] == (node, value->Some_0);
                    assert(entry_is(e1@, j, node));
                }
            }
            assert forall|other: u32| other != node implies #[trigger] after.at(other)
                == before.at(other) by {
                if p0@.contains(other) {
                    let i = choose|i: int| entry_is(e0@, i, other);
                    assert(entry_is(e0@, i, other));
                    assert(e0@.contains(e0@[i]));
                    let j = choose|j: int| 0 <= j < e1@.len() && e1@[j] == e0@[i];
                    lemma_entry_value(e1@, j, other);
                }
            }
            if value is Some {
                let j = choose|j: int| 0 <= j < e1@.len() && e1@[j] == (node, value->Some_0);
                lemma_entry_value(e1@, j, node);
            }
        },
        _ => {},
    }
}

impl FilterColumnStorage {
    /// The form of the storage.
    pub open spec fn form(&self) -> FilterStorageKind {
        match self {
            FilterColumnStorage::Dense { .. } => FilterStorageKind::Dense,
            FilterColumnStorage::SparseBool { .. } => FilterStorageKind::SparseBool,
            FilterColumnStorage::SparseLookup { .. } => FilterStorageKind::SparseLookup,
            FilterColumnStorage::SparseOrdered { .. } => FilterStorageKind::SparseOrdered,
        }
    }

    /// Number of slots of dense storage.
    pub open spec fn slots(&self) -> nat {
        match self {
            FilterColumnStorage::Dense { values, .. } => values@.len(),
            _ => 0,
        }
    }

    /// The nodes that have a value.
    pub open spec fn populated(&self) -> Set<u32> {
        match self {
            FilterColumnStorage::Dense { present, .. } => present@,
            FilterColumnStorage::SparseBool { present, .. } => present@,
            FilterColumnStorage::SparseLookup { present, .. } => present@,
            FilterColumnStorage::SparseOrdered { present, .. } => present@,
        }
    }

    /// What every storage keeps: sparse parts agree with the set of populated
    /// nodes, and no node has two values.
    pub closed spec fn wf(&self) -> bool {
        match self {
            FilterColumnStorage::Dense { values, present } => forall|node: u32| #[trigger]
                present@.contains(node) ==> node < values@.len(),
            FilterColumnStorage::SparseBool { yes, no, present } => forall|node: u32|
                {
                    &&& #[trigger] present@.contains(node) <==> (yes@.contains(node) || no@.contains(node))
                    &&& !(yes@.contains(node) && no@.contains(
                        node,
                    ))
                },
            FilterColumnStorage::SparseLookup { groups, present } => {
                &&& groups_wf(groups@)
                &&& forall|node: u32| #[trigger]
                    present@.contains(node) <==> exists|i: int|
                        group_holds(groups@, i, node)
            },
            FilterColumnStorage::SparseOrdered { entries, present } => {
                &&& entries_wf(entries@)
                &&& forall|node: u32| #[trigger]
                    present@.contains(node) <==> exists|i: int|
                        entry_is(entries@, i, node)
            },
        }
    }

    /// The value of a node.
    pub closed spec fn at(&self, node: u32) -> Option<EncodedFilterValue> {
        if !self.populated().contains(node) {
            None
        } else {
            match self {
                FilterColumnStorage::Dense { values, .. } => Some(values@[node as int]),
                FilterColumnStorage::SparseBool { yes, .. } => Some(
                    EncodedFilterValue::Boolean(yes@.contains(node)),
                ),
                FilterColumnStorage::SparseLookup { groups, .. } => Some(
                    groups@[choose|i: int| group_holds(groups@, i, node)].0,
                ),
                FilterColumnStorage::SparseOrdered { entries, .. } => Some(
                    entries@[choose|i: int| entry_is(entries@, i, node)].1,
                ),
            }
        }
    }

    /// Whether the storage can keep a value for a node.
    pub open spec fn keeps(&self, node: u32, value: EncodedFilterValue) -> bool {
        match self.form() {
            FilterStorageKind::Dense => node < self.slots(),
            FilterStorageKind::SparseBool => value is Boolean,
            FilterStorageKind::SparseLookup => value is Text || value is Uuid,
            FilterStorageKind::SparseOrdered => true,
        }
    }

    /// What a node has after a value was set for it.
    pub open spec fn after_set(&self, node: u32, value: Option<EncodedFilterValue>) -> Option<
        EncodedFilterValue,
    > {
        match value {
            Some(value) => if self.keeps(node, value) {
                Some(value)
            } else {
                None
            },
            None => None,
        }
    }

    /// Empty storage for a column; few populated nodes make it sparse.
    pub fn new_storage(
        column_type: FilterColumnType,
        node_count: usize,
        populated_count: usize,
    ) -> (storage: Self)
        ensures
            storage.wf(),
            storage.form() == (if sparse(populated_count as nat, node_count as nat) {
                sparse_kind(column_type)
            } else {
                FilterStorageKind::Dense
            }),
            storage.form() is Dense ==> storage.slots() == node_count,
            forall|node: u32| #[trigger] storage.at(node) is None,
            forall|node: u32| !#[trigger] storage.populated().contains(node),
            storage matches FilterColumnStorage::Dense { values, .. } ==> forall|i: int|
                0 <= i < values@.len() ==> #[trigger] values@[i] == default_value(column_type),
            storage.fits(column_type, node_count as nat),
    {
        if is_sparse(populated_count, node_count) {
            return match column_type {
                FilterColumnType::Boolean => FilterColumnStorage::SparseBool {
                    yes: NodeSet::new(),
                    no: NodeSet::new(),
                    present: NodeSet::new(),
                },
                FilterColumnType::Text
                | FilterColumnType::Uuid => FilterColumnStorage::SparseLookup {
                    groups: Vec::new(),
                    present: NodeSet::new(),
                },
                _ => FilterColumnStorage::SparseOrdered {
                    entries: Vec::with_capacity(populated_count),
                    present: NodeSet::new(),
                },
            };
        }
        FilterColumnStorage::Dense {
            values: vec![default_encoded_value(column_type); node_count],
            present: NodeSet::new(),
        }
    }

    /// The form of the storage.
    pub fn kind(&self) -> (kind: FilterStorageKind)
        ensures
            kind == self.form(),
    {
        match self {
            FilterColumnStorage::Dense { .. } => FilterStorageKind::Dense,
            FilterColumnStorage::SparseBool { .. } => FilterStorageKind::SparseBool,
            FilterColumnStorage::SparseLookup { .. } => FilterStorageKind::SparseLookup,
            FilterColumnStorage::SparseOrdered { .. } => FilterStorageKind::SparseOrdered,
        }
    }

    /// The value of a node.
    pub fn value(&self, node: u32) -> (value: Option<EncodedFilterValue>)
        requires
            self.wf(),
        ensures
            value == self.at(node),
    {
        match self {
            FilterColumnStorage::Dense { values, present } => {
                if present.contains(node) {
                    let length: usize = values.len();
                    Some(values[node as usize])
                } else {
                    None
                }
            },
            FilterColumnStorage::SparseBool { yes, no, present } => {
                if present.contains(node) {
                    Some(EncodedFilterValue::Boolean(yes.contains(node) && !no.contains(node)))
                } else {
                    None
                }
            },
            FilterColumnStorage::SparseLookup { groups, present } => {
                if !present.contains(node) {
                    return None;
                }
                let mut at: usize = 0;
                while at < groups.len()
                    invariant
                        at <= groups@.len(),
                        forall|i: int| 0 <= i < at ==> !group_holds(groups@, i, node),
                        groups_wf(groups@),
                        self.populated().contains(node),
                        *self matches FilterColumnStorage::SparseLookup { groups: own, .. } && own
                            == *groups,
                    decreases groups@.len() - at,
                {
                    if groups[at].1.contains(node) {
                        assert(group_holds(groups@, at as int, node));
                        return Some(groups[at].0);
                    }
                    at = at + 1;
                }
                assert(exists|i: int| group_holds(groups@, i, node));
                None
            },
            FilterColumnStorage::SparseOrdered { entries, present } => {
                if !present.contains(node) {
                    return None;
                }
                let at: usize = entry_position(entries, node);
                proof {
                    let i = choose|i: int| entry_is(entries@, i, node);
                    assert(entry_is(entries@, i, node));
                    assert(at as int == i) by {
                        if at < i {
                            assert(entries@[at as int].0 < entries@[i].0);
                        }
                    }
                }
                Some(entries[at].1)
            },
        }
    }

    /// Sets or clears the value of a node. A value that the storage cannot keep
    /// leaves the node without one.
    pub fn set(&mut self, node: u32, value: Option<EncodedFilterValue>)
        requires
            old(self).wf(),
        ensures
            final(self).wf(),
            final(self).form() == old(self).form(),
            final(self).slots() == old(self).slots(),
            forall|other: u32| other != node ==> #[trigger] final(self).at(other) == old(self).at(
                other,
            ),
            final(self).at(node) == old(self).after_set(node, value),
            set_leaves(*old(self), *final(self), node, value),
    {
        let ghost before = *self;
        match self {
            FilterColumnStorage::Dense { values, present } => {
                let length: usize = values.len();
                let idx: usize = node as usize;
                if idx >= length {
                    return ;
                }
                match value {
                    Some(value) => {
                        values[idx] = value;
                        present.insert(node);
                    },
                    None => {
                        present.remove(node);
                    },
                }
            },
            FilterColumnStorage::SparseBool { yes, no, present } => {
                yes.remove(node);
                no.remove(node);
                match value {
                    Some(EncodedFilterValue::Boolean(true)) => {
                        yes.insert(node);
                        present.insert(node);
                    },
                    Some(EncodedFilterValue::Boolean(false)) => {
                        no.insert(node);
                        present.insert(node);
                    },
                    _ => {
                        present.remove(node);
                    },
                }
            },
            FilterColumnStorage::SparseLookup { groups, present } => {
                clear_groups(groups, node);
                let ghost cleared = groups@;
                match value {
                    Some(EncodedFilterValue::Text(token)) => {
                        join_group(groups, EncodedFilterValue::Text(token), node);
                        present.insert(node);
                    },
                    Some(EncodedFilterValue::Uuid(uuid)) => {
                        join_group(groups, EncodedFilterValue::Uuid(uuid), node);
                        present.insert(node);
                    },
                    _ => {
                        present.remove(node);
                    },
                }
            },
            FilterColumnStorage::SparseOrdered { entries, present } => {
                set_entry(entries, node, value);
                match value {
                    Some(_) => {
                        present.insert(node);
                    },
                    None => {
                        present.remove(node);
                    },
                }
            },
        }
        proof {
            lemma_set_sets(before, node);
            lemma_set_outcome(before, *self, node, value);
        }
    }
}


/// Whether every node of a bitmap is below a count.
fn all_below(nodes: &NodeSet, count: usize) -> (result: bool)
    ensures
        result == forall|node: u32| #[trigger]
            nodes@.contains(node) ==> node < count,
{
    let list: Vec<u32> = nodes.values();
    let mut at: usize = 0;
    while at < list.len()
        invariant
            at <= list@.len(),
            list@.to_set() == nodes@,
            forall|i: int| 0 <= i < at ==> #[trigger] list@[i] < count,
        decreases list@.len() - at,
    {
        if list[at] as usize >= count {
            assert(list@.to_set().contains(list@[at as int]));
            return false;
        }
        at = at + 1;
    }
    assert forall|node: u32| #[trigger] nodes@.contains(node) implies node
        < count by {
        assert(list@.to_set().contains(node));
        assert(list@.contains(node));
    }
    true
}

/// Whether every node of a bitmap is in another one.
fn all_within(nodes: &NodeSet, whole: &NodeSet) -> (result: bool)
    ensures
        result == nodes@.subset_of(whole@),
        nodes@.finite(),
{
    let list: Vec<u32> = nodes.values();
    proof {
        vstd::seq_lib::seq_to_set_is_finite(list@);
    }
    let mut at: usize = 0;
    while at < list.len()
        invariant
            at <= list@.len(),
            list@.to_set() == nodes@,
            nodes@.finite(),
            forall|i: int|
                0 <= i < at ==> whole@.contains(#[trigger] list@[i]),
        decreases list@.len() - at,
    {
        if !whole.contains(list[at]) {
            assert(list@.to_set().contains(list@[at as int]));
            return false;
        }
        at = at + 1;
    }
    assert forall|node: u32| nodes@.contains(node) implies whole@.contains(node) by {
        assert(list@.to_set().contains(node));
        assert(list@.contains(node));
    }
    true
}

/// Whether storage is what setting or clearing a value leaves of other storage.
pub closed spec fn set_leaves(
    before: FilterColumnStorage,
    after: FilterColumnStorage,
    node: u32,
    value: Option<EncodedFilterValue>,
) -> bool {
    if before.form() is Dense && node >= before.slots() {
        after == before
    } else {
        storage_step(before, after, node, value)
    }
}

/// A column's new storage suits the column, and so does what any values of its
/// domain, set for its nodes one after another, make of it.
pub proof fn law_storage_stays_valid(
    stages: Seq<FilterColumnStorage>,
    nodes: Seq<u32>,
    values: Seq<Option<EncodedFilterValue>>,
    column_type: FilterColumnType,
    node_count: nat,
    upto: int,
)
    requires
        0 <= upto < stages.len(),
        stages.len() == nodes.len() + 1,
        stages.len() == values.len() + 1,
        stages[0].fits(column_type, node_count),
        forall|i: int|
            0 <= i < nodes.len() ==> (#[trigger] nodes[i]) < node_count && set_leaves(
                stages[i],
                stages[i + 1],
                nodes[i],
                values[i],
            ) && (values[i] matches Some(value) ==> in_domain(column_type, value)),
    ensures
        stages[upto].fits(column_type, node_count),
    decreases upto,
{
    if upto > 0 {
        let at = upto - 1;
        law_storage_stays_valid(stages, nodes, values, column_type, node_count, at);
        assert(nodes[at] < node_count);
        lemma_set_outcome(stages[at], stages[at + 1], nodes[at], values[at]);
        lemma_set_fits(
            stages[at],
            stages[at + 1],
            nodes[at],
            values[at],
            column_type,
            node_count,
        );
    }
}

impl FilterColumnStorage {
    /// Whether the storage suits a column of this domain over this many nodes:
    /// its parts agree, it has the right form, every populated node exists and
    /// every kept value is of the domain.
    pub closed spec fn fits(&self, column_type: FilterColumnType, node_count: nat) -> bool {
        &&& self.wf()
        &&& forall|node: u32| #[trigger] self.populated().contains(node) ==> node < node_count
        &&& match self {
            FilterColumnStorage::Dense { values, .. } => {
                &&& values@.len() == node_count
                &&& forall|i: int|
                    0 <= i < values@.len() ==> in_domain(column_type, #[trigger] values@[i])
            },
            FilterColumnStorage::SparseBool { .. } => column_type is Boolean,
            FilterColumnStorage::SparseLookup { groups, .. } => {
                &&& column_type is Text || column_type is Uuid
                &&& forall|i: int|
                    0 <= i < groups@.len() ==> in_domain(column_type, #[trigger] groups@[i].0)
            },
            FilterColumnStorage::SparseOrdered { entries, .. } => {
                &&& column_type is Numeric || column_type is Date || column_type is Timestamptz
                &&& forall|i: int|
                    0 <= i < entries@.len() ==> in_domain(column_type, #[trigger] entries@[i].1)
            },
        }
    }

    /// Accepts storage that suits a column over this many nodes.
    pub fn validate_persisted_layout(
        &self,
        column_type: FilterColumnType,
        node_count: usize,
    ) -> (result: GraphResult<()>)
        ensures
            result is Ok <==> self.fits(column_type, node_count as nat),
            result matches Err(error) ==> error@ is CorruptFile,
    {
        match self {
            FilterColumnStorage::Dense { values, present } => {
                assert(self.populated() == present@);
                if values.len() != node_count || !all_below(present, node_count) || !dense_domain(
                    values,
                    column_type,
                ) {
                    return Err(
                        corrupt(
                            "dense filter storage does not match its column domain or node count",
                        ),
                    );
                }
            },
            FilterColumnStorage::SparseBool { yes, no, present } => {
                assert(self.populated() == present@);
                let yes_within: bool = all_within(yes, present);
                let no_within: bool = all_within(no, present);
                let whole: bool = all_within(present, present);
                let separate: bool = yes.is_disjoint(no);
                let complete: bool = present.len() as u128 == yes.len() as u128 + no.len() as u128;
                proof {
                    if yes_within && no_within && separate {
                        lemma_two_parts(
                            yes@,
                            no@,
                            present@,
                        );
                    }
                }
                if column_type != FilterColumnType::Boolean || !all_below(present, node_count)
                    || !yes_within || !no_within || !separate || !complete {
                    proof {
                        if self.fits(column_type, node_count as nat) {
                            assert(yes@.subset_of(present@));
                            assert(no@.subset_of(present@));
                            assert(yes@.disjoint(no@)) by {
                                assert forall|node: u32|
                                    yes@.contains(node) implies !no@.contains(node) by {
                                    assert(present@.contains(node));
                                }
                            }
                            assert(present@ =~= yes@
                                + no@);
                        }
                    }
                    return Err(
                        corrupt("sparse boolean storage is inconsistent with its column domain"),
                    );
                }
            },
            FilterColumnStorage::SparseLookup { groups, present } => {
                assert(self.populated() == present@);
                let domain: bool = match column_type {
                    FilterColumnType::Text | FilterColumnType::Uuid => true,
                    _ => false,
                };
                if !domain || !all_below(present, node_count) {
                    return Err(
                        corrupt("sparse lookup storage is inconsistent with its column domain"),
                    );
                }
                if !groups_agree(groups, present, column_type) {
                    return Err(
                        corrupt("sparse lookup storage does not cover its present nodes exactly"),
                    );
                }
            },
            FilterColumnStorage::SparseOrdered { entries, present } => {
                assert(self.populated() == present@);
                let domain: bool = match column_type {
                    FilterColumnType::Numeric
                    | FilterColumnType::Date
                    | FilterColumnType::Timestamptz => true,
                    _ => false,
                };
                if !domain || !all_below(present, node_count) || !entries_agree(
                    entries,
                    present,
                    column_type,
                ) {
                    return Err(
                        corrupt("sparse ordered storage is inconsistent with its column domain"),
                    );
                }
            },
        }
        Ok(())
    }
}

/// Two separate parts cover a whole exactly when the counts add up.
proof fn lemma_two_parts(left: Set<u32>, right: Set<u32>, whole: Set<u32>)
    requires
        left.finite(),
        right.finite(),
        whole.finite(),
        left.subset_of(whole),
        right.subset_of(whole),
        left.disjoint(right),
    ensures
        whole.len() == left.len() + right.len() <==> whole == left + right,
{
    vstd::set_lib::lemma_set_disjoint_lens(left, right);
    assert((left + right).subset_of(whole));
    if whole.len() == left.len() + right.len() {
        vstd::set_lib::lemma_subset_equality(left + right, whole);
    }
}

/// Whether every slot holds a value of the domain.
fn dense_domain(values: &Vec<EncodedFilterValue>, column_type: FilterColumnType) -> (result: bool)
    ensures
        result == forall|i: int|
            0 <= i < values@.len() ==> in_domain(column_type, #[trigger] values@[i]),
{
    let mut at: usize = 0;
    while at < values.len()
        invariant
            at <= values@.len(),
            forall|i: int| 0 <= i < at ==> in_domain(column_type, #[trigger] values@[i]),
        decreases values@.len() - at,
    {
        if !encoded_value_matches(column_type, values[at]) {
            assert(!in_domain(column_type, values@[at as int]));
            return false;
        }
        at = at + 1;
    }
    true
}

/// Whether ordered entries are strict, of the domain, and those of the populated
/// nodes.
fn entries_agree(
    entries: &Vec<(u32, EncodedFilterValue)>,
    present: &NodeSet,
    column_type: FilterColumnType,
) -> (result: bool)
    ensures
        result == ({
            &&& entries_wf(entries@)
            &&& forall|node: u32| #[trigger]
                present@.contains(node) <==> exists|i: int|
                    entry_is(entries@, i, node)
            &&& forall|i: int|
                0 <= i < entries@.len() ==> in_domain(column_type, #[trigger] entries@[i].1)
        }),
{
    let mut seen: NodeSet = NodeSet::new();
    let mut at: usize = 0;
    while at < entries.len()
        invariant
            at <= entries@.len(),
            forall|i: int, j: int| 0 <= i < j < at ==> entries@[i].0 < entries@[j].0,
            forall|i: int| 0 <= i < at ==> in_domain(column_type, #[trigger] entries@[i].1),
            forall|i: int|
                0 <= i < at ==> present@.contains((#[trigger] entries@[i]).0),
            forall|node: u32| #[trigger]
                seen@.contains(node) <==> exists|i: int|
                    entry_is(entries@.take(at as int), i, node),
        decreases entries@.len() - at,
    {
        let node: u32 = entries[at].0;
        if !encoded_value_matches(column_type, entries[at].1) {
            assert(!in_domain(column_type, entries@[at as int].1));
            return false;
        }
        if !present.contains(node) {
            assert(entry_is(entries@, at as int, node));
            return false;
        }
        if at > 0 && entries[at - 1].0 >= node {
            assert(entries@[at - 1].0 >= entries@[at as int].0);
            return false;
        }
        let ghost old_seen = seen;
        seen.insert(node);
        at = at + 1;
        proof {
            assert forall|i: int, j: int| 0 <= i < j < at implies entries@[i].0
                < entries@[j].0 by {
                if j == at - 1 && i < at - 2 {
                    assert(entries@[i].0 < entries@[at - 2].0);
                }
            }
            assert forall|other: u32| #[trigger] seen@.contains(other)
                <==> exists|i: int| entry_is(entries@.take(at as int), i, other) by {
                let small = entries@.take(at - 1);
                let large = entries@.take(at as int);
                if exists|i: int| entry_is(large, i, other) {
                    let i = choose|i: int| entry_is(large, i, other);
                    if i < at - 1 {
                        assert(entry_is(small, i, other));
                        assert(old_seen@.contains(other));
                    }
                }
                if seen@.contains(other) {
                    if old_seen@.contains(other) {
                        let i = choose|i: int| entry_is(small, i, other);
                        assert(entry_is(large, i, other));
                    } else {
                        assert(entry_is(large, at - 1, other));
                    }
                }
            }
        }
    }
    assert(entries@.take(at as int) =~= entries@);
    let covered: bool = all_within(present, &seen);
    proof {
        assert forall|node: u32| exists|i: int| entry_is(entries@, i, node) implies #[trigger]
            present@.contains(node) by {
            let i = choose|i: int| entry_is(entries@, i, node);
            assert(present@.contains(entries@[i].0));
        }
        if !covered {
            let node = choose|node: u32|
                present@.contains(node) && !seen@.contains(node);
            assert(present@.contains(node));
        }
    }
    covered
}

/// Whether groups have distinct values of the domain, share no node, and cover
/// the populated nodes.
fn groups_agree(
    groups: &Vec<(EncodedFilterValue, NodeSet)>,
    present: &NodeSet,
    column_type: FilterColumnType,
) -> (result: bool)
    ensures
        result == ({
            &&& groups_wf(groups@)
            &&& forall|node: u32| #[trigger]
                present@.contains(node) <==> exists|i: int|
                    group_holds(groups@, i, node)
            &&& forall|i: int|
                0 <= i < groups@.len() ==> in_domain(column_type, #[trigger] groups@[i].0)
        }),
{
    let mut seen: NodeSet = NodeSet::new();
    let mut at: usize = 0;
    while at < groups.len()
        invariant
            at <= groups@.len(),
            groups_wf(groups@.take(at as int)),
            forall|i: int| 0 <= i < at ==> in_domain(column_type, #[trigger] groups@[i].0),
            forall|i: int, node: u32|
                0 <= i < at && #[trigger] group_holds(groups@, i, node) ==> present@.contains(node),
            forall|node: u32| #[trigger]
                seen@.contains(node) <==> exists|i: int|
                    group_holds(groups@.take(at as int), i, node),
        decreases groups@.len() - at,
    {
        let ghost small = groups@.take(at as int);
        let ghost large = groups@.take(at + 1);
        if !encoded_value_matches(column_type, groups[at].0) {
            assert(!in_domain(column_type, groups@[at as int].0));
            return false;
        }
        let mut other: usize = 0;
        while other < at
            invariant
                other <= at < groups@.len(),
                forall|i: int| 0 <= i < other ==> #[trigger] groups@[i].0 != groups@[at as int].0,
            decreases at - other,
        {
            if groups[other].0 == groups[at].0 {
                assert(groups@[other as int].0 == groups@[at as int].0);
                return false;
            }
            other = other + 1;
        }
        if !seen.is_disjoint(&groups[at].1) {
            proof {
                let node = choose|node: u32|
                    seen@.contains(node) && groups@[at as int].1@.contains(node);
                assert(seen@.contains(node));
                let i = choose|i: int| group_holds(small, i, node);
                assert(group_holds(groups@, i, node) && group_holds(groups@, at as int, node));
            }
            return false;
        }
        if !all_within(&groups[at].1, present) {
            proof {
                let node = choose|node: u32|
                    groups@[at as int].1@.contains(node) && !present@.contains(node);
                assert(group_holds(groups@, at as int, node));
            }
            return false;
        }
        let ghost old_seen = seen;
        let list: Vec<u32> = groups[at].1.values();
        add_all(&mut seen, &list);
        proof {
            assert forall|i: int, j: int, node: u32| #[trigger] group_holds(large, i, node)
                && #[trigger] group_holds(large, j, node) implies i == j by {
                if i < at && j < at {
                    assert(group_holds(small, i, node) && group_holds(small, j, node));
                } else if i < at {
                    assert(group_holds(small, i, node));
                    assert(old_seen@.contains(node));
                } else if j < at {
                    assert(group_holds(small, j, node));
                    assert(old_seen@.contains(node));
                }
            }
            assert forall|i: int, j: int| 0 <= i < j < large.len() implies #[trigger] large[i].0
                != #[trigger] large[j].0 by {
                if j < at {
                    assert(small[i].0 != small[j].0);
                } else {
                    assert(groups@[i].0 != groups@[at as int].0);
                }
            }
            assert(groups_wf(large));
            assert forall|node: u32| #[trigger] seen@.contains(node)
                <==> exists|i: int| group_holds(large, i, node) by {
                if exists|i: int| group_holds(large, i, node) {
                    let i = choose|i: int| group_holds(large, i, node);
                    if i < at {
                        assert(group_holds(small, i, node));
                        assert(old_seen@.contains(node));
                    } else {
                        assert(groups@[at as int].1@.contains(node));
                        assert(list@.to_set().contains(node));
                    }
                }
                if seen@.contains(node) {
                    if old_seen@.contains(node) {
                        let i = choose|i: int| group_holds(small, i, node);
                        assert(group_holds(large, i, node));
                    } else {
                        assert(list@.to_set().contains(node));
                        assert(group_holds(large, at as int, node));
                    }
                }
            }
            assert forall|i: int, node: u32|
                0 <= i < at + 1 && #[trigger] group_holds(
                    groups@,
                    i,
                    node,
                ) implies present@.contains(node) by {
                if i == at {
                    assert(groups@[at as int].1@.contains(node));
                }
            }
        }
        at = at + 1;
    }
    assert(groups@.take(at as int) =~= groups@);
    let covered: bool = all_within(present, &seen);
    proof {
        if !covered {
            let node = choose|node: u32|
                present@.contains(node) && !seen@.contains(node);
            assert(present@.contains(node));
        }
    }
    covered
}

/// Adds every listed value to a bitmap.
fn add_all(bitmap: &mut NodeSet, list: &Vec<u32>)
    ensures
        final(bitmap)@ == old(bitmap)@ + list@.to_set(),
{
    let ghost start = bitmap@;
    let mut at: usize = 0;
    while at < list.len()
        invariant
            at <= list@.len(),
            bitmap@ == start + list@.take(at as int).to_set(),
        decreases list@.len() - at,
    {
        bitmap.insert(list[at]);
        proof {
            let small = list@.take(at as int);
            let large = list@.take(at + 1);
            assert(large =~= small.push(list@[at as int]));
            assert forall|v: u32| #[trigger] large.to_set().contains(v) <==> (small.to_set().contains(
                v,
            ) || v == list@[at as int]) by {
                if large.contains(v) {
                    let k = choose|k: int| 0 <= k < large.len() && large[k] == v;
                    if k < at {
                        assert(small[k] == v);
                    }
                }
                if small.contains(v) {
                    let k = choose|k: int| 0 <= k < small.len() && small[k] == v;
                    assert(large[k] == v);
                }
                assert(large[at as int] == list@[at as int]);
            }
            assert(bitmap@ =~= start + large.to_set());
        }
        at = at + 1;
    }
    proof {
        assert(list@.take(at as int) =~= list@);
    }
}

/// Bytes of encoded groups.
pub open spec fn group_bytes(groups: Seq<(EncodedFilterValue, NodeSet)>) -> nat
    decreases groups.len(),
{
    if groups.len() == 0 {
        0
    } else {
        bounded_sum(
            group_bytes(groups.drop_last()),
            bounded_sum(
                vstd::layout::size_of::<EncodedFilterValue>(),
                groups.last().1.encoded_len(),
            ),
        )
    }
}

impl FilterColumnStorage {
    /// Estimated bytes of the storage.
    pub open spec fn bytes(&self) -> nat {
        match self {
            FilterColumnStorage::Dense { values, present } => bounded_sum(
                bounded_product(values@.len(), vstd::layout::size_of::<EncodedFilterValue>()),
                present.encoded_len(),
            ),
            FilterColumnStorage::SparseBool { yes, no, present } => bounded_sum(
                bounded_sum(
                    yes.encoded_len(),
                    no.encoded_len(),
                ),
                present.encoded_len(),
            ),
            FilterColumnStorage::SparseLookup { groups, present } => bounded_sum(
                present.encoded_len(),
                group_bytes(groups@),
            ),
            FilterColumnStorage::SparseOrdered { entries, present } => bounded_sum(
                bounded_product(
                    entries@.len(),
                    vstd::layout::size_of::<(u32, EncodedFilterValue)>(),
                ),
                present.encoded_len(),
            ),
        }
    }

    /// Estimated bytes of the storage.
    pub fn estimated_bytes(&self) -> (bytes: usize)
        ensures
            bytes == self.bytes(),
    {
        match self {
            FilterColumnStorage::Dense { values, present } => sum(
                product(values.len(), core::mem::size_of::<EncodedFilterValue>()),
                present.encoded_size(),
            ),
            FilterColumnStorage::SparseBool { yes, no, present } => sum(
                sum(yes.encoded_size(), no.encoded_size()),
                present.encoded_size(),
            ),
            FilterColumnStorage::SparseLookup { groups, present } => {
                let mut bytes: usize = 0;
                let mut at: usize = 0;
                proof {
                    assert(groups@.take(0).len() == 0);
                }
                while at < groups.len()
                    invariant
                        at <= groups@.len(),
                        bytes == group_bytes(groups@.take(at as int)),
                    decreases groups@.len() - at,
                {
                    bytes = sum(
                        bytes,
                        sum(
                            core::mem::size_of::<EncodedFilterValue>(),
                            groups[at].1.encoded_size(),
                        ),
                    );
                    proof {
                        assert(groups@.take(at + 1).drop_last() =~= groups@.take(at as int));
                    }
                    at = at + 1;
                }
                assert(groups@.take(at as int) =~= groups@);
                sum(present.encoded_size(), bytes)
            },
            FilterColumnStorage::SparseOrdered { entries, present } => sum(
                product(entries.len(), core::mem::size_of::<(u32, EncodedFilterValue)>()),
                present.encoded_size(),
            ),
        }
    }
}

/// Copies groups.
fn copy_groups(groups: &Vec<(EncodedFilterValue, NodeSet)>) -> (copy: Vec<
    (EncodedFilterValue, NodeSet),
>)
    ensures
        copy@.len() == groups@.len(),
        forall|i: int| 0 <= i < copy@.len() ==> #[trigger] copy@[i].0 == groups@[i].0,
        forall|i: int|
            0 <= i < copy@.len() ==> (#[trigger] copy@[i].1)@ == groups@[i].1@,
{
    let mut copy: Vec<(EncodedFilterValue, NodeSet)> = Vec::new();
    let mut at: usize = 0;
    while at < groups.len()
        invariant
            at <= groups@.len(),
            copy@.len() == at,
            forall|i: int| 0 <= i < copy@.len() ==> #[trigger] copy@[i].0 == groups@[i].0,
            forall|i: int|
                0 <= i < copy@.len() ==> (#[trigger] copy@[i].1)@
                    == groups@[i].1@,
        decreases groups@.len() - at,
    {
        copy.push((groups[at].0, groups[at].1.clone()));
        at = at + 1;
    }
    copy
}

impl Clone for FilterColumnStorage {
    /// A copy with the same values.
    fn clone(&self) -> (copy: Self)
        ensures
            copy.form() == self.form(),
            copy.slots() == self.slots(),
            self.wf() ==> copy.wf() && forall|node: u32| #[trigger]
                copy.at(node) == self.at(node),
    {
        let copy = match self {
            FilterColumnStorage::Dense { values, present } => FilterColumnStorage::Dense {
                values: vstd::slice::slice_to_vec(values.as_slice()),
                present: present.clone(),
            },
            FilterColumnStorage::SparseBool { yes, no, present } => FilterColumnStorage::SparseBool {
                yes: yes.clone(),
                no: no.clone(),
                present: present.clone(),
            },
            FilterColumnStorage::SparseLookup {
                groups,
                present,
            } => FilterColumnStorage::SparseLookup {
                groups: copy_groups(groups),
                present: present.clone(),
            },
            FilterColumnStorage::SparseOrdered {
                entries,
                present,
            } => FilterColumnStorage::SparseOrdered {
                entries: vstd::slice::slice_to_vec(entries.as_slice()),
                present: present.clone(),
            },
        };
        proof {
            if self.wf() {
                lemma_copy(*self, copy);
            }
        }
        copy
    }
}

proof fn lemma_copy(storage: FilterColumnStorage, copy: FilterColumnStorage)
    requires
        storage.wf(),
        copy.populated() == storage.populated(),
        match (storage, copy) {
            (
                FilterColumnStorage::Dense { values: v0, .. },
                FilterColumnStorage::Dense { values: v1, .. },
            ) => v1@ == v0@,
            (
                FilterColumnStorage::SparseBool { yes: y0, no: n0, .. },
                FilterColumnStorage::SparseBool { yes: y1, no: n1, .. },
            ) => y1@ == y0@ && n1@
                == n0@,
            (
                FilterColumnStorage::SparseLookup { groups: g0, .. },
                FilterColumnStorage::SparseLookup { groups: g1, .. },
            ) => {
                &&& g1@.len() == g0@.len()
                &&& forall|i: int| 0 <= i < g1@.len() ==> #[trigger] g1@[i].0 == g0@[i].0
                &&& forall|i: int|
                    0 <= i < g1@.len() ==> (#[trigger] g1@[i].1)@
                        == g0@[i].1@
            },
            (
                FilterColumnStorage::SparseOrdered { entries: e0, .. },
                FilterColumnStorage::SparseOrdered { entries: e1, .. },
            ) => e1@ == e0@,
            _ => false,
        },
    ensures
        copy.wf(),
        forall|node: u32| #[trigger] copy.at(node) == storage.at(node),
{
    match (storage, copy) {
        (
            FilterColumnStorage::SparseLookup { groups: g0, present: p0 },
            FilterColumnStorage::SparseLookup { groups: g1, present: p1 },
        ) => {
            assert(p1@ == p0@);
            assert forall|i: int, node: u32| #[trigger] group_holds(g1@, i, node) <==> group_holds(
                g0@,
                i,
                node,
            ) by {
                if 0 <= i < g1@.len() {
                    assert(g1@[i].1@ == g0@[i].1@);
                }
            }
            assert(groups_wf(g1@)) by {
                assert forall|i: int, j: int| 0 <= i < j < g1@.len() implies #[trigger] g1@[i].0
                    != #[trigger] g1@[j].0 by {
                    assert(g0@[i].0 != g0@[j].0);
                }
            }
            assert forall|node: u32| #[trigger] p1@.contains(node) <==> exists|
                i: int,
            | group_holds(g1@, i, node) by {
                if p1@.contains(node) {
                    let i = choose|i: int| group_holds(g0@, i, node);
                    assert(group_holds(g1@, i, node));
                }
                if exists|i: int| group_holds(g1@, i, node) {
                    let i = choose|i: int| group_holds(g1@, i, node);
                    assert(group_holds(g0@, i, node));
                    assert(p0@.contains(node));
                }
            }
            assert forall|node: u32| #[trigger] copy.at(node) == storage.at(node) by {
                if p0@.contains(node) {
                    let i = choose|i: int| group_holds(g0@, i, node);
                    assert(group_holds(g1@, i, node));
                    lemma_group_value(g1@, i, node);
                    assert(g1@[i].0 == g0@[i].0);
                }
            }
        },
        (
            FilterColumnStorage::SparseOrdered { entries: e0, present: p0 },
            FilterColumnStorage::SparseOrdered { entries: e1, present: p1 },
        ) => {
            assert(p1@ == p0@);
        },
        (
            FilterColumnStorage::SparseBool { present: p0, .. },
            FilterColumnStorage::SparseBool { present: p1, .. },
        ) => {
            assert(p1@ == p0@);
        },
        _ => {},
    }
}

} // verus!
