//! Nodes of the engine: lookup by identity, membership, and changes by sync.
use roaring::RoaringBitmap;
use vstd::prelude::*;
use vstd::slice::slice_subrange;
use vstd::utf8::encode_utf8;

use crate::active_bits::bit_capacity_limit;
use crate::bitmap::bitmap_contents;
use crate::engine::{resolution_wf, Engine, MmapBackedGraph, ResolutionStore};
use crate::errors::{internal, ErrorView, GraphError, GraphResult};
use crate::membership::{with_member, without_member, TableMembership};
use crate::node_store::NodeView;
use crate::resolution::{
    finalizes, index_valid, law_finalizing_keeps_lookups, matching, stored_candidates,
    stored_entries, ResolutionEntry, ResolutionIndexBuilder,
};
use crate::scan_codec::{hash_pk, key_hash};
use crate::text::same_text;

verus! {

/// The nodes of base entries with a table and a hash.
pub open spec fn base_candidates(engine: Engine, table_oid: u32, pk_hash: u64) -> Seq<u32> {
    match engine.resolution_store {
        ResolutionStore::Builder(builder) => matching(builder.entries@, table_oid, pk_hash),
        ResolutionStore::Finalized(bytes) => if index_valid(bytes@) {
            matching(stored_entries(bytes@), table_oid, pk_hash)
        } else {
            Seq::empty()
        },
        ResolutionStore::MmapBacked(state) => match engine.mmap {
            Some(mapped) => {
                let part = mapped@.subrange(state.offset as int, state.offset + state.len);
                if index_valid(part) {
                    matching(stored_entries(part), table_oid, pk_hash)
                } else {
                    Seq::empty()
                }
            },
            None => Seq::empty(),
        },
    }
}

/// The nodes that may have an identity, in the order in which they are tried:
/// later entries of the delta first, then those of the base.
pub open spec fn lookup_order(engine: Engine, table_oid: u32, key: Seq<char>) -> Seq<u32> {
    let hash = key_hash(encode_utf8(key));
    matching(engine.resolution_delta.entries@, table_oid, hash).reverse() + base_candidates(
        engine,
        table_oid,
        hash,
    )
}

/// Whether a slot has an identity.
pub open spec fn has_identity(
    nodes: Seq<NodeView>,
    node: u32,
    table_oid: u32,
    key: Seq<char>,
) -> bool {
    &&& node < nodes.len()
    &&& nodes[node as int].table_oid == table_oid
    &&& nodes[node as int].key == key
}

/// Whether a slot has an identity, is live, and is not deleted by the running
/// transaction.
pub open spec fn is_node(
    nodes: Seq<NodeView>,
    node: u32,
    table_oid: u32,
    key: Seq<char>,
    deleted: Set<u32>,
) -> bool {
    &&& has_identity(nodes, node, table_oid, key)
    &&& nodes[node as int].active
    &&& !deleted.contains(node)
}

/// The first node of a list that a rule accepts.
pub open spec fn first_accepted(list: Seq<u32>, rule: spec_fn(u32) -> bool) -> Option<u32>
    decreases list.len(),
{
    if list.len() == 0 {
        None
    } else if rule(list[0]) {
        Some(list[0])
    } else {
        first_accepted(list.drop_first(), rule)
    }
}

/// The live node with an identity.
pub open spec fn resolved(
    engine: Engine,
    table_oid: u32,
    key: Seq<char>,
    deleted: Set<u32>,
) -> Option<u32> {
    first_accepted(
        lookup_order(engine, table_oid, key),
        |node: u32| is_node(engine.node_store.nodes(), node, table_oid, key, deleted),
    )
}

/// The slot with an identity, live or not.
pub open spec fn resolved_identity(engine: Engine, table_oid: u32, key: Seq<char>) -> Option<u32> {
    first_accepted(
        lookup_order(engine, table_oid, key),
        |node: u32| has_identity(engine.node_store.nodes(), node, table_oid, key),
    )
}

/// The nodes before an accepted one are not accepted.
proof fn lemma_first_skips(list: Seq<u32>, rule: spec_fn(u32) -> bool, at: int)
    requires
        0 <= at <= list.len(),
        forall|i: int| 0 <= i < at ==> !rule(#[trigger] list[i]),
    ensures
        first_accepted(list, rule) == first_accepted(list.skip(at), rule),
    decreases at,
{
    if at > 0 {
        assert forall|i: int| 0 <= i < at - 1 implies !rule(#[trigger] list.drop_first()[i]) by {
            assert(list.drop_first()[i] == list[i + 1]);
        }
        assert(!rule(list[0]));
        lemma_first_skips(list.drop_first(), rule, at - 1);
        assert(list.drop_first().skip(at - 1) =~= list.skip(at));
    } else {
        assert(list.skip(0) =~= list);
    }
}

/// An accepted node is found, or one before it.
pub proof fn lemma_first_found(list: Seq<u32>, rule: spec_fn(u32) -> bool, node: u32)
    requires
        list.contains(node),
        rule(node),
    ensures
        first_accepted(list, rule) is Some,
        rule(first_accepted(list, rule)->Some_0),
    decreases list.len(),
{
    if !rule(list[0]) {
        let i = choose|i: int| 0 <= i < list.len() && list[i] == node;
        assert(list.drop_first()[i - 1] == node);
        lemma_first_found(list.drop_first(), rule, node);
    }
}

/// What is found is accepted.
pub proof fn lemma_first_accepted(list: Seq<u32>, rule: spec_fn(u32) -> bool)
    ensures
        first_accepted(list, rule) matches Some(node) ==> rule(node) && list.contains(node),
    decreases list.len(),
{
    if list.len() > 0 {
        if rule(list[0]) {
            assert(list.contains(list[0]));
        } else {
            lemma_first_accepted(list.drop_first(), rule);
            if let Some(node) = first_accepted(list, rule) {
                let i = choose|i: int|
                    0 <= i < list.drop_first().len() && list.drop_first()[i] == node;
                assert(list[i + 1] == node);
            }
        }
    }
}

/// A live node that some entry leads to is resolved, or another live node of
/// the same identity is.
pub proof fn law_known_node_resolves(
    engine: Engine,
    table_oid: u32,
    key: Seq<char>,
    deleted: Set<u32>,
    node: u32,
)
    requires
        lookup_order(engine, table_oid, key).contains(node),
        is_node(engine.node_store.nodes(), node, table_oid, key, deleted),
    ensures
        resolved(engine, table_oid, key, deleted) is Some,
        is_node(
            engine.node_store.nodes(),
            resolved(engine, table_oid, key, deleted)->Some_0,
            table_oid,
            key,
            deleted,
        ),
{
    lemma_first_found(
        lookup_order(engine, table_oid, key),
        |other: u32| is_node(engine.node_store.nodes(), other, table_oid, key, deleted),
        node,
    );
}

/// What is resolved has the identity that was asked for.
pub proof fn law_resolved_has_identity(
    engine: Engine,
    table_oid: u32,
    key: Seq<char>,
    deleted: Set<u32>,
)
    ensures
        resolved(engine, table_oid, key, deleted) matches Some(node) ==> is_node(
            engine.node_store.nodes(),
            node,
            table_oid,
            key,
            deleted,
        ),
{
    lemma_first_accepted(
        lookup_order(engine, table_oid, key),
        |other: u32| is_node(engine.node_store.nodes(), other, table_oid, key, deleted),
    );
}

impl Engine {
    /// The nodes that may have an identity, in the order in which they are tried.
    fn candidates(&self, table_oid: u32, pk: &str) -> (nodes: Vec<u32>)
        requires
            self.wf(),
        ensures
            nodes@ == lookup_order(*self, table_oid, pk@),
    {
        let hash: u64 = hash_pk(pk);
        let later: Vec<u32> = self.resolution_delta.candidates(table_oid, hash);
        let mut nodes: Vec<u32> = Vec::new();
        let mut left: usize = later.len();
        assert(nodes@ =~= later@.reverse().take(0));
        while left > 0
            invariant
                left <= later@.len(),
                nodes@ == later@.reverse().take(later@.len() - left),
            decreases left,
        {
            left = left - 1;
            nodes.push(later[left]);
            assert(nodes@ =~= later@.reverse().take(later@.len() - left));
        }
        assert(later@.reverse().take(later@.len() as int) =~= later@.reverse());
        let mut base: Vec<u32> = match &self.resolution_store {
            ResolutionStore::Builder(builder) => builder.candidates(table_oid, hash),
            ResolutionStore::Finalized(bytes) => match stored_candidates(
                bytes.as_slice(),
                table_oid,
                hash,
            ) {
                Some(found) => found,
                None => Vec::new(),
            },
            ResolutionStore::MmapBacked(state) => match &self.mmap {
                Some(mapped) => {
                    let _length: usize = mapped.len();
                    let part: &[u8] = slice_subrange(
                        mapped.as_slice(),
                        state.offset,
                        state.offset + state.len,
                    );
                    match stored_candidates(part, table_oid, hash) {
                        Some(found) => found,
                        None => Vec::new(),
                    }
                },
                None => Vec::new(),
            },
        };
        let ghost tail = base@;
        assert(tail =~= base_candidates(*self, table_oid, hash));
        let ghost head = nodes@;
        nodes.append(&mut base);
        assert(nodes@ =~= head + tail);
        nodes
    }

    /// The live node with an identity.
    pub fn resolve(&self, table_oid: u32, pk: &str, deleted_nodes: &RoaringBitmap) -> (node: Option<
        u32,
    >)
        requires
            self.wf(),
        ensures
            node == resolved(*self, table_oid, pk@, bitmap_contents(*deleted_nodes)),
    {
        let list: Vec<u32> = self.candidates(table_oid, pk);
        let ghost deleted = bitmap_contents(*deleted_nodes);
        let ghost rule = |node: u32|
            is_node(self.node_store.nodes(), node, table_oid, pk@, deleted);
        let mut at: usize = 0;
        while at < list.len()
            invariant
                at <= list@.len(),
                self.wf(),
                deleted == bitmap_contents(*deleted_nodes),
                rule == |node: u32|
                    is_node(self.node_store.nodes(), node, table_oid, pk@, deleted),
                list@ == lookup_order(*self, table_oid, pk@),
                forall|i: int| 0 <= i < at ==> !rule(#[trigger] list@[i]),
            decreases list@.len() - at,
        {
            let node: u32 = list[at];
            if self.holds_identity(node, table_oid, pk) && self.node_store.is_active(node)
                && !deleted_nodes.contains(node) {
                proof {
                    assert(rule(list@[at as int]));
                    lemma_first_skips(list@, rule, at as int);
                    assert(list@.skip(at as int)[0] == node);
                }
                return Some(node);
            }
            at = at + 1;
        }
        proof {
            lemma_first_skips(list@, rule, list@.len() as int);
        }
        None
    }

    /// The slot with an identity, live or not.
    pub fn resolve_identity(&self, table_oid: u32, pk: &str) -> (node: Option<u32>)
        requires
            self.wf(),
        ensures
            node == resolved_identity(*self, table_oid, pk@),
    {
        let list: Vec<u32> = self.candidates(table_oid, pk);
        let ghost rule = |node: u32| has_identity(self.node_store.nodes(), node, table_oid, pk@);
        let mut at: usize = 0;
        while at < list.len()
            invariant
                at <= list@.len(),
                self.wf(),
                rule == |node: u32| has_identity(self.node_store.nodes(), node, table_oid, pk@),
                list@ == lookup_order(*self, table_oid, pk@),
                forall|i: int| 0 <= i < at ==> !rule(#[trigger] list@[i]),
            decreases list@.len() - at,
        {
            let node: u32 = list[at];
            if self.holds_identity(node, table_oid, pk) {
                proof {
                    assert(rule(list@[at as int]));
                    lemma_first_skips(list@, rule, at as int);
                    assert(list@.skip(at as int)[0] == node);
                }
                return Some(node);
            }
            at = at + 1;
        }
        proof {
            lemma_first_skips(list@, rule, list@.len() as int);
        }
        None
    }

    fn holds_identity(&self, node: u32, table_oid: u32, pk: &str) -> (holds: bool)
        requires
            self.node_store.addressable(),
        ensures
            holds == has_identity(self.node_store.nodes(), node, table_oid, pk@),
    {
        let same_table: bool = match self.node_store.table_oid(node) {
            Some(other) => other == table_oid,
            None => false,
        };
        let same_key: bool = match self.node_store.primary_key(node) {
            Some(other) => same_text(other, pk),
            None => false,
        };
        same_table && same_key
    }

    /// Adds a resolution entry: to the base while the graph is built, later to
    /// the delta.
    pub fn resolution_insert(&mut self, table_oid: u32, pk: &str, node_idx: u32)
        requires
            old(self).wf(),
            old(self).resolution_store matches ResolutionStore::Builder(builder) ==> builder.entries@.len()
                < u32::MAX,
        ensures
            final(self).wf(),
            *final(self) == (Engine {
                resolution_store: final(self).resolution_store,
                resolution_delta: final(self).resolution_delta,
                ..*old(self)
            }),
            ({
                let entry = ResolutionEntry {
                    table_oid,
                    pk_hash: key_hash(encode_utf8(pk@)),
                    node_idx,
                };
                match old(self).resolution_store {
                    ResolutionStore::Builder(before) => {
                        &&& final(self).resolution_store matches ResolutionStore::Builder(after)
                            && after.entries@ == before.entries@.push(entry)
                        &&& final(self).resolution_delta == old(self).resolution_delta
                    },
                    _ => {
                        &&& final(self).resolution_store == old(self).resolution_store
                        &&& final(self).resolution_delta.entries@ == old(
                            self).resolution_delta.entries@.push(entry)
                    },
                }
            }),
    {
        let entry = ResolutionEntry { table_oid, pk_hash: hash_pk(pk), node_idx };
        match &mut self.resolution_store {
            ResolutionStore::Builder(builder) => {
                builder.insert(entry);
            },
            _ => {
                self.resolution_delta.insert(entry);
            },
        }
    }

    /// Adds a resolution entry while the graph is built.
    pub fn try_build_resolution_insert(&mut self, table_oid: u32, pk: &str, node_idx: u32) -> (result:
        GraphResult<()>)
        requires
            old(self).wf(),
            old(self).resolution_store matches ResolutionStore::Builder(builder) ==> builder.entries@.len()
                < u32::MAX,
        ensures
            final(self).wf(),
            result is Ok <==> old(self).resolution_store is Builder,
            result is Ok ==> {
                let entry = ResolutionEntry {
                    table_oid,
                    pk_hash: key_hash(encode_utf8(pk@)),
                    node_idx,
                };
                &&& final(self).resolution_store matches ResolutionStore::Builder(after)
                    && after.entries@ == old(self).resolution_store->Builder_0.entries@.push(entry)
                &&& *final(self) == (Engine {
                    resolution_store: final(self).resolution_store,
                    ..*old(self)
                })
            },
            result matches Err(error) ==> error@ == ErrorView::Internal(
                "build resolution insertion requires builder mode"@,
            ) && *final(self) == *old(self),
    {
        let entry = ResolutionEntry { table_oid, pk_hash: hash_pk(pk), node_idx };
        match &mut self.resolution_store {
            ResolutionStore::Builder(builder) => {
                builder.insert(entry);
                Ok(())
            },
            _ => Err(internal("build resolution insertion requires builder mode")),
        }
    }

    /// Sorts the entries of a graph that was built.
    pub fn finalize_resolution(&mut self)
        requires
            old(self).wf(),
        ensures
            final(self).wf(),
            *final(self) == (Engine {
                resolution_store: final(self).resolution_store,
                ..*old(self)
            }),
            match old(self).resolution_store {
                ResolutionStore::Builder(builder) => final(
                    self).resolution_store matches ResolutionStore::Finalized(bytes) && finalizes(
                    bytes@,
                    builder.entries@,
                ),
                _ => *final(self) == *old(self),
            },
            forall|table_oid: u32, key: Seq<char>, node: u32|
                lookup_order(*old(self), table_oid, key).contains(node) <==> #[trigger] lookup_order(
                    *final(self),
                    table_oid,
                    key,
                ).contains(node),
    {
        let ghost before = *self;
        let finished: Option<Vec<u8>> = match &self.resolution_store {
            ResolutionStore::Builder(builder) => Some(builder.to_bytes()),
            _ => None,
        };
        if let Some(bytes) = finished {
            self.resolution_store = ResolutionStore::Finalized(bytes);
        }
        proof {
            if before.resolution_store is Builder {
                let entries = before.resolution_store->Builder_0.entries@;
                let bytes = self.resolution_store->Finalized_0@;
                assert forall|table_oid: u32, key: Seq<char>, node: u32|
                    lookup_order(before, table_oid, key).contains(node) <==> #[trigger] lookup_order(
                        *self,
                        table_oid,
                        key,
                    ).contains(node) by {
                    let hash = key_hash(encode_utf8(key));
                    law_finalizing_keeps_lookups(bytes, entries, table_oid, hash, node);
                    let later = matching(self.resolution_delta.entries@, table_oid, hash).reverse();
                    lemma_joined_contains(
                        later,
                        base_candidates(before, table_oid, hash),
                        node,
                    );
                    lemma_joined_contains(later, base_candidates(*self, table_oid, hash), node);
                }
            }
        }
    }

    /// The sorted base entries, as they are stored.
    pub fn resolution_to_bytes(&self) -> (bytes: Vec<u8>)
        requires
            self.wf(),
        ensures
            match self.resolution_store {
                ResolutionStore::Builder(builder) => finalizes(bytes@, builder.entries@),
                ResolutionStore::Finalized(stored) => bytes@ == stored@,
                ResolutionStore::MmapBacked(state) => match self.mmap {
                    Some(mapped) => bytes@ == mapped@.subrange(
                        state.offset as int,
                        state.offset + state.len,
                    ),
                    None => finalizes(bytes@, Seq::empty()),
                },
            },
    {
        match &self.resolution_store {
            ResolutionStore::Builder(builder) => builder.to_bytes(),
            ResolutionStore::Finalized(stored) => {
                let mut bytes: Vec<u8> = Vec::new();
                crate::codec::push_bytes(&mut bytes, stored.as_slice());
                assert(bytes@ =~= stored@);
                bytes
            },
            ResolutionStore::MmapBacked(state) => match &self.mmap {
                Some(mapped) => {
                    let _length: usize = mapped.len();
                    let part: &[u8] = slice_subrange(
                        mapped.as_slice(),
                        state.offset,
                        state.offset + state.len,
                    );
                    let mut bytes: Vec<u8> = Vec::new();
                    crate::codec::push_bytes(&mut bytes, part);
                    assert(bytes@ =~= part@);
                    bytes
                },
                None => ResolutionIndexBuilder::new().to_bytes(),
            },
        }
    }
}

/// What is in a joined list is in one of its parts.
pub(crate) proof fn lemma_joined_contains(left: Seq<u32>, right: Seq<u32>, node: u32)
    ensures
        (left + right).contains(node) <==> left.contains(node) || right.contains(node),
{
    let both = left + right;
    if left.contains(node) {
        let i = choose|i: int| 0 <= i < left.len() && left[i] == node;
        assert(both[i] == node);
    }
    if right.contains(node) {
        let i = choose|i: int| 0 <= i < right.len() && right[i] == node;
        assert(both[left.len() + i] == node);
    }
    if both.contains(node) {
        let i = choose|i: int| 0 <= i < both.len() && both[i] == node;
        if i < left.len() {
            assert(left[i] == node);
        } else {
            assert(right[i - left.len()] == node);
        }
    }
}

/// An entry that was just added leads to its node.
pub proof fn law_inserted_node_is_known(
    before: Engine,
    after: Engine,
    table_oid: u32,
    key: Seq<char>,
    node: u32,
)
    requires
        ({
            let entry = ResolutionEntry {
                table_oid,
                pk_hash: key_hash(encode_utf8(key)),
                node_idx: node,
            };
            match before.resolution_store {
                ResolutionStore::Builder(old_builder) => {
                    &&& after.resolution_store matches ResolutionStore::Builder(new_builder)
                        && new_builder.entries@ == old_builder.entries@.push(entry)
                },
                _ => after.resolution_delta.entries@ == before.resolution_delta.entries@.push(
                    entry,
                ),
            }
        }),
    ensures
        lookup_order(after, table_oid, key).contains(node),
{
    let hash = key_hash(encode_utf8(key));
    let later = matching(after.resolution_delta.entries@, table_oid, hash);
    let base = base_candidates(after, table_oid, hash);
    lemma_joined_contains(later.reverse(), base, node);
    match before.resolution_store {
        ResolutionStore::Builder(old_builder) => {
            let entries = after.resolution_store->Builder_0.entries@;
            assert(entries.drop_last() =~= old_builder.entries@);
            assert(base[base.len() - 1] == node);
        },
        _ => {
            let entries = after.resolution_delta.entries@;
            assert(entries.drop_last() =~= before.resolution_delta.entries@);
            assert(later[later.len() - 1] == node);
            assert(later.reverse()[0] == node);
        },
    }
}

/// The tables of the first live nodes.
pub open spec fn live_tables(nodes: Seq<NodeView>, count: nat) -> Map<u32, Set<u32>>
    decreases count,
{
    if count == 0 {
        Map::empty()
    } else {
        let before = live_tables(nodes, (count - 1) as nat);
        if nodes[count - 1].active {
            with_member(before, nodes[count - 1].table_oid, (count - 1) as u32)
        } else {
            before
        }
    }
}

impl Engine {
    /// Adds a node to a tenant.
    pub fn insert_tenant_membership(&mut self, tenant: &str, node_idx: u32)
        requires
            old(self).wf(),
        ensures
            final(self).wf(),
            final(self).tenant_membership@ == with_member(
                old(self).tenant_membership@,
                tenant@,
                node_idx,
            ),
            *final(self) == (Engine {
                tenant_membership: final(self).tenant_membership,
                ..*old(self)
            }),
    {
        self.tenant_membership.insert(tenant, node_idx);
    }

    /// Takes a node out of a tenant.
    pub fn remove_tenant_membership(&mut self, tenant: &str, node_idx: u32)
        requires
            old(self).wf(),
        ensures
            final(self).wf(),
            final(self).tenant_membership@ == without_member(
                old(self).tenant_membership@,
                tenant@,
                node_idx,
            ),
            *final(self) == (Engine {
                tenant_membership: final(self).tenant_membership,
                ..*old(self)
            }),
    {
        self.tenant_membership.remove(tenant, node_idx);
    }

    /// Adds a node to a table.
    pub fn insert_table_membership(&mut self, table_oid: u32, node_idx: u32)
        ensures
            old(self).wf() ==> final(self).wf(),
            final(self).table_membership@ == with_member(
                old(self).table_membership@,
                table_oid,
                node_idx,
            ),
            *final(self) == (Engine {
                table_membership: final(self).table_membership,
                ..*old(self)
            }),
    {
        self.table_membership.insert(table_oid, node_idx);
    }

    /// Takes a node out of a table.
    pub fn remove_table_membership(&mut self, table_oid: u32, node_idx: u32)
        ensures
            old(self).wf() ==> final(self).wf(),
            final(self).table_membership@ == without_member(
                old(self).table_membership@,
                table_oid,
                node_idx,
            ),
            *final(self) == (Engine {
                table_membership: final(self).table_membership,
                ..*old(self)
            }),
    {
        self.table_membership.remove(table_oid, node_idx);
    }

    /// Collects the live nodes of each table anew.
    pub fn rebuild_table_membership(&mut self)
        requires
            old(self).wf(),
        ensures
            final(self).wf(),
            final(self).table_membership@ == live_tables(
                old(self).node_store.nodes(),
                old(self).node_store.nodes().len(),
            ),
            *final(self) == (Engine {
                table_membership: final(self).table_membership,
                ..*old(self)
            }),
    {
        let ghost nodes = self.node_store.nodes();
        let mut membership = TableMembership::new();
        let count: u32 = self.node_store.node_count();
        let mut node: u32 = 0;
        while node < count
            invariant
                node <= count == nodes.len(),
                nodes == self.node_store.nodes(),
                *self == *old(self),
                self.wf(),
                membership@ == live_tables(nodes, node as nat),
            decreases count - node,
        {
            if self.node_store.is_active(node) {
                if let Some(table_oid) = self.node_store.table_oid(node) {
                    membership.insert(table_oid, node);
                }
            }
            node = node + 1;
        }
        self.table_membership = membership;
    }

    /// Copies node arrays of an artifact so that they can change.
    pub fn materialize_mmap_node_store_for_sync(&mut self)
        requires
            old(self).wf(),
        ensures
            final(self).wf(),
            !final(self).node_store.mapped(),
            final(self).node_store.nodes() == old(self).node_store.nodes(),
            *final(self) == (Engine { node_store: final(self).node_store, ..*old(self) }),
            !old(self).node_store.mapped() ==> *final(self) == *old(self),
    {
        if self.node_store.is_mmap_backed() {
            self.node_store = self.node_store.to_owned_store();
        }
    }

    /// Prepares the nodes for a change by sync.
    pub fn prepare_sync_node_mutation(&mut self)
        requires
            old(self).wf(),
        ensures
            final(self).wf(),
            !final(self).node_store.mapped(),
            final(self).node_store.nodes() == old(self).node_store.nodes(),
            *final(self) == (Engine { node_store: final(self).node_store, ..*old(self) }),
    {
        self.materialize_mmap_node_store_for_sync();
    }

    /// Adds a live node.
    pub fn insert_sync_node(&mut self, table_oid: u32, pk: &str) -> (node: u32)
        requires
            old(self).wf(),
            old(self).node_store.nodes().len() < u32::MAX,
            old(self).node_store.nodes().len() < bit_capacity_limit(),
        ensures
            final(self).wf(),
            node == old(self).node_store.nodes().len(),
            final(self).node_store.nodes() == old(self).node_store.nodes().push(
                NodeView { active: true, table_oid, key: pk@ },
            ),
            !final(self).node_store.mapped(),
            *final(self) == (Engine { node_store: final(self).node_store, ..*old(self) }),
    {
        self.materialize_mmap_node_store_for_sync();
        self.node_store.add_node(table_oid, pk.to_owned())
    }

    /// Makes a live node of a table inactive. Says whether it was one.
    pub fn tombstone_sync_node(&mut self, table_oid: u32, node_idx: u32) -> (done: bool)
        requires
            old(self).wf(),
        ensures
            final(self).wf(),
            ({
                let nodes = old(self).node_store.nodes();
                &&& done == (old(self).node_store.live(node_idx)
                    && nodes[node_idx as int].table_oid == table_oid)
                &&& final(self).node_store.nodes() == if done {
                    nodes.update(
                        node_idx as int,
                        NodeView { active: false, ..nodes[node_idx as int] },
                    )
                } else {
                    nodes
                }
            }),
            *final(self) == (Engine { node_store: final(self).node_store, ..*old(self) }),
    {
        self.materialize_mmap_node_store_for_sync();
        let same_table: bool = match self.node_store.table_oid(node_idx) {
            Some(other) => other == table_oid,
            None => false,
        };
        if self.node_store.is_active(node_idx) && same_table {
            self.node_store.deactivate(node_idx);
            return true;
        }
        false
    }

    /// Takes over the stores of a loaded artifact.
    pub fn install_mmap_backed_graph(&mut self, graph: MmapBackedGraph) -> (result: GraphResult<()>)
        requires
            old(self).wf(),
            graph.node_store.addressable(),
            graph.node_store.nodes().len() <= bit_capacity_limit(),
            graph.filter_index.sound(),
            graph.edge_type_registry@.len() >= 1,
            resolution_wf(
                ResolutionStore::MmapBacked(graph.resolution_state),
                Some(graph.mmap),
            ),
        ensures
            result is Ok,
            final(self).wf(),
            final(self).table_membership@ == live_tables(
                graph.node_store.nodes(),
                graph.node_store.nodes().len(),
            ),
            *final(self) == (Engine {
                node_store: graph.node_store,
                edge_store: graph.edge_store,
                reverse_edge_store: graph.reverse_edge_store,
                filter_index: graph.filter_index,
                edge_type_registry: graph.edge_type_registry,
                relationship_identities: graph.relationship_identities,
                table_membership: final(self).table_membership,
                built: true,
                last_build: None,
                resolution_store: ResolutionStore::MmapBacked(graph.resolution_state),
                mmap: Some(graph.mmap),
                ..*old(self)
            }),
    {
        self.resolution_store = ResolutionStore::MmapBacked(graph.resolution_state);
        self.mmap = Some(graph.mmap);
        self.node_store = graph.node_store;
        self.edge_store = graph.edge_store;
        self.reverse_edge_store = graph.reverse_edge_store;
        self.filter_index = graph.filter_index;
        self.edge_type_registry = graph.edge_type_registry;
        self.relationship_identities = graph.relationship_identities;
        self.rebuild_table_membership();
        self.finish_build(None);
        Ok(())
    }
}

/// The error for memory that was refused under a limit.
pub open spec fn refused_memory(memory_limit_mb: i32) -> ErrorView {
    ErrorView::Oom {
        used_mb: 0,
        need_mb: 1,
        limit_mb: if memory_limit_mb < 1 {
            1
        } else {
            memory_limit_mb as int
        },
    }
}

fn memory_refused(memory_limit_mb: i32) -> (error: GraphError)
    ensures
        error@ == refused_memory(memory_limit_mb),
{
    GraphError::Oom {
        used_mb: 0,
        need_mb: 1,
        limit_mb: if memory_limit_mb < 1 {
            1
        } else {
            memory_limit_mb as u64
        },
    }
}

impl Engine {
    /// Adds a node to a tenant while the graph is built. Whether there is
    /// memory for it is the allocator's choice.
    pub fn try_build_insert_tenant_membership(
        &mut self,
        tenant: &str,
        node_idx: u32,
        memory_limit_mb: i32,
    ) -> (result: GraphResult<()>)
        requires
            old(self).wf(),
        ensures
            final(self).wf(),
            *final(self) == (Engine {
                tenant_membership: final(self).tenant_membership,
                ..*old(self)
            }),
            final(self).tenant_membership@ == if result is Ok {
                with_member(old(self).tenant_membership@, tenant@, node_idx)
            } else {
                old(self).tenant_membership@
            },
            result matches Err(error) ==> error@ == refused_memory(memory_limit_mb),
    {
        if !self.tenant_membership.try_reserve_one() {
            return Err(memory_refused(memory_limit_mb));
        }
        self.insert_tenant_membership(tenant, node_idx);
        Ok(())
    }

    /// Adds a node to a table while the graph is built. Whether there is
    /// memory for it is the allocator's choice.
    pub fn try_build_insert_table_membership(
        &mut self,
        table_oid: u32,
        node_idx: u32,
        memory_limit_mb: i32,
    ) -> (result: GraphResult<()>)
        ensures
            old(self).wf() ==> final(self).wf(),
            *final(self) == (Engine {
                table_membership: final(self).table_membership,
                ..*old(self)
            }),
            final(self).table_membership@ == if result is Ok {
                with_member(old(self).table_membership@, table_oid, node_idx)
            } else {
                old(self).table_membership@
            },
            result matches Err(error) ==> error@ == refused_memory(memory_limit_mb),
    {
        if !self.table_membership.try_reserve_one() {
            return Err(memory_refused(memory_limit_mb));
        }
        self.insert_table_membership(table_oid, node_idx);
        Ok(())
    }
}

} // verus!
