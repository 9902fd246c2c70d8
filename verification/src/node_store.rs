//! Node metadata as parallel arrays, owned or read from an artifact.
use std::ops::Range;
use vstd::prelude::*;
use vstd::slice::slice_subrange;
use vstd::utf8::*;

use crate::active_bits::{
    bits_capacity,
    bit_capacity_limit, bit_contents, bits_with_capacity, clone_bits, count_set_bits, count_true,
    get_bit, push_bit, raw_words, set_bit, ActiveBits,
};
use crate::codec::{le_value, lemma_radix_values, read_le};
use crate::errors::{internal, ErrorView, GraphResult};
use crate::mapped_bytes::MappedBytes;
use crate::rooms::{
    adds, have_room, lemma_adds, lemma_adds_nothing, lemma_adds_room, push_list, push_text_list,
    text_list_needs, total_bytes, total_of, Need, Room,
};
use crate::text::utf8_text;

verus! {

broadcast use vstd::seq::group_seq_axioms;

/// One node slot.
#[verifier::ext_equal]
pub struct NodeView {
    /// Whether the slot is live; a deleted node keeps its slot.
    pub active: bool,
    pub table_oid: u32,
    pub key: Seq<char>,
}

/// Number of live slots.
pub open spec fn live_nodes(nodes: Seq<NodeView>) -> nat
    decreases nodes.len(),
{
    if nodes.len() == 0 {
        0
    } else {
        live_nodes(nodes.drop_last()) + if nodes.last().active {
            1nat
        } else {
            0nat
        }
    }
}

/// Length of a byte range; a reversed range is empty.
pub open spec fn range_len(range: Range<usize>) -> int {
    if range.start <= range.end {
        range.end - range.start
    } else {
        0
    }
}

/// Bit `index`, counted from the least significant one.
pub open spec fn bit_of(byte: u8, index: int) -> bool {
    (byte >> (index as u8)) & 1u8 == 1u8
}

/// Sections of a node artifact before they are checked.
#[derive(Debug)]
pub struct MmapNodeArrayParts {
    /// Artifact bytes that every range points into.
    pub mmap: MappedBytes,
    /// Packed active bits.
    pub active_range: Range<usize>,
    /// One little-endian table identifier of four bytes per node.
    pub oid_range: Range<usize>,
    /// `node_count + 1` little-endian key offsets of eight bytes.
    pub pk_offsets_range: Range<usize>,
    /// UTF-8 bytes of the keys.
    pub pk_bytes_range: Range<usize>,
    pub node_count: u32,
}

/// Checked sections of a node artifact.
#[derive(Debug)]
pub struct MmapNodeArrays {
    parts: MmapNodeArrayParts,
}

impl MmapNodeArrayParts {
    /// The bytes of a range.
    pub open spec fn section(&self, range: Range<usize>) -> Seq<u8> {
        self.mmap@.subrange(range.start as int, range.end as int)
    }

    /// Whether a range lies in the artifact.
    pub open spec fn holds(&self, range: Range<usize>) -> bool {
        range.start <= range.end <= self.mmap@.len()
    }

    /// The key offset at a position of the offset table.
    pub open spec fn offset(&self, index: int) -> nat {
        le_value(self.section(self.pk_offsets_range).subrange(8 * index, 8 * index + 8))
    }

    /// The bytes of one key.
    pub open spec fn key_bytes(&self, index: int) -> Seq<u8> {
        self.section(self.pk_bytes_range).subrange(
            self.offset(index) as int,
            self.offset(index + 1) as int,
        )
    }

    /// Whether the key at a position is well placed UTF-8.
    pub open spec fn key_valid(&self, index: int) -> bool {
        &&& self.offset(index) <= self.offset(index + 1) <= self.section(self.pk_bytes_range).len()
        &&& valid_utf8(self.key_bytes(index))
    }

    /// Whether the sections fit the artifact, their alignment and the node count.
    pub open spec fn shape_valid(&self) -> bool {
        &&& range_len(self.active_range) == (self.node_count + 7) / 8
        &&& range_len(self.oid_range) == 4 * self.node_count
        &&& range_len(self.pk_offsets_range) == 8 * (self.node_count + 1)
        &&& self.holds(self.active_range)
        &&& self.holds(self.oid_range)
        &&& self.holds(self.pk_offsets_range)
        &&& self.holds(self.pk_bytes_range)
        &&& self.oid_range.start % 4 == 0
        &&& self.pk_offsets_range.start % 8 == 0
    }

    /// Whether the sections describe `node_count` nodes.
    pub open spec fn valid(&self) -> bool {
        &&& self.shape_valid()
        &&& self.offset(0) == 0
        &&& self.offset(self.node_count as int) == self.section(self.pk_bytes_range).len()
        &&& forall|i: int| 0 <= i < self.node_count ==> #[trigger] self.key_valid(i)
    }

    /// One node of valid sections.
    pub open spec fn node(&self, index: int) -> NodeView {
        NodeView {
            active: bit_of(self.section(self.active_range)[index / 8], index % 8),
            table_oid: le_value(
                self.section(self.oid_range).subrange(4 * index, 4 * index + 4),
            ) as u32,
            key: decode_utf8(self.key_bytes(index)),
        }
    }

    /// The nodes of valid sections.
    pub open spec fn nodes(&self) -> Seq<NodeView> {
        Seq::new(self.node_count as nat, |i: int| self.node(i))
    }
}

/// Whether a range lies in a region of the given length.
pub fn range_in_region(range: &Range<usize>, region_len: usize) -> (inside: bool)
    ensures
        inside == (range.start <= range.end <= region_len),
{
    range.start <= range.end && range.end <= region_len
}

fn length_of(range: &Range<usize>) -> (length: usize)
    ensures
        length == range_len(*range),
{
    if range.start <= range.end {
        range.end - range.start
    } else {
        0
    }
}

/// The key offset at a position of a checked offset table.
fn offset_at(parts: &MmapNodeArrayParts, index: usize) -> (offset: u64)
    requires
        parts.shape_valid(),
        index <= parts.node_count,
    ensures
        offset as nat == parts.offset(index as int),
{
    let table = slice_subrange(
        parts.mmap.as_slice(),
        parts.pk_offsets_range.start,
        parts.pk_offsets_range.end,
    );
    let length: usize = table.len();
    proof {
        lemma_radix_values();
    }
    read_le(table, 8 * index, 8) as u64
}

impl MmapNodeArrays {
    /// The sections that passed the check.
    pub closed spec fn parts(&self) -> MmapNodeArrayParts {
        self.parts
    }

    /// Checks sections: ranges, alignment, the offset table and every key.
    pub fn new(parts: MmapNodeArrayParts) -> (arrays: Option<Self>)
        ensures
            arrays is Some <==> parts.valid(),
            arrays matches Some(value) ==> value.parts() == parts,
    {
        let count: u64 = parts.node_count as u64;
        let region: usize = parts.mmap.len();
        if length_of(&parts.active_range) as u64 != (count + 7) / 8
            || length_of(&parts.oid_range) as u64 != 4 * count
            || length_of(&parts.pk_offsets_range) as u64 != 8 * (count + 1)
            || !range_in_region(&parts.active_range, region)
            || !range_in_region(&parts.oid_range, region)
            || !range_in_region(&parts.pk_offsets_range, region)
            || !range_in_region(&parts.pk_bytes_range, region)
            || parts.oid_range.start % 4 != 0
            || parts.pk_offsets_range.start % 8 != 0
        {
            return None;
        }
        assert(parts.shape_valid());
        let keys = slice_subrange(
            parts.mmap.as_slice(),
            parts.pk_bytes_range.start,
            parts.pk_bytes_range.end,
        );
        assert(keys@ == parts.section(parts.pk_bytes_range));
        if offset_at(&parts, 0) != 0 || offset_at(&parts, parts.node_count as usize)
            != keys.len() as u64 {
            return None;
        }
        let mut node: u32 = 0;
        while node < parts.node_count
            invariant
                node <= parts.node_count,
                parts.shape_valid(),
                keys@ == parts.section(parts.pk_bytes_range),
                forall|i: int| 0 <= i < node ==> #[trigger] parts.key_valid(i),
            decreases parts.node_count - node,
        {
            let start: u64 = offset_at(&parts, node as usize);
            let end: u64 = offset_at(&parts, node as usize + 1);
            if start > end || end > keys.len() as u64 {
                assert(!parts.key_valid(node as int));
                return None;
            }
            let key = slice_subrange(keys, start as usize, end as usize);
            assert(key@ == parts.key_bytes(node as int));
            if utf8_text(key).is_none() {
                assert(!parts.key_valid(node as int));
                return None;
            }
            node = node + 1;
        }
        Some(MmapNodeArrays { parts })
    }
}

/// Where the arrays live.
enum ArrayBacking {
    Owned { is_active: ActiveBits, table_oids: Vec<u32>, primary_keys: Vec<String> },
    Mmap { arrays: MmapNodeArrays },
}

/// Node metadata by dense node index.
pub struct NodeStore {
    backing: ArrayBacking,
}

/// Bytes of the longest key among nodes.
pub open spec fn longest_key(nodes: Seq<NodeView>) -> nat
    decreases nodes.len(),
{
    if nodes.len() == 0 {
        0
    } else {
        let rest = longest_key(nodes.drop_last());
        let own = encode_utf8(nodes.last().key).len();
        if own > rest {
            own
        } else {
            rest
        }
    }
}

impl NodeStore {
    /// Whether the arrays describe the same nodes.
    pub closed spec fn wf(&self) -> bool {
        match self.backing {
            ArrayBacking::Owned { is_active, table_oids, primary_keys } => {
                &&& bit_contents(is_active).len() == table_oids@.len()
                &&& primary_keys@.len() == table_oids@.len()
            },
            ArrayBacking::Mmap { arrays } => arrays.parts().valid(),
        }
    }

    /// The node slots.
    pub closed spec fn nodes(&self) -> Seq<NodeView> {
        match self.backing {
            ArrayBacking::Owned { is_active, table_oids, primary_keys } => Seq::new(
                table_oids@.len(),
                |i: int|
                    NodeView {
                        active: bit_contents(is_active)[i],
                        table_oid: table_oids@[i],
                        key: primary_keys@[i]@,
                    },
            ),
            ArrayBacking::Mmap { arrays } => arrays.parts().nodes(),
        }
    }

    /// Whether the arrays are read from an artifact.
    pub closed spec fn mapped(&self) -> bool {
        self.backing is Mmap
    }

    /// Whether a node index names a live slot.
    pub open spec fn live(&self, node: u32) -> bool {
        node < self.nodes().len() && self.nodes()[node as int].active
    }

    /// Whether every slot has an index of its own.
    pub open spec fn addressable(&self) -> bool {
        self.wf() && self.nodes().len() <= u32::MAX
    }

    /// An owned store without nodes.
    pub fn new() -> (store: Self)
        ensures
            store.wf(),
            store.nodes() == Seq::<NodeView>::empty(),
            !store.mapped(),
    {
        NodeStore::with_capacity(0)
    }

    /// An owned store without nodes, with room for some.
    pub fn with_capacity(capacity: usize) -> (store: Self)
        requires
            capacity <= bit_capacity_limit(),
        ensures
            store.wf(),
            store.nodes() == Seq::<NodeView>::empty(),
            !store.mapped(),
    {
        let store = NodeStore {
            backing: ArrayBacking::Owned {
                is_active: bits_with_capacity(capacity),
                table_oids: Vec::with_capacity(capacity),
                primary_keys: Vec::with_capacity(capacity),
            },
        };
        assert(store.nodes() =~= Seq::<NodeView>::empty());
        store
    }

    /// A store that reads checked artifact sections.
    pub fn from_mmap(arrays: MmapNodeArrays) -> (store: Self)
        requires
            arrays.parts().valid(),
        ensures
            store.wf(),
            store.nodes() == arrays.parts().nodes(),
            store.mapped(),
    {
        NodeStore { backing: ArrayBacking::Mmap { arrays } }
    }

    /// Adds a live node and returns its index.
    pub fn add_node(&mut self, table_oid: u32, primary_key: String) -> (index: u32)
        requires
            old(self).wf(),
            !old(self).mapped(),
            old(self).nodes().len() < bit_capacity_limit(),
        ensures
            final(self).wf(),
            !final(self).mapped(),
            final(self).nodes() == old(self).nodes().push(
                NodeView { active: true, table_oid, key: primary_key@ },
            ),
            index == old(self).nodes().len() as u32,
    {
        let ghost before = self.nodes();
        let ghost key = primary_key@;
        let mut index: u32 = 0;
        match &mut self.backing {
            ArrayBacking::Owned { is_active, table_oids, primary_keys } => {
                index = table_oids.len() as u32;
                push_bit(is_active, true);
                table_oids.push(table_oid);
                primary_keys.push(primary_key);
            },
            ArrayBacking::Mmap { .. } => {},
        }
        assert(self.nodes() =~= before.push(NodeView { active: true, table_oid, key }));
        index
    }

    /// Adds a live node, unless the store is mapped or out of indices.
    pub fn try_add_node(&mut self, table_oid: u32, primary_key: String) -> (result: GraphResult<u32>)
        requires
            old(self).wf(),
            old(self).nodes().len() < bit_capacity_limit(),
        ensures
            final(self).wf(),
            result is Ok <==> !old(self).mapped() && old(self).nodes().len() <= u32::MAX,
            result matches Ok(index) ==> index == old(self).nodes().len() && final(self).nodes()
                == old(self).nodes().push(NodeView { active: true, table_oid, key: primary_key@ }),
            result matches Err(error) ==> final(self).nodes() == old(self).nodes() && error@
                == ErrorView::Internal(
                if old(self).mapped() {
                    "cannot add nodes to mmap-backed storage during build"@
                } else {
                    "node count exceeds u32 index space"@
                },
            ),
    {
        match &self.backing {
            ArrayBacking::Owned { table_oids, .. } => {
                if table_oids.len() as u64 > u32::MAX as u64 {
                    return Err(internal("node count exceeds u32 index space"));
                }
            },
            ArrayBacking::Mmap { .. } => {
                return Err(internal("cannot add nodes to mmap-backed storage during build"));
            },
        }
        Ok(self.add_node(table_oid, primary_key))
    }

    /// Marks a node as deleted. Nothing happens to a mapped store, nor for an
    /// index out of range.
    pub fn deactivate(&mut self, node_idx: u32)
        requires
            old(self).wf(),
        ensures
            final(self).wf(),
            final(self).mapped() == old(self).mapped(),
            final(self).nodes() == if old(self).mapped() || node_idx >= old(self).nodes().len() {
                old(self).nodes()
            } else {
                old(self).nodes().update(
                    node_idx as int,
                    NodeView { active: false, ..old(self).nodes()[node_idx as int] },
                )
            },
    {
        let ghost before = self.nodes();
        match &mut self.backing {
            ArrayBacking::Owned { is_active, table_oids, .. } => {
                if (node_idx as usize) < table_oids.len() {
                    set_bit(is_active, node_idx as usize, false);
                }
            },
            ArrayBacking::Mmap { .. } => {},
        }
        assert(self.nodes() =~= if self.mapped() || node_idx >= before.len() {
            before
        } else {
            before.update(
                node_idx as int,
                NodeView { active: false, ..before[node_idx as int] },
            )
        });
    }

    /// Whether a node is live; an index out of range is not.
    pub fn is_active(&self, node_idx: u32) -> (active: bool)
        requires
            self.wf(),
        ensures
            active == self.live(node_idx),
    {
        match &self.backing {
            ArrayBacking::Owned { is_active, .. } => match get_bit(is_active, node_idx as usize) {
                Some(bit) => bit,
                None => false,
            },
            ArrayBacking::Mmap { arrays } => {
                let parts = &arrays.parts;
                if node_idx >= parts.node_count {
                    return false;
                }
                let bytes = slice_subrange(
                    parts.mmap.as_slice(),
                    parts.active_range.start,
                    parts.active_range.end,
                );
                let byte: u8 = bytes[(node_idx / 8) as usize];
                (byte >> ((node_idx % 8) as u8)) & 1 == 1
            },
        }
    }

    /// Number of slots, deleted ones included.
    pub fn node_count(&self) -> (count: u32)
        requires
            self.wf(),
        ensures
            count == self.nodes().len() as u32,
    {
        match &self.backing {
            ArrayBacking::Owned { table_oids, .. } => table_oids.len() as u32,
            ArrayBacking::Mmap { arrays } => arrays.parts.node_count,
        }
    }

    /// Source table of a node, if the index is in range.
    pub fn table_oid(&self, node_idx: u32) -> (oid: Option<u32>)
        requires
            self.wf(),
        ensures
            oid == if node_idx < self.nodes().len() {
                Some(self.nodes()[node_idx as int].table_oid)
            } else {
                None
            },
    {
        match &self.backing {
            ArrayBacking::Owned { table_oids, .. } => {
                if (node_idx as usize) < table_oids.len() {
                    Some(table_oids[node_idx as usize])
                } else {
                    None
                }
            },
            ArrayBacking::Mmap { arrays } => {
                let parts = &arrays.parts;
                if node_idx >= parts.node_count {
                    return None;
                }
                let table = slice_subrange(
                    parts.mmap.as_slice(),
                    parts.oid_range.start,
                    parts.oid_range.end,
                );
                let length: usize = table.len();
                proof {
                    lemma_radix_values();
                }
                Some(read_le(table, 4 * node_idx as usize, 4) as u32)
            },
        }
    }

    /// Key of a node, if the index is in range.
    pub fn primary_key(&self, node_idx: u32) -> (key: Option<&str>)
        requires
            self.wf(),
        ensures
            key is Some <==> node_idx < self.nodes().len(),
            key matches Some(text) ==> text@ == self.nodes()[node_idx as int].key,
    {
        match &self.backing {
            ArrayBacking::Owned { primary_keys, .. } => {
                if (node_idx as usize) < primary_keys.len() {
                    Some(primary_keys[node_idx as usize].as_str())
                } else {
                    None
                }
            },
            ArrayBacking::Mmap { arrays } => {
                let parts = &arrays.parts;
                if node_idx >= parts.node_count {
                    return None;
                }
                assert(parts.key_valid(node_idx as int));
                let start: u64 = offset_at(parts, node_idx as usize);
                let end: u64 = offset_at(parts, node_idx as usize + 1);
                let keys = slice_subrange(
                    parts.mmap.as_slice(),
                    parts.pk_bytes_range.start,
                    parts.pk_bytes_range.end,
                );
                utf8_text(slice_subrange(keys, start as usize, end as usize))
            },
        }
    }

    /// Bytes of the longest key; zero where there is no node.
    pub fn max_primary_key_bytes(&self) -> (longest: usize)
        requires
            self.addressable(),
        ensures
            longest == longest_key(self.nodes()),
    {
        let mut longest: usize = 0;
        let mut node: u32 = 0;
        let count: u32 = self.node_count();
        proof {
            assert(self.nodes().take(0) =~= Seq::<NodeView>::empty());
        }
        while node < count
            invariant
                self.addressable(),
                count == self.nodes().len(),
                node <= count,
                longest == longest_key(self.nodes().take(node as int)),
            decreases count - node,
        {
            let length: usize = match self.primary_key(node) {
                Some(key) => key.as_bytes().len(),
                None => 0,
            };
            proof {
                assert(self.nodes().take(node + 1).drop_last() =~= self.nodes().take(node as int));
            }
            if length > longest {
                longest = length;
            }
            node = node + 1;
        }
        assert(self.nodes().take(count as int) =~= self.nodes());
        longest
    }

    /// Whether the arrays are read from an artifact.
    pub fn is_mmap_backed(&self) -> (mapped: bool)
        ensures
            mapped == self.mapped(),
    {
        match &self.backing {
            ArrayBacking::Owned { .. } => false,
            ArrayBacking::Mmap { .. } => true,
        }
    }

    /// Number of live nodes.
    pub fn active_count(&self) -> (count: u32)
        requires
            self.wf(),
        ensures
            count == live_nodes(self.nodes()) as u32,
    {
        match &self.backing {
            ArrayBacking::Owned { is_active, .. } => {
                proof {
                    lemma_count_matches(bit_contents(*is_active), self.nodes());
                }
                count_set_bits(is_active) as u32
            },
            ArrayBacking::Mmap { arrays } => {
                let total: u32 = arrays.parts.node_count;
                let mut count: u32 = 0;
                let mut node: u32 = 0;
                proof {
                    assert(self.nodes().take(0).len() == 0);
                }
                while node < total
                    invariant
                        node <= total == self.nodes().len(),
                        self.wf(),
                        count == live_nodes(self.nodes().take(node as int)) <= node,
                    decreases total - node,
                {
                    proof {
                        let wider = self.nodes().take(node + 1);
                        assert(wider.drop_last() =~= self.nodes().take(node as int));
                        assert(wider.last() == self.nodes()[node as int]);
                    }
                    if self.is_active(node) {
                        count = count + 1;
                    }
                    node = node + 1;
                }
                proof {
                    assert(self.nodes().take(node as int) =~= self.nodes());
                }
                count
            },
        }
    }

    /// Bytes that a mapped store reads from its artifact.
    pub fn estimated_mmap_bytes(&self) -> (bytes: usize)
        ensures
            bytes == self.mapped_bytes(),
    {
        match &self.backing {
            ArrayBacking::Owned { .. } => 0,
            ArrayBacking::Mmap { arrays } => length_of(&arrays.parts.active_range).saturating_add(
                length_of(&arrays.parts.oid_range),
            ).saturating_add(length_of(&arrays.parts.pk_offsets_range)).saturating_add(
                length_of(&arrays.parts.pk_bytes_range),
            ),
        }
    }

    /// Length of the mapped sections together, up to the greatest `usize`.
    pub closed spec fn mapped_bytes(&self) -> int {
        match self.backing {
            ArrayBacking::Owned { .. } => 0,
            ArrayBacking::Mmap { arrays } => {
                let total = range_len(arrays.parts.active_range) + range_len(
                    arrays.parts.oid_range,
                ) + range_len(arrays.parts.pk_offsets_range) + range_len(
                    arrays.parts.pk_bytes_range,
                );
                if total <= usize::MAX {
                    total
                } else {
                    usize::MAX as int
                }
            },
        }
    }

    /// An owned copy with the same nodes.
    pub fn to_owned_store(&self) -> (store: Self)
        requires
            self.wf(),
            self.nodes().len() <= bit_capacity_limit(),
        ensures
            store.wf(),
            !store.mapped(),
            store.nodes() == self.nodes(),
    {
        match &self.backing {
            ArrayBacking::Owned { is_active, table_oids, primary_keys } => {
                let store = NodeStore {
                    backing: ArrayBacking::Owned {
                        is_active: clone_bits(is_active),
                        table_oids: table_oids.clone(),
                        primary_keys: clone_keys(primary_keys),
                    },
                };
                assert(store.nodes() =~= self.nodes());
                store
            },
            ArrayBacking::Mmap { arrays } => {
                let total: u32 = arrays.parts.node_count;
                let mut store = NodeStore::new();
                let mut node: u32 = 0;
                while node < total
                    invariant
                        node <= total == self.nodes().len() <= bit_capacity_limit(),
                        self.wf(),
                        store.wf(),
                        !store.mapped(),
                        store.nodes() == self.nodes().take(node as int),
                    decreases total - node,
                {
                    let key: String = match self.primary_key(node) {
                        Some(text) => text.to_owned(),
                        None => String::new(),
                    };
                    let oid: u32 = match self.table_oid(node) {
                        Some(oid) => oid,
                        None => 0,
                    };
                    let ghost before = store.nodes();
                    store.add_node(oid, key);
                    if !self.is_active(node) {
                        store.deactivate(node);
                    }
                    proof {
                        assert(store.nodes() =~= self.nodes().take(node + 1));
                    }
                    node = node + 1;
                }
                proof {
                    assert(self.nodes().take(node as int) =~= self.nodes());
                }
                store
            },
        }
    }

    /// Packed active bits, as an artifact stores them. An owned store pads
    /// them to whole machine words.
    pub fn is_active_bytes(&self) -> (bytes: Vec<u8>)
        requires
            self.wf(),
        ensures
            8 * bytes@.len() >= self.nodes().len(),
            self.mapped() ==> bytes@.len() == (self.nodes().len() + 7) / 8,
            !self.mapped() ==> bytes@.len() == (self.nodes().len() + usize::BITS - 1)
                / usize::BITS as int * (usize::BITS as int / 8),
            forall|i: int|
                0 <= i < self.nodes().len() ==> bit_of(#[trigger] bytes@[i / 8], i % 8)
                    == self.nodes()[i].active,
    {
        match &self.backing {
            ArrayBacking::Owned { is_active, .. } => {
                let bytes = word_bytes(raw_words(is_active));
                proof {
                    lemma_active_bytes(*is_active, bytes@);
                }
                bytes
            },
            ArrayBacking::Mmap { arrays } => {
                let section = slice_subrange(
                    arrays.parts.mmap.as_slice(),
                    arrays.parts.active_range.start,
                    arrays.parts.active_range.end,
                );
                vstd::slice::slice_to_vec(section)
            },
        }
    }

    /// Source tables of all nodes, in index order.
    pub fn table_oids_slice(&self) -> (oids: Vec<u32>)
        requires
            self.addressable(),
        ensures
            oids@ == self.nodes().map_values(|node: NodeView| node.table_oid),
    {
        let total: u32 = self.node_count();
        let mut oids: Vec<u32> = Vec::new();
        let mut node: u32 = 0;
        while node < total
            invariant
                node <= total == self.nodes().len(),
                self.wf(),
                oids@ == self.nodes().take(node as int).map_values(|node: NodeView| node.table_oid),
            decreases total - node,
        {
            if let Some(oid) = self.table_oid(node) {
                oids.push(oid);
            }
            proof {
                assert(oids@ =~= self.nodes().take(node + 1).map_values(
                    |node: NodeView| node.table_oid,
                ));
            }
            node = node + 1;
        }
        proof {
            assert(self.nodes().take(node as int) =~= self.nodes());
        }
        oids
    }
}

proof fn lemma_count_matches(bits: Seq<bool>, nodes: Seq<NodeView>)
    requires
        bits.len() == nodes.len(),
        forall|i: int| 0 <= i < bits.len() ==> bits[i] == (#[trigger] nodes[i]).active,
    ensures
        count_true(bits) == live_nodes(nodes),
    decreases bits.len(),
{
    if bits.len() > 0 {
        lemma_count_matches(bits.drop_last(), nodes.drop_last());
    }
}

/// The bytes of machine words, least significant byte first.
fn word_bytes(words: &[usize]) -> (bytes: Vec<u8>)
    ensures
        bytes@.len() == words@.len() * (usize::BITS as int / 8),
        forall|i: int|
            0 <= i < bytes@.len() ==> #[trigger] bytes@[i] == (words@[i / (usize::BITS as int / 8)]
                >> ((8 * (i % (usize::BITS as int / 8))) as usize)) as u8,
{
    let width: usize = (usize::BITS / 8) as usize;
    let mut bytes: Vec<u8> = Vec::new();
    let mut at: usize = 0;
    while at < words.len()
        invariant
            width == usize::BITS as int / 8,
            4 <= width <= 8,
            at <= words@.len(),
            bytes@.len() == at * width,
            forall|i: int|
                0 <= i < bytes@.len() ==> #[trigger] bytes@[i] == (words@[i / (width as int)] >> ((8
                    * (i % (width as int))) as usize)) as u8,
        decreases words@.len() - at,
    {
        let word: usize = words[at];
        let mut part: usize = 0;
        while part < width
            invariant
                width == usize::BITS as int / 8,
                4 <= width <= 8,
                part <= width,
                at < words@.len(),
                word == words@[at as int],
                bytes@.len() == at * width + part,
                forall|i: int|
                    0 <= i < bytes@.len() ==> #[trigger] bytes@[i] == (words@[i / (width as int)]
                        >> ((8 * (i % (width as int))) as usize)) as u8,
            decreases width - part,
        {
            proof {
                let i = at * width + part;
                assert(i / (width as int) == at && i % (width as int) == part) by (nonlinear_arith)
                    requires
                        i == at * width + part,
                        0 <= part < width,
                ;
            }
            bytes.push((word >> (8 * part)) as u8);
            part = part + 1;
        }
        proof {
            assert(at * width + width == (at + 1) * width) by (nonlinear_arith);
        }
        at = at + 1;
    }
    bytes
}

proof fn lemma_active_bytes(is_active: ActiveBits, bytes: Seq<u8>)
    requires
        exists|words: Seq<usize>|
            #![trigger words.len()]
            words.len() == (bit_contents(is_active).len() + usize::BITS - 1) / usize::BITS as int
                && bytes.len() == words.len() * (usize::BITS as int / 8) && (forall|i: int|
                0 <= i < bit_contents(is_active).len() ==> #[trigger] bit_contents(is_active)[i]
                    == (((words[i / usize::BITS as int] >> ((i % usize::BITS as int) as usize))
                    & 1usize) == 1usize)) && (forall|i: int|
                0 <= i < bytes.len() ==> #[trigger] bytes[i] == (words[i / (usize::BITS as int / 8)]
                    >> ((8 * (i % (usize::BITS as int / 8))) as usize)) as u8),
    ensures
        8 * bytes.len() >= bit_contents(is_active).len(),
        forall|i: int|
            0 <= i < bit_contents(is_active).len() ==> bit_of(#[trigger] bytes[i / 8], i % 8)
                == bit_contents(is_active)[i],
{
    let words = choose|words: Seq<usize>|
        #![trigger words.len()]
        words.len() == (bit_contents(is_active).len() + usize::BITS - 1) / usize::BITS as int
            && bytes.len() == words.len() * (usize::BITS as int / 8) && (forall|i: int|
            0 <= i < bit_contents(is_active).len() ==> #[trigger] bit_contents(is_active)[i] == (((
            words[i / usize::BITS as int] >> ((i % usize::BITS as int) as usize)) & 1usize)
                == 1usize)) && (forall|i: int|
            0 <= i < bytes.len() ==> #[trigger] bytes[i] == (words[i / (usize::BITS as int / 8)]
                >> ((8 * (i % (usize::BITS as int / 8))) as usize)) as u8);
    let bits = usize::BITS as int;
    let n = bit_contents(is_active).len() as int;
    let width = bits / 8;
    assert(bits == 32 || bits == 64);
    assert(8 * bytes.len() >= n) by (nonlinear_arith)
        requires
            bytes.len() == words.len() * width,
            words.len() == (n + bits - 1) / bits,
            width == bits / 8,
            bits == 32 || bits == 64,
    ;
    assert forall|i: int| 0 <= i < n implies bit_of(#[trigger] bytes[i / 8], i % 8) == bit_contents(
        is_active,
    )[i] by {
        let word = words[i / bits];
        let part = (8 * ((i / 8) % width)) as usize;
        let low = (i % 8) as u8;
        assert((i / 8) / width == i / bits && 8 * ((i / 8) % width) + i % 8 == i % bits)
            by (nonlinear_arith)
            requires
                0 <= i,
                width == bits / 8,
                bits == 32 || bits == 64,
        ;
        assert(0 <= (i / 8) % width < width);
        assert(0 <= i / 8 < bytes.len()) by (nonlinear_arith)
            requires
                0 <= i < n,
                8 * bytes.len() >= n,
        ;
        let byte = (word >> part) as u8;
        let at = (part + low) as usize;
        assert(at == (i % bits) as usize);
        assert(((byte >> low) & 1u8 == 1u8) == ((word >> at) & 1usize == 1usize)) by (bit_vector)
            requires
                byte == (word >> part) as u8,
                at == part + low,
                low < 8,
                part <= 56,
                part + 8 <= usize::BITS,
        ;
    }
}

/// Copies of all keys.
fn clone_keys(keys: &Vec<String>) -> (copy: Vec<String>)
    ensures
        copy@.len() == keys@.len(),
        forall|i: int| 0 <= i < keys@.len() ==> (#[trigger] copy@[i])@ == keys@[i]@,
{
    let mut copy: Vec<String> = Vec::new();
    let mut at: usize = 0;
    while at < keys.len()
        invariant
            at <= keys@.len(),
            copy@.len() == at,
            forall|i: int| 0 <= i < at ==> (#[trigger] copy@[i])@ == keys@[i]@,
        decreases keys@.len() - at,
    {
        copy.push(keys[at].clone());
        at = at + 1;
    }
    copy
}

impl Default for NodeStore {
    fn default() -> (store: Self)
        ensures
            store.wf(),
            store.nodes() == Seq::<NodeView>::empty(),
            !store.mapped(),
    {
        NodeStore::new()
    }
}

impl NodeStore {
    /// What the store has to hold, where it owns its arrays: a bit, a table and
    /// a key for each node.
    pub closed spec fn needs(&self) -> Seq<Need> {
        match self.backing {
            ArrayBacking::Owned { is_active, table_oids, primary_keys } => seq![
                Need::Bits { count: bit_contents(is_active).len() },
                Need::Items { count: table_oids@.len(), unit: vstd::layout::size_of::<u32>() },
            ] + text_list_needs(primary_keys@),
            ArrayBacking::Mmap { .. } => Seq::empty(),
        }
    }

    /// Adds what the store has allocated. Arrays of an artifact are not the
    /// store's own.
    pub fn push_rooms(&self, rooms: &mut Vec<Room>)
        ensures
            adds(old(rooms)@, final(rooms)@, self.needs()),
    {
        let ghost start = rooms@;
        match &self.backing {
            ArrayBacking::Owned { is_active, table_oids, primary_keys } => {
                rooms.push(Room::Bits { capacity: bits_capacity(is_active) });
                let ghost bits = rooms@;
                push_list(rooms, table_oids);
                let ghost tables = rooms@;
                push_text_list(rooms, primary_keys);
                proof {
                    let a = seq![Need::Bits { count: bit_contents(*is_active).len() }];
                    let b = seq![
                        Need::Items {
                            count: table_oids@.len(),
                            unit: vstd::layout::size_of::<u32>(),
                        },
                    ];
                    let c = text_list_needs(primary_keys@);
                    assert(adds(start, bits, a));
                    lemma_adds(start, bits, tables, a, b);
                    lemma_adds(start, tables, rooms@, a + b, c);
                    assert(a + b + c =~= self.needs());
                }
            },
            ArrayBacking::Mmap { .. } => {
                proof {
                    lemma_adds_nothing(start);
                }
            },
        }
    }

    /// Estimated bytes that the store owns: those of its allocations.
    pub fn estimated_heap_bytes(&self) -> (bytes: usize)
        ensures
            exists|have: Seq<Need>| #[trigger]
                have_room(have, self.needs()) && bytes == total_of(have),
            self.mapped() ==> bytes == 0,
    {
        let mut rooms: Vec<Room> = Vec::new();
        self.push_rooms(&mut rooms);
        proof {
            lemma_adds_room(rooms@, self.needs());
        }
        total_bytes(&rooms)
    }
}

} // verus!
