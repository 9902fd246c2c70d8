//! The remaining small sections of a directly built artifact: resolution, edge
//! type registry, relationship identities and tenants.
use vstd::prelude::*;
use vstd::slice::slice_subrange;
use vstd::utf8::{encode_utf8, valid_utf8};

use crate::codec::{
    be_bytes, be_value, bytes_equal, le_bytes, lemma_lex_total, lemma_lex_transitive,
    lemma_radix_values, lex_less, push_bytes, push_le, read_be, read_le, sorts_before,
};
use crate::errors::{internal, ErrorView, GraphResult};
use crate::filter_column::word;
use crate::parts::{
    end_of, end_table, joined, joined_len, lemma_joined_step, push_end_table, push_joined, views,
};
use crate::run_records::{record_views, run_view, RecordView, RunRecord, StagedRun};
use crate::text::utf8_text;

verus! {

/// The values of records.
pub open spec fn record_values(records: Seq<RecordView>) -> Seq<Seq<u8>> {
    Seq::new(records.len(), |i: int| records[i].value)
}

/// Whether records are those of a resolution index, one for each node.
pub open spec fn resolution_valid(records: Seq<RecordView>, nodes: nat) -> bool {
    &&& records.len() == nodes
    &&& forall|i: int|
        0 <= i < nodes ==> (#[trigger] records[i]).key.len() == 16 && records[i].value.len() == 16
}

/// The resolution section: a count, then the records' values.
pub open spec fn resolution_bytes(records: Seq<RecordView>) -> Seq<u8> {
    le_bytes(records.len(), 4) + joined(record_values(records))
}

/// Writes the resolution section.
pub fn emit_resolution(run: Option<&StagedRun>, node_count: u32) -> (result: GraphResult<Vec<u8>>)
    ensures
        match result {
            Ok(bytes) => resolution_valid(run_view(run), node_count as nat) && bytes@
                == resolution_bytes(run_view(run)),
            Err(error) => !resolution_valid(run_view(run), node_count as nat) && error@ is Internal,
        },
{
    let mut bytes: Vec<u8> = Vec::new();
    push_le(&mut bytes, node_count as u128, 4);
    let ghost head = bytes@;
    let staged: &StagedRun = match run {
        Some(staged) => staged,
        None => {
            if node_count != 0 {
                return Err(internal("resolution run must contain one record per node"));
            }
            assert(bytes@ =~= resolution_bytes(Seq::empty()));
            return Ok(bytes);
        },
    };
    let records: &Vec<RunRecord> = staged.records();
    if records.len() as u64 != node_count as u64 {
        return Err(internal("resolution run must contain one record per node"));
    }
    let ghost values = record_values(staged@);
    let mut at: usize = 0;
    proof {
        assert(head + joined(values.take(0)) =~= head);
    }
    while at < records.len()
        invariant
            at <= records@.len() == node_count,
            run_view(run) == staged@,
            record_views(records@) == staged@,
            values == record_values(staged@),
            bytes@ == head + joined(values.take(at as int)),
            forall|i: int|
                0 <= i < at ==> (#[trigger] staged@[i]).key.len() == 16 && staged@[i].value.len()
                    == 16,
        decreases records@.len() - at,
    {
        assert(staged@[at as int] == records@[at as int]@);
        if records[at].key.len() != 16 || records[at].value.len() != 16 {
            return Err(internal("invalid resolution record shape"));
        }
        push_bytes(&mut bytes, records[at].value.as_slice());
        proof {
            lemma_joined_step(values, at as int);
            assert(bytes@ =~= head + joined(values.take(at + 1)));
        }
        at = at + 1;
    }
    proof {
        assert(values.take(at as int) =~= values);
        assert(bytes@ =~= resolution_bytes(staged@));
    }
    Ok(bytes)
}

/// The bytes of labels.
pub open spec fn label_bytes(labels: Seq<String>) -> Seq<Seq<u8>> {
    Seq::new(labels.len(), |i: int| encode_utf8(labels[i]@))
}

/// A counted list of byte strings: count, table of ends, then the strings.
pub open spec fn counted_list(parts: Seq<Seq<u8>>) -> Seq<u8> {
    le_bytes(parts.len(), 4) + end_table(parts, parts.len() + 1) + joined(parts)
}

/// Appends a counted list.
fn push_counted(out: &mut Vec<u8>, parts: &Vec<&[u8]>) -> (done: bool)
    ensures
        done == (joined(views(parts@)).len() <= u64::MAX),
        done ==> final(out)@ == old(out)@ + counted_list(views(parts@)),
{
    if joined_len(parts).is_none() {
        return false;
    }
    let ghost start = out@;
    push_le(out, parts.len() as u128, 4);
    push_end_table(out, parts);
    push_joined(out, parts);
    proof {
        assert(out@ =~= start + counted_list(views(parts@)));
    }
    true
}

/// Writes the edge type registry.
pub fn emit_registry(registry: &Vec<String>) -> (result: GraphResult<Vec<u8>>)
    ensures
        match result {
            Ok(bytes) => joined(label_bytes(registry@)).len() <= u64::MAX && bytes@
                == counted_list(label_bytes(registry@)),
            Err(error) => joined(label_bytes(registry@)).len() > u64::MAX && error@
                == ErrorView::Internal("edge registry bytes exceed u64"@),
        },
{
    let mut labels: Vec<&[u8]> = Vec::new();
    let mut at: usize = 0;
    while at < registry.len()
        invariant
            at <= registry@.len(),
            labels@.len() == at,
            forall|i: int| 0 <= i < at ==> (#[trigger] labels@[i])@ == encode_utf8(registry@[i]@),
        decreases registry@.len() - at,
    {
        labels.push(registry[at].as_str().as_bytes());
        at = at + 1;
    }
    assert(views(labels@) =~= label_bytes(registry@));
    let mut bytes: Vec<u8> = Vec::new();
    if push_counted(&mut bytes, &labels) {
        assert(bytes@ =~= counted_list(label_bytes(registry@)));
        Ok(bytes)
    } else {
        Err(internal("edge registry bytes exceed u64"))
    }
}

/// The mapping of an identity record.
pub open spec fn identity_mapping(record: RecordView) -> u64 {
    word(record.value, 0, 8) as u64
}

/// The source key bytes of an identity record.
pub open spec fn identity_key(record: RecordView) -> Seq<u8> {
    record.value.subrange(12, record.value.len() as int)
}

/// Whether a record is that of a relationship identity: its number big-endian
/// as key; mapping, key length and UTF-8 key as value.
pub open spec fn identity_valid(record: RecordView, id: int) -> bool {
    &&& record.key.len() == 4
    &&& record.value.len() >= 12
    &&& be_value(record.key) == id
    &&& id != 0
    &&& identity_mapping(record) != 0
    &&& record.value.len() == 12 + word(record.value, 8, 4)
    &&& valid_utf8(identity_key(record))
}

/// Whether records are those of relationship identities, numbered from one.
pub open spec fn identities_valid(records: Seq<RecordView>) -> bool {
    &&& records.len() < u32::MAX
    &&& forall|i: int| 0 <= i < records.len() ==> identity_valid(#[trigger] records[i], i + 1)
}

/// The keys of identity records.
pub open spec fn identity_keys(records: Seq<RecordView>) -> Seq<Seq<u8>> {
    Seq::new(records.len(), |i: int| identity_key(records[i]))
}

/// The record of a relationship identity.
pub open spec fn identity_record(id: nat, mapping: nat, key: Seq<u8>) -> RecordView {
    RecordView {
        key: be_bytes(id, 4),
        value: le_bytes(mapping, 8) + le_bytes(key.len(), 4) + key,
    }
}

/// Reading an identity record gives back the identity.
pub proof fn law_identity_record_reads_back(id: u32, mapping: u64, key: Seq<u8>)
    requires
        id != 0,
        mapping != 0,
        key.len() <= u32::MAX,
        valid_utf8(key),
    ensures
        identity_valid(identity_record(id as nat, mapping as nat, key), id as int),
        identity_mapping(identity_record(id as nat, mapping as nat, key)) == mapping,
        identity_key(identity_record(id as nat, mapping as nat, key)) == key,
{
    let record = identity_record(id as nat, mapping as nat, key);
    lemma_radix_values();
    crate::codec::lemma_be_len(id as nat, 4);
    crate::codec::lemma_le_len(mapping as nat, 8);
    crate::codec::lemma_le_len(key.len(), 4);
    crate::codec::law_be_read_gives_back_write(id as nat, 4);
    crate::codec::law_le_read_gives_back_write(mapping as nat, 8);
    crate::codec::law_le_read_gives_back_write(key.len(), 4);
    assert(record.value.subrange(0, 8) =~= le_bytes(mapping as nat, 8));
    assert(record.value.subrange(8, 12) =~= le_bytes(key.len(), 4));
    assert(identity_key(record) =~= key);
}

/// Builds the record of a relationship identity.
pub fn encode_identity(id: u32, mapping: u64, key: &str) -> (result: GraphResult<RunRecord>)
    ensures
        match result {
            Ok(record) => encode_utf8(key@).len() <= u32::MAX && record@ == identity_record(
                id as nat,
                mapping as nat,
                encode_utf8(key@),
            ),
            Err(error) => encode_utf8(key@).len() > u32::MAX && error@ == ErrorView::Internal(
                "relationship key exceeds u32"@,
            ),
        },
{
    let bytes: &[u8] = key.as_bytes();
    if bytes.len() > u32::MAX as usize {
        return Err(internal("relationship key exceeds u32"));
    }
    let mut order: Vec<u8> = Vec::new();
    crate::codec::push_be(&mut order, id as u128, 4);
    let mut value: Vec<u8> = Vec::new();
    push_le(&mut value, mapping as u128, 8);
    push_le(&mut value, bytes.len() as u128, 4);
    push_bytes(&mut value, bytes);
    proof {
        assert(order@ =~= be_bytes(id as nat, 4));
        assert(value@ =~= identity_record(id as nat, mapping as nat, bytes@).value);
    }
    Ok(RunRecord::new(order, value))
}

/// The relationship identities of a run.
pub struct IdentityRows<'a> {
    pub mappings: Vec<u64>,
    pub keys: Vec<&'a [u8]>,
}

/// Reads an identity record.
pub fn decode_identity(record: &RunRecord) -> (result: GraphResult<(u32, u64, &[u8])>)
    ensures
        match result {
            Ok((id, mapping, key)) => identity_valid(record@, id as int) && mapping
                == identity_mapping(record@) && key@ == identity_key(record@),
            Err(error) => error@ is Internal && forall|id: int| !identity_valid(record@, id),
        },
{
    if record.key.len() != 4 || record.value.len() < 12 {
        return Err(internal("invalid identity record shape"));
    }
    proof {
        lemma_radix_values();
        assert(record.key@.subrange(0, 4) =~= record.key@);
    }
    let value: &[u8] = record.value.as_slice();
    let id: u32 = read_be(record.key.as_slice(), 0, 4) as u32;
    let mapping: u64 = read_le(value, 0, 8) as u64;
    let length: u64 = read_le(value, 8, 4) as u64;
    if id == 0 || mapping == 0 || value.len() as u64 != 12 + length {
        return Err(internal("invalid relationship identity"));
    }
    let key: &[u8] = slice_subrange(value, 12, value.len());
    if utf8_text(key).is_none() {
        return Err(internal("relationship identity key is not UTF-8"));
    }
    Ok((id, mapping, key))
}

/// Reads the relationship identities of a run.
pub fn replay_identities<'a>(run: Option<&'a StagedRun>) -> (result: GraphResult<IdentityRows<'a>>)
    ensures
        result is Ok <==> identities_valid(run_view(run)),
        result matches Ok(rows) ==> {
            &&& rows.mappings@.len() == rows.keys@.len() == run_view(run).len()
            &&& views(rows.keys@) == identity_keys(run_view(run))
            &&& forall|i: int|
                0 <= i < rows.mappings@.len() ==> #[trigger] rows.mappings@[i] == identity_mapping(
                    run_view(run)[i],
                )
        },
        result matches Err(error) ==> error@ is Internal,
{
    let mut mappings: Vec<u64> = Vec::new();
    let mut keys: Vec<&'a [u8]> = Vec::new();
    let staged: &'a StagedRun = match run {
        Some(staged) => staged,
        None => {
            assert(views(keys@) =~= identity_keys(Seq::empty()));
            return Ok(IdentityRows { mappings, keys });
        },
    };
    let records: &'a Vec<RunRecord> = staged.records();
    let mut expected: u32 = 1;
    let mut at: usize = 0;
    while at < records.len()
        invariant
            at <= records@.len(),
            expected == at + 1,
            run_view(run) == staged@,
            record_views(records@) == staged@,
            mappings@.len() == keys@.len() == at,
            forall|i: int| 0 <= i < at ==> identity_valid(#[trigger] staged@[i], i + 1),
            forall|i: int| 0 <= i < at ==> #[trigger] mappings@[i] == identity_mapping(staged@[i]),
            forall|i: int| 0 <= i < at ==> (#[trigger] keys@[i])@ == identity_key(staged@[i]),
        decreases records@.len() - at,
    {
        assert(staged@[at as int] == records@[at as int]@);
        match decode_identity(&records[at]) {
            Ok((id, mapping, key)) => {
                if id != expected {
                    assert(!identity_valid(staged@[at as int], at + 1));
                    return Err(internal("relationship identities are not densely ordered"));
                }
                if expected == u32::MAX {
                    return Err(internal("relationship identity count overflowed"));
                }
                mappings.push(mapping);
                keys.push(key);
                expected = expected + 1;
            },
            Err(error) => {
                assert(!identity_valid(staged@[at as int], at + 1));
                return Err(error);
            },
        }
        at = at + 1;
    }
    assert(views(keys@) =~= identity_keys(staged@));
    Ok(IdentityRows { mappings, keys })
}

/// One descriptor per identity: its mapping, and where its key ends.
pub open spec fn identity_parts(records: Seq<RecordView>) -> Seq<Seq<u8>> {
    Seq::new(
        records.len(),
        |i: int|
            le_bytes(identity_mapping(records[i]) as nat, 8) + le_bytes(
                end_of(identity_keys(records), i + 1),
                8,
            ),
    )
}

/// The identity descriptors: sixteen zero bytes for no identity, then one each.
pub open spec fn identity_descriptors(records: Seq<RecordView>) -> Seq<u8> {
    Seq::new(16, |i: int| 0u8) + joined(identity_parts(records))
}

/// Writes the identity descriptors.
pub(crate) fn emit_identity_descriptors(
    rows: &IdentityRows<'_>,
    Ghost(records): Ghost<Seq<RecordView>>,
) -> (result: GraphResult<Vec<u8>>)
    requires
        rows.mappings@.len() == rows.keys@.len() == records.len(),
        views(rows.keys@) == identity_keys(records),
        forall|i: int|
            0 <= i < rows.mappings@.len() ==> #[trigger] rows.mappings@[i] == identity_mapping(
                records[i],
            ),
    ensures
        match result {
            Ok(bytes) => joined(identity_keys(records)).len() <= u64::MAX && bytes@
                == identity_descriptors(records),
            Err(error) => joined(identity_keys(records)).len() > u64::MAX && error@
                == ErrorView::Internal("identity key bytes exceed u64"@),
        },
{
    let mut bytes: Vec<u8> = Vec::new();
    push_le(&mut bytes, 0, 16);
    let ghost head = bytes@;
    proof {
        lemma_zero_bytes(16);
        assert(head =~= Seq::new(16, |i: int| 0u8));
    }
    let ghost keys = identity_keys(records);
    let ghost parts = identity_parts(records);
    let mut end: u64 = 0;
    let mut at: usize = 0;
    proof {
        assert(keys.take(0).len() == 0);
        assert(head + joined(parts.take(0)) =~= head);
    }
    while at < rows.keys.len()
        invariant
            at <= rows.keys@.len() == rows.mappings@.len() == records.len(),
            keys == identity_keys(records),
            parts == identity_parts(records),
            views(rows.keys@) == keys,
            forall|i: int|
                0 <= i < rows.mappings@.len() ==> #[trigger] rows.mappings@[i] == identity_mapping(
                    records[i],
                ),
            end == end_of(keys, at as int),
            bytes@ == head + joined(parts.take(at as int)),
        decreases rows.keys@.len() - at,
    {
        proof {
            lemma_joined_step(keys, at as int);
            lemma_joined_step(parts, at as int);
            crate::parts::lemma_ends_grow(keys, at + 1, keys.len() as int);
            assert(keys.take(keys.len() as int) =~= keys);
            assert(rows.keys@[at as int]@ == views(rows.keys@)[at as int]);
        }
        end = match end.checked_add(rows.keys[at].len() as u64) {
            Some(end) => end,
            None => return Err(internal("identity key bytes exceed u64")),
        };
        push_le(&mut bytes, rows.mappings[at] as u128, 8);
        push_le(&mut bytes, end as u128, 8);
        proof {
            assert(bytes@ =~= head + joined(parts.take(at + 1)));
        }
        at = at + 1;
    }
    proof {
        assert(parts.take(at as int) =~= parts);
        assert(keys.take(at as int) =~= keys);
    }
    Ok(bytes)
}

proof fn lemma_zero_bytes(width: nat)
    ensures
        le_bytes(0, width) == Seq::new(width, |i: int| 0u8),
    decreases width,
{
    if width > 0 {
        lemma_zero_bytes((width - 1) as nat);
    }
    assert(le_bytes(0, width) =~= Seq::new(width, |i: int| 0u8));
}

/// Writes the identity keys.
pub fn emit_identity_keys(rows: &IdentityRows<'_>) -> (bytes: Vec<u8>)
    ensures
        bytes@ == joined(views(rows.keys@)),
{
    let mut bytes: Vec<u8> = Vec::new();
    push_joined(&mut bytes, &rows.keys);
    assert(bytes@ =~= joined(views(rows.keys@)));
    bytes
}

/// Whether table identifiers are strictly increasing.
pub open spec fn strictly_sorted(list: Seq<u32>) -> bool {
    forall|i: int, j: int| 0 <= i < j < list.len() ==> list[i] < list[j]
}

/// One four-byte number each.
pub open spec fn word_parts(list: Seq<u32>) -> Seq<Seq<u8>> {
    Seq::new(list.len(), |i: int| le_bytes(list[i] as nat, 4))
}

/// Writes the tenanted tables, which must be strictly sorted.
pub fn emit_tenanted_oids(oids: &Vec<u32>) -> (result: GraphResult<Vec<u8>>)
    ensures
        match result {
            Ok(bytes) => strictly_sorted(oids@) && bytes@ == joined(word_parts(oids@)),
            Err(error) => !strictly_sorted(oids@) && error@ == ErrorView::Internal(
                "tenanted table OIDs are not strictly sorted"@,
            ),
        },
{
    let mut bytes: Vec<u8> = Vec::new();
    let ghost parts = word_parts(oids@);
    let mut at: usize = 0;
    proof {
        assert(joined(parts.take(0)) =~= Seq::<u8>::empty());
    }
    while at < oids.len()
        invariant
            at <= oids@.len(),
            parts == word_parts(oids@),
            bytes@ == joined(parts.take(at as int)),
            forall|i: int, j: int| 0 <= i < j < at ==> oids@[i] < oids@[j],
        decreases oids@.len() - at,
    {
        if at > 0 && oids[at - 1] >= oids[at] {
            assert(oids@[at - 1] >= oids@[at as int]);
            return Err(internal("tenanted table OIDs are not strictly sorted"));
        }
        push_le(&mut bytes, oids[at] as u128, 4);
        proof {
            lemma_joined_step(parts, at as int);
            assert forall|i: int, j: int| 0 <= i < j < at + 1 implies oids@[i] < oids@[j] by {
                if j == at && i < at - 1 {
                    assert(oids@[i] < oids@[at - 1]);
                }
            }
        }
        at = at + 1;
    }
    assert(parts.take(at as int) =~= parts);
    Ok(bytes)
}

/// Byte strings without those that equal the one before.
pub open spec fn without_repeats(list: Seq<Seq<u8>>) -> Seq<Seq<u8>>
    decreases list.len(),
{
    if list.len() == 0 {
        Seq::empty()
    } else {
        let rest = without_repeats(list.drop_last());
        if list.len() > 1 && list[list.len() - 2] == list.last() {
            rest
        } else {
            rest.push(list.last())
        }
    }
}

/// Whether no byte string sorts before an earlier one.
pub open spec fn lex_sorted(list: Seq<Seq<u8>>) -> bool {
    forall|i: int, j: int|
        0 <= i < j < list.len() ==> !lex_less(#[trigger] list[j], #[trigger] list[i])
}

/// Whether records are those of a tenant dictionary: sorted UTF-8 values.
pub open spec fn tenants_valid(records: Seq<RecordView>) -> bool {
    let values = record_values(records);
    &&& lex_sorted(values)
    &&& forall|i: int| 0 <= i < values.len() ==> valid_utf8(#[trigger] values[i])
    &&& without_repeats(values).len() <= u32::MAX
}

/// Reads the distinct tenants of a run.
pub fn inspect_tenant_dictionary<'a>(run: Option<&'a StagedRun>) -> (result: GraphResult<
    Vec<&'a [u8]>,
>)
    ensures
        match result {
            Ok(tenants) => tenants_valid(run_view(run)) && views(tenants@) == without_repeats(
                record_values(run_view(run)),
            ),
            Err(error) => !tenants_valid(run_view(run)) && error@ is Internal,
        },
{
    let mut tenants: Vec<&'a [u8]> = Vec::new();
    let staged: &'a StagedRun = match run {
        Some(staged) => staged,
        None => {
            assert(record_values(Seq::empty()) =~= Seq::<Seq<u8>>::empty());
            assert(views(tenants@) =~= Seq::<Seq<u8>>::empty());
            return Ok(tenants);
        },
    };
    let records: &'a Vec<RunRecord> = staged.records();
    let ghost values = record_values(staged@);
    let mut at: usize = 0;
    proof {
        assert(values.take(0) =~= Seq::<Seq<u8>>::empty());
        assert(views(tenants@) =~= Seq::<Seq<u8>>::empty());
    }
    while at < records.len()
        invariant
            at <= records@.len() == values.len(),
            run_view(run) == staged@,
            record_views(records@) == staged@,
            values == record_values(staged@),
            views(tenants@) == without_repeats(values.take(at as int)),
            tenants@.len() <= u32::MAX,
            forall|i: int, j: int|
                0 <= i < j < at ==> !lex_less(#[trigger] values[j], #[trigger] values[i]),
            forall|i: int| 0 <= i < at ==> valid_utf8(#[trigger] values[i]),
        decreases records@.len() - at,
    {
        assert(staged@[at as int] == records@[at as int]@);
        let value: &'a [u8] = records[at].value.as_slice();
        assert(value@ == values[at as int]);
        if utf8_text(value).is_none() {
            assert(!valid_utf8(values[at as int]));
            return Err(internal("tenant dictionary is not UTF-8"));
        }
        let ghost taken = values.take(at + 1);
        proof {
            assert(taken.drop_last() =~= values.take(at as int));
        }
        let mut repeated: bool = false;
        if at > 0 {
            assert(staged@[at - 1] == records@[at - 1]@);
            let previous: &'a [u8] = records[at - 1].value.as_slice();
            assert(previous@ == values[at - 1]);
            if sorts_before(value, previous) {
                return Err(internal("tenant dictionary is not lexically sorted"));
            }
            repeated = bytes_equal(previous, value);
            proof {
                assert(taken[taken.len() - 2] == values[at - 1]);
            }
        }
        proof {
            assert forall|i: int, j: int| 0 <= i < j < at + 1 implies !lex_less(
                #[trigger] values[j],
                #[trigger] values[i],
            ) by {
                if j == at && i < at - 1 && lex_less(values[j], values[i]) {
                    lemma_lex_total(values[at - 1], values[at as int]);
                    if lex_less(values[at - 1], values[at as int]) {
                        lemma_lex_transitive(values[at - 1], values[at as int], values[i]);
                    }
                    assert(!lex_less(values[at - 1], values[i]));
                }
            }
        }
        if !repeated {
            if tenants.len() > u32::MAX as usize - 1 {
                proof {
                    lemma_repeats_grow(values, at + 1, values.len() as int);
                    assert(values.take(values.len() as int) =~= values);
                    assert(without_repeats(taken).len() == tenants@.len() + 1);
                }
                return Err(internal("tenant count overflowed"));
            }
            tenants.push(value);
        }
        proof {
            assert(views(tenants@) =~= without_repeats(taken));
        }
        at = at + 1;
    }
    assert(values.take(at as int) =~= values);
    Ok(tenants)
}

proof fn lemma_repeats_grow(list: Seq<Seq<u8>>, small: int, large: int)
    requires
        0 <= small <= large <= list.len(),
    ensures
        without_repeats(list.take(small)).len() <= without_repeats(list.take(large)).len(),
    decreases large - small,
{
    if small < large {
        lemma_repeats_grow(list, small, large - 1);
        assert(list.take(large).drop_last() =~= list.take(large - 1));
    }
}

/// Writes the tenant dictionary.
pub fn emit_tenant_dictionary(tenants: &Vec<&[u8]>) -> (result: GraphResult<Vec<u8>>)
    ensures
        match result {
            Ok(bytes) => joined(views(tenants@)).len() <= u64::MAX && bytes@ == counted_list(
                views(tenants@),
            ),
            Err(error) => joined(views(tenants@)).len() > u64::MAX && error@
                == ErrorView::Internal("tenant offset overflowed"@),
        },
{
    let mut bytes: Vec<u8> = Vec::new();
    if push_counted(&mut bytes, tenants) {
        assert(bytes@ =~= counted_list(views(tenants@)));
        Ok(bytes)
    } else {
        Err(internal("tenant offset overflowed"))
    }
}

/// The node of a tenant token record.
pub open spec fn token_node(record: RecordView) -> nat {
    be_value(record.key)
}

/// The token of a tenant token record.
pub open spec fn token_value(record: RecordView) -> nat {
    word(record.value, 0, 4)
}

/// Whether records are those of tenant tokens, in order of their nodes. No
/// token is zero.
pub open spec fn tenant_tokens_valid(records: Seq<RecordView>, nodes: nat) -> bool {
    &&& forall|i: int|
        0 <= i < records.len() ==> {
            &&& (#[trigger] records[i]).key.len() == 4
            &&& records[i].value.len() == 4
            &&& token_node(records[i]) < nodes
            &&& token_value(records[i]) != 0
        }
    &&& forall|i: int, j: int|
        0 <= i < j < records.len() ==> token_node(#[trigger] records[i]) < token_node(
            #[trigger] records[j],
        )
}

/// Whether a record is that of a node.
pub open spec fn token_at(records: Seq<RecordView>, at: int, node: int) -> bool {
    0 <= at < records.len() && token_node(records[at]) == node
}

/// The token of a node; zero if it has none.
pub open spec fn node_token(records: Seq<RecordView>, node: int) -> nat {
    if exists|at: int| token_at(records, at, node) {
        token_value(records[choose|at: int| token_at(records, at, node)])
    } else {
        0
    }
}

/// One four-byte token per node.
pub open spec fn token_parts(records: Seq<RecordView>, nodes: nat) -> Seq<Seq<u8>> {
    Seq::new(nodes, |node: int| le_bytes(node_token(records, node), 4))
}

/// Reads a tenant token record.
fn decode_token(record: &RunRecord) -> (result: Option<(u32, u32)>)
    ensures
        match result {
            Some((node, token)) => record.key@.len() == 4 && record.value@.len() == 4 && node
                == token_node(record@) && token == token_value(record@),
            None => record.key@.len() != 4 || record.value@.len() != 4,
        },
{
    if record.key.len() != 4 || record.value.len() != 4 {
        return None;
    }
    proof {
        lemma_radix_values();
        assert(record.key@.subrange(0, 4) =~= record.key@);
    }
    Some(
        (
            read_be(record.key.as_slice(), 0, 4) as u32,
            read_le(record.value.as_slice(), 0, 4) as u32,
        ),
    )
}

/// Accepts tenant token records.
fn validate_tokens(records: &Vec<RunRecord>, node_count: u32) -> (result: GraphResult<()>)
    ensures
        result is Ok <==> tenant_tokens_valid(record_views(records@), node_count as nat),
        result matches Err(error) ==> error@ is Internal,
{
    let ghost all = record_views(records@);
    let mut next: u64 = 0;
    let mut at: usize = 0;
    while at < records.len()
        invariant
            at <= records@.len() == all.len(),
            all == record_views(records@),
            next <= u32::MAX + 1,
            at == 0 ==> next == 0,
            at > 0 ==> next == token_node(all[at - 1]) + 1,
            forall|i: int|
                0 <= i < at ==> {
                    &&& (#[trigger] all[i]).key.len() == 4
                    &&& all[i].value.len() == 4
                    &&& token_node(all[i]) < node_count
                    &&& token_value(all[i]) != 0
                },
            forall|i: int, j: int|
                0 <= i < j < at ==> token_node(#[trigger] all[i]) < token_node(#[trigger] all[j]),
        decreases records@.len() - at,
    {
        assert(all[at as int] == records@[at as int]@);
        match decode_token(&records[at]) {
            Some((node, token)) => {
                if (node as u64) < next || node >= node_count || token == 0 {
                    proof {
                        if at > 0 {
                            assert(token_node(all[at - 1]) < node || (node as u64) < next);
                        }
                    }
                    return Err(internal("tenant token records are not sparse-dense ordered"));
                }
                proof {
                    assert forall|i: int, j: int| 0 <= i < j < at + 1 implies token_node(
                        #[trigger] all[i],
                    ) < token_node(#[trigger] all[j]) by {
                        if j == at && i < at - 1 {
                            assert(token_node(all[i]) < token_node(all[at - 1]));
                        }
                    }
                }
                next = node as u64 + 1;
            },
            None => {
                assert(all[at as int].key.len() != 4 || all[at as int].value.len() != 4);
                return Err(internal("invalid tenant token record"));
            },
        }
        at = at + 1;
    }
    Ok(())
}

/// Writes the tenant token of each node.
pub fn emit_tenant_tokens(run: Option<&StagedRun>, node_count: u32) -> (result: GraphResult<
    Vec<u8>,
>)
    ensures
        match result {
            Ok(bytes) => tenant_tokens_valid(run_view(run), node_count as nat) && bytes@ == joined(
                token_parts(run_view(run), node_count as nat),
            ),
            Err(error) => !tenant_tokens_valid(run_view(run), node_count as nat)
                && error@ is Internal,
        },
{
    let mut bytes: Vec<u8> = Vec::new();
    let ghost all = run_view(run);
    let ghost parts = token_parts(all, node_count as nat);
    if let Some(staged) = run {
        if let Err(error) = validate_tokens(staged.records(), node_count) {
            return Err(error);
        }
    }
    let mut node: u32 = 0;
    let mut at: usize = 0;
    proof {
        assert(joined(parts.take(0)) =~= Seq::<u8>::empty());
    }
    while node < node_count
        invariant
            node <= node_count,
            all == run_view(run),
            parts == token_parts(all, node_count as nat),
            tenant_tokens_valid(all, node_count as nat),
            at <= all.len(),
            forall|i: int| 0 <= i < at ==> token_node(#[trigger] all[i]) < node,
            forall|i: int| at <= i < all.len() ==> token_node(#[trigger] all[i]) >= node,
            bytes@ == joined(parts.take(node as int)),
        decreases node_count - node,
    {
        let mut token: u32 = 0;
        let ghost start = at;
        if let Some(staged) = run {
            let records: &Vec<RunRecord> = staged.records();
            if at < records.len() {
                assert(all[at as int] == records@[at as int]@);
                if let Some((found, value)) = decode_token(&records[at]) {
                    if found == node {
                        token = value;
                        at = at + 1;
                    }
                }
            }
        }
        proof {
            if at > start {
                assert(token_at(all, start as int, node as int));
                let chosen = choose|i: int| token_at(all, i, node as int);
                if chosen < start {
                    assert(token_node(all[chosen]) < node);
                }
                if chosen > start {
                    assert(token_node(all[start as int]) < token_node(all[chosen]));
                }
            } else {
                assert forall|i: int| !token_at(all, i, node as int) by {
                    if token_at(all, i, node as int) {
                        if i > start {
                            assert(token_node(all[start as int]) < token_node(all[i]));
                        }
                    }
                }
            }
            assert(token == node_token(all, node as int));
            assert forall|i: int| at <= i < all.len() implies token_node(#[trigger] all[i]) >= node
                + 1 by {
                if at > start {
                    assert(token_node(all[start as int]) < token_node(all[i]));
                } else {
                    assert(!token_at(all, i, node as int));
                }
            }
            lemma_joined_step(parts, node as int);
        }
        push_le(&mut bytes, token as u128, 4);
        node = node + 1;
    }
    assert(parts.take(node as int) =~= parts);
    Ok(bytes)
}

} // verus!
