//! Records of a staged run: key and value bytes, in order of their keys.
use vstd::prelude::*;

use crate::codec::{
    bytes_equal, lemma_lex_irreflexive, lemma_lex_total, lemma_lex_transitive, lex_less,
    sorts_before,
};
use crate::errors::{internal, ErrorView, GraphResult};

verus! {

/// One record of a run.
#[derive(Debug, PartialEq, Eq, PartialOrd, Ord)]
pub struct RunRecord {
    /// Bytes that order the record.
    pub key: Vec<u8>,
    /// Bytes that the record holds.
    pub value: Vec<u8>,
}

/// A record's bytes.
#[verifier::ext_equal]
pub struct RecordView {
    pub key: Seq<u8>,
    pub value: Seq<u8>,
}

impl View for RunRecord {
    type V = RecordView;

    open spec fn view(&self) -> RecordView {
        RecordView { key: self.key@, value: self.value@ }
    }
}

impl RunRecord {
    /// A record.
    pub fn new(key: Vec<u8>, value: Vec<u8>) -> (record: Self)
        ensures
            record@ == (RecordView { key: key@, value: value@ }),
    {
        RunRecord { key, value }
    }
}

/// The bytes of records.
pub open spec fn record_views(records: Seq<RunRecord>) -> Seq<RecordView> {
    Seq::new(records.len(), |i: int| records[i]@)
}

/// Whether no record's key sorts before that of an earlier one.
pub open spec fn keys_ordered(records: Seq<RecordView>) -> bool {
    forall|i: int, j: int|
        0 <= i < j < records.len() ==> !lex_less(
            (#[trigger] records[j]).key,
            (#[trigger] records[i]).key,
        )
}

/// A run of records in order of their keys.
#[derive(Debug)]
pub struct StagedRun {
    records: Vec<RunRecord>,
}

impl View for StagedRun {
    type V = Seq<RecordView>;

    closed spec fn view(&self) -> Seq<RecordView> {
        record_views(self.records@)
    }
}

impl StagedRun {
    /// The records are in order.
    #[verifier::type_invariant]
    spec fn ordered(&self) -> bool {
        keys_ordered(record_views(self.records@))
    }

    /// Takes over records that are in order of their keys.
    pub fn from_sorted(records: Vec<RunRecord>) -> (result: GraphResult<Self>)
        ensures
            match result {
                Ok(run) => keys_ordered(record_views(records@)) && run@ == record_views(records@),
                Err(error) => !keys_ordered(record_views(records@)) && error@
                    == ErrorView::Internal("run records are not in order of their keys"@),
            },
    {
        let ghost all = record_views(records@);
        let mut at: usize = 1;
        while at < records.len()
            invariant
                1 <= at,
                at <= records@.len() || records@.len() == 0,
                all == record_views(records@),
                forall|i: int, j: int|
                    0 <= i < j < at && j < records@.len() ==> !lex_less(
                        (#[trigger] all[j]).key,
                        (#[trigger] all[i]).key,
                    ),
            decreases records@.len() - at,
        {
            if sorts_before(records[at].key.as_slice(), records[at - 1].key.as_slice()) {
                assert(lex_less(all[at as int].key, all[at - 1].key));
                return Err(internal("run records are not in order of their keys"));
            }
            proof {
                assert forall|i: int, j: int| 0 <= i < j < at + 1 && j < records@.len() implies
                    !lex_less((#[trigger] all[j]).key, (#[trigger] all[i]).key) by {
                    if j == at && i < at - 1 && lex_less(all[j].key, all[i].key) {
                        lemma_lex_total(all[at - 1].key, all[at as int].key);
                        if lex_less(all[at - 1].key, all[at as int].key) {
                            lemma_lex_transitive(all[at - 1].key, all[at as int].key, all[i].key);
                        }
                        assert(!lex_less(all[at - 1].key, all[i].key));
                    }
                }
            }
            at = at + 1;
        }
        Ok(StagedRun { records })
    }

    /// The records.
    pub fn records(&self) -> (records: &Vec<RunRecord>)
        ensures
            record_views(records@) == self@,
            keys_ordered(self@),
    {
        proof {
            use_type_invariant(self);
        }
        &self.records
    }

    /// Number of records.
    pub fn record_count(&self) -> (count: u64)
        ensures
            count == self@.len(),
    {
        self.records.len() as u64
    }
}

/// The records of a run that may be absent.
pub open spec fn run_view(run: Option<&StagedRun>) -> Seq<RecordView> {
    match run {
        Some(run) => run@,
        None => Seq::empty(),
    }
}

/// The number of records of a run that may be absent.
pub fn run_len(run: Option<&StagedRun>) -> (count: u64)
    ensures
        count == run_view(run).len(),
{
    match run {
        Some(run) => run.record_count(),
        None => 0,
    }
}

/// Order of records: by key, then by value.
pub open spec fn record_less(left: RecordView, right: RecordView) -> bool {
    lex_less(left.key, right.key) || (left.key == right.key && lex_less(left.value, right.value))
}

/// Whether no record comes before an earlier one.
pub open spec fn records_ordered(records: Seq<RecordView>) -> bool {
    forall|i: int, j: int|
        0 <= i < j < records.len() ==> !record_less(#[trigger] records[j], #[trigger] records[i])
}

/// Whether records are those of a list, in order.
pub open spec fn sorted_copy(records: Seq<RecordView>, list: Seq<RecordView>) -> bool {
    records_ordered(records) && records.to_multiset() == list.to_multiset()
}

/// The order of records is total and transitive.
pub proof fn lemma_record_order(a: RecordView, b: RecordView, c: RecordView)
    ensures
        record_less(a, b) || a == b || record_less(b, a),
        record_less(a, b) && record_less(b, c) ==> record_less(a, c),
        !record_less(b, a) && !record_less(c, b) ==> !record_less(c, a),
        !(record_less(a, b) && record_less(b, a)),
{
    lemma_lex_total(a.key, b.key);
    lemma_lex_total(a.value, b.value);
    lemma_lex_total(b.key, c.key);
    lemma_lex_total(b.value, c.value);
    lemma_lex_total(a.key, c.key);
    lemma_lex_total(a.value, c.value);
    lemma_lex_irreflexive(a.key);
    lemma_lex_irreflexive(a.value);
    lemma_lex_irreflexive(b.key);
    lemma_lex_irreflexive(b.value);
    lemma_lex_irreflexive(c.key);
    lemma_lex_irreflexive(c.value);
    lemma_lex_cycle(a.key, b.key, c.key);
    lemma_lex_cycle(a.value, b.value, c.value);
    lemma_lex_pair(a.key, b.key);
    lemma_lex_pair(a.value, b.value);
    lemma_lex_pair(b.key, c.key);
    lemma_lex_pair(b.value, c.value);
    lemma_lex_pair(a.key, c.key);
    lemma_lex_pair(a.value, c.value);
}

proof fn lemma_lex_pair(a: Seq<u8>, b: Seq<u8>)
    ensures
        !(lex_less(a, b) && lex_less(b, a)),
{
    lemma_lex_irreflexive(a);
    if lex_less(a, b) && lex_less(b, a) {
        lemma_lex_transitive(a, b, a);
    }
}

proof fn lemma_lex_cycle(a: Seq<u8>, b: Seq<u8>, c: Seq<u8>)
    ensures
        lex_less(a, b) && lex_less(b, c) ==> lex_less(a, c),
        lex_less(c, b) && lex_less(b, a) ==> lex_less(c, a),
        lex_less(c, a) && lex_less(a, b) ==> lex_less(c, b),
        lex_less(b, a) && lex_less(a, c) ==> lex_less(b, c),
{
    if lex_less(a, b) && lex_less(b, c) {
        lemma_lex_transitive(a, b, c);
    }
    if lex_less(c, b) && lex_less(b, a) {
        lemma_lex_transitive(c, b, a);
    }
    if lex_less(c, a) && lex_less(a, b) {
        lemma_lex_transitive(c, a, b);
    }
    if lex_less(b, a) && lex_less(a, c) {
        lemma_lex_transitive(b, a, c);
    }
}

/// Whether a record comes before another.
fn comes_before(left: &RunRecord, right: &RunRecord) -> (less: bool)
    ensures
        less == record_less(left@, right@),
{
    if sorts_before(left.key.as_slice(), right.key.as_slice()) {
        return true;
    }
    bytes_equal(left.key.as_slice(), right.key.as_slice()) && sorts_before(
        left.value.as_slice(),
        right.value.as_slice(),
    )
}

/// Whether no record comes before a later one.
spec fn records_falling(records: Seq<RecordView>) -> bool {
    forall|i: int, j: int|
        0 <= i < j < records.len() ==> !record_less(#[trigger] records[i], #[trigger] records[j])
}

/// Taking the last record off takes it out of the multiset.
proof fn lemma_last_off(records: Seq<RecordView>)
    requires
        records.len() > 0,
    ensures
        records.to_multiset() == records.drop_last().to_multiset().insert(records.last()),
{
    broadcast use vstd::seq_lib::group_to_multiset_ensures;

    assert(records =~= records.drop_last().push(records.last()));
    assert(records.drop_last().push(records.last()).to_multiset()
        =~= records.drop_last().to_multiset().insert(records.last()));
}

/// A pushed record joins the multiset.
proof fn lemma_push_on(records: Seq<RecordView>, record: RecordView)
    ensures
        records.push(record).to_multiset() == records.to_multiset().insert(record),
{
    broadcast use vstd::seq_lib::group_to_multiset_ensures;

    assert(records.push(record).to_multiset() =~= records.to_multiset().insert(record));
}

proof fn lemma_views_push(records: Seq<RunRecord>, record: RunRecord)
    ensures
        record_views(records.push(record)) == record_views(records).push(record@),
{
    assert(record_views(records.push(record)) =~= record_views(records).push(record@));
}

/// Merges two ordered lists into one that falls.
fn merge_falling(left: Vec<RunRecord>, right: Vec<RunRecord>) -> (merged: Vec<RunRecord>)
    requires
        records_ordered(record_views(left@)),
        records_ordered(record_views(right@)),
    ensures
        records_falling(record_views(merged@)),
        record_views(merged@).to_multiset() == record_views(left@).to_multiset().add(
            record_views(right@).to_multiset(),
        ),
        merged@.len() == left@.len() + right@.len(),
{
    broadcast use {vstd::multiset::group_multiset_axioms, vstd::seq_lib::group_to_multiset_ensures};

    let ghost all = record_views(left@).to_multiset().add(record_views(right@).to_multiset());
    let ghost total = left@.len() + right@.len();
    let mut left: Vec<RunRecord> = left;
    let mut right: Vec<RunRecord> = right;
    let mut merged: Vec<RunRecord> = Vec::new();
    proof {
        assert(record_views(merged@) =~= Seq::<RecordView>::empty());
        assert(all =~= record_views(left@).to_multiset().add(
            record_views(right@).to_multiset(),
        ).add(record_views(merged@).to_multiset()));
    }
    while left.len() > 0 || right.len() > 0
        invariant
            records_ordered(record_views(left@)),
            records_ordered(record_views(right@)),
            records_falling(record_views(merged@)),
            total == left@.len() + right@.len() + merged@.len(),
            all == record_views(left@).to_multiset().add(record_views(right@).to_multiset()).add(
                record_views(merged@).to_multiset(),
            ),
            forall|i: int, k: int|
                0 <= i < left@.len() && 0 <= k < merged@.len() ==> !record_less(
                    #[trigger] record_views(merged@)[k],
                    #[trigger] record_views(left@)[i],
                ),
            forall|i: int, k: int|
                0 <= i < right@.len() && 0 <= k < merged@.len() ==> !record_less(
                    #[trigger] record_views(merged@)[k],
                    #[trigger] record_views(right@)[i],
                ),
        decreases left@.len() + right@.len(),
    {
        let take_left: bool = if left.len() == 0 {
            false
        } else if right.len() == 0 {
            true
        } else {
            comes_before(&right[right.len() - 1], &left[left.len() - 1])
        };
        let ghost l = record_views(left@);
        let ghost r = record_views(right@);
        let ghost m = record_views(merged@);
        if take_left {
            let record: RunRecord = match left.pop() {
                Some(record) => record,
                None => return merged,
            };
            proof {
                assert(record_views(left@) =~= l.drop_last());
                assert(l =~= l.drop_last().push(record@));
                lemma_views_push(merged@, record);
                lemma_last_off(l);
                lemma_push_on(m, record@);
                if right@.len() > 0 {
                    lemma_record_order(l.last(), r.last(), l.last());
                }
                lemma_moved(l, r, m, record@);
            }
            merged.push(record);
        } else {
            let record: RunRecord = match right.pop() {
                Some(record) => record,
                None => return merged,
            };
            proof {
                assert(record_views(right@) =~= r.drop_last());
                assert(r =~= r.drop_last().push(record@));
                lemma_views_push(merged@, record);
                lemma_last_off(r);
                lemma_push_on(m, record@);
                lemma_moved(r, l, m, record@);
            }
            merged.push(record);
        }
        proof {
            assert(all =~= record_views(left@).to_multiset().add(
                record_views(right@).to_multiset(),
            ).add(record_views(merged@).to_multiset()));
        }
    }
    proof {
        assert(record_views(left@) =~= Seq::<RecordView>::empty());
        assert(record_views(right@) =~= Seq::<RecordView>::empty());
        assert(all =~= record_views(merged@).to_multiset());
    }
    merged
}

/// The greatest record of two lists moves to a falling list.
proof fn lemma_moved(
    from: Seq<RecordView>,
    other: Seq<RecordView>,
    merged: Seq<RecordView>,
    record: RecordView,
)
    requires
        from.len() > 0,
        record == from.last(),
        records_ordered(from),
        records_ordered(other),
        records_falling(merged),
        other.len() > 0 ==> !record_less(record, other.last()),
        forall|i: int, k: int|
            0 <= i < from.len() && 0 <= k < merged.len() ==> !record_less(
                #[trigger] merged[k],
                #[trigger] from[i],
            ),
        forall|i: int, k: int|
            0 <= i < other.len() && 0 <= k < merged.len() ==> !record_less(
                #[trigger] merged[k],
                #[trigger] other[i],
            ),
    ensures
        records_ordered(from.drop_last()),
        records_falling(merged.push(record)),
        forall|i: int, k: int|
            0 <= i < from.len() - 1 && 0 <= k < merged.len() + 1 ==> !record_less(
                #[trigger] merged.push(record)[k],
                #[trigger] from.drop_last()[i],
            ),
        forall|i: int, k: int|
            0 <= i < other.len() && 0 <= k < merged.len() + 1 ==> !record_less(
                #[trigger] merged.push(record)[k],
                #[trigger] other[i],
            ),
{
    let grown = merged.push(record);
    assert forall|i: int, j: int| 0 <= i < j < from.len() - 1 implies !record_less(
        #[trigger] from.drop_last()[j],
        #[trigger] from.drop_last()[i],
    ) by {
        assert(!record_less(from[j], from[i]));
    }
    assert forall|i: int, j: int| 0 <= i < j < grown.len() implies !record_less(
        #[trigger] grown[i],
        #[trigger] grown[j],
    ) by {
        if j == merged.len() {
            assert(!record_less(merged[i], from[from.len() - 1]));
        } else {
            assert(!record_less(merged[i], merged[j]));
        }
    }
    assert forall|i: int, k: int| 0 <= i < from.len() - 1 && 0 <= k < grown.len() implies
        !record_less(#[trigger] grown[k], #[trigger] from.drop_last()[i]) by {
        if k == merged.len() {
            assert(!record_less(from[from.len() - 1], from[i]));
        } else {
            assert(!record_less(merged[k], from[i]));
        }
    }
    assert forall|i: int, k: int| 0 <= i < other.len() && 0 <= k < grown.len() implies
        !record_less(#[trigger] grown[k], #[trigger] other[i]) by {
        if k == merged.len() {
            if i < other.len() - 1 {
                assert(!record_less(other[other.len() - 1], other[i]));
                lemma_record_order(other[i], other[other.len() - 1], record);
            }
        } else {
            assert(!record_less(merged[k], other[i]));
        }
    }
}

/// Turns a falling list around.
fn turn_around(records: Vec<RunRecord>) -> (turned: Vec<RunRecord>)
    requires
        records_falling(record_views(records@)),
    ensures
        records_ordered(record_views(turned@)),
        record_views(turned@).to_multiset() == record_views(records@).to_multiset(),
        turned@.len() == records@.len(),
{
    broadcast use {vstd::multiset::group_multiset_axioms, vstd::seq_lib::group_to_multiset_ensures};

    let ghost start = record_views(records@);
    let mut records: Vec<RunRecord> = records;
    let mut turned: Vec<RunRecord> = Vec::new();
    proof {
        assert(record_views(turned@) =~= Seq::<RecordView>::empty());
        assert(start.to_multiset() =~= record_views(records@).to_multiset().add(
            record_views(turned@).to_multiset(),
        ));
    }
    while records.len() > 0
        invariant
            records_falling(start),
            records@.len() + turned@.len() == start.len(),
            record_views(records@) == start.take(records@.len() as int),
            forall|k: int|
                0 <= k < turned@.len() ==> (#[trigger] record_views(turned@)[k])
                    == start[start.len() - 1 - k],
            start.to_multiset() == record_views(records@).to_multiset().add(
                record_views(turned@).to_multiset(),
            ),
        decreases records@.len(),
    {
        let ghost before = record_views(records@);
        let record: RunRecord = match records.pop() {
            Some(record) => record,
            None => return turned,
        };
        proof {
            assert(record_views(records@) =~= before.drop_last());
            assert(before =~= before.drop_last().push(record@));
            assert(record_views(records@) =~= start.take(records@.len() as int));
            lemma_views_push(turned@, record);
            lemma_last_off(before);
            lemma_push_on(record_views(turned@), record@);
        }
        let ghost previous = record_views(turned@);
        turned.push(record);
        proof {
            assert(record_views(turned@) == previous.push(record@));
            assert forall|k: int| 0 <= k < turned@.len() implies (#[trigger] record_views(
                turned@,
            )[k]) == start[start.len() - 1 - k] by {
                if k < previous.len() {
                    assert(record_views(turned@)[k] == previous[k]);
                }
            }
            assert(start.to_multiset() =~= record_views(records@).to_multiset().add(
                record_views(turned@).to_multiset(),
            ));
        }
    }
    proof {
        let all = record_views(turned@);
        assert(record_views(records@) =~= Seq::<RecordView>::empty());
        assert(start.to_multiset() =~= all.to_multiset());
        assert forall|i: int, j: int| 0 <= i < j < all.len() implies !record_less(
            #[trigger] all[j],
            #[trigger] all[i],
        ) by {
            assert(!record_less(start[start.len() - 1 - j], start[start.len() - 1 - i]));
        }
    }
    turned
}

/// Puts records in order.
pub fn sort_records(records: Vec<RunRecord>) -> (sorted: Vec<RunRecord>)
    ensures
        sorted_copy(record_views(sorted@), record_views(records@)),
        sorted@.len() == records@.len(),
    decreases records@.len(),
{
    broadcast use {vstd::multiset::group_multiset_axioms, vstd::seq_lib::group_to_multiset_ensures};

    let length: usize = records.len();
    if length < 2 {
        return records;
    }
    let ghost all = record_views(records@);
    let mut left: Vec<RunRecord> = records;
    let right: Vec<RunRecord> = left.split_off(length / 2);
    proof {
        assert(all =~= record_views(left@) + record_views(right@));
        vstd::seq_lib::lemma_multiset_commutative(record_views(left@), record_views(right@));
    }
    let left: Vec<RunRecord> = sort_records(left);
    let right: Vec<RunRecord> = sort_records(right);
    turn_around(merge_falling(left, right))
}

/// Records in order are in order of their keys.
pub proof fn lemma_ordered_keys(records: Seq<RecordView>)
    requires
        records_ordered(records),
    ensures
        keys_ordered(records),
{
    assert forall|i: int, j: int| 0 <= i < j < records.len() implies !lex_less(
        (#[trigger] records[j]).key,
        (#[trigger] records[i]).key,
    ) by {
        assert(!record_less(records[j], records[i]));
    }
}

impl StagedRun {
    /// Puts records in order. No records make no run.
    pub fn collect(records: Vec<RunRecord>) -> (run: Option<Self>)
        ensures
            run is None <==> records@.len() == 0,
            run matches Some(run) ==> sorted_copy(run@, record_views(records@)),
    {
        if records.len() == 0 {
            return None;
        }
        let sorted: Vec<RunRecord> = sort_records(records);
        proof {
            lemma_ordered_keys(record_views(sorted@));
        }
        Some(StagedRun { records: sorted })
    }
}

} // verus!
